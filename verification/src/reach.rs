//! Reachability along carved passages.
//!
//! A carved maze is summarized by a set of directed index pairs: `(a, b)` is
//! present when the passage from cell `a` to cell `b` is open. The set is
//! kept symmetric, so reachability along it is reflexive, transitive and
//! symmetric; these lemmas let the generator conclude that every pair of
//! cells of a finished maze is joined by a path.

use vstd::prelude::*;

verus! {

/// The step from entry `k` of `p` to entry `k + 1` runs along an edge.
pub open spec fn path_edge(p: Seq<int>, edges: Set<(int, int)>, k: int) -> bool {
    edges.contains((p[k], p[k + 1]))
}

/// `p` is a walk along `edges`: consecutive entries are joined by an edge.
pub open spec fn is_path(p: Seq<int>, edges: Set<(int, int)>) -> bool {
    forall|k: int| 0 <= k && k + 1 < p.len() ==> #[trigger] path_edge(p, edges, k)
}

/// Cell `b` can be reached from cell `a` along `edges`.
pub open spec fn reached(edges: Set<(int, int)>, a: int, b: int) -> bool {
    exists|p: Seq<int>|
        p.len() >= 1 && p.first() == a && p.last() == b && #[trigger] is_path(p, edges)
}

/// Every edge is present in both directions.
pub open spec fn symmetric(edges: Set<(int, int)>) -> bool {
    forall|x: int, y: int| #[trigger] edges.contains((x, y)) ==> edges.contains((y, x))
}

/// Reachability is reflexive.
pub proof fn lemma_reached_refl(edges: Set<(int, int)>, a: int)
    ensures
        reached(edges, a, a),
{
    let p = seq![a];
    assert(p.len() >= 1 && p.first() == a && p.last() == a && is_path(p, edges));
}

/// Reachability survives the growth of the edge set.
pub proof fn lemma_reached_mono(e1: Set<(int, int)>, e2: Set<(int, int)>, a: int, b: int)
    requires
        reached(e1, a, b),
        e1.subset_of(e2),
    ensures
        reached(e2, a, b),
{
    let p = choose|p: Seq<int>|
        p.len() >= 1 && p.first() == a && p.last() == b && #[trigger] is_path(p, e1);
    assert forall|k: int| 0 <= k && k + 1 < p.len() implies #[trigger] path_edge(p, e2, k) by {
        assert(path_edge(p, e1, k));
    }
    assert(is_path(p, e2));
}

/// A reachable cell's out-edge extends reachability by one step.
pub proof fn lemma_reached_step(edges: Set<(int, int)>, a: int, b: int, c: int)
    requires
        reached(edges, a, b),
        edges.contains((b, c)),
    ensures
        reached(edges, a, c),
{
    let p = choose|p: Seq<int>|
        p.len() >= 1 && p.first() == a && p.last() == b && #[trigger] is_path(p, edges);
    let q = p.push(c);
    assert forall|k: int| 0 <= k && k + 1 < q.len() implies #[trigger] path_edge(q, edges, k) by {
        if k + 1 < p.len() {
            assert(path_edge(p, edges, k));
            assert(q[k] == p[k] && q[k + 1] == p[k + 1]);
        } else {
            assert(q[k] == b && q[k + 1] == c);
        }
    }
    assert(q.len() >= 1 && q.first() == a && q.last() == c && is_path(q, edges));
}

/// Reachability is transitive.
pub proof fn lemma_reached_trans(edges: Set<(int, int)>, a: int, b: int, c: int)
    requires
        reached(edges, a, b),
        reached(edges, b, c),
    ensures
        reached(edges, a, c),
{
    let q = choose|q: Seq<int>|
        q.len() >= 1 && q.first() == b && q.last() == c && #[trigger] is_path(q, edges);
    lemma_walk_extends(edges, a, q);
}

/// Appending a walk that starts at a reachable cell keeps its end reachable.
proof fn lemma_walk_extends(edges: Set<(int, int)>, a: int, q: Seq<int>)
    requires
        q.len() >= 1,
        reached(edges, a, q.first()),
        is_path(q, edges),
    ensures
        reached(edges, a, q.last()),
    decreases q.len(),
{
    if q.len() == 1 {
    } else {
        let r = q.drop_first();
        assert forall|k: int| 0 <= k && k + 1 < r.len() implies #[trigger] path_edge(r, edges, k) by {
            let j = k + 1;
            assert(path_edge(q, edges, j));
            assert(r[k] == q[j] && r[k + 1] == q[j + 1]);
        }
        assert(path_edge(q, edges, 0));
        lemma_reached_step(edges, a, q.first(), q[1]);
        assert(r.first() == q[1] && r.last() == q.last());
        lemma_walk_extends(edges, a, r);
    }
}

/// Over a symmetric edge set, reachability is symmetric.
pub proof fn lemma_reached_sym(edges: Set<(int, int)>, a: int, b: int)
    requires
        symmetric(edges),
        reached(edges, a, b),
    ensures
        reached(edges, b, a),
{
    let p = choose|p: Seq<int>|
        p.len() >= 1 && p.first() == a && p.last() == b && #[trigger] is_path(p, edges);
    lemma_path_reversed(edges, p);
}

/// The reverse of a walk is itself a walk when the edge set is symmetric.
proof fn lemma_path_reversed(edges: Set<(int, int)>, p: Seq<int>)
    requires
        symmetric(edges),
        p.len() >= 1,
        is_path(p, edges),
    ensures
        reached(edges, p.last(), p.first()),
    decreases p.len(),
{
    if p.len() == 1 {
        lemma_reached_refl(edges, p.first());
    } else {
        let r = p.drop_first();
        assert forall|k: int| 0 <= k && k + 1 < r.len() implies #[trigger] path_edge(r, edges, k) by {
            let j = k + 1;
            assert(path_edge(p, edges, j));
            assert(r[k] == p[j] && r[k + 1] == p[j + 1]);
        }
        assert(r.first() == p[1] && r.last() == p.last());
        lemma_path_reversed(edges, r);
        assert(path_edge(p, edges, 0));
        assert(edges.contains((p[1], p[0])));
        lemma_reached_step(edges, p.last(), p[1], p[0]);
    }
}

} // verus!
