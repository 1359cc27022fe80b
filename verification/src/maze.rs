//! The randomized traversal engine: a depth-first walk that carves a
//! perfect maze.
//!
//! The walk keeps a visited flag per cell, a backtrack stack, and a current
//! cell. At each step it either carves a passage to a random unvisited
//! neighbour of the current cell, or, at a dead end, pops the stack and
//! makes the popped index current. Ghost state tracks the set of carved
//! passages and proves that the finished grid is a spanning tree: every
//! cell reachable from every other along exactly `columns * rows - 1`
//! carved passages.

use vstd::prelude::*;
use vstd::set_lib::lemma_len_subset;
use vstd::set_lib::lemma_int_range;
use vstd::set_lib::set_int_range;

use crate::grid::Direction;
use crate::grid::Neighbour;
use crate::grid::get_neighbours;
use crate::grid::lemma_cell_coords;
use crate::grid::lemma_nbr_valid;
use crate::grid::lemma_neighbours_valid;
use crate::grid::nbr_exists;
use crate::grid::nbr_index;
use crate::grid::spec_neighbours;
use crate::reach::lemma_reached_mono;
use crate::reach::lemma_reached_refl;
use crate::reach::lemma_reached_step;
use crate::reach::lemma_reached_sym;
use crate::reach::lemma_reached_trans;
use crate::reach::reached;
use crate::reach::symmetric;
use crate::rng::MazeRng;
use crate::rng::chosen;
use crate::rng::picked;

verus! {

/// The fully walled cell value: all four wall bits set.
pub open spec fn full_cell() -> usize {
    15
}

/// The wall of cell value `cell` in direction `d` stands.
pub open spec fn has_wall(cell: usize, d: Direction) -> bool {
    cell & d.spec_bit() != 0
}

/// Every boundary wall stands: a missing neighbour means a standing wall,
/// so no cleared bit ever points off the grid.
pub open spec fn boundary_walled(g: Seq<usize>, c: int, r: int) -> bool {
    forall|i: int, d: Direction|
        0 <= i < c * r && !#[trigger] nbr_exists(i, d, c, r) ==> has_wall(g[i], d)
}

/// Wall bits come in matched pairs: the passage from `i` toward `d` is open
/// exactly when the passage from the neighbour back toward `i` is open.
pub open spec fn walls_paired(g: Seq<usize>, c: int, r: int) -> bool {
    forall|i: int, d: Direction|
        0 <= i < c * r && #[trigger] nbr_exists(i, d, c, r) ==> (has_wall(g[i], d) <==> has_wall(
            g[nbr_index(i, d, c)],
            d.spec_opposite(),
        ))
}

/// The open passages of `g`: the set of directed index pairs `(a, b)` such
/// that `b` neighbours `a` and the wall of `a` toward `b` is down.
pub open spec fn grid_edges(g: Seq<usize>, c: int, r: int) -> Set<(int, int)> {
    Set::new(
        |e: (int, int)|
            {
                &&& 0 <= e.0 < c * r
                &&& exists|d: Direction|
                    #[trigger] nbr_exists(e.0, d, c, r) && e.1 == nbr_index(e.0, d, c)
                        && !has_wall(g[e.0], d)
            },
    )
}

/// `g` is a perfect maze on a `c x r` grid: sized to the grid, walls in
/// matched pairs, boundary closed, and the open passages form a spanning
/// tree — they join every pair of cells and number exactly `2 * (c*r - 1)`
/// directed pairs, that is `c*r - 1` undirected passages.
pub open spec fn is_perfect_maze(g: Seq<usize>, c: int, r: int) -> bool {
    &&& g.len() == c * r
    &&& boundary_walled(g, c, r)
    &&& walls_paired(g, c, r)
    &&& grid_edges(g, c, r).finite()
    &&& grid_edges(g, c, r).len() == 2 * (c * r - 1)
    &&& forall|a: int, b: int|
        0 <= a < c * r && 0 <= b < c * r ==> #[trigger] reached(grid_edges(g, c, r), a, b)
}

/// Clearing one wall bit leaves every other wall bit of the cell as it was.
proof fn lemma_clear_bit(v: usize, d: Direction)
    ensures
        !has_wall(v & !d.spec_bit(), d),
        forall|d2: Direction|
            d2 != d ==> #[trigger] has_wall(v & !d.spec_bit(), d2) == has_wall(v, d2),
{
    let b = d.spec_bit();
    assert(b == 1 || b == 2 || b == 4 || b == 8);
    assert((v & !b) & b == 0) by (bit_vector)
        requires
            b == 1 || b == 2 || b == 4 || b == 8,
    ;
    assert forall|d2: Direction| d2 != d implies #[trigger] has_wall(v & !b, d2) == has_wall(
        v,
        d2,
    ) by {
        let b2 = d2.spec_bit();
        assert(b2 != b);
        assert((v & !b) & b2 == v & b2) by (bit_vector)
            requires
                (b == 1 || b == 2 || b == 4 || b == 8) && (b2 == 1 || b2 == 2 || b2 == 4 || b2
                    == 8) && b2 != b,
        ;
    }
}

/// The fully walled cell has all four walls standing.
proof fn lemma_full_cell_walled()
    ensures
        forall|d: Direction| #[trigger] has_wall(full_cell(), d),
{
    assert(15usize & 1usize != 0) by (bit_vector);
    assert(15usize & 2usize != 0) by (bit_vector);
    assert(15usize & 4usize != 0) by (bit_vector);
    assert(15usize & 8usize != 0) by (bit_vector);
    assert forall|d: Direction| #[trigger] has_wall(full_cell(), d) by {
        match d {
            Direction::Up => {},
            Direction::Right => {},
            Direction::Down => {},
            Direction::Left => {},
        }
    }
}

/// Two different directions out of one cell reach two different cells.
proof fn lemma_nbr_distinct(i: int, d1: Direction, d2: Direction, c: int, r: int)
    requires
        c >= 1,
        r >= 1,
        0 <= i < c * r,
        d1 != d2,
        nbr_exists(i, d1, c, r),
        nbr_exists(i, d2, c, r),
    ensures
        nbr_index(i, d1, c) != nbr_index(i, d2, c),
{
    lemma_cell_coords(i, c, r);
    if c == 1 {
        assert(i % 1 == 0);
    }
}

/// A finite set of `n` cell indices below `n` holds every index below `n`.
proof fn lemma_full_set(s: Set<int>, n: int)
    requires
        0 <= n,
        s.finite(),
        s.len() == n,
        forall|x: int| #[trigger] s.contains(x) ==> 0 <= x < n,
    ensures
        forall|x: int| 0 <= x < n ==> s.contains(x),
{
    lemma_int_range(0, n);
    assert forall|x: int| 0 <= x < n implies s.contains(x) by {
        if !s.contains(x) {
            let r2 = set_int_range(0, n).remove(x);
            assert(s.subset_of(r2));
            lemma_len_subset(s, r2);
            assert(r2.len() == n - 1);
        }
    }
}

/// A finite set of fewer than `n` cell indices leaves some index below `n`
/// uncovered.
proof fn lemma_nonfull_set(s: Set<int>, n: int)
    requires
        0 <= n,
        s.finite(),
        s.len() < n,
    ensures
        exists|x: int| 0 <= x < n && !s.contains(x),
{
    lemma_int_range(0, n);
    if forall|x: int| 0 <= x < n ==> s.contains(x) {
        assert(set_int_range(0, n).subset_of(s));
        lemma_len_subset(set_int_range(0, n), s);
    }
}

/// Cell `x` is a visited frontier cell: it has an unvisited neighbour.
spec fn frontier_at(vis: Seq<bool>, x: int, c: int, r: int) -> bool {
    vis[x] && exists|d: Direction|
        #[trigger] nbr_exists(x, d, c, r) && !vis[nbr_index(x, d, c)]
}

/// While both visited and unvisited cells exist, some visited cell has an
/// unvisited neighbour: walking from an unvisited cell toward a visited one
/// must cross the boundary between the two regions.
proof fn lemma_boundary_pair(vis: Seq<bool>, c: int, r: int, u: int, v: int)
    requires
        c >= 1,
        r >= 1,
        vis.len() == c * r,
        0 <= u < c * r,
        0 <= v < c * r,
        !vis[u],
        vis[v],
    ensures
        exists|x: int| 0 <= x < c * r && #[trigger] frontier_at(vis, x, c, r),
    decreases
            (if u / c <= v / c {
                v / c - u / c
            } else {
                u / c - v / c
            }) + (if u % c <= v % c {
                v % c - u % c
            } else {
                u % c - v % c
            }),
{
    lemma_cell_coords(u, c, r);
    lemma_cell_coords(v, c, r);
    let uq = u / c;
    let um = u % c;
    let vq = v / c;
    let vm = v % c;
    if um == vm && uq == vq {
        assert(u == v);
    } else {
        let d = if um < vm {
            Direction::Right
        } else if um > vm {
            Direction::Left
        } else if uq < vq {
            Direction::Down
        } else {
            Direction::Up
        };
        if d == Direction::Down {
            assert(u < c * r - c) by (nonlinear_arith)
                requires
                    u == c * uq + um,
                    0 <= um < c,
                    uq <= r - 2,
                    c >= 1,
            ;
        }
        if d == Direction::Up {
            assert(u >= c) by (nonlinear_arith)
                requires
                    u == c * uq + um,
                    0 <= um,
                    uq >= 1,
                    c >= 1,
            ;
        }
        assert(nbr_exists(u, d, c, r));
        lemma_nbr_valid(u, d, c, r);
        let w = nbr_index(u, d, c);
        if vis[w] {
            assert(nbr_exists(w, d.spec_opposite(), c, r));
            assert(!vis[nbr_index(w, d.spec_opposite(), c)]);
            assert(frontier_at(vis, w, c, r));
        } else {
            match d {
                Direction::Right => {
                    assert(w == uq * c + (um + 1)) by (nonlinear_arith)
                        requires
                            w == u + 1,
                            u == c * uq + um,
                    ;
                    vstd::arithmetic::div_mod::lemma_fundamental_div_mod_converse(
                        w,
                        c,
                        uq,
                        um + 1,
                    );
                },
                Direction::Left => {
                    assert(w == uq * c + (um - 1)) by (nonlinear_arith)
                        requires
                            w == u - 1,
                            u == c * uq + um,
                    ;
                    vstd::arithmetic::div_mod::lemma_fundamental_div_mod_converse(
                        w,
                        c,
                        uq,
                        um - 1,
                    );
                },
                Direction::Down => {
                    assert(w == (uq + 1) * c + um) by (nonlinear_arith)
                        requires
                            w == u + c,
                            u == c * uq + um,
                    ;
                    vstd::arithmetic::div_mod::lemma_fundamental_div_mod_converse(
                        w,
                        c,
                        uq + 1,
                        um,
                    );
                },
                Direction::Up => {
                    assert(w == (uq - 1) * c + um) by (nonlinear_arith)
                        requires
                            w == u - c,
                            u == c * uq + um,
                    ;
                    vstd::arithmetic::div_mod::lemma_fundamental_div_mod_converse(
                        w,
                        c,
                        uq - 1,
                        um,
                    );
                },
            }
            lemma_boundary_pair(vis, c, r, w, v);
        }
    }
}

/// Find a visited cell with an unvisited neighbour, scanning cell indices
/// upward. Both regions must be non-empty; the boundary between them then
/// guarantees the scan succeeds.
#[verifier::loop_isolation(false)]
fn find_frontier(visited: &Vec<bool>, columns: usize, rows: usize) -> (res: (usize, Neighbour))
    requires
        columns >= 1,
        rows >= 1,
        columns * rows <= usize::MAX,
        visited@.len() == columns * rows,
        exists|t: int| 0 <= t < visited@.len() && visited@[t],
        exists|t: int| 0 <= t < visited@.len() && !visited@[t],
    ensures
        (res.0 as int) < (columns as int) * (rows as int),
        visited@[res.0 as int],
        nbr_exists(res.0 as int, res.1.0, columns as int, rows as int),
        res.1.1 as int == nbr_index(res.0 as int, res.1.0, columns as int),
        (res.1.1 as int) < (columns as int) * (rows as int),
        !visited@[res.1.1 as int],
        (res.0 as int, res.1) == first_frontier(visited@, columns, rows, 0),
{
    let ghost c = columns as int;
    let ghost r = rows as int;
    assert(columns * rows >= columns) by (nonlinear_arith)
        requires
            rows >= 1,
    ;
    let size = columns * rows;
    let mut j: usize = 0;
    while j < size
        invariant
            j <= size,
            forall|t: int| 0 <= t < j ==> !frontier_at(visited@, t, c, r),
            first_frontier(visited@, columns, rows, 0) == first_frontier(
                visited@,
                columns,
                rows,
                j as int,
            ),
        decreases size - j,
    {
        if visited[j] {
            proof {
                if nbr_exists(j as int, Direction::Up, c, r) {
                    lemma_nbr_valid(j as int, Direction::Up, c, r);
                }
                if nbr_exists(j as int, Direction::Right, c, r) {
                    lemma_nbr_valid(j as int, Direction::Right, c, r);
                }
                if nbr_exists(j as int, Direction::Down, c, r) {
                    lemma_nbr_valid(j as int, Direction::Down, c, r);
                }
                if nbr_exists(j as int, Direction::Left, c, r) {
                    lemma_nbr_valid(j as int, Direction::Left, c, r);
                }
            }
            if j >= columns && !visited[j - columns] {
                return (j, Neighbour(Direction::Up, j - columns));
            }
            if j % columns != columns - 1 && !visited[j + 1] {
                return (j, Neighbour(Direction::Right, j + 1));
            }
            if j < size - columns && !visited[j + columns] {
                return (j, Neighbour(Direction::Down, j + columns));
            }
            if j % columns > 0 && !visited[j - 1] {
                return (j, Neighbour(Direction::Left, j - 1));
            }
            proof {
                assert forall|d: Direction|
                    nbr_exists(j as int, d, c, r) implies visited@[nbr_index(
                    j as int,
                    d,
                    c,
                )] by {
                    match d {
                        Direction::Up => {},
                        Direction::Right => {},
                        Direction::Down => {},
                        Direction::Left => {},
                    }
                }
            }
        }
        proof {
            assert(!frontier_at(visited@, j as int, c, r));
        }
        j += 1;
    }
    proof {
        let u = choose|t: int| 0 <= t < visited@.len() && !visited@[t];
        let v = choose|t: int| 0 <= t < visited@.len() && visited@[t];
        lemma_boundary_pair(visited@, c, r, u, v);
        let x = choose|x: int| 0 <= x < c * r && #[trigger] frontier_at(visited@, x, c, r);
        assert(!frontier_at(visited@, x, c, r));
    }
    vstd::pervasive::unreached()
}

/// One configuration of the walk: the grid carved so far, the visited
/// flags, the backtrack stack, the current cell, the generator state, and
/// the number of visited cells.
#[verifier::ext_equal]
pub struct WalkState {
    pub grid: Seq<usize>,
    pub vis: Seq<bool>,
    pub stack: Seq<usize>,
    pub index: usize,
    pub state: int,
    pub count: int,
}

/// Bundle the walk's running data into one configuration.
pub open spec fn cfg_of(
    grid: Seq<usize>,
    vis: Seq<bool>,
    stack: Seq<usize>,
    index: usize,
    state: int,
    count: int,
) -> WalkState {
    WalkState { grid, vis, stack, index, state, count }
}

/// The configuration the walk starts from: a fully walled grid with only
/// the start cell visited and stacked.
pub open spec fn init_state(columns: usize, rows: usize, start: usize, st: int) -> WalkState {
    let size = (columns as int) * (rows as int);
    WalkState {
        grid: Seq::new(size as nat, |i: int| full_cell()),
        vis: Seq::new(size as nat, |i: int| i == start),
        stack: seq![start],
        index: start,
        state: st,
        count: 1,
    }
}

/// The entries of `s` whose target cell is not yet visited, in order.
pub open spec fn filter_unvisited(s: Seq<Neighbour>, vis: Seq<bool>) -> Seq<Neighbour>
    decreases s.len(),
{
    if s.len() == 0 {
        Seq::empty()
    } else {
        let rest = filter_unvisited(s.drop_last(), vis);
        if !vis[s.last().1 as int] {
            rest.push(s.last())
        } else {
            rest
        }
    }
}

/// The first direction out of cell `j`, in the order Up, Right, Down,
/// Left, that leads to an unvisited cell; `None` when there is none.
pub open spec fn frontier_dir(vis: Seq<bool>, j: int, columns: usize, rows: usize) -> Option<
    Neighbour,
> {
    let c = columns as int;
    let size = c * (rows as int);
    if j >= c && !vis[j - c] {
        Some(Neighbour(Direction::Up, (j - c) as usize))
    } else if j % c != c - 1 && !vis[j + 1] {
        Some(Neighbour(Direction::Right, (j + 1) as usize))
    } else if j < size - c && !vis[j + c] {
        Some(Neighbour(Direction::Down, (j + c) as usize))
    } else if j % c > 0 && !vis[j - 1] {
        Some(Neighbour(Direction::Left, (j - 1) as usize))
    } else {
        None
    }
}

/// The first visited cell at or above position `j` with an unvisited
/// neighbour, and that neighbour.
pub open spec fn first_frontier(vis: Seq<bool>, columns: usize, rows: usize, j: int) -> (
    int,
    Neighbour,
)
    decreases (columns as int) * (rows as int) - j,
{
    if j < 0 || j >= (columns as int) * (rows as int) {
        (0, Neighbour(Direction::Up, 0))
    } else if vis[j] && frontier_dir(vis, j, columns, rows) is Some {
        (j, frontier_dir(vis, j, columns, rows)->0)
    } else {
        first_frontier(vis, columns, rows, j + 1)
    }
}

/// Carve the passage from cell `from` toward its neighbour `n`, mark `n`
/// visited and stacked, and make it current.
pub open spec fn carve_cfg(cfg: WalkState, from: int, n: Neighbour, st: int) -> WalkState {
    let g1 = cfg.grid.update(from, cfg.grid[from] & !n.0.spec_bit());
    let g2 = g1.update(n.1 as int, g1[n.1 as int] & !n.0.spec_opposite().spec_bit());
    WalkState {
        grid: g2,
        vis: cfg.vis.update(n.1 as int, true),
        stack: cfg.stack.push(n.1),
        index: n.1,
        state: st,
        count: cfg.count + 1,
    }
}

/// One iteration of the walk: dig toward a random unvisited neighbour,
/// or pop the stack at a dead end, or, were the stack ever empty early,
/// resume digging from the first frontier cell.
pub open spec fn walk_step(cfg: WalkState, columns: usize, rows: usize) -> WalkState {
    let ns = spec_neighbours(cfg.index, columns, rows);
    let unv = filter_unvisited(ns, cfg.vis);
    if unv.len() > 0 {
        let pick = chosen(cfg.state, unv.len() as usize);
        carve_cfg(cfg, cfg.index as int, unv[pick.0 as int], pick.1)
    } else if cfg.stack.len() > 0 {
        WalkState {
            grid: cfg.grid,
            vis: cfg.vis,
            stack: cfg.stack.drop_last(),
            index: cfg.stack.last(),
            state: cfg.state,
            count: cfg.count,
        }
    } else {
        let fr = first_frontier(cfg.vis, columns, rows, 0);
        carve_cfg(cfg, fr.0, fr.1, cfg.state)
    }
}

/// The grid the walk leaves behind, stepping until every cell is visited
/// or the fuel runs out.
pub open spec fn walk_run(cfg: WalkState, columns: usize, rows: usize, fuel: nat) -> Seq<usize>
    decreases fuel,
{
    if cfg.count >= (columns as int) * (rows as int) || fuel == 0 {
        cfg.grid
    } else {
        walk_run(walk_step(cfg, columns, rows), columns, rows, (fuel - 1) as nat)
    }
}

/// The maze that generation produces from the dimensions and the starting
/// generator state alone. Identical dimensions and state always give the
/// identical grid.
pub open spec fn spec_gen(columns: usize, rows: usize, s0: int) -> Seq<usize> {
    let size = (columns as int) * (rows as int);
    let pick = picked(s0, (columns * rows) as usize);
    walk_run(init_state(columns, rows, pick.0, pick.1), columns, rows, (2 * size) as nat)
}

/// The carved passages lie between visited cells and run along the grid.
spec fn edges_wf(ed: Set<(int, int)>, vset: Set<int>, c: int, r: int) -> bool {
    forall|a: int, b: int|
        #[trigger] ed.contains((a, b)) ==> {
            &&& 0 <= a < c * r
            &&& vset.contains(a)
            &&& vset.contains(b)
            &&& exists|d: Direction| #[trigger] nbr_exists(a, d, c, r) && b == nbr_index(a, d, c)
        }
}

/// A wall bit is down exactly when the matching passage has been carved.
spec fn walls_match(g: Seq<usize>, ed: Set<(int, int)>, c: int, r: int) -> bool {
    forall|i: int, d: Direction|
        0 <= i < c * r && #[trigger] nbr_exists(i, d, c, r) ==> (!has_wall(g[i], d)
            <==> ed.contains((i, nbr_index(i, d, c))))
}

/// Every visited cell is joined to the start cell by carved passages.
spec fn all_reached(ed: Set<(int, int)>, vset: Set<int>, start: int) -> bool {
    forall|t: int| #[trigger] vset.contains(t) ==> reached(ed, start, t)
}

/// When every cell is visited and the bookkeeping invariants hold, the
/// grid is a perfect maze: its open passages are exactly the carved ones,
/// which join every pair of cells.
proof fn lemma_walk_done(
    g: Seq<usize>,
    ed: Set<(int, int)>,
    vset: Set<int>,
    start: int,
    c: int,
    r: int,
)
    requires
        c >= 1,
        r >= 1,
        g.len() == c * r,
        vset.finite(),
        vset.len() == c * r,
        forall|t: int| #[trigger] vset.contains(t) ==> 0 <= t < c * r,
        ed.finite(),
        ed.len() == 2 * (c * r - 1),
        symmetric(ed),
        edges_wf(ed, vset, c, r),
        walls_match(g, ed, c, r),
        boundary_walled(g, c, r),
        vset.contains(start),
        all_reached(ed, vset, start),
    ensures
        is_perfect_maze(g, c, r),
{
    lemma_full_set(vset, c * r);
    let ge = grid_edges(g, c, r);
    assert forall|x: int, y: int| #[trigger] ge.contains((x, y)) implies ed.contains((x, y)) by {
        let dd = choose|dd: Direction|
            #[trigger] nbr_exists(x, dd, c, r) && y == nbr_index(x, dd, c) && !has_wall(
                g[x],
                dd,
            );
        assert(nbr_exists(x, dd, c, r));
    }
    assert forall|x: int, y: int| #[trigger] ed.contains((x, y)) implies ge.contains((x, y)) by {
        assert(0 <= x < c * r);
        assert(exists|dd: Direction|
            #[trigger] nbr_exists(x, dd, c, r) && y == nbr_index(x, dd, c));
        let dd = choose|dd: Direction|
            #[trigger] nbr_exists(x, dd, c, r) && y == nbr_index(x, dd, c);
        assert(nbr_exists(x, dd, c, r) && y == nbr_index(x, dd, c));
        assert(ed.contains((x, nbr_index(x, dd, c))));
        assert(!has_wall(g[x], dd));
        assert(nbr_exists(x, dd, c, r) && y == nbr_index(x, dd, c) && !has_wall(g[x], dd));
    }
    assert forall|e: (int, int)| #[trigger] ge.contains(e) == ed.contains(e) by {
        assert(e == (e.0, e.1));
        if ge.contains((e.0, e.1)) {
            assert(ed.contains((e.0, e.1)));
        }
        if ed.contains((e.0, e.1)) {
            assert(ge.contains((e.0, e.1)));
        }
    }
    assert(ge =~= ed);
    assert forall|x: int, y: int| 0 <= x < c * r && 0 <= y < c * r implies #[trigger] reached(
        ge,
        x,
        y,
    ) by {
        assert(vset.contains(x) && vset.contains(y));
        assert(reached(ed, start, x) && reached(ed, start, y));
        lemma_reached_sym(ed, start, x);
        lemma_reached_trans(ed, x, start, y);
    }
    assert forall|i2: int, d2: Direction|
        0 <= i2 < c * r && #[trigger] nbr_exists(i2, d2, c, r) implies (has_wall(g[i2], d2)
        <==> has_wall(g[nbr_index(i2, d2, c)], d2.spec_opposite())) by {
        lemma_nbr_valid(i2, d2, c, r);
        let y = nbr_index(i2, d2, c);
        assert(!has_wall(g[i2], d2) <==> ed.contains((i2, y)));
        assert(!has_wall(g[y], d2.spec_opposite()) <==> ed.contains((y, i2)));
        assert(ed.contains((i2, y)) <==> ed.contains((y, i2)));
    }
}

/// The randomized depth-first walk. Starting from a fully walled grid, it
/// repeatedly carves a passage to a random unvisited neighbour of the
/// current cell, or pops the backtrack stack at a dead end and makes the
/// popped index current, until every cell is visited. Should the stack run
/// empty while cells remain, the walk resumes from a visited frontier cell,
/// so the spanning-tree invariants hold in every case and the result is a
/// perfect maze.
#[verifier::loop_isolation(false)]
#[verifier::rlimit(60)]
fn walk(grid: &mut Vec<usize>, columns: usize, rows: usize, rng: &mut MazeRng)
    requires
        columns >= 1,
        rows >= 1,
        (columns as int) * (rows as int) <= usize::MAX,
        old(grid)@.len() == columns * rows,
        forall|t: int| 0 <= t < old(grid)@.len() ==> old(grid)@[t] == full_cell(),
    ensures
        is_perfect_maze(final(grid)@, columns as int, rows as int),
        final(grid)@ == spec_gen(columns, rows, old(rng)@),
{
    let ghost c = columns as int;
    let ghost r = rows as int;
    proof {
        lemma_full_cell_walled();
        assert(c * r >= 1) by (nonlinear_arith)
            requires
                c >= 1,
                r >= 1,
        ;
    }
    let size = columns * rows;
    let mut index = rng.pick_below(size);
    let mut stack: Vec<usize> = Vec::new();
    let mut visited: Vec<bool> = Vec::new();
    let mut k0: usize = 0;
    while k0 < size
        invariant
            visited@.len() == k0,
            k0 <= size,
            forall|t: int| 0 <= t < k0 ==> !visited@[t],
        decreases size - k0,
    {
        visited.push(false);
        k0 += 1;
    }
    stack.push(index);
    visited[index] = true;
    let mut visited_count: usize = 1;
    let ghost start = index as int;
    let ghost mut vset: Set<int> = Set::<int>::empty().insert(index as int);
    let ghost mut edges: Set<(int, int)> = Set::<(int, int)>::empty();
    let ghost mut fuel: nat = (2 * (size as int)) as nat;
    proof {
        assert(Set::<int>::empty().len() == 0);
        vstd::set::axiom_set_insert_len(Set::<int>::empty(), index as int);
        assert(Set::<(int, int)>::empty().len() == 0);
        lemma_reached_refl(edges, start);
        assert((columns * rows) as usize == size);
        assert(grid@ =~= Seq::new(size as nat, |i: int| full_cell()));
        assert(visited@ =~= Seq::new(size as nat, |i: int| i == index));
        assert(stack@ =~= seq![index]);
        assert(cfg_of(grid@, visited@, stack@, index, rng@, visited_count as int)
            =~= init_state(columns, rows, index, rng@));
        assert(spec_gen(columns, rows, old(rng)@) == walk_run(
            init_state(columns, rows, index, rng@),
            columns,
            rows,
            fuel,
        ));
    }
    while visited_count < size
        invariant
            grid@.len() == size,
            visited@.len() == size,
            forall|t: int| 0 <= t < size ==> visited@[t] == vset.contains(t),
            vset.finite(),
            forall|t: int| #[trigger] vset.contains(t) ==> 0 <= t < size,
            vset.len() == visited_count,
            1 <= visited_count <= size,
            (index as int) < size,
            vset.contains(index as int),
            forall|k: int| 0 <= k < stack@.len() ==> vset.contains(#[trigger] stack@[k] as int),
            edges.finite(),
            edges.len() == 2 * (visited_count - 1),
            symmetric(edges),
            edges_wf(edges, vset, c, r),
            walls_match(grid@, edges, c, r),
            boundary_walled(grid@, c, r),
            vset.contains(start),
            all_reached(edges, vset, start),
            fuel >= 2 * (size - visited_count) + stack@.len(),
            walk_run(
                cfg_of(grid@, visited@, stack@, index, rng@, visited_count as int),
                columns,
                rows,
                fuel,
            ) == spec_gen(columns, rows, old(rng)@),
        decreases size - visited_count, stack@.len(),
    {
        let ghost cfg0 = cfg_of(grid@, visited@, stack@, index, rng@, visited_count as int);
        let ns = get_neighbours(index, columns, rows);
        proof {
            lemma_neighbours_valid(index, columns, rows);
        }
        let mut unv: Vec<Neighbour> = Vec::new();
        let mut k: usize = 0;
        while k < ns.len()
            invariant
                k <= ns@.len(),
                forall|t: int|
                    0 <= t < unv@.len() ==> {
                        let n = #[trigger] unv@[t];
                        &&& nbr_exists(index as int, n.0, c, r)
                        &&& n.1 as int == nbr_index(index as int, n.0, c)
                        &&& (n.1 as int) < c * r
                        &&& !vset.contains(n.1 as int)
                    },
                unv@ == filter_unvisited(ns@.take(k as int), visited@),
            decreases ns@.len() - k,
        {
            let n = ns[k];
            proof {
                assert(ns@[k as int] == spec_neighbours(index, columns, rows)[k as int]);
                assert(ns@.take(k as int + 1).drop_last() =~= ns@.take(k as int));
                assert(ns@.take(k as int + 1).last() == ns@[k as int]);
            }
            if !visited[n.1] {
                unv.push(n);
            }
            k += 1;
        }
        proof {
            assert(ns@.take(k as int) =~= ns@);
            assert(unv@ == filter_unvisited(
                spec_neighbours(cfg0.index, columns, rows),
                cfg0.vis,
            ));
        }
        let mut step: Option<Neighbour> = None;
        if unv.len() > 0 {
            let n = rng.choose_neighbour(&unv);
            step = Some(n);
        } else {
            match stack.pop() {
                Some(i2) => {
                    index = i2;
                },
                None => {
                    proof {
                        lemma_nonfull_set(vset, size as int);
                        let x = choose|x: int| 0 <= x < size && !vset.contains(x);
                        assert(!visited@[x]);
                        assert(visited@[index as int]);
                    }
                    let fr = find_frontier(&visited, columns, rows);
                    index = fr.0;
                    step = Some(fr.1);
                },
            }
        }
        match step {
            Some(n) => {
                let d = n.0;
                let t = n.1;
                proof {
                    lemma_nbr_valid(index as int, d, c, r);
                    assert(vset.contains(index as int) && !vset.contains(t as int));
                    assert(t != index);
                }
                let ghost g0 = grid@;
                let ghost a = index as int;
                let ghost b = t as int;
                let gi = grid[index];
                let bd = d.bit();
                grid[index] = gi & !bd;
                let gt = grid[t];
                let bo = d.opposite().bit();
                grid[t] = gt & !bo;
                stack.push(t);
                visited[t] = true;
                visited_count += 1;
                proof {
                    lemma_clear_bit(gi, d);
                    lemma_clear_bit(gt, d.spec_opposite());
                    let vs2 = vset.insert(b);
                    let e1 = edges.insert((a, b));
                    let e2 = e1.insert((b, a));
                    assert(grid@ == g0.update(a, (gi & !d.spec_bit()) as usize).update(
                        b,
                        (gt & !d.spec_opposite().spec_bit()) as usize,
                    ));
                    assert(grid@[a] == gi & !d.spec_bit());
                    assert(grid@[b] == gt & !d.spec_opposite().spec_bit());
                    assert(forall|i2: int|
                        0 <= i2 < c * r && i2 != a && i2 != b ==> grid@[i2] == g0[i2]);
                    // counts
                    assert(!edges.contains((a, b)));
                    assert(!e1.contains((b, a)));
                    vstd::set::axiom_set_insert_len(edges, (a, b));
                    vstd::set::axiom_set_insert_len(e1, (b, a));
                    vstd::set::axiom_set_insert_len(vset, b);
                    // the new passage runs both ways
                    assert forall|x: int, y: int| #[trigger] e2.contains((x, y)) implies e2.contains(
                        (y, x),
                    ) by {
                        if x == a && y == b {
                        } else if x == b && y == a {
                        } else {
                            assert(edges.contains((x, y)));
                            assert(edges.contains((y, x)));
                        }
                    }
                    // the new passage lies between visited cells on the grid
                    assert forall|x: int, y: int| #[trigger] e2.contains((x, y)) implies {
                        &&& 0 <= x < c * r
                        &&& vs2.contains(x)
                        &&& vs2.contains(y)
                        &&& exists|dd: Direction|
                            #[trigger] nbr_exists(x, dd, c, r) && y == nbr_index(x, dd, c)
                    } by {
                        if x == a && y == b {
                            assert(nbr_exists(a, d, c, r) && b == nbr_index(a, d, c));
                        } else if x == b && y == a {
                            assert(nbr_exists(b, d.spec_opposite(), c, r) && a == nbr_index(
                                b,
                                d.spec_opposite(),
                                c,
                            ));
                        } else {
                            assert(edges.contains((x, y)));
                        }
                    }
                    // wall bits still match the carved passages
                    assert forall|i2: int, d2: Direction|
                        0 <= i2 < c * r && #[trigger] nbr_exists(i2, d2, c, r) implies (!has_wall(
                        grid@[i2],
                        d2,
                    ) <==> e2.contains((i2, nbr_index(i2, d2, c)))) by {
                        let y = nbr_index(i2, d2, c);
                        if i2 == a {
                            if d2 == d {
                                assert(!has_wall(grid@[a], d));
                                assert(e2.contains((a, b)));
                            } else {
                                lemma_nbr_distinct(a, d, d2, c, r);
                                assert(has_wall(grid@[a], d2) == has_wall(g0[a], d2));
                                assert(e2.contains((a, y)) == edges.contains((a, y)));
                            }
                        } else if i2 == b {
                            if d2 == d.spec_opposite() {
                                assert(!has_wall(grid@[b], d2));
                                assert(y == a);
                                assert(e2.contains((b, a)));
                            } else {
                                lemma_nbr_distinct(b, d.spec_opposite(), d2, c, r);
                                assert(has_wall(grid@[b], d2) == has_wall(g0[b], d2));
                                assert(e2.contains((b, y)) == edges.contains((b, y)));
                            }
                        } else {
                            assert(grid@[i2] == g0[i2]);
                            assert(e2.contains((i2, y)) == edges.contains((i2, y)));
                        }
                    }
                    // the boundary stays closed
                    assert forall|i2: int, d2: Direction|
                        0 <= i2 < c * r && !#[trigger] nbr_exists(i2, d2, c, r) implies has_wall(
                        grid@[i2],
                        d2,
                    ) by {
                        if i2 == a {
                            assert(d2 != d);
                            assert(has_wall(grid@[a], d2) == has_wall(g0[a], d2));
                        } else if i2 == b {
                            assert(d2 != d.spec_opposite());
                            assert(has_wall(grid@[b], d2) == has_wall(g0[b], d2));
                        } else {
                            assert(grid@[i2] == g0[i2]);
                        }
                    }
                    // every visited cell stays joined to the start
                    assert(edges.subset_of(e2));
                    lemma_reached_mono(edges, e2, start, a);
                    lemma_reached_step(e2, start, a, b);
                    assert forall|v2: int| #[trigger] vs2.contains(v2) implies reached(
                        e2,
                        start,
                        v2,
                    ) by {
                        if v2 != b {
                            assert(vset.contains(v2));
                            lemma_reached_mono(edges, e2, start, v2);
                        }
                    }
                    vset = vs2;
                    edges = e2;
                }
                index = t;
            },
            None => {},
        }
        proof {
            let stepped = walk_step(cfg0, columns, rows);
            assert(stepped =~= cfg_of(grid@, visited@, stack@, index, rng@, visited_count as int));
            assert(walk_run(cfg0, columns, rows, fuel) == walk_run(
                stepped,
                columns,
                rows,
                (fuel - 1) as nat,
            ));
            fuel = (fuel - 1) as nat;
        }
    }
    proof {
        lemma_walk_done(grid@, edges, vset, start, c, r);
        assert(walk_run(
            cfg_of(grid@, visited@, stack@, index, rng@, visited_count as int),
            columns,
            rows,
            fuel,
        ) == grid@);
    }
}

/// Generate a perfect maze of the given dimensions, drawing every random
/// choice from `rng`. The grid starts fully walled; the walk then carves a
/// spanning tree, so the result has exactly `columns * rows` cells, paired
/// wall bits, a closed boundary, and one path between any two cells.
#[verifier::loop_isolation(false)]
pub fn gen(columns: usize, rows: usize, rng: &mut MazeRng) -> (grid: Vec<usize>)
    requires
        columns >= 1,
        rows >= 1,
        (columns as int) * (rows as int) <= usize::MAX,
    ensures
        grid@.len() == (columns as int) * (rows as int),
        is_perfect_maze(grid@, columns as int, rows as int),
        grid@ == spec_gen(columns, rows, old(rng)@),
{
    let size = columns * rows;
    let mut grid: Vec<usize> = Vec::new();
    let mut k: usize = 0;
    while k < size
        invariant
            grid@.len() == k,
            k <= size,
            forall|t: int| 0 <= t < k ==> grid@[t] == full_cell(),
        decreases size - k,
    {
        grid.push(15);
        k += 1;
    }
    walk(&mut grid, columns, rows, rng);
    grid
}

} // verus!
