//! The grid model: cell addressing, wall bits, and neighbour adjacency.
//!
//! Cell index `i` of a `columns x rows` grid lies in row `i / columns` and
//! column `i % columns` (row-major, zero-based). Each cell is a `usize`
//! bitmask over the four wall bits; a set bit is a standing wall.

use vstd::prelude::*;

verus! {

/// A cardinal direction on the grid. Each direction carries a power-of-two
/// wall bit, and each has an opposite; carving a passage clears the bit of
/// the direction in one cell and the bit of the opposite in the other.
#[derive(Clone, Copy, PartialEq, Eq, Structural, Debug)]
pub enum Direction {
    Up,
    Right,
    Down,
    Left,
}

impl Direction {
    /// The wall bit this direction occupies in a cell's bitmask.
    pub open spec fn spec_bit(self) -> usize {
        match self {
            Direction::Up => 1,
            Direction::Right => 2,
            Direction::Down => 4,
            Direction::Left => 8,
        }
    }

    /// The wall bit this direction occupies in a cell's bitmask.
    #[verifier::when_used_as_spec(spec_bit)]
    pub fn bit(self) -> (b: usize)
        ensures
            b == self.spec_bit(),
    {
        match self {
            Direction::Up => 1,
            Direction::Right => 2,
            Direction::Down => 4,
            Direction::Left => 8,
        }
    }

    /// The opposite direction: `Up` pairs with `Down`, `Right` with `Left`.
    pub open spec fn spec_opposite(self) -> Direction {
        match self {
            Direction::Up => Direction::Down,
            Direction::Right => Direction::Left,
            Direction::Down => Direction::Up,
            Direction::Left => Direction::Right,
        }
    }

    /// The opposite direction: `Up` pairs with `Down`, `Right` with `Left`.
    #[verifier::when_used_as_spec(spec_opposite)]
    pub fn opposite(self) -> (d: Direction)
        ensures
            d == self.spec_opposite(),
    {
        match self {
            Direction::Up => Direction::Down,
            Direction::Right => Direction::Left,
            Direction::Down => Direction::Up,
            Direction::Left => Direction::Right,
        }
    }
}

/// A neighbour of a cell: the direction toward it and its index.
#[derive(Clone, Copy, PartialEq, Eq, Structural, Debug)]
pub struct Neighbour(pub Direction, pub usize);

/// Whether the cell one step in direction `d` from cell `i` stays on the
/// grid. Meaningful for `0 <= i < columns * rows` with `columns >= 1`.
pub open spec fn nbr_exists(i: int, d: Direction, columns: int, rows: int) -> bool {
    match d {
        Direction::Up => i >= columns,
        Direction::Right => i % columns != columns - 1,
        Direction::Down => i < columns * rows - columns,
        Direction::Left => i % columns > 0,
    }
}

/// The index of the cell one step in direction `d` from cell `i`.
pub open spec fn nbr_index(i: int, d: Direction, columns: int) -> int {
    match d {
        Direction::Up => i - columns,
        Direction::Right => i + 1,
        Direction::Down => i + columns,
        Direction::Left => i - 1,
    }
}

/// The neighbours of cell `i`, in the fixed order Up, Right, Down, Left;
/// empty when `i` lies outside the grid.
pub open spec fn spec_neighbours(i: usize, columns: usize, rows: usize) -> Seq<Neighbour> {
    if i >= columns * rows {
        Seq::<Neighbour>::empty()
    } else {
        let c = columns as int;
        let r = rows as int;
        let s = Seq::<Neighbour>::empty();
        let s = if nbr_exists(i as int, Direction::Up, c, r) {
            s.push(Neighbour(Direction::Up, (i - columns) as usize))
        } else {
            s
        };
        let s = if nbr_exists(i as int, Direction::Right, c, r) {
            s.push(Neighbour(Direction::Right, (i + 1) as usize))
        } else {
            s
        };
        let s = if nbr_exists(i as int, Direction::Down, c, r) {
            s.push(Neighbour(Direction::Down, (i + columns) as usize))
        } else {
            s
        };
        let s = if nbr_exists(i as int, Direction::Left, c, r) {
            s.push(Neighbour(Direction::Left, (i - 1) as usize))
        } else {
            s
        };
        s
    }
}

/// The row-major coordinates of a cell index stay inside the grid.
pub proof fn lemma_cell_coords(i: int, c: int, r: int)
    requires
        c >= 1,
        r >= 1,
        0 <= i < c * r,
    ensures
        0 <= i % c < c,
        0 <= i / c < r,
        i == c * (i / c) + i % c,
{
    vstd::arithmetic::div_mod::lemma_fundamental_div_mod(i, c);
    vstd::arithmetic::div_mod::lemma_mod_bound(i, c);
    assert(0 <= i / c && i / c < r) by (nonlinear_arith)
        requires
            i == c * (i / c) + i % c,
            0 <= i % c < c,
            0 <= i < c * r,
            c >= 1,
    ;
}

/// A neighbour that exists lies on the grid, and the move back from it, in
/// the opposite direction, exists and returns to the starting cell.
pub proof fn lemma_nbr_valid(i: int, d: Direction, c: int, r: int)
    requires
        c >= 1,
        r >= 1,
        0 <= i < c * r,
        nbr_exists(i, d, c, r),
    ensures
        0 <= nbr_index(i, d, c) < c * r,
        nbr_exists(nbr_index(i, d, c), d.spec_opposite(), c, r),
        nbr_index(nbr_index(i, d, c), d.spec_opposite(), c) == i,
{
    lemma_cell_coords(i, c, r);
    let q = i / c;
    let m = i % c;
    match d {
        Direction::Up => {
        }
        Direction::Down => {
        }
        Direction::Right => {
            vstd::arithmetic::div_mod::lemma_fundamental_div_mod_converse(i + 1, c, q, m + 1);
            assert(i + 1 < c * r) by (nonlinear_arith)
                requires
                    i + 1 == c * q + m + 1,
                    m + 1 < c,
                    0 <= q < r,
                    c >= 1,
            ;
        }
        Direction::Left => {
            assert(c * q >= 0) by (nonlinear_arith)
                requires
                    c >= 1,
                    q >= 0,
            ;
            vstd::arithmetic::div_mod::lemma_fundamental_div_mod_converse(i - 1, c, q, m - 1);
        }
    }
}

/// Every entry of `spec_neighbours` is a genuine neighbour: its direction
/// stays on the grid, its index is the one the direction reaches, and the
/// opposite move leads back.
pub proof fn lemma_neighbours_valid(i: usize, columns: usize, rows: usize)
    requires
        (i as int) < (columns as int) * (rows as int),
        (columns as int) * (rows as int) <= usize::MAX,
    ensures
        forall|k: int|
            0 <= k < spec_neighbours(i, columns, rows).len() ==> {
                let n = #[trigger] spec_neighbours(i, columns, rows)[k];
                &&& nbr_exists(i as int, n.0, columns as int, rows as int)
                &&& n.1 as int == nbr_index(i as int, n.0, columns as int)
                &&& (n.1 as int) < (columns as int) * (rows as int)
                &&& nbr_exists(n.1 as int, n.0.spec_opposite(), columns as int, rows as int)
                &&& nbr_index(n.1 as int, n.0.spec_opposite(), columns as int) == i as int
            },
{
    let c = columns as int;
    let r = rows as int;
    assert(c >= 1 && r >= 1) by {
        if columns == 0 {
            assert(c * r == 0);
        }
        if rows == 0 {
            assert(c * r == 0);
        }
    }
    if nbr_exists(i as int, Direction::Up, c, r) {
        lemma_nbr_valid(i as int, Direction::Up, c, r);
    }
    if nbr_exists(i as int, Direction::Right, c, r) {
        lemma_nbr_valid(i as int, Direction::Right, c, r);
    }
    if nbr_exists(i as int, Direction::Down, c, r) {
        lemma_nbr_valid(i as int, Direction::Down, c, r);
    }
    if nbr_exists(i as int, Direction::Left, c, r) {
        lemma_nbr_valid(i as int, Direction::Left, c, r);
    }
}

/// The neighbours of `current_index`, in the fixed order Up, Right, Down,
/// Left. An index outside the grid yields an empty vector: a deliberate
/// guard for out-of-range callers, not an error.
pub fn get_neighbours(current_index: usize, columns: usize, rows: usize) -> (r: Vec<Neighbour>)
    requires
        columns * rows <= usize::MAX,
    ensures
        r@ == spec_neighbours(current_index, columns, rows),
{
    let mut neighbours: Vec<Neighbour> = Vec::new();

    if current_index >= columns * rows {
        assert(neighbours@ =~= spec_neighbours(current_index, columns, rows));
        return neighbours;
    }
    assert(columns >= 1) by {
        if columns == 0 {
            assert(columns * rows == 0);
        }
    }
    if current_index >= columns {
        neighbours.push(Neighbour(Direction::Up, current_index - columns));
    }
    if current_index % columns != columns - 1 {
        neighbours.push(Neighbour(Direction::Right, current_index + 1));
    }
    assert(rows >= 1) by {
        if rows == 0 {
            assert(columns * rows == 0);
        }
    }
    assert(columns * rows >= columns) by (nonlinear_arith)
        requires
            rows >= 1,
    ;
    if current_index < columns * rows - columns {
        neighbours.push(Neighbour(Direction::Down, current_index + columns));
    }
    if current_index % columns > 0 {
        assert(current_index > 0) by {
            if current_index == 0 {
                assert(0int % (columns as int) == 0);
            }
        }
        neighbours.push(Neighbour(Direction::Left, current_index - 1));
    }
    assert(neighbours@ =~= spec_neighbours(current_index, columns, rows));
    neighbours
}

} // verus!
