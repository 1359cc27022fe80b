use mazegen::grid::get_neighbours;
use mazegen::grid::Direction;
use mazegen::maze::gen;
use mazegen::rng::MazeRng;

const UP: usize = 1;
const RIGHT: usize = 2;
const DOWN: usize = 4;
const LEFT: usize = 8;

/// The undirected passages of a grid: pairs `(low, high)` of adjacent cells
/// whose shared wall is down on the `low` side.
fn passages(grid: &[usize], columns: usize, rows: usize) -> Vec<(usize, usize)> {
    let mut out = Vec::new();
    for i in 0..columns * rows {
        if i % columns != columns - 1 && grid[i] & RIGHT == 0 {
            out.push((i, i + 1));
        }
        if i < columns * rows - columns && grid[i] & DOWN == 0 {
            out.push((i, i + columns));
        }
    }
    out
}

/// Breadth-first search over the carved passages, starting from cell 0.
fn reachable_count(grid: &[usize], columns: usize, rows: usize) -> usize {
    let size = columns * rows;
    let mut seen = vec![false; size];
    let mut queue = vec![0usize];
    seen[0] = true;
    let mut count = 1;
    while let Some(i) = queue.pop() {
        let mut neighbours = Vec::new();
        if i >= columns && grid[i] & UP == 0 {
            neighbours.push(i - columns);
        }
        if i % columns != columns - 1 && grid[i] & RIGHT == 0 {
            neighbours.push(i + 1);
        }
        if i < size - columns && grid[i] & DOWN == 0 {
            neighbours.push(i + columns);
        }
        if i % columns > 0 && grid[i] & LEFT == 0 {
            neighbours.push(i - 1);
        }
        for n in neighbours {
            if !seen[n] {
                seen[n] = true;
                count += 1;
                queue.push(n);
            }
        }
    }
    count
}

fn check_bit_symmetry(grid: &[usize], columns: usize, rows: usize) {
    let size = columns * rows;
    for i in 0..size {
        if i >= columns {
            assert_eq!(grid[i] & UP == 0, grid[i - columns] & DOWN == 0);
        }
        if i % columns != columns - 1 {
            assert_eq!(grid[i] & RIGHT == 0, grid[i + 1] & LEFT == 0);
        }
    }
}

fn check_boundary(grid: &[usize], columns: usize, rows: usize) {
    let size = columns * rows;
    for i in 0..size {
        if i < columns {
            assert_ne!(grid[i] & UP, 0, "top row cell {i} lost its Up wall");
        }
        if i % columns == columns - 1 {
            assert_ne!(grid[i] & RIGHT, 0, "rightmost cell {i} lost its Right wall");
        }
        if i >= size - columns {
            assert_ne!(grid[i] & DOWN, 0, "bottom row cell {i} lost its Down wall");
        }
        if i % columns == 0 {
            assert_ne!(grid[i] & LEFT, 0, "leftmost cell {i} lost its Left wall");
        }
    }
}

#[test]
fn two_by_two_seeded_is_a_spanning_tree() {
    let mut rng = MazeRng::from_seed(42);
    let grid = gen(2, 2, &mut rng);
    assert_eq!(grid.len(), 4);
    assert_eq!(passages(&grid, 2, 2).len(), 3);
    assert_eq!(reachable_count(&grid, 2, 2), 4);
    let mut rng2 = MazeRng::from_seed(42);
    let grid2 = gen(2, 2, &mut rng2);
    assert_eq!(grid, grid2);
}

#[test]
fn single_cell_keeps_all_walls() {
    let mut rng = MazeRng::from_seed(7);
    let grid = gen(1, 1, &mut rng);
    assert_eq!(grid, vec![15]);
}

#[test]
fn single_row_is_a_linear_chain() {
    let mut rng = MazeRng::from_seed(3);
    let grid = gen(5, 1, &mut rng);
    assert_eq!(grid, vec![15 - RIGHT, 5, 5, 5, 15 - LEFT]);
    assert_eq!(passages(&grid, 5, 1).len(), 4);
}

#[test]
fn single_column_is_a_linear_chain() {
    let mut rng = MazeRng::from_seed(3);
    let grid = gen(1, 4, &mut rng);
    assert_eq!(grid, vec![15 - DOWN, 15 - DOWN - UP, 15 - DOWN - UP, 15 - UP]);
}

#[test]
fn generated_grids_are_perfect_mazes() {
    for (columns, rows, seed) in [(4, 3, 7), (3, 4, 0), (6, 6, 123), (2, 9, 9999)] {
        let mut rng = MazeRng::from_seed(seed);
        let grid = gen(columns, rows, &mut rng);
        let size = columns * rows;
        assert_eq!(grid.len(), size);
        assert_eq!(passages(&grid, columns, rows).len(), size - 1);
        assert_eq!(reachable_count(&grid, columns, rows), size);
        check_bit_symmetry(&grid, columns, rows);
        check_boundary(&grid, columns, rows);
    }
}

#[test]
fn same_seed_reproduces_the_grid() {
    for seed in [0u64, 1, 42, u64::MAX] {
        let mut rng1 = MazeRng::from_seed(seed);
        let mut rng2 = MazeRng::from_seed(seed);
        assert_eq!(gen(6, 5, &mut rng1), gen(6, 5, &mut rng2));
    }
}

#[test]
fn entropy_seeded_grids_are_perfect_mazes() {
    let mut rng = MazeRng::from_entropy();
    let grid = gen(5, 4, &mut rng);
    assert_eq!(grid.len(), 20);
    assert_eq!(passages(&grid, 5, 4).len(), 19);
    assert_eq!(reachable_count(&grid, 5, 4), 20);
    check_bit_symmetry(&grid, 5, 4);
    check_boundary(&grid, 5, 4);
}

#[test]
fn neighbours_of_interior_cell_in_fixed_order() {
    let ns = get_neighbours(4, 3, 3);
    let pairs: Vec<(Direction, usize)> = ns.iter().map(|n| (n.0, n.1)).collect();
    assert_eq!(
        pairs,
        vec![
            (Direction::Up, 1),
            (Direction::Right, 5),
            (Direction::Down, 7),
            (Direction::Left, 3),
        ]
    );
}

#[test]
fn neighbours_of_corner_cells() {
    let top_left = get_neighbours(0, 3, 3);
    let pairs: Vec<(Direction, usize)> = top_left.iter().map(|n| (n.0, n.1)).collect();
    assert_eq!(pairs, vec![(Direction::Right, 1), (Direction::Down, 3)]);

    let bottom_right = get_neighbours(8, 3, 3);
    let pairs: Vec<(Direction, usize)> = bottom_right.iter().map(|n| (n.0, n.1)).collect();
    assert_eq!(pairs, vec![(Direction::Up, 5), (Direction::Left, 7)]);
}

#[test]
fn neighbours_out_of_range_is_empty() {
    assert!(get_neighbours(9, 3, 3).is_empty());
    assert!(get_neighbours(usize::MAX, 3, 3).is_empty());
    assert!(get_neighbours(0, 1, 1).is_empty());
}
