use std::collections::HashSet;

use carcossonne_uct::flood_fill::flood_fill;
use carcossonne_uct::index::Index;

fn fill(grid: &[[i32; 7]; 7], seed: Index) -> HashSet<Index> {
    let result = flood_fill(seed, |idx: Index| grid[idx.y as usize][idx.x as usize] == 0);
    let set: HashSet<Index> = result.iter().copied().collect();
    assert_eq!(set.len(), result.len());
    set
}

#[test]
fn test_basic_box_fill() {
    // 1 = Wall, 0 = Empty space
    let grid = [
        [1, 1, 1, 1, 1, 1, 1],
        [1, 0, 0, 0, 1, 1, 1],
        [1, 0, 0, 0, 1, 1, 1],
        [1, 0, 0, 0, 1, 1, 1],
        [1, 1, 1, 1, 1, 1, 1],
        [1, 1, 1, 1, 1, 1, 1],
        [1, 1, 1, 1, 1, 1, 1],
    ];

    let seed = Index { x: 2, y: 2 };
    let result = fill(&grid, seed);

    let expected: HashSet<Index> = HashSet::from_iter([
        Index { x: 1, y: 1 },
        Index { x: 2, y: 1 },
        Index { x: 3, y: 1 },
        Index { x: 1, y: 2 },
        Index { x: 2, y: 2 },
        Index { x: 3, y: 2 },
        Index { x: 1, y: 3 },
        Index { x: 2, y: 3 },
        Index { x: 3, y: 3 },
    ]);

    assert_eq!(result, expected);
}

#[test]
fn test_seed_on_boundary_does_nothing() {
    let grid = [
        [1, 1, 1],
        [1, 0, 1],
        [1, 1, 1],
    ]; // Simulating a smaller 3x3 subset for readability

    let seed = Index { x: 0, y: 0 }; // Starting directly on a wall

    let result = flood_fill(seed, |idx: Index| grid[idx.y as usize][idx.x as usize] == 0);

    assert!(result.is_empty());
}

#[test]
fn test_u_shape_leak() {
    // A U-shaped cave where the fill has to flow down the left column,
    // loop around the bottom row, and fill up the right column.
    let grid = [
        [1, 1, 1, 1, 1, 1, 1],
        [1, 0, 1, 0, 0, 0, 1],
        [1, 0, 1, 0, 1, 0, 1],
        [1, 0, 1, 0, 1, 0, 1],
        [1, 0, 0, 0, 1, 0, 1],
        [1, 1, 1, 1, 1, 1, 1],
        [1, 1, 1, 1, 1, 1, 1],
    ];

    let seed = Index { x: 1, y: 1 }; // Start at top left of the U
    let result = fill(&grid, seed);

    let expected: HashSet<Index> = HashSet::from_iter([
        Index { x: 1, y: 1 },
        Index { x: 1, y: 2 },
        Index { x: 1, y: 3 },
        Index { x: 1, y: 4 },
        Index { x: 2, y: 4 },
        Index { x: 3, y: 4 },
        Index { x: 3, y: 3 },
        Index { x: 3, y: 2 },
        Index { x: 3, y: 1 },
        Index { x: 4, y: 1 },
        Index { x: 5, y: 1 },
        Index { x: 5, y: 2 },
        Index { x: 5, y: 3 },
        Index { x: 5, y: 4 },
    ]);

    assert_eq!(result, expected);
}

#[test]
fn test_no_diagonal_bleeding() {
    let grid = [
        [1, 1, 1, 1, 1, 1, 1],
        [1, 0, 0, 1, 0, 0, 1],
        [1, 0, 0, 1, 0, 0, 1],
        [1, 1, 1, 1, 1, 1, 1],
        [1, 1, 1, 1, 1, 1, 1],
        [1, 1, 1, 1, 1, 1, 1],
        [1, 1, 1, 1, 1, 1, 1],
    ];

    let seed = Index { x: 1, y: 1 }; // Start in the left room
    let result = fill(&grid, seed);

    // Left room should be filled, right room must remain un-filled
    assert!(result.len() == 4);
    assert!(result.contains(&Index { x: 1, y: 1 }));
    assert!(result.contains(&Index { x: 2, y: 1 }));
    assert!(result.contains(&Index { x: 1, y: 2 }));
    assert!(result.contains(&Index { x: 2, y: 2 }));
}

#[test]
fn flood_fill_seed_comes_first() {
    let grid = [
        [1, 1, 1, 1, 1, 1, 1],
        [1, 0, 0, 0, 0, 0, 1],
        [1, 1, 1, 1, 1, 1, 1],
        [1, 1, 1, 1, 1, 1, 1],
        [1, 1, 1, 1, 1, 1, 1],
        [1, 1, 1, 1, 1, 1, 1],
        [1, 1, 1, 1, 1, 1, 1],
    ];
    let seed = Index { x: 3, y: 1 };
    let result = flood_fill(seed, |idx: Index| grid[idx.y as usize][idx.x as usize] == 0);
    assert_eq!(result[0], seed);
    assert_eq!(result.len(), 5);
}
