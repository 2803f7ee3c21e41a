use poisson_disk::density::{radius_index, Grid, EMPTY};

#[test]
fn grid_starts_empty() {
    let g = Grid::new(10, 8, 3, 2);
    assert_eq!(g.cols, 4);
    assert_eq!(g.rows, 3);
    for y in 0..3 {
        for x in 0..4 {
            assert_eq!(g.cell_entry(x, y), EMPTY);
        }
    }
    assert!(g.neighbors(1, 1, 5).is_empty());
}

#[test]
fn grid_insert_then_lookup() {
    let mut g = Grid::new(10, 8, 3, 2);
    g.insert(1, 1, 7);
    assert_eq!(g.cell_entry(1, 1), 7);
    // coordinates past the grid are clamped to the last cell
    g.insert(100, 100, 9);
    assert_eq!(g.cell_entry(3, 2), 9);
    assert_eq!(g.neighbors(1, 1, 1), vec![7]);
    assert_eq!(g.neighbors(2, 1, 1), vec![7, 9]);
    assert_eq!(g.neighbors(3, 2, 0), vec![9]);
    assert!(g.neighbors(-5, -5, 2).is_empty());
    assert_eq!(g.neighbors(-1, -1, 2), vec![7]);
}

#[test]
fn grid_neighbors_row_major() {
    let mut g = Grid::new(5, 5, 4, 4);
    g.insert(4, 0, 1);
    g.insert(0, 1, 2);
    g.insert(2, 2, 3);
    g.insert(1, 4, 4);
    assert_eq!(g.neighbors(2, 2, 2), vec![1, 2, 3, 4]);
    assert_eq!(g.neighbors(2, 2, 1), vec![3]);
}

#[test]
fn radius_index_clamps() {
    assert_eq!(radius_index(1, 1, 4, 3), 5);
    assert_eq!(radius_index(5, 0, 4, 3), 3);
    assert_eq!(radius_index(1, 9, 4, 3), 9);
    assert_eq!(radius_index(100, 100, 4, 3), 11);
}
