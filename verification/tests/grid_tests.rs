use elytra_sim::grid::{Grid, GridMeta};

fn sample_grid() -> Grid<i32> {
    Grid(vec![vec![1, 2, 3], vec![4, 5, 6], vec![7, 8]])
}

#[test]
fn cell_corners_inside_the_grid() {
    let g = sample_grid();
    assert_eq!(g.cell_corners(0, 0), Some((&1, &2, &4, &5)));
    assert_eq!(g.cell_corners(0, 1), Some((&2, &3, &5, &6)));
    assert_eq!(g.cell_corners(1, 0), Some((&4, &5, &7, &8)));
}

#[test]
fn cell_corners_outside_the_grid() {
    let g = sample_grid();
    // the last column has no column to its right
    assert_eq!(g.cell_corners(0, 2), None);
    // the short last row has no sample under (1, 2)
    assert_eq!(g.cell_corners(1, 1), None);
    // the last row has no row below
    assert_eq!(g.cell_corners(2, 0), None);
    assert_eq!(g.cell_corners(usize::MAX, 0), None);
    assert_eq!(g.cell_corners(0, usize::MAX), None);
    let empty: Grid<i32> = Grid(vec![]);
    assert_eq!(empty.cell_corners(0, 0), None);
}

#[test]
fn tabulate_fills_rows_in_order() {
    let g = Grid::tabulate(2, 3, |row, col| 10 * row + col);
    assert_eq!(g.0, vec![vec![0, 1, 2], vec![10, 11, 12]]);
    let none: Grid<usize> = Grid::tabulate(0, 5, |row, col| row + col);
    assert!(none.0.is_empty());
    let thin: Grid<usize> = Grid::tabulate(3, 0, |row, col| row + col);
    assert_eq!(thin.0, vec![Vec::<usize>::new(), vec![], vec![]]);
}

#[test]
fn uniform_dims_wide_area() {
    assert_eq!(GridMeta::uniform_dims(40, true, 30), (40, 30));
    // the short side keeps at least one cell
    assert_eq!(GridMeta::uniform_dims(40, true, 0), (40, 1));
}

#[test]
fn uniform_dims_tall_area() {
    assert_eq!(GridMeta::uniform_dims(40, false, 25), (25, 40));
    assert_eq!(GridMeta::uniform_dims(40, false, 40), (40, 40));
    assert_eq!(GridMeta::uniform_dims(1, false, 0), (1, 1));
}
