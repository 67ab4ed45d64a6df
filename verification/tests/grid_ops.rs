use mazegrid::cell::Cell;
use mazegrid::cell::Coord;
use mazegrid::cell::link;
use mazegrid::cell::unlink;
use mazegrid::distance::Distance;
use mazegrid::distance::distance_str;
use mazegrid::grid::Grid;
use mazegrid::rng::MazeRng;

fn total_link_entries(grid: &Grid) -> usize {
    let mut total = 0;
    for row in &grid.grid {
        for cell in row {
            total += cell.links.len();
        }
    }
    total
}

#[test]
fn new_grid_has_expected_shape() {
    let grid = Grid::new(3, 4);
    assert_eq!(grid.rows, 3);
    assert_eq!(grid.columns, 4);
    assert_eq!(grid.size(), 12);
    assert_eq!(grid.grid.len(), 3);
    for row in &grid.grid {
        assert_eq!(row.len(), 4);
        for cell in row {
            assert!(cell.north.is_none());
            assert!(cell.south.is_none());
            assert!(cell.east.is_none());
            assert!(cell.west.is_none());
            assert!(cell.links.is_empty());
        }
    }
}

#[test]
fn configure_cells_wires_neighbors() {
    let mut grid = Grid::new(3, 3);
    grid.configure_cells();
    let center = grid.get_cell(1, 1).unwrap();
    assert_eq!(center.north(), Some(Coord { row: 0, column: 1 }));
    assert_eq!(center.south(), Some(Coord { row: 2, column: 1 }));
    assert_eq!(center.east(), Some(Coord { row: 1, column: 2 }));
    assert_eq!(center.west(), Some(Coord { row: 1, column: 0 }));
    let corner = grid.get_cell(0, 0).unwrap();
    assert_eq!(corner.north(), None);
    assert_eq!(corner.west(), None);
    assert_eq!(corner.south(), Some(Coord { row: 1, column: 0 }));
    assert_eq!(corner.east(), Some(Coord { row: 0, column: 1 }));
}

#[test]
fn configure_cells_is_idempotent() {
    let mut grid = Grid::new(2, 2);
    grid.configure_cells();
    grid.configure_cells();
    let cell = grid.get_cell(0, 0).unwrap();
    assert_eq!(cell.south(), Some(Coord { row: 1, column: 0 }));
    assert_eq!(cell.east(), Some(Coord { row: 0, column: 1 }));
    assert_eq!(cell.north(), None);
}

#[test]
fn get_cell_out_of_bounds_is_none() {
    let grid = Grid::new(2, 3);
    assert!(grid.get_cell(0, 0).is_some());
    assert!(grid.get_cell(1, 2).is_some());
    assert!(grid.get_cell(2, 0).is_none());
    assert!(grid.get_cell(0, 3).is_none());
    assert!(grid.get_cell(9, 9).is_none());
}

#[test]
fn neighbors_come_in_fixed_order() {
    let mut grid = Grid::new(3, 3);
    grid.configure_cells();
    let center = grid.get_cell(1, 1).unwrap();
    let neighbors = center.neighbors();
    assert_eq!(
        neighbors,
        vec![
            Coord { row: 0, column: 1 },
            Coord { row: 2, column: 1 },
            Coord { row: 1, column: 2 },
            Coord { row: 1, column: 0 },
        ]
    );
}

#[test]
fn cell_new_is_isolated() {
    let cell = Cell::new(5, 7);
    assert_eq!(cell.row, 5);
    assert_eq!(cell.column, 7);
    assert!(cell.links.is_empty());
    assert!(!cell.linked(Coord { row: 5, column: 8 }));
}

#[test]
fn link_is_symmetric() {
    let mut grid = Grid::new(2, 2);
    grid.configure_cells();
    let a = Coord { row: 0, column: 0 };
    let b = Coord { row: 0, column: 1 };
    link(&mut grid, a, b);
    assert!(grid.get_cell(0, 0).unwrap().linked(b));
    assert!(grid.get_cell(0, 1).unwrap().linked(a));
}

#[test]
fn link_twice_is_idempotent() {
    let mut grid = Grid::new(2, 2);
    let a = Coord { row: 0, column: 0 };
    let b = Coord { row: 1, column: 0 };
    link(&mut grid, a, b);
    let entries_once = total_link_entries(&grid);
    link(&mut grid, a, b);
    assert_eq!(total_link_entries(&grid), entries_once);
    assert_eq!(grid.get_cell(0, 0).unwrap().links.len(), 1);
    assert_eq!(grid.get_cell(1, 0).unwrap().links.len(), 1);
}

#[test]
fn unlink_after_link_restores_unlinked() {
    let mut grid = Grid::new(2, 2);
    let a = Coord { row: 0, column: 0 };
    let b = Coord { row: 0, column: 1 };
    link(&mut grid, a, b);
    unlink(&mut grid, a, b);
    assert!(!grid.get_cell(0, 0).unwrap().linked(b));
    assert!(!grid.get_cell(0, 1).unwrap().linked(a));
    assert_eq!(total_link_entries(&grid), 0);
}

#[test]
fn unlink_of_unlinked_pair_is_noop() {
    let mut grid = Grid::new(2, 2);
    let a = Coord { row: 0, column: 0 };
    let b = Coord { row: 1, column: 1 };
    let c = Coord { row: 0, column: 1 };
    link(&mut grid, a, c);
    unlink(&mut grid, a, b);
    assert!(grid.get_cell(0, 0).unwrap().linked(c));
    assert_eq!(total_link_entries(&grid), 2);
}

#[test]
fn distance_table_get_set_clear() {
    let mut d = Distance::new(Coord { row: 0, column: 0 }, 2, 2);
    assert_eq!(d.get(Coord { row: 0, column: 0 }), Some(0));
    assert_eq!(d.get(Coord { row: 1, column: 1 }), None);
    d.set(Coord { row: 1, column: 1 }, 7);
    assert_eq!(d.get(Coord { row: 1, column: 1 }), Some(7));
    d.clear(Coord { row: 1, column: 1 });
    assert_eq!(d.get(Coord { row: 1, column: 1 }), None);
    assert_eq!(d.get(Coord { row: 5, column: 5 }), None);
}

#[test]
fn distance_cells_lists_visited() {
    let mut d = Distance::new(Coord { row: 0, column: 0 }, 2, 3);
    d.set(Coord { row: 1, column: 2 }, 3);
    let cells = d.cells();
    assert_eq!(cells.len(), 2);
    assert!(cells.contains(&Coord { row: 0, column: 0 }));
    assert!(cells.contains(&Coord { row: 1, column: 2 }));
}

#[test]
fn distance_str_maps_the_alphabet() {
    assert_eq!(distance_str(Some(0)), "0");
    assert_eq!(distance_str(Some(9)), "9");
    assert_eq!(distance_str(Some(10)), "a");
    assert_eq!(distance_str(Some(35)), "z");
    assert_eq!(distance_str(Some(36)), "A");
    assert_eq!(distance_str(Some(61)), "Z");
    assert_eq!(distance_str(Some(62)), "?");
    assert_eq!(distance_str(None), " ");
}

#[test]
fn scripted_rng_cycles_modulo() {
    let mut rng = MazeRng::scripted(vec![3, 5]);
    assert_eq!(rng.next_below(4), 3);
    assert_eq!(rng.next_below(4), 1);
    assert_eq!(rng.next_below(4), 3);
    assert_eq!(rng.next_below(10), 5);
    let mut empty = MazeRng::scripted(vec![]);
    assert_eq!(empty.next_below(9), 0);
    let mut system = MazeRng::system();
    let draw = system.next_below(3);
    assert!(draw < 3);
}

#[test]
fn random_cell_always_lands_inside() {
    let grid = Grid::new(2, 5);
    let mut rng = MazeRng::scripted(vec![1, 4, 1, 1]);
    let cell = grid.random_cell(&mut rng).unwrap();
    assert_eq!((cell.row, cell.column), (1, 4));
    let tall = Grid::new(5, 2);
    let mut high = MazeRng::scripted(vec![4, 1]);
    let far = tall.random_cell(&mut high).unwrap();
    assert_eq!((far.row, far.column), (4, 1));
}
