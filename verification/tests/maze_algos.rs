use mazegrid::binary_tree;
use mazegrid::cell::Coord;
use mazegrid::distance::Distance;
use mazegrid::grid::Grid;
use mazegrid::kruskal;
use mazegrid::kruskal::Kruskal;
use mazegrid::recursive_backtracker;
use mazegrid::rng::MazeRng;
use mazegrid::sidewinder;

fn link_count(grid: &Grid) -> usize {
    let mut total = 0;
    for row in &grid.grid {
        for cell in row {
            total += cell.links.len();
        }
    }
    total / 2
}

fn carved_grid(rows: usize, columns: usize) -> Grid {
    let mut grid = Grid::new(rows, columns);
    grid.configure_cells();
    grid
}

#[test]
fn binary_tree_fixed_seed_four_by_four() {
    // with a script that always picks the first available neighbor, every
    // cell below the top row links north, the top row links east, and the
    // north-east corner stays passive: 15 links on a 4x4 grid
    let mut grid = carved_grid(4, 4);
    let mut rng = MazeRng::scripted(vec![0]);
    binary_tree::on(&mut grid, &mut rng);
    assert_eq!(link_count(&grid), 15);
    for column in 0..3usize {
        let cell = grid.get_cell(0, column).unwrap();
        assert!(cell.linked(Coord { row: 0, column: column + 1 }));
    }
    for row in 1..4usize {
        for column in 0..4usize {
            let cell = grid.get_cell(row, column).unwrap();
            assert!(cell.linked(Coord { row: row - 1, column }));
        }
    }
}

#[test]
fn binary_tree_spans_any_seed() {
    let seeds: Vec<Vec<u64>> = vec![vec![0], vec![1], vec![1, 0, 1], vec![7, 3, 9, 2]];
    for seed in seeds {
        let mut grid = carved_grid(5, 3);
        let mut rng = MazeRng::scripted(seed);
        binary_tree::on(&mut grid, &mut rng);
        assert_eq!(link_count(&grid), 14);
        let d = Distance::distances(&grid, Coord { row: 0, column: 0 });
        assert_eq!(d.cells().len(), 15);
    }
}

#[test]
fn sidewinder_spans_and_keeps_top_corridor() {
    let seeds: Vec<Vec<u64>> = vec![vec![0], vec![1], vec![0, 1, 1, 0], vec![5, 2, 8]];
    for seed in seeds {
        let mut grid = carved_grid(4, 4);
        let mut rng = MazeRng::scripted(seed);
        sidewinder::on(&mut grid, &mut rng);
        assert_eq!(link_count(&grid), 15);
        for column in 0..3usize {
            let cell = grid.get_cell(0, column).unwrap();
            assert!(cell.linked(Coord { row: 0, column: column + 1 }));
        }
        let d = Distance::distances(&grid, Coord { row: 1, column: 2 });
        assert_eq!(d.cells().len(), 16);
    }
}

#[test]
fn recursive_backtracker_two_by_two_three_links() {
    // only one spanning-tree shape family exists on a 2x2 grid: whatever
    // the random draws, exactly 3 links connect all 4 cells
    let seeds: Vec<Vec<u64>> = vec![vec![0], vec![1], vec![1, 0], vec![2, 1, 0], vec![9, 9, 9]];
    for seed in seeds {
        let mut grid = carved_grid(2, 2);
        let mut rng = MazeRng::scripted(seed);
        recursive_backtracker::on(&mut grid, &mut rng);
        assert_eq!(link_count(&grid), 3);
        let d = Distance::distances(&grid, Coord { row: 0, column: 0 });
        assert_eq!(d.cells().len(), 4);
    }
}

#[test]
fn recursive_backtracker_spans_larger_grid() {
    let mut grid = carved_grid(6, 5);
    let mut rng = MazeRng::system();
    recursive_backtracker::on(&mut grid, &mut rng);
    assert_eq!(link_count(&grid), 29);
    let d = Distance::distances(&grid, Coord { row: 3, column: 2 });
    assert_eq!(d.cells().len(), 30);
}

#[test]
fn kruskal_spans_and_links_neighbors_only() {
    let seeds: Vec<Vec<u64>> = vec![vec![0], vec![3, 1, 4, 1, 5], vec![2, 7, 1, 8]];
    for seed in seeds {
        let mut grid = carved_grid(4, 4);
        let mut rng = MazeRng::scripted(seed);
        kruskal::on(&mut grid, &mut rng);
        assert_eq!(link_count(&grid), 15);
        let d = Distance::distances(&grid, Coord { row: 0, column: 0 });
        assert_eq!(d.cells().len(), 16);
        for row in &grid.grid {
            for cell in row {
                for partner in &cell.links {
                    let dr = cell.row.abs_diff(partner.row);
                    let dc = cell.column.abs_diff(partner.column);
                    assert_eq!(dr + dc, 1);
                }
            }
        }
    }
}

#[test]
fn kruskal_structures_are_built_fresh() {
    let grid = carved_grid(3, 3);
    let mut rng = MazeRng::scripted(vec![0]);
    let k = Kruskal::new(&grid, &mut rng);
    assert_eq!(k.nodes.len(), 9);
    for node in &k.nodes {
        assert!(node.parent.is_none());
    }
    assert_eq!(k.edges.len(), 12);
    let (row, column) = k.nodes[4].root(&k.nodes, 3);
    assert_eq!((row, column), (k.nodes[4].row, k.nodes[4].column));
}

#[test]
fn kruskal_find_node_resolves_both_endpoints() {
    let grid = carved_grid(2, 3);
    let mut rng = MazeRng::scripted(vec![0]);
    let k = Kruskal::new(&grid, &mut rng);
    for edge in &k.edges {
        let (i, j) = edge.find_node(&k.nodes).unwrap();
        assert_eq!(k.nodes[i].row, edge.row);
        assert_eq!(k.nodes[i].column, edge.column);
        if edge.horizontal {
            assert_eq!(k.nodes[j].row, edge.row + 1);
            assert_eq!(k.nodes[j].column, edge.column);
        } else {
            assert_eq!(k.nodes[j].row, edge.row);
            assert_eq!(k.nodes[j].column, edge.column + 1);
        }
    }
}

#[test]
fn one_cell_grid_has_no_links() {
    let algorithms: Vec<usize> = vec![0, 1, 2, 3];
    for which in algorithms {
        let mut grid = carved_grid(1, 1);
        let mut rng = MazeRng::scripted(vec![0]);
        match which {
            0 => binary_tree::on(&mut grid, &mut rng),
            1 => sidewinder::on(&mut grid, &mut rng),
            2 => recursive_backtracker::on(&mut grid, &mut rng),
            _ => kruskal::on(&mut grid, &mut rng),
        }
        assert_eq!(link_count(&grid), 0);
        let d = Distance::distances(&grid, Coord { row: 0, column: 0 });
        assert_eq!(d.get(Coord { row: 0, column: 0 }), Some(0));
        assert_eq!(d.cells().len(), 1);
    }
}

#[test]
fn bfs_distances_differ_by_one_across_links() {
    let mut grid = carved_grid(5, 5);
    let mut rng = MazeRng::scripted(vec![1, 0, 1, 1, 0, 0, 1]);
    recursive_backtracker::on(&mut grid, &mut rng);
    let d = Distance::distances(&grid, Coord { row: 2, column: 2 });
    for row in &grid.grid {
        for cell in row {
            let here = d.get(Coord { row: cell.row, column: cell.column }).unwrap();
            for partner in &cell.links {
                let there = d.get(*partner).unwrap();
                assert_eq!(here.abs_diff(there), 1);
            }
        }
    }
}

#[test]
fn bfs_records_hop_counts() {
    // a 1x4 corridor carved by hand: distances grow one per hop
    let mut grid = carved_grid(1, 4);
    for column in 0..3usize {
        mazegrid::cell::link(
            &mut grid,
            Coord { row: 0, column },
            Coord { row: 0, column: column + 1 },
        );
    }
    let d = Distance::distances(&grid, Coord { row: 0, column: 0 });
    for column in 0..4usize {
        assert_eq!(d.get(Coord { row: 0, column }), Some(column));
    }
}

#[test]
fn path_to_walks_back_to_the_root() {
    let mut grid = carved_grid(4, 4);
    let mut rng = MazeRng::scripted(vec![0, 1, 1, 0, 1]);
    recursive_backtracker::on(&mut grid, &mut rng);
    let root = Coord { row: 0, column: 0 };
    let goal = Coord { row: 3, column: 3 };
    let d = Distance::distances(&grid, root);
    let path = d.path_to(&grid, goal).unwrap();
    assert_eq!(path.get(root), Some(0));
    assert_eq!(path.get(goal), d.get(goal));
    // the breadcrumb holds one cell per hop from root to goal
    assert_eq!(path.cells().len(), d.get(goal).unwrap() + 1);
}

#[test]
fn path_to_unvisited_goal_reports_no_path() {
    let grid = carved_grid(3, 3);
    let d = Distance::distances(&grid, Coord { row: 0, column: 0 });
    assert!(d.path_to(&grid, Coord { row: 2, column: 2 }).is_none());
}

#[test]
fn path_to_without_descending_neighbor_reports_no_path() {
    // a hand-made table that records a cell no walk can leave: the walk
    // must report the absence of a path instead of looping
    let grid = carved_grid(2, 2);
    let mut d = Distance::new(Coord { row: 0, column: 0 }, 2, 2);
    d.set(Coord { row: 1, column: 1 }, 5);
    assert!(d.path_to(&grid, Coord { row: 1, column: 1 }).is_none());
}

#[test]
fn set_distance_attaches_result_to_grid() {
    let mut grid = carved_grid(2, 2);
    let mut rng = MazeRng::scripted(vec![0]);
    binary_tree::on(&mut grid, &mut rng);
    let d = Distance::distances(&grid, Coord { row: 0, column: 0 });
    grid.set_distance(d);
    assert!(grid.distance.is_some());
    let stored = grid.distance.as_ref().unwrap();
    assert_eq!(stored.get(Coord { row: 0, column: 0 }), Some(0));
}
