//! Recursive-backtracker maze generation: randomized depth-first carving
//! from the origin, with an explicit stack of visited cells.
use vstd::prelude::*;

use crate::cell::Coord;
use crate::cell::link;
use crate::grid::Grid;
use crate::grid::grid_empties;
use crate::grid::lemma_closed_covers_all;
use crate::grid::lemma_empties_bounds;
use crate::grid::lemma_empties_of_covered;
use crate::grid::lemma_entries_of_unlinked;
use crate::rng::MazeRng;

verus! {

/// Carves a maze by randomized depth-first search. The stack starts at the
/// origin `(0, 0)`; while it is non-empty, the top cell's positional
/// neighbors with an empty link set are collected, and either one of them
/// is linked and pushed, or the top is popped. On a freshly configured
/// grid every cell ends up carved and the carved graph has exactly
/// `rows * columns - 1` links.
pub fn on(grid: &mut Grid, rng: &mut MazeRng)
    requires
        old(grid).wf(),
        old(grid).rows >= 1,
        old(grid).columns >= 1,
    ensures
        final(grid).wf(),
        old(grid).same_shape(*final(grid)),
        final(grid).distance == old(grid).distance,
        forall|p: Coord, q: Coord| old(grid).is_linked(p, q) ==> final(grid).is_linked(p, q),
        forall|p: Coord, q: Coord|
            final(grid).is_linked(p, q) ==> old(grid).is_linked(p, q) || old(grid).neighbor_of(
                p,
                q,
            ) || old(grid).neighbor_of(q, p),
        old(grid).configured() && old(grid).all_unlinked() ==> final(grid).total_link_entries()
            == 2 * (old(grid).rows * old(grid).columns - 1),
        old(grid).configured() && old(grid).all_unlinked() && old(grid).rows * old(grid).columns
            >= 2 ==> forall|p: Coord|
            final(grid).in_bounds(p) ==> (#[trigger] final(grid).links_at(p)).len() > 0,
{
    let ghost g0 = *old(grid);
    let ghost cfg = g0.configured() && g0.all_unlinked();
    let ghost root = Coord { row: 0usize, column: 0usize };
    proof {
        lemma_empties_bounds(g0);
        if cfg {
            lemma_entries_of_unlinked(g0);
        }
    }
    let mut stack: Vec<Coord> = Vec::new();
    stack.push(Coord { row: 0, column: 0 });
    while stack.len() > 0
        invariant
            grid.wf(),
            g0.wf(),
            grid.rows == g0.rows,
            grid.columns == g0.columns,
            g0.rows >= 1,
            g0.columns >= 1,
            root == (Coord { row: 0usize, column: 0usize }),
            cfg == (g0.configured() && g0.all_unlinked()),
            g0.same_shape(*grid),
            grid.distance == g0.distance,
            0 <= grid_empties(grid.grid@),
            forall|i: int| 0 <= i < stack@.len() ==> grid.in_bounds(#[trigger] stack@[i]),
            forall|p: Coord, q: Coord| g0.is_linked(p, q) ==> grid.is_linked(p, q),
            forall|p: Coord, q: Coord|
                grid.is_linked(p, q) ==> g0.is_linked(p, q) || g0.neighbor_of(p, q)
                    || g0.neighbor_of(q, p),
            cfg ==> forall|x: Coord, y: Coord|
                grid.in_bounds(x) && grid.links_at(x).len() > 0 && !stack@.contains(x)
                    && #[trigger] g0.neighbor_of(x, y) ==> grid.links_at(y).len() > 0,
            cfg ==> if grid.links_at(root).len() == 0 {
                *grid == g0 && (stack@ == seq![root] || (stack@.len() == 0 && g0.rows == 1
                    && g0.columns == 1))
            } else {
                grid.total_link_entries() == 2 * (g0.rows * g0.columns - grid_empties(grid.grid@)
                    - 1)
            },
            cfg && grid.links_at(root).len() > 0 ==> forall|i: int|
                0 <= i < stack@.len() ==> grid.links_at(#[trigger] stack@[i]).len() > 0,
        decreases grid_empties(grid.grid@), stack@.len(),
    {
        let top = stack[stack.len() - 1];
        proof {
            assert(grid.wf_cell(top));
            assert(g0.wf_cell(top));
        }
        let c_north = grid.grid[top.row][top.column].north;
        let c_south = grid.grid[top.row][top.column].south;
        let c_east = grid.grid[top.row][top.column].east;
        let c_west = grid.grid[top.row][top.column].west;
        let mut unvisited: Vec<Coord> = Vec::new();
        if let Some(n) = c_north {
            if grid.grid[n.row][n.column].links.is_empty() {
                unvisited.push(n);
            }
        }
        if let Some(n) = c_south {
            if grid.grid[n.row][n.column].links.is_empty() {
                unvisited.push(n);
            }
        }
        if let Some(n) = c_east {
            if grid.grid[n.row][n.column].links.is_empty() {
                unvisited.push(n);
            }
        }
        if let Some(n) = c_west {
            if grid.grid[n.row][n.column].links.is_empty() {
                unvisited.push(n);
            }
        }
        proof {
            broadcast use vstd::seq_lib::lemma_seq_contains_after_push;

            assert forall|i: int| 0 <= i < unvisited@.len() implies {
                let q = #[trigger] unvisited@[i];
                grid.in_bounds(q) && q != top && g0.neighbor_of(top, q) && grid.links_at(q).len()
                    == 0
            } by {}
            assert forall|y: Coord|
                g0.neighbor_of(top, y) && grid.links_at(y).len() == 0 implies unvisited@.contains(
                y,
            ) by {}
        }
        if unvisited.len() == 0 {
            let ghost pre_stack = stack@;
            stack.pop();
            proof {
                assert(stack@ =~= pre_stack.drop_last());
                if cfg {
                    assert forall|x: Coord, y: Coord|
                        grid.in_bounds(x) && grid.links_at(x).len() > 0 && !stack@.contains(x)
                            && #[trigger] g0.neighbor_of(x, y) implies grid.links_at(y).len()
                        > 0 by {
                    if pre_stack.contains(x) {
                        let i = choose|i: int| 0 <= i < pre_stack.len() && pre_stack[i] == x;
                        if i < pre_stack.len() - 1 {
                            assert(stack@[i] == x);
                            assert(stack@.contains(x));
                        } else {
                            assert(x == top);
                        }
                    }
                    }
                }
                if cfg && grid.links_at(root).len() == 0 {
                    // the origin is still untouched, so the whole grid is: a pop
                    // means the origin has no neighbors at all, a one-cell grid
                    assert(pre_stack == seq![root]);
                    assert(top == root);
                    assert(g0.configured_cell(root));
                    if g0.rows >= 2 {
                        let below = Coord { row: 1usize, column: 0usize };
                        assert(g0.cell_at(root).south == Some(below));
                        assert(g0.neighbor_of(root, below));
                        assert(grid.links_at(below).len() == 0);
                        assert(unvisited@.contains(below));
                        assert(false);
                    }
                    if g0.columns >= 2 {
                        let right = Coord { row: 0usize, column: 1usize };
                        assert(g0.cell_at(root).east == Some(right));
                        assert(g0.neighbor_of(root, right));
                        assert(grid.links_at(right).len() == 0);
                        assert(unvisited@.contains(right));
                        assert(false);
                    }
                    assert(g0.rows == 1 && g0.columns == 1);
                }
            }
        } else {
            let index = rng.next_below(unvisited.len());
            let nb = unvisited[index];
            let ghost pre = *grid;
            let ghost pre_stack = stack@;
            proof {
                assert(g0.neighbor_of(top, nb));
                assert(pre.links_at(nb).len() == 0);
                assert(!pre.is_linked(top, nb)) by {
                    if pre.is_linked(top, nb) {
                        crate::cell::lemma_linked_symmetric(pre, top, nb);
                        assert(pre.links_at(nb).contains(top));
                    }
                }
            }
            link(grid, top, nb);
            stack.push(nb);
            proof {
                broadcast use vstd::seq_lib::lemma_seq_contains_after_push;

                lemma_empties_bounds(*grid);
                assert forall|p2: Coord, q2: Coord| grid.is_linked(p2, q2) implies g0.is_linked(
                    p2,
                    q2,
                ) || g0.neighbor_of(p2, q2) || g0.neighbor_of(q2, p2) by {
                    if !((p2 == top && q2 == nb) || (p2 == nb && q2 == top)) {
                        assert(pre.is_linked(p2, q2));
                    }
                }
                if cfg {
                    assert forall|x: Coord, y: Coord|
                        grid.in_bounds(x) && grid.links_at(x).len() > 0 && !stack@.contains(x)
                            && #[trigger] g0.neighbor_of(x, y) implies grid.links_at(y).len()
                        > 0 by {
                        if x != top && x != nb {
                            assert(grid.links_at(x) == pre.links_at(x));
                            assert(!pre_stack.contains(x));
                            assert(g0.wf_cell(x));
                            assert(g0.in_bounds(y));
                            if y != top && y != nb {
                                assert(grid.links_at(y) == pre.links_at(y));
                            }
                        } else {
                            assert(pre_stack.contains(top));
                            assert(stack@.contains(top));
                            assert(stack@.contains(nb));
                            assert(false);
                        }
                    }
                }
                if cfg {
                    if pre.links_at(root).len() == 0 {
                        // the first carved link: the stack held only the origin,
                        // so both endpoints were undiscovered
                        assert(pre_stack == seq![root]);
                        assert(top == root);
                        assert(pre == g0);
                        assert(pre.links_at(top).len() == 0);
                        assert(grid_empties(grid.grid@) == grid_empties(pre.grid@) - 2);
                        assert(grid.links_at(root).len() > 0);
                        lemma_entries_of_unlinked(pre);
                        assert(grid.total_link_entries() == 2);
                        lemma_empties_bounds(pre);
                        assert(grid_empties(pre.grid@) == g0.rows * g0.columns);
                    } else {
                        assert(pre_stack.contains(top));
                        assert(pre.links_at(top).len() > 0);
                        assert(grid_empties(grid.grid@) == grid_empties(pre.grid@) - 1);
                        assert(grid.links_at(root).len() >= pre.links_at(root).len());
                    }
                    assert forall|i: int| 0 <= i < stack@.len() implies grid.links_at(
                        #[trigger] stack@[i],
                    ).len() > 0 by {
                        if i < stack@.len() - 1 {
                            let s = pre_stack[i];
                            assert(stack@[i] == s);
                            if s != top && s != nb {
                                assert(grid.links_at(s) == pre.links_at(s));
                            }
                            if pre.links_at(root).len() == 0 {
                                assert(s == root);
                            } else {
                                assert(pre.links_at(s).len() > 0);
                            }
                        } else {
                            assert(stack@[i] == nb);
                        }
                    }
                }
            }
        }
    }
    proof {
        if cfg {
            if grid.links_at(root).len() == 0 {
                assert(g0.rows == 1 && g0.columns == 1);
                let rs = g0.rows as int;
                let cols = g0.columns as int;
                assert(rs * cols == 1) by (nonlinear_arith)
                    requires
                        rs == 1,
                        cols == 1,
                ;
                assert(*grid == g0);
                assert(grid.total_link_entries() == 0);
            } else {
                assert forall|p: Coord| grid.in_bounds(p) implies (#[trigger] grid.links_at(
                    p,
                )).len() > 0 by {
                    assert forall|x: Coord, y: Coord|
                        grid.in_bounds(x) && grid.links_at(x).len() > 0 && #[trigger] grid.neighbor_of(
                            x,
                            y,
                        ) implies grid.links_at(y).len() > 0 by {
                        assert(g0.cell_at(x).north == grid.cell_at(x).north);
                        assert(g0.cell_at(x).south == grid.cell_at(x).south);
                        assert(g0.cell_at(x).east == grid.cell_at(x).east);
                        assert(g0.cell_at(x).west == grid.cell_at(x).west);
                        assert(g0.neighbor_of(x, y));
                    }
                    assert forall|p2: Coord| grid.in_bounds(p2) implies #[trigger] grid.configured_cell(
                        p2,
                    ) by {
                        assert(g0.configured_cell(p2));
                        assert(g0.cell_at(p2).north == grid.cell_at(p2).north);
                        assert(g0.cell_at(p2).south == grid.cell_at(p2).south);
                        assert(g0.cell_at(p2).east == grid.cell_at(p2).east);
                        assert(g0.cell_at(p2).west == grid.cell_at(p2).west);
                    }
                    lemma_closed_covers_all(*grid, p);
                }
                lemma_empties_of_covered(*grid);
            }
        }
    }
}

} // verus!
