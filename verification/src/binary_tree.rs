//! Binary-tree maze generation: every cell independently links to one of
//! its north or east neighbors, chosen at random.
use vstd::prelude::*;

use crate::cell::Coord;
use crate::cell::link;
use crate::grid::Grid;
use crate::grid::lex_before;
use crate::rng::MazeRng;

verus! {

/// How many of the first `k` cells in row-major order of a configured grid
/// have a north or east neighbor: all of them except the north-east corner
/// cell, which sits at row-major position `columns - 1`.
spec fn carved_below(columns: int, k: int) -> int {
    if k >= columns {
        k - 1
    } else {
        k
    }
}

/// Carves a maze with the binary-tree policy: for every cell, the subset
/// of its north and east neighbors that exist is collected, and when it is
/// non-empty one member is chosen at random and linked. Only north/east
/// neighbor pairs are ever linked, and on a freshly configured grid the
/// carved graph has exactly `rows * columns - 1` links.
pub fn on(grid: &mut Grid, rng: &mut MazeRng)
    requires
        old(grid).wf(),
    ensures
        final(grid).wf(),
        old(grid).same_shape(*final(grid)),
        final(grid).distance == old(grid).distance,
        forall|p: Coord, q: Coord| old(grid).is_linked(p, q) ==> final(grid).is_linked(p, q),
        forall|p: Coord, q: Coord|
            final(grid).is_linked(p, q) ==> old(grid).is_linked(p, q) || old(grid).ne_of(p, q)
                || old(grid).ne_of(q, p),
        old(grid).configured() && old(grid).all_unlinked() && old(grid).rows >= 1 && old(
            grid,
        ).columns >= 1 ==> final(grid).total_link_entries() == 2 * (old(grid).rows * old(
            grid,
        ).columns - 1),
{
    let ghost g0 = *old(grid);
    let ghost cfg = g0.configured() && g0.all_unlinked() && g0.rows >= 1 && g0.columns >= 1;
    let rows = grid.rows;
    let columns = grid.columns;
    proof {
        if cfg {
            crate::grid::lemma_entries_of_unlinked(g0);
        }
    }
    let mut row: usize = 0;
    while row < rows
        invariant
            row <= rows,
            grid.wf(),
            g0.wf(),
            grid.rows == rows,
            grid.columns == columns,
            g0.rows == rows,
            g0.columns == columns,
            cfg == (g0.configured() && g0.all_unlinked() && g0.rows >= 1 && g0.columns >= 1),
            g0.same_shape(*grid),
            grid.distance == g0.distance,
            forall|p: Coord, q: Coord| g0.is_linked(p, q) ==> grid.is_linked(p, q),
            forall|p: Coord, q: Coord|
                grid.is_linked(p, q) ==> g0.is_linked(p, q) || g0.ne_of(p, q) || g0.ne_of(q, p),
            cfg ==> forall|p: Coord, q: Coord|
                #[trigger] grid.is_linked(p, q) ==> (lex_before(p, row as int, 0) && g0.ne_of(
                    p,
                    q,
                )) || (lex_before(q, row as int, 0) && g0.ne_of(q, p)),
            cfg ==> grid.total_link_entries() == 2 * carved_below(
                columns as int,
                row as int * columns as int,
            ),
        decreases rows - row,
    {
        let mut column: usize = 0;
        while column < columns
            invariant
                row < rows,
                column <= columns,
                grid.wf(),
                g0.wf(),
                grid.rows == rows,
                grid.columns == columns,
                g0.rows == rows,
                g0.columns == columns,
                cfg == (g0.configured() && g0.all_unlinked() && g0.rows >= 1 && g0.columns >= 1),
                g0.same_shape(*grid),
                grid.distance == g0.distance,
                forall|p: Coord, q: Coord| g0.is_linked(p, q) ==> grid.is_linked(p, q),
                forall|p: Coord, q: Coord|
                    grid.is_linked(p, q) ==> g0.is_linked(p, q) || g0.ne_of(p, q) || g0.ne_of(
                        q,
                        p,
                    ),
                cfg ==> forall|p: Coord, q: Coord|
                    #[trigger] grid.is_linked(p, q) ==> (lex_before(p, row as int, column as int)
                        && g0.ne_of(p, q)) || (lex_before(q, row as int, column as int)
                        && g0.ne_of(q, p)),
                cfg ==> grid.total_link_entries() == 2 * carved_below(
                    columns as int,
                    row as int * columns as int + column as int,
                ),
            decreases columns - column,
        {
            let p = Coord { row, column };
            let north = grid.grid[row][column].north;
            let east = grid.grid[row][column].east;
            proof {
                assert(grid.wf_cell(p));
                assert(g0.wf_cell(p));
                assert(g0.cell_at(p).north == north);
                assert(g0.cell_at(p).east == east);
            }
            let mut neighbors: Vec<Coord> = Vec::new();
            if let Some(n) = north {
                neighbors.push(n);
            }
            if let Some(e) = east {
                neighbors.push(e);
            }
            let ghost k = row as int * columns as int + column as int;
            if neighbors.len() > 0 {
                let index = rng.next_below(neighbors.len());
                let nb = neighbors[index];
                proof {
                    assert(north matches Some(n) ==> grid.in_bounds(n) && n != p);
                    assert(east matches Some(e) ==> grid.in_bounds(e) && e != p);
                    assert(nb == north.unwrap() || nb == east.unwrap());
                }
                let ghost pre = *grid;
                proof {
                    if cfg && pre.is_linked(p, nb) {
                        assert(!lex_before(p, row as int, column as int));
                        assert(g0.wf_cell(nb));
                        assert(!g0.ne_of(nb, p));
                        assert(false);
                    }
                }
                link(grid, p, nb);
                proof {
                    if cfg {
                        // this cell has a north or east neighbor, so it is not
                        // the north-east corner at row-major position columns - 1
                        assert(g0.configured_cell(p));
                        assert(!(p.row == 0 && p.column + 1 == columns));
                        let ri = row as int;
                        let ci = column as int;
                        let cols = columns as int;
                        assert(k != cols - 1 && 0 <= k) by (nonlinear_arith)
                            requires
                                k == ri * cols + ci,
                                0 <= ri,
                                0 <= ci,
                                ci < cols,
                                !(ri == 0 && ci + 1 == cols),
                        ;
                        assert(carved_below(columns as int, k + 1) == carved_below(
                            columns as int,
                            k,
                        ) + 1);
                        assert(grid.total_link_entries() == 2 * carved_below(
                            columns as int,
                            k + 1,
                        ));
                    }
                    assert forall|p2: Coord, q2: Coord| grid.is_linked(p2, q2) implies g0.is_linked(
                        p2,
                        q2,
                    ) || g0.ne_of(p2, q2) || g0.ne_of(q2, p2) by {
                        if !((p2 == p && q2 == nb) || (p2 == nb && q2 == p)) {
                            assert(pre.is_linked(p2, q2));
                        } else {
                            assert(g0.ne_of(p, nb));
                        }
                    }
                    if cfg {
                        assert forall|p2: Coord, q2: Coord| #[trigger] grid.is_linked(
                            p2,
                            q2,
                        ) implies (lex_before(p2, row as int, column as int + 1) && g0.ne_of(
                            p2,
                            q2,
                        )) || (lex_before(q2, row as int, column as int + 1) && g0.ne_of(
                            q2,
                            p2,
                        )) by {
                            if !((p2 == p && q2 == nb) || (p2 == nb && q2 == p)) {
                                assert(pre.is_linked(p2, q2));
                            } else {
                                assert(lex_before(p, row as int, column as int + 1));
                                assert(g0.ne_of(p, nb));
                            }
                        }
                    }
                }
            } else {
                proof {
                    if cfg {
                        assert(g0.configured_cell(p));
                        assert(p.row == 0 && p.column + 1 == columns);
                        let ri = row as int;
                        let ci = column as int;
                        let cols = columns as int;
                        assert(k == cols - 1) by (nonlinear_arith)
                            requires
                                k == ri * cols + ci,
                                ri == 0,
                                ci == cols - 1,
                        ;
                        assert(carved_below(columns as int, k + 1) == carved_below(
                            columns as int,
                            k,
                        ));
                    }
                }
            }
            column = column + 1;
        }
        proof {
            if cfg {
                let ri = row as int;
                let cols = columns as int;
                assert(ri * cols + cols == (ri + 1) * cols) by (nonlinear_arith);
                assert forall|p2: Coord, q2: Coord| #[trigger] grid.is_linked(p2, q2) implies (
                lex_before(p2, row as int + 1, 0) && g0.ne_of(p2, q2)) || (lex_before(
                    q2,
                    row as int + 1,
                    0,
                ) && g0.ne_of(q2, p2)) by {
                    assert(grid.wf_links_at(p2));
                    if grid.is_linked(p2, q2) {
                        assert(grid.in_bounds(p2));
                        let i = choose|i: int|
                            0 <= i < grid.links_at(p2).len() && grid.links_at(p2)[i] == q2;
                        assert(grid.in_bounds(q2));
                    }
                }
            }
        }
        row = row + 1;
    }
    proof {
        if cfg {
            let rs = rows as int;
            let cols = columns as int;
            assert(rs * cols >= cols) by (nonlinear_arith)
                requires
                    rs >= 1,
                    cols >= 1,
            ;
        }
    }
}

} // verus!
