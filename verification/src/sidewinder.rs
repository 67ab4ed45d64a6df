//! Sidewinder maze generation: rows are carved left to right as "runs" of
//! east-linked cells; each run is closed out by linking one random member
//! upward, except in the top row, which becomes one long corridor.
use vstd::prelude::*;

use crate::cell::Coord;
use crate::cell::link;
use crate::grid::Grid;
use crate::grid::lex_before;
use crate::rng::MazeRng;

verus! {

/// Number of links carved by the rows before row `r` of a configured
/// grid: the top row contributes `columns - 1` east links and no upward
/// link; every later row contributes exactly `columns` links.
spec fn rows_done(columns: int, r: int) -> int {
    if r == 0 {
        0
    } else {
        (columns - 1) + (r - 1) * columns
    }
}

/// Number of links carved once the first `c` cells of row `r` have been
/// handled: in the top row every cell but the last contributes one east
/// link; in later rows every cell contributes one link, east or upward.
spec fn links_done(columns: int, r: int, c: int) -> int {
    rows_done(columns, r) + if r == 0 {
        if c >= columns - 1 {
            columns - 1
        } else {
            c
        }
    } else {
        c
    }
}

/// How far the top row's corridor provably reaches while position
/// `(r, c)` is being processed: the whole row once it is finished, else
/// the cells already walked.
spec fn top_done(columns: int, r: int, c: int) -> int {
    if r == 0 {
        if c >= columns - 1 {
            columns - 1
        } else {
            c
        }
    } else {
        columns - 1
    }
}

/// The shape every carved link has while row `r` is being processed at
/// column `c` with the current run starting at column `run_start`: an east
/// pair whose west endpoint was already handled, or an upward pair whose
/// lower endpoint lies in a finished row or before the current run.
spec fn sw_pair(g0: Grid, p: Coord, q: Coord, r: int, c: int, run_start: int) -> bool {
    ||| (g0.in_bounds(p) && g0.cell_at(p).east == Some(q) && lex_before(p, r, c))
    ||| (g0.in_bounds(q) && g0.cell_at(q).east == Some(p) && lex_before(q, r, c))
    ||| (g0.in_bounds(p) && g0.cell_at(p).north == Some(q) && (p.row < r || (p.row == r
        && p.column < run_start)))
    ||| (g0.in_bounds(q) && g0.cell_at(q).north == Some(p) && (q.row < r || (q.row == r
        && q.column < run_start)))
}

/// Carves a maze with the sidewinder policy. Each row is walked left to
/// right, extending a run of east-linked cells; a run is closed out at the
/// row's end or by a coin flip when an upward link is possible, and on
/// close-out one member of the run, chosen at random, is linked to its
/// north neighbor. Only east and north neighbor pairs are ever linked, and
/// on a freshly configured grid the carved graph has exactly
/// `rows * columns - 1` links.
pub fn on(grid: &mut Grid, rng: &mut MazeRng)
    requires
        old(grid).wf(),
    ensures
        final(grid).wf(),
        old(grid).same_shape(*final(grid)),
        final(grid).distance == old(grid).distance,
        forall|p: Coord, q: Coord| old(grid).is_linked(p, q) ==> final(grid).is_linked(p, q),
        forall|p: Coord, q: Coord|
            final(grid).is_linked(p, q) ==> old(grid).is_linked(p, q) || old(grid).ne_of(p, q)
                || old(grid).ne_of(q, p),
        old(grid).configured() && old(grid).all_unlinked() && old(grid).rows >= 1 && old(
            grid,
        ).columns >= 1 ==> final(grid).total_link_entries() == 2 * (old(grid).rows * old(
            grid,
        ).columns - 1),
        old(grid).configured() && old(grid).all_unlinked() && old(grid).rows >= 1 && old(
            grid,
        ).columns >= 1 ==> forall|cc: int|
            0 <= cc < old(grid).columns - 1 ==> #[trigger] final(grid).is_linked(
                (Coord { row: 0, column: cc as usize }),
                (Coord { row: 0, column: (cc + 1) as usize }),
            ),
{
    let ghost g0 = *old(grid);
    let ghost cfg = g0.configured() && g0.all_unlinked() && g0.rows >= 1 && g0.columns >= 1;
    let rows = grid.rows;
    let columns = grid.columns;
    proof {
        if cfg {
            crate::grid::lemma_entries_of_unlinked(g0);
        }
    }
    let mut row: usize = 0;
    while row < rows
        invariant
            row <= rows,
            grid.wf(),
            g0.wf(),
            grid.rows == rows,
            grid.columns == columns,
            g0.rows == rows,
            g0.columns == columns,
            cfg == (g0.configured() && g0.all_unlinked() && g0.rows >= 1 && g0.columns >= 1),
            g0.same_shape(*grid),
            grid.distance == g0.distance,
            forall|p: Coord, q: Coord| g0.is_linked(p, q) ==> grid.is_linked(p, q),
            forall|p: Coord, q: Coord|
                grid.is_linked(p, q) ==> g0.is_linked(p, q) || g0.ne_of(p, q)
                    || g0.ne_of(q, p),
            cfg ==> forall|p: Coord, q: Coord|
                #[trigger] grid.is_linked(p, q) ==> sw_pair(g0, p, q, row as int, 0, 0),
            cfg ==> grid.total_link_entries() == 2 * rows_done(columns as int, row as int),
            cfg ==> forall|cc: int|
                0 <= cc < top_done(columns as int, row as int, 0) ==> #[trigger] grid.is_linked(
                    (Coord { row: 0, column: cc as usize }),
                    (Coord { row: 0, column: (cc + 1) as usize }),
                ),
        decreases rows - row,
    {
        let mut run: Vec<Coord> = Vec::new();
        let ghost mut run_start: int = 0;
        let mut column: usize = 0;
        while column < columns
            invariant
                row < rows,
                column <= columns,
                grid.wf(),
                g0.wf(),
                grid.rows == rows,
                grid.columns == columns,
                g0.rows == rows,
                g0.columns == columns,
                cfg == (g0.configured() && g0.all_unlinked() && g0.rows >= 1 && g0.columns >= 1),
                g0.same_shape(*grid),
                grid.distance == g0.distance,
                0 <= run_start <= column as int,
                run@.len() == column as int - run_start,
                forall|i: int| 0 <= i < run@.len() ==> (#[trigger] run@[i]) == (Coord {
                    row,
                    column: (run_start + i) as usize,
                }),
                forall|p: Coord, q: Coord| g0.is_linked(p, q) ==> grid.is_linked(p, q),
                forall|p: Coord, q: Coord|
                    grid.is_linked(p, q) ==> g0.is_linked(p, q) || g0.ne_of(p, q)
                        || g0.ne_of(q, p),
                cfg ==> forall|p: Coord, q: Coord|
                    #[trigger] grid.is_linked(p, q) ==> sw_pair(
                        g0,
                        p,
                        q,
                        row as int,
                        column as int,
                        run_start,
                    ),
                cfg ==> grid.total_link_entries() == 2 * links_done(
                    columns as int,
                    row as int,
                    column as int,
                ),
                cfg ==> forall|cc: int|
                    0 <= cc < top_done(columns as int, row as int, column as int)
                        ==> #[trigger] grid.is_linked(
                        (Coord { row: 0, column: cc as usize }),
                        (Coord { row: 0, column: (cc + 1) as usize }),
                    ),
            decreases columns - column,
        {
            let p = Coord { row, column };
            run.push(p);
            let north = grid.grid[row][column].north;
            let east = grid.grid[row][column].east;
            proof {
                assert(grid.wf_cell(p));
                assert(g0.wf_cell(p));
                assert(g0.cell_at(p).north == north);
                assert(g0.cell_at(p).east == east);
            }
            let mut should_close = east.is_none();
            if !should_close && north.is_some() {
                should_close = rng.next_below(2) == 0;
            }
            if should_close {
                let member_index = rng.next_below(run.len());
                let member = run[member_index];
                proof {
                    assert(member.row == row && run_start <= member.column <= column);
                    assert(grid.in_bounds(member));
                }
                let member_north = grid.grid[member.row][member.column].north;
                proof {
                    assert(grid.wf_cell(member));
                    assert(g0.wf_cell(member));
                    assert(g0.cell_at(member).north == member_north);
                }
                match member_north {
                    Some(q) => {
                        proof {
                            assert(grid.in_bounds(q) && q != member);
                        }
                        let ghost pre = *grid;
                        proof {
                            if cfg && pre.is_linked(member, q) {
                                assert(g0.wf_cell(q));
                                assert(sw_pair(
                                    g0,
                                    member,
                                    q,
                                    row as int,
                                    column as int,
                                    run_start,
                                ));
                                assert(false);
                            }
                        }
                        link(grid, member, q);
                        run.clear();
                        proof {
                            let ghost rs1: int = column as int + 1;
                            if cfg {
                                // closing out with an upward link is only possible
                                // below the top row, where every cell contributes
                                // one link
                                assert(row >= 1);
                                assert(links_done(columns as int, row as int, column as int + 1)
                                    == links_done(columns as int, row as int, column as int) + 1);
                            }
                            assert forall|p2: Coord, q2: Coord| grid.is_linked(p2, q2) implies
                                g0.is_linked(p2, q2) || g0.ne_of(p2, q2) || g0.ne_of(q2, p2) by {
                                if !((p2 == member && q2 == q) || (p2 == q && q2 == member)) {
                                    assert(pre.is_linked(p2, q2));
                                }
                            }
                            if cfg {
                                assert forall|p2: Coord, q2: Coord| #[trigger] grid.is_linked(
                                    p2,
                                    q2,
                                ) implies sw_pair(g0, p2, q2, row as int, column as int + 1, rs1)
                                    by {
                                    if !((p2 == member && q2 == q) || (p2 == q && q2
                                        == member)) {
                                        assert(pre.is_linked(p2, q2));
                                        assert(sw_pair(
                                            g0,
                                            p2,
                                            q2,
                                            row as int,
                                            column as int,
                                            run_start,
                                        ));
                                    } else {
                                        assert(g0.cell_at(member).north == Some(q));
                                    }
                                }
                            }
                        }
                        proof {
                            run_start = column as int + 1;
                            if cfg {
                                assert forall|cc: int|
                                    0 <= cc < top_done(
                                        columns as int,
                                        row as int,
                                        column as int + 1,
                                    ) implies #[trigger] grid.is_linked(
                                    (Coord { row: 0, column: cc as usize }),
                                    (Coord { row: 0, column: (cc + 1) as usize }),
                                ) by {
                                    let pa = Coord { row: 0, column: cc as usize };
                                    let pb = Coord { row: 0, column: (cc + 1) as usize };
                                    if !((pa == member && pb == q) || (pa == q && pb
                                        == member)) {
                                        assert(pre.is_linked(pa, pb));
                                    }
                                }
                            }
                        }
                    },
                    None => {
                        proof {
                            if cfg {
                                // only the top row lacks upward links, and there a
                                // close-out happens only at the last column
                                assert(g0.configured_cell(member));
                                assert(member.row == 0);
                                assert(row == 0);
                                assert(g0.configured_cell(p));
                                assert(east is None);
                                assert(column as int == columns as int - 1);
                                assert(links_done(columns as int, row as int, column as int + 1)
                                    == links_done(columns as int, row as int, column as int));
                            }
                        }
                    },
                }
            } else {
                let q = match east {
                    Some(q) => q,
                    None => {
                        proof {
                            assert(false);
                        }
                        vstd::pervasive::unreached()
                    },
                };
                proof {
                    assert(grid.in_bounds(q) && q != p);
                }
                let ghost pre = *grid;
                proof {
                    if cfg && pre.is_linked(p, q) {
                        assert(g0.wf_cell(q));
                        assert(sw_pair(g0, p, q, row as int, column as int, run_start));
                        assert(false);
                    }
                }
                link(grid, p, q);
                proof {
                    if cfg {
                        assert(g0.configured_cell(p));
                        assert(column as int + 1 < columns as int);
                        assert(links_done(columns as int, row as int, column as int + 1)
                            == links_done(columns as int, row as int, column as int) + 1);
                    }
                    assert forall|p2: Coord, q2: Coord| grid.is_linked(p2, q2) implies g0.is_linked(
                        p2,
                        q2,
                    ) || g0.ne_of(p2, q2) || g0.ne_of(q2, p2) by {
                        if !((p2 == p && q2 == q) || (p2 == q && q2 == p)) {
                            assert(pre.is_linked(p2, q2));
                        }
                    }
                    if cfg {
                        assert forall|p2: Coord, q2: Coord| #[trigger] grid.is_linked(
                            p2,
                            q2,
                        ) implies sw_pair(g0, p2, q2, row as int, column as int + 1, run_start) by {
                            if !((p2 == p && q2 == q) || (p2 == q && q2 == p)) {
                                assert(pre.is_linked(p2, q2));
                                assert(sw_pair(g0, p2, q2, row as int, column as int, run_start));
                            } else {
                                assert(g0.cell_at(p).east == Some(q));
                            }
                        }
                        assert forall|cc: int|
                            0 <= cc < top_done(
                                columns as int,
                                row as int,
                                column as int + 1,
                            ) implies #[trigger] grid.is_linked(
                            (Coord { row: 0, column: cc as usize }),
                            (Coord { row: 0, column: (cc + 1) as usize }),
                        ) by {
                            let pa = Coord { row: 0, column: cc as usize };
                            let pb = Coord { row: 0, column: (cc + 1) as usize };
                            if !((pa == p && pb == q) || (pa == q && pb == p)) {
                                assert(pre.is_linked(pa, pb));
                            }
                        }
                    }
                }
            }
            column = column + 1;
        }
        proof {
            if cfg {
                let ri = row as int;
                let cols = columns as int;
                assert(links_done(cols, ri, cols) == rows_done(cols, ri + 1)) by (nonlinear_arith)
                    requires
                        cols >= 1,
                        ri >= 0,
                ;
                assert forall|p2: Coord, q2: Coord| #[trigger] grid.is_linked(p2, q2) implies
                    sw_pair(g0, p2, q2, row as int + 1, 0, 0) by {
                    assert(grid.wf_links_at(p2));
                    assert(grid.in_bounds(p2));
                    let i = choose|i: int|
                        0 <= i < grid.links_at(p2).len() && grid.links_at(p2)[i] == q2;
                    assert(grid.in_bounds(q2));
                    assert(sw_pair(g0, p2, q2, row as int, columns as int, run_start));
                }
            }
        }
        row = row + 1;
    }
    proof {
        if cfg {
            let rs = rows as int;
            let cols = columns as int;
            assert(rows_done(cols, rs) == rs * cols - 1) by (nonlinear_arith)
                requires
                    rs >= 1,
                    cols >= 1,
            ;
        }
    }
}

} // verus!
