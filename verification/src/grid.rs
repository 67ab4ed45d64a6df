//! The grid: sole owner of every cell, in row-major layout. Neighbor wiring
//! is computed once after construction; all link mutation goes through the
//! grid so the carved relation stays symmetric.
use vstd::prelude::*;

use crate::cell::Cell;
use crate::cell::Coord;
use crate::distance::Distance;

verus! {

/// Sum of the lengths of the link lists of one row of cells.
pub open spec fn row_entries(row: Seq<Cell>) -> int
    decreases row.len(),
{
    if row.len() == 0 {
        0
    } else {
        row_entries(row.drop_last()) + row.last().links@.len()
    }
}

/// Sum of the lengths of all link lists in the grid. Every carved link
/// appears once in each endpoint's list, so a grid with `n` links has
/// `2 * n` entries.
pub open spec fn grid_entries(g: Seq<Vec<Cell>>) -> int
    decreases g.len(),
{
    if g.len() == 0 {
        0
    } else {
        grid_entries(g.drop_last()) + row_entries(g.last()@)
    }
}

pub proof fn lemma_row_entries_push(row: Seq<Cell>, c: Cell)
    ensures
        row_entries(row.push(c)) == row_entries(row) + c.links@.len(),
{
    assert(row.push(c).drop_last() =~= row);
}

pub proof fn lemma_grid_entries_push(g: Seq<Vec<Cell>>, rv: Vec<Cell>)
    ensures
        grid_entries(g.push(rv)) == grid_entries(g) + row_entries(rv@),
{
    assert(g.push(rv).drop_last() =~= g);
}

pub proof fn lemma_row_entries_update(row: Seq<Cell>, i: int, c: Cell)
    requires
        0 <= i < row.len(),
    ensures
        row_entries(row.update(i, c)) == row_entries(row) + c.links@.len()
            - row[i].links@.len(),
    decreases row.len(),
{
    let u = row.update(i, c);
    if i == row.len() - 1 {
        assert(u.drop_last() =~= row.drop_last());
    } else {
        assert(u.drop_last() =~= row.drop_last().update(i, c));
        lemma_row_entries_update(row.drop_last(), i, c);
    }
}

pub proof fn lemma_grid_entries_update(g: Seq<Vec<Cell>>, i: int, rv: Vec<Cell>)
    requires
        0 <= i < g.len(),
    ensures
        grid_entries(g.update(i, rv)) == grid_entries(g) + row_entries(rv@)
            - row_entries(g[i]@),
    decreases g.len(),
{
    let u = g.update(i, rv);
    if i == g.len() - 1 {
        assert(u.drop_last() =~= g.drop_last());
    } else {
        assert(u.drop_last() =~= g.drop_last().update(i, rv));
        lemma_grid_entries_update(g.drop_last(), i, rv);
    }
}

proof fn lemma_row_entries_zero(row: Seq<Cell>)
    requires
        forall|i: int| 0 <= i < row.len() ==> (#[trigger] row[i]).links@.len() == 0,
    ensures
        row_entries(row) == 0,
    decreases row.len(),
{
    if row.len() > 0 {
        lemma_row_entries_zero(row.drop_last());
    }
}

/// A grid without any carved link has no link entries at all.
pub proof fn lemma_entries_of_unlinked(g: Grid)
    requires
        g.wf(),
        g.all_unlinked(),
    ensures
        g.total_link_entries() == 0,
{
    lemma_entries_of_unlinked_rec(g, g.grid@.len() as int);
    assert(g.grid@.subrange(0, g.grid@.len() as int) =~= g.grid@);
}

proof fn lemma_entries_of_unlinked_rec(g: Grid, n: int)
    requires
        g.wf(),
        g.all_unlinked(),
        0 <= n <= g.grid@.len(),
    ensures
        grid_entries(g.grid@.subrange(0, n)) == 0,
    decreases n,
{
    let s = g.grid@.subrange(0, n);
    if n == 0 {
        assert(s =~= Seq::<Vec<Cell>>::empty());
    } else {
        assert(s.drop_last() =~= g.grid@.subrange(0, n - 1));
        lemma_entries_of_unlinked_rec(g, n - 1);
        assert forall|i: int| 0 <= i < s.last()@.len() implies (#[trigger] s.last()@[i]).links@.len()
            == 0 by {
            let p = Coord { row: (n - 1) as usize, column: i as usize };
            assert(g.in_bounds(p));
            assert(g.links_at(p).len() == 0);
        }
        lemma_row_entries_zero(s.last()@);
    }
}

/// `p` comes strictly before position `(r, c)` in row-major order.
pub open spec fn lex_before(p: Coord, r: int, c: int) -> bool {
    p.row < r || (p.row == r && p.column < c)
}

/// How many cells of one row have an empty link list.
pub open spec fn row_empties(row: Seq<Cell>) -> int
    decreases row.len(),
{
    if row.len() == 0 {
        0
    } else {
        row_empties(row.drop_last()) + if row.last().links@.len() == 0 {
            1int
        } else {
            0int
        }
    }
}

/// How many cells of the whole grid have an empty link list: the cells a
/// depth-first carving has not yet discovered.
pub open spec fn grid_empties(g: Seq<Vec<Cell>>) -> int
    decreases g.len(),
{
    if g.len() == 0 {
        0
    } else {
        grid_empties(g.drop_last()) + row_empties(g.last()@)
    }
}

pub proof fn lemma_row_empties_update(row: Seq<Cell>, i: int, c: Cell)
    requires
        0 <= i < row.len(),
    ensures
        row_empties(row.update(i, c)) == row_empties(row) + (if c.links@.len() == 0 {
            1int
        } else {
            0int
        }) - (if row[i].links@.len() == 0 {
            1int
        } else {
            0int
        }),
    decreases row.len(),
{
    let u = row.update(i, c);
    if i == row.len() - 1 {
        assert(u.drop_last() =~= row.drop_last());
    } else {
        assert(u.drop_last() =~= row.drop_last().update(i, c));
        lemma_row_empties_update(row.drop_last(), i, c);
    }
}

pub proof fn lemma_grid_empties_update(g: Seq<Vec<Cell>>, i: int, rv: Vec<Cell>)
    requires
        0 <= i < g.len(),
    ensures
        grid_empties(g.update(i, rv)) == grid_empties(g) + row_empties(rv@) - row_empties(g[i]@),
    decreases g.len(),
{
    let u = g.update(i, rv);
    if i == g.len() - 1 {
        assert(u.drop_last() =~= g.drop_last());
    } else {
        assert(u.drop_last() =~= g.drop_last().update(i, rv));
        lemma_grid_empties_update(g.drop_last(), i, rv);
    }
}

proof fn lemma_row_empties_bounds(row: Seq<Cell>)
    ensures
        0 <= row_empties(row) <= row.len(),
        (forall|i: int| 0 <= i < row.len() ==> (#[trigger] row[i]).links@.len() == 0)
            ==> row_empties(row) == row.len(),
    decreases row.len(),
{
    if row.len() > 0 {
        lemma_row_empties_bounds(row.drop_last());
    }
}

/// The count of undiscovered cells lies between zero and the cell count,
/// and equals the cell count exactly when nothing is linked yet.
pub proof fn lemma_empties_bounds(g: Grid)
    requires
        g.wf(),
    ensures
        0 <= grid_empties(g.grid@) <= g.rows * g.columns,
        g.all_unlinked() ==> grid_empties(g.grid@) == g.rows * g.columns,
{
    lemma_empties_bounds_rec(g, g.grid@.len() as int);
    assert(g.grid@.subrange(0, g.grid@.len() as int) =~= g.grid@);
}

proof fn lemma_empties_bounds_rec(g: Grid, n: int)
    requires
        g.wf(),
        0 <= n <= g.grid@.len(),
    ensures
        0 <= grid_empties(g.grid@.subrange(0, n)) <= n * g.columns,
        g.all_unlinked() ==> grid_empties(g.grid@.subrange(0, n)) == n * g.columns,
    decreases n,
{
    let s = g.grid@.subrange(0, n);
    let cols = g.columns as int;
    if n == 0 {
        assert(s =~= Seq::<Vec<Cell>>::empty());
    } else {
        assert(s.drop_last() =~= g.grid@.subrange(0, n - 1));
        lemma_empties_bounds_rec(g, n - 1);
        lemma_row_empties_bounds(s.last()@);
        assert(s.last()@.len() == cols);
        assert((n - 1) * cols + cols == n * cols) by (nonlinear_arith);
        if g.all_unlinked() {
            assert forall|i: int| 0 <= i < s.last()@.len() implies (
            #[trigger] s.last()@[i]).links@.len() == 0 by {
                let p = Coord { row: (n - 1) as usize, column: i as usize };
                assert(g.in_bounds(p));
                assert(g.links_at(p).len() == 0);
            }
        }
    }
}

proof fn lemma_row_empties_none(row: Seq<Cell>)
    requires
        forall|i: int| 0 <= i < row.len() ==> (#[trigger] row[i]).links@.len() > 0,
    ensures
        row_empties(row) == 0,
    decreases row.len(),
{
    if row.len() > 0 {
        lemma_row_empties_none(row.drop_last());
    }
}

/// A grid whose every cell carries at least one link has no undiscovered
/// cell left.
pub proof fn lemma_empties_of_covered(g: Grid)
    requires
        g.wf(),
        forall|p: Coord| g.in_bounds(p) ==> (#[trigger] g.links_at(p)).len() > 0,
    ensures
        grid_empties(g.grid@) == 0,
{
    lemma_empties_of_covered_rec(g, g.grid@.len() as int);
    assert(g.grid@.subrange(0, g.grid@.len() as int) =~= g.grid@);
}

proof fn lemma_empties_of_covered_rec(g: Grid, n: int)
    requires
        g.wf(),
        forall|p: Coord| g.in_bounds(p) ==> (#[trigger] g.links_at(p)).len() > 0,
        0 <= n <= g.grid@.len(),
    ensures
        grid_empties(g.grid@.subrange(0, n)) == 0,
    decreases n,
{
    let s = g.grid@.subrange(0, n);
    if n == 0 {
        assert(s =~= Seq::<Vec<Cell>>::empty());
    } else {
        assert(s.drop_last() =~= g.grid@.subrange(0, n - 1));
        lemma_empties_of_covered_rec(g, n - 1);
        assert forall|i: int| 0 <= i < s.last()@.len() implies (#[trigger] s.last()@[i]).links@.len()
            > 0 by {
            let p = Coord { row: (n - 1) as usize, column: i as usize };
            assert(g.in_bounds(p));
            assert(g.links_at(p).len() > 0);
        }
        lemma_row_empties_none(s.last()@);
    }
}

/// In a configured grid where the origin cell is discovered and every
/// discovered cell has only discovered positional neighbors, every cell is
/// discovered: the wired neighbor graph of a grid is connected.
pub proof fn lemma_closed_covers_all(g: Grid, p: Coord)
    requires
        g.wf(),
        g.configured(),
        g.rows >= 1,
        g.columns >= 1,
        g.links_at(Coord { row: 0, column: 0 }).len() > 0,
        forall|x: Coord, y: Coord|
            g.in_bounds(x) && g.links_at(x).len() > 0 && #[trigger] g.neighbor_of(x, y)
                ==> g.links_at(y).len() > 0,
        g.in_bounds(p),
    ensures
        g.links_at(p).len() > 0,
    decreases p.row + p.column,
{
    if p.row == 0 && p.column == 0 {
    } else if p.row >= 1 {
        let up = Coord { row: (p.row - 1) as usize, column: p.column };
        lemma_closed_covers_all(g, up);
        assert(g.configured_cell(up));
        assert(g.wf_cell(up));
        assert(g.cell_at(up).south == Some(p));
        assert(g.neighbor_of(up, p));
    } else {
        let left = Coord { row: p.row, column: (p.column - 1) as usize };
        lemma_closed_covers_all(g, left);
        assert(g.configured_cell(left));
        assert(g.wf_cell(left));
        assert(g.cell_at(left).east == Some(p));
        assert(g.neighbor_of(left, p));
    }
}

/// A rectangular lattice of cells, rows by columns, with the carved link
/// relation stored on the cells and an optional distance result from the
/// most recent traversal.
pub struct Grid {
    pub rows: usize,
    pub columns: usize,
    pub grid: Vec<Vec<Cell>>,
    pub distance: Option<Distance>,
}

impl Grid {
    /// `p` addresses a cell of this grid.
    pub open spec fn in_bounds(self, p: Coord) -> bool {
        p.row < self.rows && p.column < self.columns
    }

    /// The cell stored at `p`.
    pub open spec fn cell_at(self, p: Coord) -> Cell {
        self.grid@[p.row as int]@[p.column as int]
    }

    /// The link partners recorded on the cell at `p`.
    pub open spec fn links_at(self, p: Coord) -> Seq<Coord> {
        self.cell_at(p).links@
    }

    /// `q` appears in the link list of the cell at `p`.
    pub open spec fn is_linked(self, p: Coord, q: Coord) -> bool {
        self.in_bounds(p) && self.links_at(p).contains(q)
    }

    /// Twice the number of carved links.
    pub open spec fn total_link_entries(self) -> int {
        grid_entries(self.grid@)
    }

    /// The storage matches the stated dimensions, and the cell count fits
    /// in a machine word.
    pub open spec fn wf_dims(self) -> bool {
        &&& self.grid@.len() == self.rows
        &&& forall|r: int| 0 <= r < self.rows ==> (#[trigger] self.grid@[r])@.len() == self.columns
        &&& self.rows * self.columns <= usize::MAX
    }

    /// The cell at `p` knows its own coordinate, and each neighbor field,
    /// when present, holds exactly the adjacent coordinate in its direction.
    pub open spec fn wf_cell(self, p: Coord) -> bool {
        let c = self.cell_at(p);
        &&& c.row == p.row
        &&& c.column == p.column
        &&& (c.north matches Some(n) ==> p.row >= 1 && n.row == p.row - 1 && n.column == p.column)
        &&& (c.south matches Some(n) ==> p.row + 1 < self.rows && n.row == p.row + 1 && n.column
            == p.column)
        &&& (c.west matches Some(n) ==> p.column >= 1 && n.row == p.row && n.column == p.column
            - 1)
        &&& (c.east matches Some(n) ==> p.column + 1 < self.columns && n.row == p.row && n.column
            == p.column + 1)
    }

    /// The link list at `p` holds only in-bounds partners other than `p`
    /// itself, without duplicates, and every partner's own list names `p`
    /// back: the carved relation is symmetric.
    pub open spec fn wf_links_at(self, p: Coord) -> bool {
        let l = self.links_at(p);
        &&& forall|i: int| 0 <= i < l.len() ==> self.in_bounds(#[trigger] l[i]) && l[i] != p
        &&& forall|i: int, j: int| 0 <= i < j < l.len() ==> l[i] != l[j]
        &&& forall|i: int| 0 <= i < l.len() ==> self.links_at(#[trigger] l[i]).contains(p)
    }

    /// The grid's structural invariant: constructors establish it and every
    /// operation preserves it.
    pub open spec fn wf(self) -> bool {
        &&& self.wf_dims()
        &&& forall|p: Coord| self.in_bounds(p) ==> #[trigger] self.wf_cell(p)
        &&& forall|p: Coord| self.in_bounds(p) ==> #[trigger] self.wf_links_at(p)
    }

    /// Every neighbor field of the cell at `p` is present exactly when a
    /// cell exists at the adjacent coordinate.
    pub open spec fn configured_cell(self, p: Coord) -> bool {
        let c = self.cell_at(p);
        &&& (c.north is Some <==> p.row >= 1)
        &&& (c.south is Some <==> p.row + 1 < self.rows)
        &&& (c.west is Some <==> p.column >= 1)
        &&& (c.east is Some <==> p.column + 1 < self.columns)
    }

    /// Neighbor wiring is complete: every cell's neighbor fields are present
    /// exactly for the in-bounds directions.
    pub open spec fn configured(self) -> bool {
        forall|p: Coord| self.in_bounds(p) ==> #[trigger] self.configured_cell(p)
    }

    /// No link has been carved anywhere.
    pub open spec fn all_unlinked(self) -> bool {
        forall|p: Coord| self.in_bounds(p) ==> (#[trigger] self.links_at(p)).len() == 0
    }

    /// `other` has the same dimensions, coordinates and neighbor wiring as
    /// `self`; only link lists and the distance result may differ.
    pub open spec fn same_shape(self, other: Grid) -> bool {
        &&& other.rows == self.rows
        &&& other.columns == self.columns
        &&& other.grid@.len() == self.grid@.len()
        &&& forall|r: int| 0 <= r < self.grid@.len() ==> (#[trigger] other.grid@[r])@.len()
            == self.grid@[r]@.len()
        &&& forall|p: Coord| self.in_bounds(p) ==> {
            let c1 = #[trigger] self.cell_at(p);
            let c2 = other.cell_at(p);
            c2.row == c1.row && c2.column == c1.column && c2.north == c1.north && c2.south
                == c1.south && c2.east == c1.east && c2.west == c1.west
        }
    }

    /// `q` is the wired north or east neighbor of the cell at `p`.
    pub open spec fn ne_of(self, p: Coord, q: Coord) -> bool {
        self.in_bounds(p) && (self.cell_at(p).north == Some(q) || self.cell_at(p).east == Some(q))
    }

    /// `q` is one of the wired positional neighbors of the cell at `p`.
    pub open spec fn neighbor_of(self, p: Coord, q: Coord) -> bool {
        self.in_bounds(p) && (self.cell_at(p).north == Some(q) || self.cell_at(p).south == Some(q)
            || self.cell_at(p).east == Some(q) || self.cell_at(p).west == Some(q))
    }

    /// A fresh grid: `rows * columns` cells, none wired, none linked.
    /// Zero in either dimension gives a degenerate empty grid, consistent
    /// with `size()` returning zero.
    pub fn new(rows: usize, columns: usize) -> (g: Grid)
        requires
            rows * columns <= usize::MAX,
        ensures
            g.wf(),
            g.rows == rows,
            g.columns == columns,
            g.distance is None,
            g.all_unlinked(),
            forall|p: Coord| g.in_bounds(p) ==> {
                let c = #[trigger] g.cell_at(p);
                c.north is None && c.south is None && c.east is None && c.west is None
            },
            g.total_link_entries() == 0,
    {
        let mut grid: Vec<Vec<Cell>> = Vec::new();
        let mut row: usize = 0;
        while row < rows
            invariant
                row <= rows,
                grid@.len() == row,
                forall|r: int| 0 <= r < row ==> (#[trigger] grid@[r])@.len() == columns,
                forall|r: int, c: int|
                    0 <= r < row && 0 <= c < columns ==> {
                        let cell = #[trigger] grid@[r]@[c];
                        cell.row == r && cell.column == c && cell.north is None && cell.south
                            is None && cell.east is None && cell.west is None && cell.links@.len()
                            == 0
                    },
                grid_entries(grid@) == 0,
            decreases rows - row,
        {
            let mut row_vec: Vec<Cell> = Vec::new();
            let mut column: usize = 0;
            while column < columns
                invariant
                    column <= columns,
                    row_vec@.len() == column,
                    forall|c: int|
                        0 <= c < column ==> {
                            let cell = #[trigger] row_vec@[c];
                            cell.row == row && cell.column == c && cell.north is None && cell.south
                                is None && cell.east is None && cell.west is None
                                && cell.links@.len() == 0
                        },
                    row_entries(row_vec@) == 0,
                decreases columns - column,
            {
                let cell = Cell::new(row, column);
                proof {
                    lemma_row_entries_push(row_vec@, cell);
                }
                row_vec.push(cell);
                column = column + 1;
            }
            proof {
                lemma_grid_entries_push(grid@, row_vec);
            }
            grid.push(row_vec);
            row = row + 1;
        }
        let g = Grid { rows, columns, grid, distance: None };
        proof {
            assert forall|p: Coord| g.in_bounds(p) implies #[trigger] g.wf_cell(p) by {}
            assert forall|p: Coord| g.in_bounds(p) implies #[trigger] g.wf_links_at(p) by {}
        }
        g
    }

    /// Wires every cell's four neighbor fields to the adjacent coordinate
    /// when one is within bounds, else leaves the field absent. Idempotent:
    /// the result depends only on the grid's dimensions. Links and the
    /// distance result are untouched.
    pub fn configure_cells(&mut self)
        requires
            old(self).wf(),
        ensures
            final(self).wf(),
            final(self).configured(),
            final(self).rows == old(self).rows,
            final(self).columns == old(self).columns,
            final(self).distance == old(self).distance,
            forall|p: Coord| old(self).in_bounds(p) ==> final(self).links_at(p) == old(
                self,
            ).links_at(p),
            final(self).total_link_entries() == old(self).total_link_entries(),
    {
        let rows = self.rows;
        let columns = self.columns;
        let mut row: usize = 0;
        while row < rows
            invariant
                row <= rows,
                self.rows == rows,
                self.columns == columns,
                self.wf(),
                self.distance == old(self).distance,
                forall|p: Coord| self.in_bounds(p) ==> self.links_at(p) == old(self).links_at(p),
                self.total_link_entries() == old(self).total_link_entries(),
                forall|p: Coord|
                    self.in_bounds(p) && p.row < row ==> #[trigger] self.configured_cell(p),
            decreases rows - row,
        {
            let mut column: usize = 0;
            while column < columns
                invariant
                    row < rows,
                    column <= columns,
                    self.rows == rows,
                    self.columns == columns,
                    self.wf(),
                    self.distance == old(self).distance,
                    forall|p: Coord| self.in_bounds(p) ==> self.links_at(p) == old(
                        self,
                    ).links_at(p),
                    self.total_link_entries() == old(self).total_link_entries(),
                    forall|p: Coord|
                        self.in_bounds(p) && p.row < row ==> #[trigger] self.configured_cell(p),
                    forall|p: Coord|
                        self.in_bounds(p) && p.row == row && p.column < column
                            ==> #[trigger] self.configured_cell(p),
                decreases columns - column,
            {
                let ghost pre = *self;
                let north: Option<Coord> = if row >= 1 {
                    Some(Coord { row: row - 1, column })
                } else {
                    None
                };
                let south: Option<Coord> = if row + 1 < rows {
                    Some(Coord { row: row + 1, column })
                } else {
                    None
                };
                let west: Option<Coord> = if column >= 1 {
                    Some(Coord { row, column: column - 1 })
                } else {
                    None
                };
                let east: Option<Coord> = if column + 1 < columns {
                    Some(Coord { row, column: column + 1 })
                } else {
                    None
                };
                self.grid[row][column].north = north;
                self.grid[row][column].south = south;
                self.grid[row][column].west = west;
                self.grid[row][column].east = east;
                proof {
                    let p0 = Coord { row, column };
                    assert(self.grid@ =~= pre.grid@.update(
                        row as int,
                        self.grid@[row as int],
                    ));
                    lemma_grid_entries_update(pre.grid@, row as int, self.grid@[row as int]);
                    assert(self.grid@[row as int]@ =~= pre.grid@[row as int]@.update(
                        column as int,
                        self.cell_at(p0),
                    ));
                    lemma_row_entries_update(
                        pre.grid@[row as int]@,
                        column as int,
                        self.cell_at(p0),
                    );
                    assert forall|p: Coord| self.in_bounds(p) implies #[trigger] self.wf_cell(p)
                        by {
                        assert(pre.wf_cell(p));
                        if p != p0 {
                            assert(self.cell_at(p) == pre.cell_at(p));
                        }
                    }
                    assert forall|p: Coord| self.in_bounds(p) implies self.links_at(p) == old(
                        self,
                    ).links_at(p) by {
                        assert(pre.wf_links_at(p));
                        if p != p0 {
                            assert(self.cell_at(p) == pre.cell_at(p));
                        }
                    }
                    assert forall|p: Coord| self.in_bounds(p) implies #[trigger] self.wf_links_at(
                        p,
                    ) by {
                        assert(pre.wf_links_at(p));
                        assert(self.links_at(p) == pre.links_at(p));
                        assert forall|i: int| 0 <= i < self.links_at(p).len() implies self.links_at(
                            #[trigger] self.links_at(p)[i],
                        ).contains(p) by {
                            assert(self.links_at(p)[i] == pre.links_at(p)[i]);
                            assert(pre.links_at(pre.links_at(p)[i]).contains(p));
                            assert(self.links_at(pre.links_at(p)[i]) == pre.links_at(
                                pre.links_at(p)[i],
                            ));
                        }
                    }
                    assert forall|p: Coord|
                        self.in_bounds(p) && (p.row < row || (p.row == row && p.column
                            <= column)) implies #[trigger] self.configured_cell(p) by {
                        if p != p0 {
                            assert(self.cell_at(p) == pre.cell_at(p));
                            assert(pre.configured_cell(p));
                        }
                    }
                }
                column = column + 1;
            }
            row = row + 1;
        }
    }

    /// Records a distance result on the grid; everything else is untouched.
    pub fn set_distance(&mut self, distance: Distance)
        ensures
            final(self).distance == Some(distance),
            final(self).rows == old(self).rows,
            final(self).columns == old(self).columns,
            final(self).grid == old(self).grid,
    {
        self.distance = Some(distance);
    }

    /// The cell at `(row, column)`, or absent when out of bounds; never
    /// panics.
    pub fn get_cell(&self, row: usize, column: usize) -> (r: Option<&Cell>)
        requires
            self.wf(),
        ensures
            match r {
                Some(c) => self.in_bounds(Coord { row, column }) && *c == self.cell_at(
                    Coord { row, column },
                ),
                None => !self.in_bounds(Coord { row, column }),
            },
    {
        if row >= self.rows || column >= self.columns {
            None
        } else {
            Some(&self.grid[row][column])
        }
    }

    /// A cell drawn uniformly at random: the row index below the row
    /// count, the column index below the column count, so a cell is
    /// always returned.
    pub fn random_cell(&self, rng: &mut crate::rng::MazeRng) -> (r: Option<&Cell>)
        requires
            self.wf(),
            self.rows >= 1,
            self.columns >= 1,
        ensures
            r matches Some(c) ==> self.in_bounds(Coord { row: c.row, column: c.column }) && *c
                == self.cell_at(Coord { row: c.row, column: c.column }),
            r is Some,
    {
        let row = rng.next_below(self.rows);
        let column = rng.next_below(self.columns);
        let r = self.get_cell(row, column);
        proof {
            let p = Coord { row, column };
            assert(self.wf_cell(p));
        }
        r
    }

    /// The number of cells.
    pub fn size(&self) -> (r: usize)
        requires
            self.wf(),
        ensures
            r == self.rows * self.columns,
    {
        self.rows * self.columns
    }
}

} // verus!
