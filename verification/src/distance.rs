//! Hop-count distances over the carved link graph: a mapping from cell
//! identity to its breadth-first distance from a chosen root, with path
//! reconstruction by strictly-decreasing walks.
use vstd::prelude::*;

use std::collections::VecDeque;

use crate::cell::Coord;
use crate::cell::adjacent;
use crate::cell::lemma_linked_symmetric;
use crate::grid::Grid;

verus! {

/// How many entries of the table are present: the number of visited cells.
pub open spec fn count_some(s: Seq<Option<usize>>) -> int
    decreases s.len(),
{
    if s.len() == 0 {
        0
    } else {
        count_some(s.drop_last()) + if s.last() is Some {
            1int
        } else {
            0int
        }
    }
}

pub proof fn lemma_count_some_update(s: Seq<Option<usize>>, i: int, v: Option<usize>)
    requires
        0 <= i < s.len(),
    ensures
        count_some(s.update(i, v)) == count_some(s) + (if v is Some {
            1int
        } else {
            0int
        }) - (if s[i] is Some {
            1int
        } else {
            0int
        }),
    decreases s.len(),
{
    let u = s.update(i, v);
    if i == s.len() - 1 {
        assert(u.drop_last() =~= s.drop_last());
    } else {
        assert(u.drop_last() =~= s.drop_last().update(i, v));
        lemma_count_some_update(s.drop_last(), i, v);
    }
}

pub proof fn lemma_count_some_bounds(s: Seq<Option<usize>>)
    ensures
        0 <= count_some(s) <= s.len(),
    decreases s.len(),
{
    if s.len() > 0 {
        lemma_count_some_bounds(s.drop_last());
    }
}

/// Distances from a root cell. One optional entry per cell of a
/// `rows x columns` grid, in row-major order; an absent entry means the
/// cell was not visited yet.
pub struct Distance {
    pub root: Coord,
    pub rows: usize,
    pub columns: usize,
    pub cells: Vec<Option<usize>>,
}

impl Distance {
    /// Row-major position of `p` in the entry table.
    pub open spec fn idx(self, p: Coord) -> int {
        p.row * self.columns + p.column
    }

    /// `p` addresses an entry of this table.
    pub open spec fn in_bounds(self, p: Coord) -> bool {
        p.row < self.rows && p.column < self.columns
    }

    /// The table has one entry per cell, the cell count fits in a machine
    /// word, and the root is a cell of the table.
    pub open spec fn wf(self) -> bool {
        &&& self.cells@.len() == self.rows * self.columns
        &&& self.rows * self.columns <= usize::MAX
        &&& self.in_bounds(self.root)
    }

    /// The recorded distance of `p`: absent when out of bounds or not
    /// visited.
    pub open spec fn dist_of(self, p: Coord) -> Option<usize> {
        if self.in_bounds(p) {
            self.cells@[self.idx(p)]
        } else {
            None
        }
    }

    /// `p` has a recorded distance.
    pub open spec fn recorded(self, p: Coord) -> bool {
        self.dist_of(p) is Some
    }

    /// A fresh table for a `rows x columns` grid: the root at distance
    /// zero, every other cell unvisited.
    pub fn new(root: Coord, rows: usize, columns: usize) -> (d: Distance)
        requires
            rows * columns <= usize::MAX,
            root.row < rows,
            root.column < columns,
        ensures
            d.wf(),
            d.root == root,
            d.rows == rows,
            d.columns == columns,
            d.dist_of(root) == Some(0usize),
            forall|p: Coord| p != root ==> d.dist_of(p) is None,
            count_some(d.cells@) == 1,
    {
        proof {
            lemma_flat_index(root.row as int, root.column as int, rows as int, columns as int);
        }
        let n = rows * columns;
        let mut cells: Vec<Option<usize>> = Vec::new();
        let mut i: usize = 0;
        while i < n
            invariant
                i <= n,
                cells@.len() == i,
                forall|j: int| 0 <= j < i ==> cells@[j] is None,
                count_some(cells@) == 0,
            decreases n - i,
        {
            let ghost prev = cells@;
            cells.push(None);
            proof {
                assert(cells@.drop_last() =~= prev);
            }
            i = i + 1;
        }
        let root_index = root.row * columns + root.column;
        let ghost before_root = cells@;
        cells[root_index] = Some(0);
        proof {
            lemma_count_some_update(before_root, root_index as int, Some(0usize));
        }
        let d = Distance { root, rows, columns, cells };
        proof {
            assert forall|p: Coord| p != root implies d.dist_of(p) is None by {
                if d.in_bounds(p) {
                    lemma_flat_index(p.row as int, p.column as int, rows as int, columns as int);
                    if d.idx(p) == d.idx(root) {
                        lemma_flat_index_injective(p, root, rows as int, columns as int);
                    }
                }
            }
        }
        d
    }

    /// The recorded distance of `cell`, absent when unvisited or out of
    /// bounds; never panics.
    pub fn get(&self, cell: Coord) -> (r: Option<usize>)
        requires
            self.wf(),
        ensures
            r == self.dist_of(cell),
    {
        if cell.row >= self.rows || cell.column >= self.columns {
            None
        } else {
            proof {
                lemma_flat_index(
                    cell.row as int,
                    cell.column as int,
                    self.rows as int,
                    self.columns as int,
                );
            }
            self.cells[cell.row * self.columns + cell.column]
        }
    }

    /// Records `distance` for `cell`; other entries are untouched.
    pub fn set(&mut self, cell: Coord, distance: usize)
        requires
            old(self).wf(),
            old(self).in_bounds(cell),
        ensures
            final(self).wf(),
            final(self).root == old(self).root,
            final(self).rows == old(self).rows,
            final(self).columns == old(self).columns,
            final(self).dist_of(cell) == Some(distance),
            forall|p: Coord| p != cell ==> final(self).dist_of(p) == old(self).dist_of(p),
            final(self).cells@ == old(self).cells@.update(old(self).idx(cell), Some(distance)),
    {
        proof {
            lemma_flat_index(
                cell.row as int,
                cell.column as int,
                self.rows as int,
                self.columns as int,
            );
        }
        let index = cell.row * self.columns + cell.column;
        self.cells[index] = Some(distance);
        proof {
            assert forall|p: Coord| p != cell implies final(self).dist_of(p) == old(
                self,
            ).dist_of(p) by {
                if old(self).in_bounds(p) {
                    lemma_flat_index(
                        p.row as int,
                        p.column as int,
                        self.rows as int,
                        self.columns as int,
                    );
                    if self.idx(p) == self.idx(cell) {
                        lemma_flat_index_injective(p, cell, self.rows as int, self.columns as int);
                    }
                }
            }
        }
    }

    /// Removes the entry for `cell`, marking it unvisited; a no-op when the
    /// cell is out of bounds or has no entry.
    pub fn clear(&mut self, cell: Coord)
        requires
            old(self).wf(),
        ensures
            final(self).wf(),
            final(self).root == old(self).root,
            final(self).rows == old(self).rows,
            final(self).columns == old(self).columns,
            final(self).dist_of(cell) is None,
            forall|p: Coord| p != cell ==> final(self).dist_of(p) == old(self).dist_of(p),
    {
        if cell.row >= self.rows || cell.column >= self.columns {
            return ;
        }
        proof {
            lemma_flat_index(
                cell.row as int,
                cell.column as int,
                self.rows as int,
                self.columns as int,
            );
        }
        let index = cell.row * self.columns + cell.column;
        self.cells[index] = None;
        proof {
            assert forall|p: Coord| p != cell implies final(self).dist_of(p) == old(
                self,
            ).dist_of(p) by {
                if old(self).in_bounds(p) {
                    lemma_flat_index(
                        p.row as int,
                        p.column as int,
                        self.rows as int,
                        self.columns as int,
                    );
                    if self.idx(p) == self.idx(cell) {
                        lemma_flat_index_injective(p, cell, self.rows as int, self.columns as int);
                    }
                }
            }
        }
    }

    /// The coordinates of every visited cell, in row-major order, each
    /// exactly once.
    pub fn cells(&self) -> (r: Vec<Coord>)
        requires
            self.wf(),
        ensures
            forall|p: Coord| r@.contains(p) <==> self.recorded(p),
            forall|i: int, j: int| 0 <= i < j < r@.len() ==> r@[i] != r@[j],
    {
        let mut result: Vec<Coord> = Vec::new();
        let mut row: usize = 0;
        while row < self.rows
            invariant
                self.wf(),
                row <= self.rows,
                forall|p: Coord|
                    #[trigger] result@.contains(p) ==> self.recorded(p) && p.row < row,
                forall|p: Coord|
                    #[trigger] self.recorded(p) && p.row < row ==> result@.contains(p),
                forall|i: int, j: int| 0 <= i < j < result@.len() ==> result@[i] != result@[j],
            decreases self.rows - row,
        {
            let mut column: usize = 0;
            while column < self.columns
                invariant
                    self.wf(),
                    row < self.rows,
                    column <= self.columns,
                    forall|p: Coord|
                        #[trigger] result@.contains(p) ==> self.recorded(p) && (p.row < row || (
                        p.row == row && p.column < column)),
                    forall|p: Coord|
                        #[trigger] self.recorded(p) && (p.row < row || (p.row == row && p.column
                            < column)) ==> result@.contains(p),
                    forall|i: int, j: int| 0 <= i < j < result@.len() ==> result@[i] != result@[j],
                decreases self.columns - column,
            {
                let p = Coord { row, column };
                proof {
                    lemma_flat_index(
                        p.row as int,
                        p.column as int,
                        self.rows as int,
                        self.columns as int,
                    );
                }
                let ghost prev = result@;
                if self.cells[row * self.columns + column].is_some() {
                    result.push(p);
                    proof {
                        broadcast use vstd::seq_lib::lemma_seq_contains_after_push;

                        assert(self.recorded(p));
                        assert(result@ == prev.push(p));
                        assert forall|q: Coord| result@.contains(q) implies self.recorded(q) && (
                        q.row < row || (q.row == row && q.column < column + 1)) by {
                            if q != p {
                                assert(prev.contains(q));
                            }
                        }
                        assert forall|q: Coord|
                            self.recorded(q) && (q.row < row || (q.row == row && q.column < column
                                + 1)) implies result@.contains(q) by {
                            if q != p {
                                assert(prev.contains(q));
                            }
                        }
                        assert forall|i: int, j: int| 0 <= i < j < result@.len() implies result@[i]
                            != result@[j] by {
                            if j == prev.len() {
                                assert(result@[i] == prev[i]);
                                assert(prev.contains(prev[i]));
                                assert(result@[j] == p);
                            }
                        }
                    }
                }
                column = column + 1;
            }
            row = row + 1;
        }
        result
    }
}

/// Adding one hop while stepping to a side-by-side cell keeps the
/// distance-plus-coordinates parity.
proof fn lemma_parity_step(dc: int, sc: int, sq: int, r: int)
    requires
        (dc + sc) % 2 == r,
        sq == sc + 1 || sc == sq + 1,
    ensures
        (dc + 1 + sq) % 2 == r,
{
    if sq == sc + 1 {
        assert((dc + 1 + sq) == (dc + sc) + 2);
        assert(((dc + sc) + 2) % 2 == (dc + sc) % 2) by (nonlinear_arith);
    } else {
        assert((dc + 1 + sq) == (dc + sc));
    }
}

/// Cells at side-by-side coordinates with equal distance-plus-coordinates
/// parity have distinct distances.
proof fn lemma_parity_distinct(dp: int, dq: int, sp: int, sq: int)
    requires
        (dp + sp) % 2 == (dq + sq) % 2,
        sq == sp + 1 || sp == sq + 1,
    ensures
        dp != dq,
{
    if dp == dq {
        if sq == sp + 1 {
            assert((dq + sq) == (dp + sp) + 1);
            assert(((dp + sp) + 1) % 2 != (dp + sp) % 2) by (nonlinear_arith);
        } else {
            assert((dp + sp) == (dq + sq) + 1);
            assert(((dq + sq) + 1) % 2 != (dq + sq) % 2) by (nonlinear_arith);
        }
    }
}


/// One breadth-first discovery step: recording the unvisited neighbor `q`
/// of the current cell `cur` at one more hop, and appending it to the
/// frontier, preserves every invariant of the search.
#[verifier::rlimit(100)]
#[verifier::spinoff_prover]
proof fn lemma_record_neighbor(
    grid: Grid,
    d_old: Distance,
    d: Distance,
    pre_push: Seq<Coord>,
    fr: Seq<Coord>,
    cur: Coord,
    q: Coord,
    dc: usize,
    split: int,
    adjlinks: bool,
    root: Coord,
)
    requires
        grid.wf(),
        dc < usize::MAX,
        d_old.root == root,
        d.root == root,
        d.dist_of(q) == Some((dc + 1) as usize),
        forall|p: Coord| p != q ==> d.dist_of(p) == d_old.dist_of(p),
        grid.is_linked(cur, q),
        grid.in_bounds(cur),
        grid.in_bounds(q),
        d_old.dist_of(cur) == Some(dc),
        d_old.dist_of(q) is None,
        q != root,
        q != cur,
        fr == pre_push.push(q),
        !pre_push.contains(cur),
        forall|k: int| 0 <= k < pre_push.len() ==> d_old.recorded(#[trigger] pre_push[k]),
        forall|k: int, j: int| 0 <= k < j < pre_push.len() ==> pre_push[k] != pre_push[j],
        0 <= split <= pre_push.len(),
        forall|k: int| 0 <= k < split ==> d_old.dist_of(#[trigger] pre_push[k])->Some_0 == dc,
        forall|k: int|
            split <= k < pre_push.len() ==> d_old.dist_of(#[trigger] pre_push[k])->Some_0 == dc
                + 1,
        d_old.parented(grid),
        forall|p: Coord, q2: Coord|
            d_old.recorded(p) && !pre_push.contains(p) && p != cur && #[trigger] grid.is_linked(
                p,
                q2,
            ) ==> d_old.recorded(q2) && d_old.dist_of(q2)->Some_0 <= d_old.dist_of(p)->Some_0 + 1
                && d_old.dist_of(p)->Some_0 <= d_old.dist_of(q2)->Some_0 + 1,
        adjlinks ==> (forall|p: Coord, q2: Coord|
            #[trigger] grid.is_linked(p, q2) ==> adjacent(p, q2)),
        adjlinks ==> forall|p: Coord| #[trigger] d_old.recorded(p) ==> d_old.parity_ok(p),
    ensures
        d.parented(grid),
        forall|p: Coord, q2: Coord|
            d.recorded(p) && !fr.contains(p) && p != cur && #[trigger] grid.is_linked(p, q2)
                ==> d.recorded(q2) && d.dist_of(q2)->Some_0 <= d.dist_of(p)->Some_0 + 1
                && d.dist_of(p)->Some_0 <= d.dist_of(q2)->Some_0 + 1,
        forall|k: int| 0 <= k < fr.len() ==> d.recorded(#[trigger] fr[k]),
        forall|k: int, j: int| 0 <= k < j < fr.len() ==> fr[k] != fr[j],
        !fr.contains(cur),
        forall|k: int| 0 <= k < split ==> d.dist_of(#[trigger] fr[k])->Some_0 == dc,
        forall|k: int| split <= k < fr.len() ==> d.dist_of(#[trigger] fr[k])->Some_0 == dc + 1,
        adjlinks ==> forall|p: Coord| #[trigger] d.recorded(p) ==> d.parity_ok(p),
{
    broadcast use vstd::seq_lib::lemma_seq_contains_after_push;

    lemma_linked_symmetric(grid, cur, q);
    assert forall|p: Coord| #[trigger] d.recorded(p) && p != root implies exists|w: Coord|
        #[trigger] grid.is_linked(p, w) && d.recorded(w) && d.dist_of(w)->Some_0 + 1 == d.dist_of(
        p,
    )->Some_0 by {
        if p == q {
            assert(grid.is_linked(q, cur) && d.recorded(cur) && d.dist_of(cur)->Some_0 + 1
                == d.dist_of(q)->Some_0);
        } else {
            assert(d_old.recorded(p));
            let w = choose|w: Coord|
                #[trigger] grid.is_linked(p, w) && d_old.recorded(w) && d_old.dist_of(w)->Some_0
                    + 1 == d_old.dist_of(p)->Some_0;
            assert(w != q);
            assert(grid.is_linked(p, w) && d.recorded(w) && d.dist_of(w)->Some_0 + 1 == d.dist_of(
                p,
            )->Some_0);
        }
    }
    assert forall|p: Coord, q2: Coord|
        d.recorded(p) && !fr.contains(p) && p != cur && #[trigger] grid.is_linked(
            p,
            q2,
        ) implies d.recorded(q2) && d.dist_of(q2)->Some_0 <= d.dist_of(p)->Some_0 + 1 && d.dist_of(
        p,
    )->Some_0 <= d.dist_of(q2)->Some_0 + 1 by {
        assert(p != q);
        assert(d_old.recorded(p));
        assert(!pre_push.contains(p));
        if q2 == q {
            // a settled cell has every linked neighbor visited, and q was
            // unvisited a moment ago
            assert(d_old.recorded(q));
            assert(false);
        } else {
            assert(d_old.recorded(q2));
        }
    }
    assert forall|k: int| 0 <= k < split implies d.dist_of(#[trigger] fr[k])->Some_0 == dc by {
        assert(fr[k] == pre_push[k]);
        assert(fr[k] != q);
    }
    assert forall|k: int| split <= k < fr.len() implies d.dist_of(#[trigger] fr[k])->Some_0 == dc
        + 1 by {
        if k < fr.len() - 1 {
            assert(fr[k] == pre_push[k]);
            assert(fr[k] != q);
        } else {
            assert(fr[k] == q);
        }
    }
    assert forall|k: int, j: int| 0 <= k < j < fr.len() implies fr[k] != fr[j] by {
        if j == fr.len() - 1 {
            assert(fr[k] == pre_push[k]);
            assert(pre_push.contains(pre_push[k]));
            assert(d_old.recorded(pre_push[k]));
        }
    }
    if adjlinks {
        assert(adjacent(cur, q));
        assert forall|p: Coord| #[trigger] d.recorded(p) implies d.parity_ok(p) by {
            if p == q {
                assert(d_old.recorded(cur));
                assert(d_old.parity_ok(cur));
                assert(d.dist_of(q)->Some_0 == dc + 1);
                assert(d.dist_of(cur) == d_old.dist_of(cur));
                lemma_parity_step(
                    dc as int,
                    cur.row + cur.column,
                    q.row + q.column,
                    (root.row + root.column) % 2 as int,
                );
            } else {
                assert(d_old.recorded(p));
                assert(d_old.parity_ok(p));
                assert(d.dist_of(p) == d_old.dist_of(p));
            }
        }
    }
}

impl Distance {
    /// Every visited cell other than the root has a linked neighbor exactly
    /// one hop closer to the root.
    pub open spec fn parented(self, grid: Grid) -> bool {
        forall|p: Coord|
            #[trigger] self.recorded(p) && p != self.root ==> exists|q: Coord|
                #[trigger] grid.is_linked(p, q) && self.recorded(q) && self.dist_of(q)->Some_0 + 1
                    == self.dist_of(p)->Some_0
    }

    /// Cells joined by a link have breadth-first distances at most one
    /// hop apart, and a visited cell's linked neighbors are all visited.
    pub open spec fn gap_bounded(self, grid: Grid) -> bool {
        forall|p: Coord, q: Coord|
            self.recorded(p) && #[trigger] grid.is_linked(p, q) ==> self.recorded(q)
                && self.dist_of(q)->Some_0 <= self.dist_of(p)->Some_0 + 1 && self.dist_of(
                p,
            )->Some_0 <= self.dist_of(q)->Some_0 + 1
    }

    /// The recorded distance of `p` has the parity of `p`'s coordinate
    /// offset from the root, as it must when links join only side-by-side
    /// cells.
    pub open spec fn parity_ok(self, p: Coord) -> bool {
        (self.dist_of(p)->Some_0 + p.row + p.column) % 2 == (self.root.row + self.root.column) % 2
    }

    /// Breadth-first search over the carved link graph: starting from
    /// `root` at distance zero, every cell linked to a visited cell is
    /// recorded one hop further, until the frontier empties. On return the
    /// visited set is closed under links, and every visited cell other
    /// than the root has a linked neighbor exactly one hop closer.
    #[verifier::rlimit(100)]
    #[verifier::spinoff_prover]
    pub fn distances(grid: &Grid, root: Coord) -> (d: Distance)
        requires
            grid.wf(),
            grid.in_bounds(root),
        ensures
            d.wf(),
            d.root == root,
            d.rows == grid.rows,
            d.columns == grid.columns,
            d.dist_of(root) == Some(0usize),
            d.parented(*grid),
            d.gap_bounded(*grid),
            forall|p: Coord, q: Coord|
                d.recorded(p) && #[trigger] grid.is_linked(p, q) ==> d.recorded(q),
            (forall|p: Coord, q: Coord| #[trigger] grid.is_linked(p, q) ==> adjacent(p, q))
                ==> forall|p: Coord, q: Coord|
                d.recorded(p) && #[trigger] grid.is_linked(p, q) ==> d.dist_of(p)->Some_0
                    - d.dist_of(q)->Some_0 == 1 || d.dist_of(q)->Some_0 - d.dist_of(p)->Some_0
                    == 1,
    {
        let rows = grid.rows;
        let columns = grid.columns;
        let ghost adjlinks = forall|p: Coord, q: Coord|
            #[trigger] grid.is_linked(p, q) ==> adjacent(p, q);
        // the frontier always holds a block of cells at distance `level`
        // followed by a block at `level + 1`; `split` is the boundary
        let ghost mut level: int = 0;
        let ghost mut split: int = 1;
        let mut d = Distance::new(root, rows, columns);
        let mut frontier: VecDeque<Coord> = VecDeque::new();
        frontier.push_back(root);
        proof {
            assert(frontier@[0] == root);
            assert(frontier@.contains(root));
            assert forall|p: Coord, q: Coord|
                d.recorded(p) && !frontier@.contains(p) && #[trigger] grid.is_linked(
                    p,
                    q,
                ) implies d.recorded(q) by {
                assert(p == root);
            }
        }
        while frontier.len() > 0
            invariant
                grid.wf(),
                grid.rows == rows,
                grid.columns == columns,
                grid.in_bounds(root),
                d.wf(),
                d.root == root,
                d.rows == rows,
                d.columns == columns,
                d.dist_of(root) == Some(0usize),
                forall|i: int| 0 <= i < frontier@.len() ==> d.recorded(#[trigger] frontier@[i]),
                forall|i: int, j: int|
                    0 <= i < j < frontier@.len() ==> frontier@[i] != frontier@[j],
                d.parented(*grid),
                forall|p: Coord, q: Coord|
                    d.recorded(p) && !frontier@.contains(p) && #[trigger] grid.is_linked(p, q)
                        ==> d.recorded(q) && d.dist_of(q)->Some_0 <= d.dist_of(p)->Some_0 + 1
                        && d.dist_of(p)->Some_0 <= d.dist_of(q)->Some_0 + 1,
                0 <= split <= frontier@.len(),
                forall|k: int|
                    0 <= k < split ==> d.dist_of(#[trigger] frontier@[k])->Some_0 == level,
                forall|k: int|
                    split <= k < frontier@.len() ==> d.dist_of(#[trigger] frontier@[k])->Some_0
                        == level + 1,
                adjlinks == (forall|p: Coord, q: Coord|
                    #[trigger] grid.is_linked(p, q) ==> adjacent(p, q)),
                adjlinks ==> forall|p: Coord| #[trigger] d.recorded(p) ==> d.parity_ok(p),
                forall|p: Coord|
                    #[trigger] d.recorded(p) ==> d.dist_of(p)->Some_0 < count_some(d.cells@),
                count_some(d.cells@) <= rows * columns,
            decreases rows * columns - count_some(d.cells@), frontier@.len(),
        {
            proof {
                if split == 0 {
                    level = level + 1;
                    split = frontier@.len() as int;
                }
            }
            let ghost pre_frontier = frontier@;
            let cur = match frontier.pop_front() {
                Some(c) => c,
                None => vstd::pervasive::unreached(),
            };
            proof {
                assert(cur == pre_frontier[0]);
                assert(frontier@ =~= pre_frontier.subrange(1, pre_frontier.len() as int));
                assert(d.recorded(cur));
                assert forall|p: Coord| frontier@.contains(p) implies pre_frontier.contains(
                    p,
                ) by {
                    let i = choose|i: int| 0 <= i < frontier@.len() && frontier@[i] == p;
                    assert(pre_frontier[i + 1] == p);
                }
                assert(!frontier@.contains(cur)) by {
                    if frontier@.contains(cur) {
                        let i = choose|i: int| 0 <= i < frontier@.len() && frontier@[i] == cur;
                        assert(pre_frontier[i + 1] == cur);
                        assert(pre_frontier[0] == cur);
                    }
                }
                assert forall|p: Coord|
                    pre_frontier.contains(p) && p != cur implies frontier@.contains(p) by {
                    let i = choose|i: int| 0 <= i < pre_frontier.len() && pre_frontier[i] == p;
                    assert(frontier@[i - 1] == p);
                }
                assert(d.recorded(cur));
                assert(d.dist_of(cur)->Some_0 == level);
                split = split - 1;
            }
            let dc = match d.get(cur) {
                Some(v) => v,
                None => vstd::pervasive::unreached(),
            };
            let links_len = grid.grid[cur.row][cur.column].links.len();
            let ghost count0 = count_some(d.cells@);
            let ghost flen0 = pre_frontier.len() as int;
            let mut i: usize = 0;
            while i < links_len
                invariant
                    grid.wf(),
                    grid.rows == rows,
                    grid.columns == columns,
                    grid.in_bounds(root),
                    grid.in_bounds(cur),
                    d.wf(),
                    d.root == root,
                    d.rows == rows,
                    d.columns == columns,
                    d.dist_of(root) == Some(0usize),
                    d.dist_of(cur) == Some(dc),
                    links_len == grid.links_at(cur).len(),
                    i <= links_len,
                    forall|j: int|
                        0 <= j < i ==> d.recorded(#[trigger] grid.links_at(cur)[j]) && d.dist_of(
                            grid.links_at(cur)[j],
                        )->Some_0 <= dc + 1 && dc <= d.dist_of(grid.links_at(cur)[j])->Some_0 + 1,
                    forall|k: int| 0 <= k < frontier@.len() ==> d.recorded(#[trigger] frontier@[k]),
                    forall|k: int, j: int|
                        0 <= k < j < frontier@.len() ==> frontier@[k] != frontier@[j],
                    !frontier@.contains(cur),
                    d.parented(*grid),
                    0 <= split <= frontier@.len(),
                    forall|k: int|
                        0 <= k < split ==> d.dist_of(#[trigger] frontier@[k])->Some_0 == dc,
                    forall|k: int|
                        split <= k < frontier@.len() ==> d.dist_of(
                            #[trigger] frontier@[k],
                        )->Some_0 == dc + 1,
                    level == dc,
                    adjlinks == (forall|p: Coord, q: Coord|
                        #[trigger] grid.is_linked(p, q) ==> adjacent(p, q)),
                    adjlinks ==> forall|p: Coord| #[trigger] d.recorded(p) ==> d.parity_ok(p),
                    forall|p: Coord, q: Coord|
                        d.recorded(p) && !frontier@.contains(p) && p != cur
                            && #[trigger] grid.is_linked(p, q) ==> d.recorded(q) && d.dist_of(
                            q,
                        )->Some_0 <= d.dist_of(p)->Some_0 + 1 && d.dist_of(p)->Some_0 <= d.dist_of(
                            q,
                        )->Some_0 + 1,
                    forall|p: Coord|
                        #[trigger] d.recorded(p) ==> d.dist_of(p)->Some_0 < count_some(d.cells@),
                    count_some(d.cells@) <= rows * columns,
                    count_some(d.cells@) >= count0,
                    frontier@.len() == flen0 - 1 + count_some(d.cells@) - count0,
                decreases links_len - i,
            {
                let q = grid.grid[cur.row][cur.column].links[i];
                proof {
                    assert(grid.wf_links_at(cur));
                    assert(grid.links_at(cur)[i as int] == q);
                    assert(grid.in_bounds(q) && q != cur);
                    assert(grid.links_at(cur).contains(q));
                    assert(grid.is_linked(cur, q));
                }
                if d.get(q).is_none() {
                    proof {
                        assert(!frontier@.contains(q)) by {
                            if frontier@.contains(q) {
                                let k = choose|k: int|
                                    0 <= k < frontier@.len() && frontier@[k] == q;
                                assert(d.recorded(frontier@[k]));
                            }
                        }
                        assert(d.recorded(cur));
                        assert(dc < count_some(d.cells@));
                        assert(q != root);
                        lemma_flat_index(
                            q.row as int,
                            q.column as int,
                            rows as int,
                            columns as int,
                        );
                    }
                    let ghost d_old = d;
                    d.set(q, dc + 1);
                    let ghost pre_push = frontier@;
                    frontier.push_back(q);
                    proof {
                        lemma_count_some_update(d_old.cells@, d_old.idx(q), Some((dc + 1) as usize));
                        assert(count_some(d.cells@) == count_some(d_old.cells@) + 1);
                        lemma_count_some_bounds(d.cells@);
                        lemma_record_neighbor(
                            *grid,
                            d_old,
                            d,
                            pre_push,
                            frontier@,
                            cur,
                            q,
                            dc,
                            split,
                            adjlinks,
                            root,
                        );
                    }
                } else {
                    proof {
                        assert(d.recorded(q));
                        if frontier@.contains(q) {
                            let k = choose|k: int| 0 <= k < frontier@.len() && frontier@[k] == q;
                            assert(dc <= d.dist_of(frontier@[k])->Some_0 <= dc + 1);
                        } else {
                            lemma_linked_symmetric(*grid, cur, q);
                            assert(d.recorded(q) && !frontier@.contains(q) && q != cur
                                && grid.is_linked(q, cur));
                        }
                    }
                }
                i = i + 1;
            }
            proof {
                assert forall|p: Coord, q: Coord|
                    d.recorded(p) && !frontier@.contains(p) && #[trigger] grid.is_linked(
                        p,
                        q,
                    ) implies d.recorded(q) && d.dist_of(q)->Some_0 <= d.dist_of(p)->Some_0 + 1
                    && d.dist_of(p)->Some_0 <= d.dist_of(q)->Some_0 + 1 by {
                    if p == cur {
                        assert(grid.links_at(cur).contains(q));
                        let j = choose|j: int|
                            0 <= j < grid.links_at(cur).len() && grid.links_at(cur)[j] == q;
                        assert(d.recorded(grid.links_at(cur)[j]));
                        assert(d.dist_of(grid.links_at(cur)[j])->Some_0 <= dc + 1);
                        assert(dc <= d.dist_of(grid.links_at(cur)[j])->Some_0 + 1);
                    }
                }
            }
        }
        proof {
            // linked cells' distances differ by at most one; when links join
            // only side-by-side cells, the two parities differ, so the
            // distances differ by exactly one
            if adjlinks {
                assert forall|p: Coord, q: Coord|
                    d.recorded(p) && #[trigger] grid.is_linked(p, q) implies d.dist_of(
                    p,
                )->Some_0 - d.dist_of(q)->Some_0 == 1 || d.dist_of(q)->Some_0 - d.dist_of(
                    p,
                )->Some_0 == 1 by {
                    assert(d.recorded(q));
                    assert(d.parity_ok(p));
                    assert(d.parity_ok(q));
                    assert(adjacent(p, q));
                    let dp = d.dist_of(p)->Some_0 as int;
                    let dq = d.dist_of(q)->Some_0 as int;
                    lemma_parity_distinct(dp, dq, p.row + p.column, q.row + q.column);
                }
            }
        }
        d
    }

    /// Reconstructs a shortest path from the root to `goal` by walking
    /// backward from `goal`, each step moving to a linked neighbor with a
    /// strictly smaller recorded distance, until the root is reached. The
    /// returned table holds the path cells with their distances, the root
    /// at zero. When `goal` has no recorded distance, or some step finds
    /// no closer neighbor, there is no path to report and the result is
    /// absent; on a table produced by a completed search over `grid` with
    /// a visited `goal`, success is guaranteed.
    pub fn path_to(&self, grid: &Grid, goal: Coord) -> (r: Option<Distance>)
        requires
            self.wf(),
            grid.wf(),
            grid.rows == self.rows,
            grid.columns == self.columns,
        ensures
            r matches Some(b) ==> {
                &&& b.wf()
                &&& b.root == self.root
                &&& b.rows == self.rows
                &&& b.columns == self.columns
                &&& b.dist_of(goal) == self.dist_of(goal)
                &&& (b.dist_of(self.root) == Some(0usize) || b.dist_of(self.root) == self.dist_of(
                    self.root,
                ))
                &&& b.recorded(goal)
                &&& forall|p: Coord|
                    #[trigger] b.recorded(p) && p != self.root ==> b.dist_of(p) == self.dist_of(p)
            },
            !self.recorded(goal) ==> r is None,
            self.parented(*grid) && self.recorded(goal) ==> r is Some,
            self.parented(*grid) && self.gap_bounded(*grid) && self.dist_of(self.root) == Some(
                0usize,
            ) && self.recorded(goal) ==> (r matches Some(b) && b.parented(*grid) && b.dist_of(
                self.root,
            ) == Some(0usize) && count_some(b.cells@) == self.dist_of(goal)->Some_0 + 1),
    {
        let dgoal = match self.get(goal) {
            Some(v) => v,
            None => {
                return None;
            },
        };
        let ghost nice = self.parented(*grid) && self.gap_bounded(*grid) && self.dist_of(
            self.root,
        ) == Some(0usize) && self.recorded(goal);
        let mut breadcomb = Distance::new(self.root, self.rows, self.columns);
        let ghost b_fresh = breadcomb;
        breadcomb.set(goal, dgoal);
        proof {
            lemma_flat_index(
                goal.row as int,
                goal.column as int,
                self.rows as int,
                self.columns as int,
            );
            lemma_count_some_update(b_fresh.cells@, b_fresh.idx(goal), Some(dgoal));
            if nice {
                if goal == self.root {
                    assert(dgoal == 0);
                } else {
                    assert(self.recorded(goal));
                    assert(dgoal >= 1);
                    assert(!b_fresh.recorded(goal));
                }
            }
        }
        let mut current = goal;
        let mut dist = dgoal;
        loop
            invariant
                self.wf(),
                grid.wf(),
                grid.rows == self.rows,
                grid.columns == self.columns,
                self.in_bounds(current),
                self.dist_of(current) == Some(dist),
                self.dist_of(goal) == Some(dgoal),
                breadcomb.wf(),
                breadcomb.root == self.root,
                breadcomb.rows == self.rows,
                breadcomb.columns == self.columns,
                breadcomb.dist_of(goal) == Some(dgoal),
                breadcomb.dist_of(self.root) == Some(0usize) || breadcomb.dist_of(self.root)
                    == self.dist_of(self.root),
                forall|p: Coord|
                    #[trigger] breadcomb.recorded(p) && p != self.root ==> breadcomb.dist_of(p)
                        == self.dist_of(p),
                nice == (self.parented(*grid) && self.gap_bounded(*grid) && self.dist_of(
                    self.root,
                ) == Some(0usize) && self.recorded(goal)),
                nice ==> breadcomb.dist_of(self.root) == Some(0usize),
                nice ==> breadcomb.dist_of(current) == Some(dist),
                nice ==> dist <= dgoal,
                nice ==> forall|p: Coord|
                    #[trigger] breadcomb.recorded(p) && p != self.root ==> breadcomb.dist_of(
                        p,
                    )->Some_0 >= dist,
                nice ==> count_some(breadcomb.cells@) == dgoal - dist + 1 + (if dist > 0 {
                    1int
                } else {
                    0int
                }),
                nice ==> forall|p: Coord|
                    #[trigger] breadcomb.recorded(p) && p != self.root && p != current
                        ==> exists|w: Coord|
                        #[trigger] grid.is_linked(p, w) && breadcomb.recorded(w)
                            && breadcomb.dist_of(w)->Some_0 + 1 == breadcomb.dist_of(p)->Some_0,
            decreases dist,
        {
            if current.row == self.root.row && current.column == self.root.column {
                proof {
                    assert(current == self.root);
                    if nice {
                        assert(dist == 0);
                        assert(count_some(breadcomb.cells@) == dgoal + 1);
                        assert forall|p: Coord|
                            #[trigger] breadcomb.recorded(p) && p != breadcomb.root implies
                            exists|w: Coord|
                                #[trigger] grid.is_linked(p, w) && breadcomb.recorded(w)
                                    && breadcomb.dist_of(w)->Some_0 + 1 == breadcomb.dist_of(
                                    p,
                                )->Some_0 by {
                            assert(p != current);
                        }
                    }
                }
                return Some(breadcomb);
            }
            let links_len = grid.grid[current.row][current.column].links.len();
            let mut found: Option<(Coord, usize)> = None;
            let mut i: usize = 0;
            while i < links_len && found.is_none()
                invariant
                    self.wf(),
                    grid.wf(),
                    grid.rows == self.rows,
                    grid.columns == self.columns,
                    grid.in_bounds(current),
                    links_len == grid.links_at(current).len(),
                    i <= links_len,
                    match found {
                        Some(pair) => grid.is_linked(current, pair.0) && self.dist_of(pair.0)
                            == Some(pair.1) && pair.1 < dist,
                        None => forall|j: int|
                            0 <= j < i ==> !((#[trigger] self.dist_of(
                                grid.links_at(current)[j],
                            )) matches Some(dn) && dn < dist),
                    },
                decreases links_len - i,
            {
                let q = grid.grid[current.row][current.column].links[i];
                proof {
                    assert(grid.wf_links_at(current));
                    assert(grid.links_at(current)[i as int] == q);
                    assert(grid.in_bounds(q));
                    assert(grid.links_at(current).contains(q));
                }
                match self.get(q) {
                    Some(dn) => {
                        if dn < dist {
                            found = Some((q, dn));
                        }
                    },
                    None => {},
                }
                i = i + 1;
            }
            match found {
                Some((q, dn)) => {
                    let ghost b_old = breadcomb;
                    breadcomb.set(q, dn);
                    proof {
                        if q == self.root {
                            assert(breadcomb.dist_of(self.root) == self.dist_of(self.root));
                        }
                        assert forall|p: Coord|
                            #[trigger] breadcomb.recorded(p) && p != self.root implies
                            breadcomb.dist_of(p) == self.dist_of(p) by {
                            if p != q {
                                assert(breadcomb.dist_of(p) == b_old.dist_of(p));
                                assert(b_old.recorded(p));
                            }
                        }
                        lemma_flat_index(
                            q.row as int,
                            q.column as int,
                            self.rows as int,
                            self.columns as int,
                        );
                        lemma_count_some_update(b_old.cells@, b_old.idx(q), Some(dn));
                        if nice {
                            // with linked distances one hop apart, the first
                            // strictly smaller neighbor is exactly one closer
                            assert(self.recorded(current));
                            assert(dn + 1 == dist);
                            if dn >= 1 {
                                assert(q != self.root);
                                assert(!b_old.recorded(q)) by {
                                    if b_old.recorded(q) {
                                        assert(b_old.dist_of(q) == self.dist_of(q));
                                        assert(b_old.dist_of(q)->Some_0 >= dist);
                                    }
                                }
                            } else {
                                assert(dn == 0);
                                assert(q == self.root) by {
                                    if q != self.root {
                                        assert(self.recorded(q));
                                        let w = choose|w: Coord|
                                            #[trigger] grid.is_linked(q, w) && self.recorded(w)
                                                && self.dist_of(w)->Some_0 + 1 == self.dist_of(
                                                q,
                                            )->Some_0;
                                        assert(self.dist_of(w)->Some_0 + 1 == 0);
                                    }
                                }
                                assert(b_old.dist_of(q) == Some(0usize));
                                assert(b_old.cells@[b_old.idx(q)] == Some(0usize));
                                assert(breadcomb.cells@ =~= b_old.cells@);
                            }
                            assert(breadcomb.dist_of(self.root) == Some(0usize));
                            assert(breadcomb.dist_of(q) == Some(dn));
                            assert forall|p: Coord|
                                #[trigger] breadcomb.recorded(p) && p != self.root implies
                                breadcomb.dist_of(p)->Some_0 >= dn by {
                                if p != q {
                                    assert(b_old.recorded(p));
                                    assert(b_old.dist_of(p)->Some_0 >= dist);
                                }
                            }
                            assert forall|p: Coord|
                                #[trigger] breadcomb.recorded(p) && p != self.root && p
                                != q implies exists|w: Coord|
                                #[trigger] grid.is_linked(p, w) && breadcomb.recorded(w)
                                    && breadcomb.dist_of(w)->Some_0 + 1 == breadcomb.dist_of(
                                    p,
                                )->Some_0 by {
                                if p == current {
                                    assert(grid.is_linked(current, q) && breadcomb.recorded(q)
                                        && breadcomb.dist_of(q)->Some_0 + 1
                                        == breadcomb.dist_of(current)->Some_0);
                                } else {
                                    assert(b_old.recorded(p));
                                    let w = choose|w: Coord|
                                        #[trigger] grid.is_linked(p, w) && b_old.recorded(w)
                                            && b_old.dist_of(w)->Some_0 + 1 == b_old.dist_of(
                                            p,
                                        )->Some_0;
                                    assert(b_old.dist_of(w) == breadcomb.dist_of(w) || w == q);
                                    assert(grid.is_linked(p, w) && breadcomb.recorded(w)
                                        && breadcomb.dist_of(w)->Some_0 + 1
                                        == breadcomb.dist_of(p)->Some_0);
                                }
                            }
                        }
                    }
                    current = q;
                    dist = dn;
                },
                None => {
                    proof {
                        if self.parented(*grid) && self.recorded(goal) {
                            assert(self.recorded(current) && current != self.root);
                            let w = choose|w: Coord|
                                #[trigger] grid.is_linked(current, w) && self.recorded(w)
                                    && self.dist_of(w)->Some_0 + 1 == self.dist_of(
                                    current,
                                )->Some_0;
                            assert(grid.links_at(current).contains(w));
                            let j = choose|j: int|
                                0 <= j < grid.links_at(current).len() && grid.links_at(current)[j]
                                    == w;
                            assert(self.dist_of(grid.links_at(current)[j]) matches Some(dn) && dn
                                < dist);
                            assert(false);
                        }
                    }
                    return None;
                },
            }
        }
    }
}

/// The alphabet a distance is displayed in: decimal digits, then the
/// lower-case letters, then the upper-case letters.
pub open spec fn distance_alphabet() -> Seq<char> {
    "0123456789abcdefghijklmnopqrstuvwxyzABCDEFGHIJKLMNOPQRSTUVWXYZ"@
}

/// The one-character display of a distance value: its digit in the
/// base-62 alphabet, a blank for an absent value, and a question mark for
/// the values past the alphabet's end, which have no defined display.
pub fn distance_str(input: Option<usize>) -> (r: String)
    ensures
        match input {
            Some(n) => if n < 62 {
                r@ == seq![distance_alphabet()[n as int]]
            } else {
                r@ == seq!['?']
            },
            None => r@ == seq![' '],
        },
{
    let alphabet: &str = "0123456789abcdefghijklmnopqrstuvwxyzABCDEFGHIJKLMNOPQRSTUVWXYZ";
    proof {
        reveal_strlit("0123456789abcdefghijklmnopqrstuvwxyzABCDEFGHIJKLMNOPQRSTUVWXYZ");
        reveal_strlit("?");
        reveal_strlit(" ");
    }
    match input {
        Some(n) => {
            if n < 62 {
                let s = alphabet.substring_char(n, n + 1);
                proof {
                    assert(s@ =~= seq![distance_alphabet()[n as int]]);
                }
                s.to_owned()
            } else {
                "?".to_owned()
            }
        },
        None => " ".to_owned(),
    }
}

/// The row-major index of an in-bounds coordinate lies within the table.
pub proof fn lemma_flat_index(row: int, column: int, rows: int, columns: int)
    by (nonlinear_arith)
    requires
        0 <= row < rows,
        0 <= column < columns,
    ensures
        0 <= row * columns + column < rows * columns,
{
}

/// Distinct in-bounds coordinates have distinct row-major indices.
pub proof fn lemma_flat_index_injective(p: Coord, q: Coord, rows: int, columns: int)
    by (nonlinear_arith)
    requires
        p.row < rows,
        p.column < columns,
        q.row < rows,
        q.column < columns,
        p.row * columns + p.column == q.row * columns + q.column,
    ensures
        p == q,
{
}

} // verus!
