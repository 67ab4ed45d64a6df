//! Kruskal's algorithm: candidate wall edges are shuffled and processed in
//! random order; a union-find forest over the cells rejects edges that
//! would close a cycle.
use vstd::prelude::*;

use crate::cell::Coord;
use crate::cell::adjacent;
use crate::cell::link;
use crate::grid::Grid;
use crate::rng::MazeRng;

verus! {

/// One union-find entry, standing for the cell at `(row, column)`. The
/// parent, when present, is the flat row-major index of another node;
/// parents always point at smaller indices, so every chain terminates.
pub struct KruskalNode {
    pub row: usize,
    pub column: usize,
    pub parent: Option<usize>,
}

/// A candidate wall removal between the cell at `(row, column)` and its
/// neighbor: the one below when `horizontal` is set, else the one to the
/// right.
#[derive(Clone, Copy, PartialEq, Eq, Structural)]
pub struct KruskalEdge {
    pub row: usize,
    pub column: usize,
    pub horizontal: bool,
}

/// The union-find forest is sound for a grid `columns` cells wide: each
/// node sits at its own flat row-major index, and parent indices strictly
/// decrease, so `root` lookups always terminate.
pub open spec fn nodes_wf(nodes: Seq<KruskalNode>, columns: int) -> bool {
    &&& columns >= 1
    &&& forall|i: int|
        0 <= i < nodes.len() ==> {
            &&& (#[trigger] nodes[i]).row * columns + nodes[i].column == i
            &&& nodes[i].column < columns
            &&& (nodes[i].parent matches Some(p) ==> p < i)
        }
}

/// Some node of the forest carries the coordinate `(row, column)`.
pub open spec fn has_node(nodes: Seq<KruskalNode>, row: int, column: int) -> bool {
    exists|i: int|
        0 <= i < nodes.len() && (#[trigger] nodes[i]).row == row && nodes[i].column == column
}

/// The edge joins two cells of a `rows x columns` grid.
pub open spec fn edge_wf(e: KruskalEdge, rows: int, columns: int) -> bool {
    if e.horizontal {
        e.row + 1 < rows && e.column < columns
    } else {
        e.row < rows && e.column + 1 < columns
    }
}

/// The flat index of the component representative reached from node `i` by
/// following parent links.
pub open spec fn root_of(nodes: Seq<KruskalNode>, i: int) -> int
    decreases i,
{
    if 0 <= i < nodes.len() {
        match nodes[i].parent {
            Some(p) => if p < i {
                root_of(nodes, p as int)
            } else {
                i
            },
            None => i,
        }
    } else {
        i
    }
}

/// In a sound forest, the representative of any node has no parent and
/// sits at or below the node's own index.
pub proof fn lemma_root_of(nodes: Seq<KruskalNode>, columns: int, i: int)
    requires
        nodes_wf(nodes, columns),
        0 <= i < nodes.len(),
    ensures
        0 <= root_of(nodes, i) <= i,
        nodes[root_of(nodes, i)].parent is None,
    decreases i,
{
    match nodes[i].parent {
        Some(p) => {
            lemma_root_of(nodes, columns, p as int);
        },
        None => {},
    }
}

/// Law: accepting an edge merges exactly the two components it joins.
/// When the parentless representative at `rmax` is attached below the
/// parentless representative at `rmin`, the forest stays sound, every node
/// that answered to `rmax` now answers to `rmin`, and every other node
/// keeps its representative — so the number of distinct components drops
/// by exactly one.
pub proof fn lemma_union_merges_components(
    nodes: Seq<KruskalNode>,
    updated: Seq<KruskalNode>,
    columns: int,
    rmin: int,
    rmax: int,
    i: int,
)
    requires
        nodes_wf(nodes, columns),
        nodes.len() <= usize::MAX,
        0 <= rmin < rmax < nodes.len(),
        nodes[rmin].parent is None,
        nodes[rmax].parent is None,
        updated == nodes.update(
            rmax,
            KruskalNode {
                row: nodes[rmax].row,
                column: nodes[rmax].column,
                parent: Some(rmin as usize),
            },
        ),
        0 <= i < nodes.len(),
    ensures
        nodes_wf(updated, columns),
        root_of(updated, i) == if root_of(nodes, i) == rmax {
            rmin
        } else {
            root_of(nodes, i)
        },
    decreases i,
{
    assert forall|k: int|
        0 <= k < updated.len() implies {
        &&& (#[trigger] updated[k]).row * columns + updated[k].column == k
        &&& updated[k].column < columns
        &&& (updated[k].parent matches Some(p) ==> p < k)
    } by {
        if k != rmax {
            assert(updated[k] == nodes[k]);
        }
    }
    lemma_root_of(nodes, columns, i);
    if i == rmax {
        assert(updated[rmax].parent == Some(rmin as usize));
        assert(updated[rmin] == nodes[rmin]);
        assert(updated[rmin].parent is None);
        assert(root_of(updated, rmin) == rmin);
        assert(root_of(updated, rmax) == root_of(updated, rmin)) by {
            reveal_with_fuel(root_of, 2);
        }
        assert(root_of(nodes, rmax) == rmax);
    } else {
        assert(updated[i] == nodes[i]);
        match nodes[i].parent {
            Some(p) => {
                lemma_union_merges_components(nodes, updated, columns, rmin, rmax, p as int);
            },
            None => {
                assert(root_of(nodes, i) == i);
                assert(root_of(updated, i) == i);
            },
        }
    }
}

impl KruskalNode {
    /// The coordinate of this node's component representative, found by
    /// following parent links to a parentless node; termination is owed to
    /// the strictly decreasing parent indices.
    pub fn root(&self, nodes: &Vec<KruskalNode>, columns: usize) -> (r: (usize, usize))
        requires
            nodes_wf(nodes@, columns as int),
            self.row * columns + self.column < nodes@.len(),
            nodes@[self.row * columns + self.column] == *self,
        ensures
            ({
                let ri = root_of(nodes@, self.row * columns + self.column);
                &&& 0 <= ri < nodes@.len()
                &&& r.0 == nodes@[ri].row
                &&& r.1 == nodes@[ri].column
                &&& nodes@[ri].parent is None
            }),
    {
        let ghost i0: int = self.row * columns + self.column;
        proof {
            lemma_root_of(nodes@, columns as int, i0);
        }
        let n = nodes.len();
        proof {
            assert(self.row * columns + self.column < n);
        }
        let mut current: usize = self.row * columns + self.column;
        loop
            invariant
                nodes_wf(nodes@, columns as int),
                i0 == self.row * columns + self.column,
                0 <= i0 < nodes@.len(),
                0 <= current < nodes@.len(),
                root_of(nodes@, current as int) == root_of(nodes@, i0),
            decreases current,
        {
            match nodes[current].parent {
                Some(p) => {
                    current = p;
                },
                None => {
                    proof {
                        lemma_root_of(nodes@, columns as int, i0);
                        assert(root_of(nodes@, current as int) == current);
                    }
                    return (nodes[current].row, nodes[current].column);
                },
            }
        }
    }
}

impl KruskalEdge {
    /// The coordinate of this edge's second endpoint: the cell below the
    /// first when `horizontal` is set, else the cell to its right.
    pub open spec fn partner_row(self) -> int {
        if self.horizontal {
            self.row + 1
        } else {
            self.row as int
        }
    }

    pub open spec fn partner_column(self) -> int {
        if self.horizontal {
            self.column as int
        } else {
            self.column + 1
        }
    }

    /// The flat indices of the two endpoint nodes of this edge, found by a
    /// linear scan over the forest; present exactly when the forest holds
    /// a node at each endpoint coordinate.
    pub fn find_node(&self, nodes: &Vec<KruskalNode>) -> (r: Option<(usize, usize)>)
        ensures
            r matches Some(pair) ==> {
                &&& pair.0 < nodes@.len()
                &&& pair.1 < nodes@.len()
                &&& nodes@[pair.0 as int].row == self.row
                &&& nodes@[pair.0 as int].column == self.column
                &&& nodes@[pair.1 as int].row == self.partner_row()
                &&& nodes@[pair.1 as int].column == self.partner_column()
            },
            r is Some <==> has_node(nodes@, self.row as int, self.column as int) && has_node(
                nodes@,
                self.partner_row(),
                self.partner_column(),
            ),
    {
        let node1 = match position_of_node(nodes, self.row, self.column) {
            Some(i) => i,
            None => {
                proof {
                    assert(!has_node(nodes@, self.row as int, self.column as int)) by {
                        if has_node(nodes@, self.row as int, self.column as int) {
                            let i = choose|i: int|
                                0 <= i < nodes@.len() && (#[trigger] nodes@[i]).row == self.row
                                    && nodes@[i].column == self.column;
                            assert(nodes@[i].row == self.row);
                        }
                    }
                }
                return None;
            },
        };
        proof {
            assert(has_node(nodes@, self.row as int, self.column as int));
        }
        let (row2, column2) = if self.horizontal {
            if self.row == usize::MAX {
                proof {
                    assert(!has_node(nodes@, self.partner_row(), self.partner_column())) by {
                        if has_node(nodes@, self.partner_row(), self.partner_column()) {
                            let i = choose|i: int|
                                0 <= i < nodes@.len() && (#[trigger] nodes@[i]).row
                                    == self.partner_row() && nodes@[i].column
                                    == self.partner_column();
                            assert(nodes@[i].row <= usize::MAX);
                        }
                    }
                }
                return None;
            }
            (self.row + 1, self.column)
        } else {
            if self.column == usize::MAX {
                proof {
                    assert(!has_node(nodes@, self.partner_row(), self.partner_column())) by {
                        if has_node(nodes@, self.partner_row(), self.partner_column()) {
                            let i = choose|i: int|
                                0 <= i < nodes@.len() && (#[trigger] nodes@[i]).row
                                    == self.partner_row() && nodes@[i].column
                                    == self.partner_column();
                            assert(nodes@[i].column <= usize::MAX);
                        }
                    }
                }
                return None;
            }
            (self.row, self.column + 1)
        };
        let node2 = match position_of_node(nodes, row2, column2) {
            Some(i) => i,
            None => {
                proof {
                    assert(!has_node(nodes@, self.partner_row(), self.partner_column())) by {
                        if has_node(nodes@, self.partner_row(), self.partner_column()) {
                            let i = choose|i: int|
                                0 <= i < nodes@.len() && (#[trigger] nodes@[i]).row
                                    == self.partner_row() && nodes@[i].column
                                    == self.partner_column();
                            assert(nodes@[i].row == row2 && nodes@[i].column == column2);
                        }
                    }
                }
                return None;
            },
        };
        proof {
            assert(has_node(nodes@, self.partner_row(), self.partner_column()));
        }
        Some((node1, node2))
    }
}

/// The index of the first node with the given coordinate, if any.
fn position_of_node(nodes: &Vec<KruskalNode>, row: usize, column: usize) -> (r: Option<usize>)
    ensures
        r matches Some(i) ==> i < nodes@.len() && nodes@[i as int].row == row
            && nodes@[i as int].column == column,
        r is None ==> forall|i: int|
            0 <= i < nodes@.len() ==> !((#[trigger] nodes@[i]).row == row && nodes@[i].column
                == column),
{
    let mut i: usize = 0;
    while i < nodes.len()
        invariant
            i <= nodes@.len(),
            forall|j: int|
                0 <= j < i ==> !((#[trigger] nodes@[j]).row == row && nodes@[j].column == column),
        decreases nodes@.len() - i,
    {
        if nodes[i].row == row && nodes[i].column == column {
            return Some(i);
        }
        i = i + 1;
    }
    None
}

/// How many nodes of the forest are parentless: one per component, since
/// every union gives exactly one previously parentless node a parent.
pub open spec fn count_parentless(nodes: Seq<KruskalNode>) -> int
    decreases nodes.len(),
{
    if nodes.len() == 0 {
        0
    } else {
        count_parentless(nodes.drop_last()) + if nodes.last().parent is None {
            1int
        } else {
            0int
        }
    }
}

pub proof fn lemma_count_parentless_update(nodes: Seq<KruskalNode>, i: int, v: KruskalNode)
    requires
        0 <= i < nodes.len(),
    ensures
        count_parentless(nodes.update(i, v)) == count_parentless(nodes) + (if v.parent is None {
            1int
        } else {
            0int
        }) - (if nodes[i].parent is None {
            1int
        } else {
            0int
        }),
    decreases nodes.len(),
{
    let u = nodes.update(i, v);
    if i == nodes.len() - 1 {
        assert(u.drop_last() =~= nodes.drop_last());
    } else {
        assert(u.drop_last() =~= nodes.drop_last().update(i, v));
        lemma_count_parentless_update(nodes.drop_last(), i, v);
    }
}

/// A forest of fresh singletons has one component per node; a forest with
/// a single parentless node has exactly one component.
pub proof fn lemma_count_parentless_extremes(nodes: Seq<KruskalNode>, r0: int)
    ensures
        (forall|i: int| 0 <= i < nodes.len() ==> (#[trigger] nodes[i]).parent is None)
            ==> count_parentless(nodes) == nodes.len(),
        (0 <= r0 < nodes.len() && nodes[r0].parent is None && (forall|j: int|
            0 <= j < nodes.len() && j != r0 ==> (#[trigger] nodes[j]).parent is Some))
            ==> count_parentless(nodes) == 1,
    decreases nodes.len(),
{
    if nodes.len() > 0 {
        lemma_count_parentless_extremes(nodes.drop_last(), r0);
        if 0 <= r0 < nodes.len() && nodes[r0].parent is None && (forall|j: int|
            0 <= j < nodes.len() && j != r0 ==> (#[trigger] nodes[j]).parent is Some) {
            if r0 == nodes.len() - 1 {
                assert(count_parentless(nodes.drop_last()) == 0) by {
                    lemma_count_parentless_none(nodes.drop_last());
                }
            }
        }
    }
}

proof fn lemma_count_parentless_none(nodes: Seq<KruskalNode>)
    requires
        forall|i: int| 0 <= i < nodes.len() ==> (#[trigger] nodes[i]).parent is Some,
    ensures
        count_parentless(nodes) == 0,
    decreases nodes.len(),
{
    if nodes.len() > 0 {
        lemma_count_parentless_none(nodes.drop_last());
    }
}

/// The flat row-major index of the cell at `(r, c)`.
pub open spec fn flat_index(columns: int, r: int, c: int) -> int {
    r * columns + c
}

/// In a sound forest covering a full grid, the node at a coordinate's flat
/// index carries exactly that coordinate.
pub proof fn lemma_node_at(nodes: Seq<KruskalNode>, columns: int, r: int, c: int)
    requires
        nodes_wf(nodes, columns),
        0 <= r,
        0 <= c < columns,
        r * columns + c < nodes.len(),
    ensures
        0 <= r * columns + c,
        nodes[r * columns + c].row == r,
        nodes[r * columns + c].column == c,
{
    let i = r * columns + c;
    assert(0 <= i) by (nonlinear_arith)
        requires
            i == r * columns + c,
            0 <= r,
            0 <= c,
            columns >= 1,
    ;
    let nr = nodes[i].row as int;
    let nc = nodes[i].column as int;
    assert(nr == r && nc == c) by (nonlinear_arith)
        requires
            nr * columns + nc == r * columns + c,
            0 <= nc < columns,
            0 <= c < columns,
            0 <= nr,
            0 <= r,
    ;
}

/// When every south and east wall pair of a full grid shares a component
/// representative, every cell shares the representative of the origin:
/// the processed wall edges connect the whole grid.
pub proof fn lemma_wall_roots_cover(
    nodes: Seq<KruskalNode>,
    rows: int,
    columns: int,
    r: int,
    c: int,
)
    requires
        nodes_wf(nodes, columns),
        nodes.len() == rows * columns,
        rows >= 1,
        columns >= 1,
        forall|rr: int, cc: int|
            0 <= rr < rows - 1 && 0 <= cc < columns ==> #[trigger] root_of(
                nodes,
                flat_index(columns, rr, cc),
            ) == root_of(nodes, flat_index(columns, rr + 1, cc)),
        forall|rr: int, cc: int|
            0 <= rr < rows && 0 <= cc < columns - 1 ==> #[trigger] root_of(
                nodes,
                flat_index(columns, rr, cc),
            ) == root_of(nodes, flat_index(columns, rr, cc + 1)),
        0 <= r < rows,
        0 <= c < columns,
    ensures
        root_of(nodes, flat_index(columns, r, c)) == root_of(nodes, 0),
    decreases r + c,
{
    if r == 0 && c == 0 {
        assert(flat_index(columns, 0, 0) == 0);
    } else if r >= 1 {
        lemma_wall_roots_cover(nodes, rows, columns, r - 1, c);
        assert(root_of(nodes, flat_index(columns, r - 1, c)) == root_of(
            nodes,
            flat_index(columns, (r - 1) + 1, c),
        ));
        assert(flat_index(columns, (r - 1) + 1, c) == flat_index(columns, r, c));
    } else {
        lemma_wall_roots_cover(nodes, rows, columns, r, c - 1);
        assert(root_of(nodes, flat_index(columns, r, c - 1)) == root_of(
            nodes,
            flat_index(columns, r, (c - 1) + 1),
        ));
        assert(flat_index(columns, r, (c - 1) + 1) == flat_index(columns, r, c));
    }
}

/// The number of downward wall edges whose cell comes before row-major
/// position `(r, c)`: every cell of the first `rows - 1` rows has one.
spec fn h_edges_before(rows: int, columns: int, r: int, c: int) -> int {
    if r >= rows - 1 {
        (rows - 1) * columns
    } else {
        r * columns + c
    }
}

/// The number of rightward wall edges whose cell comes before row-major
/// position `(r, c)`: every cell of the first `columns - 1` columns of
/// each row has one.
spec fn v_edges_before(columns: int, r: int, c: int) -> int {
    r * (columns - 1) + if c >= columns - 1 {
        columns - 1
    } else {
        c
    }
}

/// The transient state of one Kruskal run: one union-find node per cell
/// and the shuffled list of candidate edges, consumed from the back.
pub struct Kruskal {
    pub nodes: Vec<KruskalNode>,
    pub edges: Vec<KruskalEdge>,
}

impl Kruskal {
    /// Builds the forest (every node its own component) and the full set
    /// of south/east wall edges, then shuffles the edges.
    pub fn new(grid: &Grid, rng: &mut MazeRng) -> (k: Kruskal)
        requires
            grid.wf(),
            grid.rows >= 1,
            grid.columns >= 1,
        ensures
            nodes_wf(k.nodes@, grid.columns as int),
            k.nodes@.len() == grid.rows * grid.columns,
            forall|i: int| 0 <= i < k.nodes@.len() ==> (#[trigger] k.nodes@[i]).parent is None,
            forall|i: int|
                0 <= i < k.edges@.len() ==> edge_wf(
                    #[trigger] k.edges@[i],
                    grid.rows as int,
                    grid.columns as int,
                ),
            k.edges@.len() == (grid.rows - 1) * grid.columns + grid.rows * (grid.columns - 1),
            forall|e: KruskalEdge|
                edge_wf(e, grid.rows as int, grid.columns as int) ==> k.edges@.contains(e),
    {
        let rows = grid.rows;
        let columns = grid.columns;
        let mut nodes: Vec<KruskalNode> = Vec::new();
        let mut edges: Vec<KruskalEdge> = Vec::new();
        let mut row: usize = 0;
        while row < rows
            invariant
                row <= rows,
                rows == grid.rows,
                columns == grid.columns,
                grid.wf(),
                columns >= 1,
                nodes@.len() == row * columns,
                nodes_wf(nodes@, columns as int),
                forall|i: int| 0 <= i < nodes@.len() ==> (#[trigger] nodes@[i]).parent is None,
                forall|i: int|
                    0 <= i < edges@.len() ==> edge_wf(
                        #[trigger] edges@[i],
                        rows as int,
                        columns as int,
                    ),
                edges@.len() == h_edges_before(rows as int, columns as int, row as int, 0)
                    + v_edges_before(columns as int, row as int, 0),
                forall|e: KruskalEdge|
                    edge_wf(e, rows as int, columns as int) && (e.row < row) ==> edges@.contains(
                        e,
                    ),
            decreases rows - row,
        {
            let mut column: usize = 0;
            while column < columns
                invariant
                    row < rows,
                    column <= columns,
                    rows == grid.rows,
                    columns == grid.columns,
                    grid.wf(),
                    columns >= 1,
                    nodes@.len() == row * columns + column,
                    nodes_wf(nodes@, columns as int),
                    forall|i: int| 0 <= i < nodes@.len() ==> (#[trigger] nodes@[i]).parent is None,
                    forall|i: int|
                        0 <= i < edges@.len() ==> edge_wf(
                            #[trigger] edges@[i],
                            rows as int,
                            columns as int,
                        ),
                    edges@.len() == h_edges_before(
                        rows as int,
                        columns as int,
                        row as int,
                        column as int,
                    ) + v_edges_before(columns as int, row as int, column as int),
                    forall|e: KruskalEdge|
                        edge_wf(e, rows as int, columns as int) && (e.row < row || (e.row == row
                            && e.column < column)) ==> edges@.contains(e),
                decreases columns - column,
            {
                proof {
                    let ri = row as int;
                    let ci = column as int;
                    let cols = columns as int;
                    let rs = rows as int;
                    assert(ri * cols + ci < rs * cols) by (nonlinear_arith)
                        requires
                            0 <= ri < rs,
                            0 <= ci < cols,
                    ;
                    assert(grid.rows * grid.columns <= usize::MAX);
                }
                if row != rows - 1 {
                    edges.push(KruskalEdge { row, column, horizontal: true });
                }
                if column != columns - 1 {
                    edges.push(KruskalEdge { row, column, horizontal: false });
                }
                nodes.push(KruskalNode { row, column, parent: None });
                proof {
                    broadcast use vstd::seq_lib::lemma_seq_contains_after_push;

                    assert forall|e: KruskalEdge|
                        edge_wf(e, rows as int, columns as int) && (e.row < row || (e.row == row
                            && e.column < column + 1)) implies edges@.contains(e) by {
                        if e.row == row && e.column == column {
                            if e.horizontal {
                                assert(row != rows - 1);
                            } else {
                                assert(column != columns - 1);
                            }
                        }
                    }
                }
                column = column + 1;
            }
            proof {
                let ri = row as int;
                let cols = columns as int;
                assert(ri * cols + cols == (ri + 1) * cols) by (nonlinear_arith);
                assert(ri * (cols - 1) + (cols - 1) == (ri + 1) * (cols - 1)) by (nonlinear_arith);
                assert forall|e: KruskalEdge|
                    edge_wf(e, rows as int, columns as int) && e.row < row + 1 implies
                    edges@.contains(e) by {
                    assert(e.column < columns);
                }
            }
            row = row + 1;
        }
        proof {
            let rs = rows as int;
            let cols = columns as int;
            assert forall|e: KruskalEdge| edge_wf(e, rs, cols) implies edges@.contains(e) by {
                assert(e.row < rows);
            }
        }
        let edge_count = edges.len();
        let mut i: usize = 0;
        while i < edge_count
            invariant
                i <= edge_count,
                edges@.len() == edge_count,
                forall|j: int|
                    0 <= j < edges@.len() ==> edge_wf(
                        #[trigger] edges@[j],
                        rows as int,
                        columns as int,
                    ),
                forall|e: KruskalEdge|
                    edge_wf(e, rows as int, columns as int) ==> edges@.contains(e),
            decreases edge_count - i,
        {
            let j = i + rng.next_below(edge_count - i);
            let ghost pre = edges@;
            let a = edges[i];
            let b = edges[j];
            edges[i] = b;
            edges[j] = a;
            proof {
                assert forall|e: KruskalEdge|
                    edge_wf(e, rows as int, columns as int) implies edges@.contains(e) by {
                    assert(pre.contains(e));
                    let k = choose|k: int| 0 <= k < pre.len() && pre[k] == e;
                    if k == i as int {
                        assert(edges@[j as int] == e);
                    } else if k == j as int {
                        assert(edges@[i as int] == e);
                    } else {
                        assert(edges@[k] == e);
                    }
                }
            }
            i = i + 1;
        }
        Kruskal { nodes, edges }
    }
}

/// Runs Kruskal's algorithm on the grid: edges are taken in shuffled
/// order; an edge whose endpoints already share a component representative
/// is discarded, otherwise the two cells are linked and their components
/// are united. Only side-by-side cells are ever linked, and on a freshly
/// configured grid the carved graph is a spanning tree: exactly
/// `rows * columns - 1` links, every cell carved.
#[verifier::rlimit(100)]
pub fn on(grid: &mut Grid, rng: &mut MazeRng)
    requires
        old(grid).wf(),
        old(grid).rows >= 1,
        old(grid).columns >= 1,
    ensures
        final(grid).wf(),
        old(grid).same_shape(*final(grid)),
        final(grid).distance == old(grid).distance,
        forall|p: Coord, q: Coord| old(grid).is_linked(p, q) ==> final(grid).is_linked(p, q),
        forall|p: Coord, q: Coord|
            final(grid).is_linked(p, q) ==> old(grid).is_linked(p, q) || adjacent(p, q),
        old(grid).configured() && old(grid).all_unlinked() ==> final(grid).total_link_entries()
            == 2 * (old(grid).rows * old(grid).columns - 1),
        old(grid).configured() && old(grid).all_unlinked() && old(grid).rows * old(grid).columns
            >= 2 ==> forall|p: Coord|
            final(grid).in_bounds(p) ==> (#[trigger] final(grid).links_at(p)).len() > 0,
{
    let ghost g0 = *old(grid);
    let ghost cfg = g0.configured() && g0.all_unlinked();
    let rows = grid.rows;
    let columns = grid.columns;
    let ghost cols = columns as int;
    let ghost cell_count = rows as int * cols;
    let mut kruskal = Kruskal::new(grid, rng);
    proof {
        if cfg {
            crate::grid::lemma_entries_of_unlinked(g0);
            lemma_count_parentless_extremes(kruskal.nodes@, 0);
        }
    }
    while kruskal.edges.len() > 0
        invariant
            grid.wf(),
            g0.wf(),
            grid.rows == rows,
            grid.columns == columns,
            g0.rows == rows,
            g0.columns == columns,
            rows >= 1,
            columns >= 1,
            cols == columns as int,
            cell_count == rows as int * cols,
            cfg == (g0.configured() && g0.all_unlinked()),
            g0.same_shape(*grid),
            grid.distance == g0.distance,
            nodes_wf(kruskal.nodes@, cols),
            kruskal.nodes@.len() == cell_count,
            forall|i: int|
                0 <= i < kruskal.edges@.len() ==> edge_wf(
                    #[trigger] kruskal.edges@[i],
                    rows as int,
                    cols,
                ),
            forall|p: Coord, q: Coord| g0.is_linked(p, q) ==> grid.is_linked(p, q),
            forall|p: Coord, q: Coord|
                grid.is_linked(p, q) ==> g0.is_linked(p, q) || adjacent(p, q),
            cfg ==> forall|rr: int, cc: int|
                0 <= rr < rows as int - 1 && 0 <= cc < cols ==> kruskal.edges@.contains(
                    KruskalEdge { row: rr as usize, column: cc as usize, horizontal: true },
                ) || #[trigger] root_of(kruskal.nodes@, flat_index(cols, rr, cc)) == root_of(
                    kruskal.nodes@,
                    flat_index(cols, rr + 1, cc),
                ),
            cfg ==> forall|rr: int, cc: int|
                0 <= rr < rows as int && 0 <= cc < cols - 1 ==> kruskal.edges@.contains(
                    KruskalEdge { row: rr as usize, column: cc as usize, horizontal: false },
                ) || #[trigger] root_of(kruskal.nodes@, flat_index(cols, rr, cc)) == root_of(
                    kruskal.nodes@,
                    flat_index(cols, rr, cc + 1),
                ),
            cfg ==> forall|p: Coord, q: Coord|
                #[trigger] grid.is_linked(p, q) ==> root_of(
                    kruskal.nodes@,
                    flat_index(cols, p.row as int, p.column as int),
                ) == root_of(kruskal.nodes@, flat_index(cols, q.row as int, q.column as int)),
            cfg ==> grid.total_link_entries() == 2 * (cell_count - count_parentless(
                kruskal.nodes@,
            )),
            cfg ==> forall|i: int|
                0 <= i < kruskal.nodes@.len() && (#[trigger] grid.links_at(
                    Coord {
                        row: kruskal.nodes@[i].row,
                        column: kruskal.nodes@[i].column,
                    },
                )).len() == 0 ==> kruskal.nodes@[i].parent is None && (forall|j: int|
                    0 <= j < kruskal.nodes@.len() && j != i ==> root_of(kruskal.nodes@, j) != i),
        decreases kruskal.edges@.len(),
    {
        let ghost pre_edges = kruskal.edges@;
        let current = match kruskal.edges.pop() {
            Some(v) => v,
            None => vstd::pervasive::unreached(),
        };
        proof {
            assert(current == pre_edges.last());
            assert(kruskal.edges@ == pre_edges.drop_last());
            if cfg {
                assert forall|e: KruskalEdge|
                    pre_edges.contains(e) && e != current implies kruskal.edges@.contains(e) by {
                    let k = choose|k: int| 0 <= k < pre_edges.len() && pre_edges[k] == e;
                    assert(kruskal.edges@[k] == e);
                }
            }
        }
        let find_result = current.find_node(&kruskal.nodes);
        match find_result {
            Some((node1, node2)) => {
                proof {
                    assert(nodes_wf(kruskal.nodes@, cols));
                }
                let root1 = kruskal.nodes[node1].root(&kruskal.nodes, columns);
                let root2 = kruskal.nodes[node2].root(&kruskal.nodes, columns);
                let ghost i1: int = node1 as int;
                let ghost i2: int = node2 as int;
                let ghost r1 = root_of(kruskal.nodes@, i1);
                let ghost r2 = root_of(kruskal.nodes@, i2);
                proof {
                    assert(kruskal.nodes@[i1].row * cols + kruskal.nodes@[i1].column == i1);
                    assert(kruskal.nodes@[i2].row * cols + kruskal.nodes@[i2].column == i2);
                    lemma_root_of(kruskal.nodes@, cols, i1);
                    lemma_root_of(kruskal.nodes@, cols, i2);
                    assert(kruskal.nodes@[r1].row * cols + kruskal.nodes@[r1].column == r1);
                    assert(kruskal.nodes@[r2].row * cols + kruskal.nodes@[r2].column == r2);
                    assert(i1 == flat_index(cols, current.row as int, current.column as int));
                    assert(i2 == flat_index(cols, current.partner_row(), current.partner_column()));
                }
                if root1.0 == root2.0 && root1.1 == root2.1 {
                    proof {
                        assert(r1 == r2);
                        if cfg {
                            assert(root_of(kruskal.nodes@, i1) == root_of(kruskal.nodes@, i2));
                        }
                    }
                    continue ;
                }
                proof {
                    let x1 = root1.0 as int;
                    let y1 = root1.1 as int;
                    let x2 = root2.0 as int;
                    let y2 = root2.1 as int;
                    assert(r1 != r2) by (nonlinear_arith)
                        requires
                            r1 == x1 * cols + y1,
                            r2 == x2 * cols + y2,
                            0 <= x1,
                            0 <= y1 < cols,
                            0 <= x2,
                            0 <= y2 < cols,
                            !(x1 == x2 && y1 == y2),
                    ;
                }
                let a = Coord { row: kruskal.nodes[node1].row, column: kruskal.nodes[node1].column };
                let b = Coord { row: kruskal.nodes[node2].row, column: kruskal.nodes[node2].column };
                let ghost pre = *grid;
                proof {
                    assert(grid.in_bounds(a));
                    assert(grid.in_bounds(b));
                    assert(adjacent(a, b));
                    if cfg && pre.is_linked(a, b) {
                        assert(root_of(kruskal.nodes@, i1) == root_of(kruskal.nodes@, i2));
                        assert(false);
                    }
                }
                link(grid, a, b);
                proof {
                    assert forall|p2: Coord, q2: Coord| grid.is_linked(p2, q2) implies g0.is_linked(
                        p2,
                        q2,
                    ) || adjacent(p2, q2) by {
                        if !((p2 == a && q2 == b) || (p2 == b && q2 == a)) {
                            assert(pre.is_linked(p2, q2));
                        }
                    }
                }
                // unite the two components: the representative with the larger
                // index becomes a child of the other, keeping parent indices
                // strictly decreasing
                let ridx1 = root1.0 * columns + root1.1;
                let ridx2 = root2.0 * columns + root2.1;
                let ghost pre_nodes = kruskal.nodes@;
                let ghost rmin: int = if r1 < r2 { r1 } else { r2 };
                let ghost rmax: int = if r1 < r2 { r2 } else { r1 };
                if ridx1 < ridx2 {
                    kruskal.nodes[ridx2].parent = Some(ridx1);
                } else {
                    kruskal.nodes[ridx1].parent = Some(ridx2);
                }
                proof {
                    assert(kruskal.nodes@ =~= pre_nodes.update(
                        rmax,
                        KruskalNode {
                            row: pre_nodes[rmax].row,
                            column: pre_nodes[rmax].column,
                            parent: Some(rmin as usize),
                        },
                    ));
                    assert forall|i: int| 0 <= i < pre_nodes.len() implies nodes_wf(
                        kruskal.nodes@,
                        cols,
                    ) && root_of(kruskal.nodes@, i) == (if root_of(pre_nodes, i) == rmax {
                        rmin
                    } else {
                        root_of(pre_nodes, i)
                    }) by {
                        lemma_union_merges_components(
                            pre_nodes,
                            kruskal.nodes@,
                            cols,
                            rmin,
                            rmax,
                            i,
                        );
                    }
                    lemma_count_parentless_update(pre_nodes, rmax, kruskal.nodes@[rmax]);
                    if cfg {
                        assert(root_of(kruskal.nodes@, i1) == rmin);
                        assert(root_of(kruskal.nodes@, i2) == rmin);
                        // every previously settled root equality survives the
                        // union, and the popped edge's pair is now settled
                        assert forall|p2: Coord, q2: Coord|
                            #[trigger] grid.is_linked(p2, q2) implies root_of(
                            kruskal.nodes@,
                            flat_index(cols, p2.row as int, p2.column as int),
                        ) == root_of(
                            kruskal.nodes@,
                            flat_index(cols, q2.row as int, q2.column as int),
                        ) by {
                            if (p2 == a && q2 == b) || (p2 == b && q2 == a) {
                            } else {
                                assert(pre.is_linked(p2, q2));
                                assert(grid.in_bounds(p2));
                                crate::cell::lemma_linked_symmetric(pre, p2, q2);
                                assert(grid.in_bounds(q2));
                                lemma_flat_bounds(cols, rows as int, p2);
                                lemma_flat_bounds(cols, rows as int, q2);
                            }
                        }
                        // the popped wall pair is settled by this union; every
                        // other wall pair keeps its edge or its settled roots
                        assert forall|rr: int, cc: int|
                            0 <= rr < rows as int - 1 && 0 <= cc < cols implies
                            kruskal.edges@.contains(
                                (KruskalEdge {
                                    row: rr as usize,
                                    column: cc as usize,
                                    horizontal: true,
                                }),
                            ) || #[trigger] root_of(kruskal.nodes@, flat_index(cols, rr, cc))
                            == root_of(kruskal.nodes@, flat_index(cols, rr + 1, cc)) by {
                            let e = KruskalEdge {
                                row: rr as usize,
                                column: cc as usize,
                                horizontal: true,
                            };
                            let f1 = flat_index(cols, rr, cc);
                            let f2 = flat_index(cols, rr + 1, cc);
                            let rws = rows as int;
                            assert(0 <= f1 < cell_count && 0 <= f2 < cell_count)
                                by (nonlinear_arith)
                                requires
                                    f1 == rr * cols + cc,
                                    f2 == (rr + 1) * cols + cc,
                                    0 <= rr,
                                    rr + 1 < rws,
                                    0 <= cc < cols,
                                    cell_count == rws * cols,
                            ;
                            if e == current {
                                assert(f1 == i1 && f2 == i2);
                            } else if pre_edges.contains(e) {
                                assert(kruskal.edges@.contains(e));
                            } else {
                                assert(root_of(pre_nodes, f1) == root_of(pre_nodes, f2));
                            }
                        }
                        assert forall|rr: int, cc: int|
                            0 <= rr < rows as int && 0 <= cc < cols - 1 implies
                            kruskal.edges@.contains(
                                (KruskalEdge {
                                    row: rr as usize,
                                    column: cc as usize,
                                    horizontal: false,
                                }),
                            ) || #[trigger] root_of(kruskal.nodes@, flat_index(cols, rr, cc))
                            == root_of(kruskal.nodes@, flat_index(cols, rr, cc + 1)) by {
                            let e = KruskalEdge {
                                row: rr as usize,
                                column: cc as usize,
                                horizontal: false,
                            };
                            let f1 = flat_index(cols, rr, cc);
                            let f2 = flat_index(cols, rr, cc + 1);
                            let rws = rows as int;
                            assert(0 <= f1 < cell_count && 0 <= f2 < cell_count)
                                by (nonlinear_arith)
                                requires
                                    f1 == rr * cols + cc,
                                    f2 == rr * cols + cc + 1,
                                    0 <= rr,
                                    rr < rws,
                                    0 <= cc,
                                    cc + 1 < cols,
                                    cell_count == rws * cols,
                            ;
                            if e == current {
                                assert(f1 == i1 && f2 == i2);
                            } else if pre_edges.contains(e) {
                                assert(kruskal.edges@.contains(e));
                            } else {
                                assert(root_of(pre_nodes, f1) == root_of(pre_nodes, f2));
                            }
                        }
                        // a still-unlinked cell is still a lone singleton: it is
                        // not an endpoint, and no representative moves onto it
                        assert forall|i: int|
                            0 <= i < kruskal.nodes@.len() && (#[trigger] grid.links_at(
                                Coord {
                                    row: kruskal.nodes@[i].row,
                                    column: kruskal.nodes@[i].column,
                                },
                            )).len() == 0 implies kruskal.nodes@[i].parent is None && (forall|
                            j: int,
                        |
                            0 <= j < kruskal.nodes@.len() && j != i ==> root_of(
                                kruskal.nodes@,
                                j,
                            ) != i) by {
                            let pc = Coord {
                                row: kruskal.nodes@[i].row,
                                column: kruskal.nodes@[i].column,
                            };
                            lemma_node_in_bounds(pre_nodes, cols, rows as int, i);
                            assert(grid.in_bounds(pc));
                            assert(grid.links_at(a).len() > 0);
                            assert(grid.links_at(b).len() > 0);
                            assert(pc != a && pc != b);
                            assert(grid.links_at(pc) == pre.links_at(pc));
                            assert(pre.links_at(pc).len() == 0);
                            assert(pre_nodes[i1].row == a.row && pre_nodes[i1].column == a.column);
                            assert(pre_nodes[i2].row == b.row && pre_nodes[i2].column == b.column);
                            assert(i != i1 && i != i2);
                            assert(root_of(pre_nodes, i1) != i && root_of(pre_nodes, i2) != i);
                            assert(i != rmax && i != rmin);
                            assert(kruskal.nodes@[i] == pre_nodes[i]);
                            assert forall|j: int|
                                0 <= j < kruskal.nodes@.len() && j != i implies root_of(
                                kruskal.nodes@,
                                j,
                            ) != i by {
                                assert(root_of(pre_nodes, j) != i);
                            }
                        }
                    }
                }
            },
            None => {
                proof {
                    let er = current.row as int;
                    let ec = current.column as int;
                    let pr = current.partner_row();
                    let pc2 = current.partner_column();
                    let rws = rows as int;
                    assert(er < rws && ec < cols && pr < rws && pc2 < cols);
                    assert(er * cols + ec < cell_count) by (nonlinear_arith)
                        requires
                            0 <= er,
                            er < rws,
                            0 <= ec,
                            ec < cols,
                            cell_count == rws * cols,
                    ;
                    assert(pr * cols + pc2 < cell_count) by (nonlinear_arith)
                        requires
                            0 <= pr,
                            pr < rws,
                            0 <= pc2,
                            pc2 < cols,
                            cell_count == rws * cols,
                    ;
                    lemma_node_at(kruskal.nodes@, cols, er, ec);
                    lemma_node_at(kruskal.nodes@, cols, pr, pc2);
                    assert(has_node(kruskal.nodes@, er, ec)) by {
                        assert(kruskal.nodes@[er * cols + ec].row == er);
                    }
                    assert(has_node(kruskal.nodes@, pr, pc2)) by {
                        assert(kruskal.nodes@[pr * cols + pc2].row == pr);
                    }
                    assert(false);
                }
            },
        }
    }
    proof {
        if cfg {
            // the edge list is exhausted, so every wall pair of the grid
            // shares a representative: one component remains, hence
            // rows * columns - 1 links, and no cell is left a singleton
            assert forall|p: Coord| grid.in_bounds(p) implies root_of(
                kruskal.nodes@,
                flat_index(cols, p.row as int, p.column as int),
            ) == root_of(kruskal.nodes@, 0) by {
                lemma_wall_roots_cover(
                    kruskal.nodes@,
                    rows as int,
                    cols,
                    p.row as int,
                    p.column as int,
                );
            }
            let r0 = root_of(kruskal.nodes@, 0);
            assert(cell_count >= 1) by (nonlinear_arith)
                requires
                    cell_count == rows as int * cols,
                    rows as int >= 1,
                    cols >= 1,
            ;
            lemma_root_of(kruskal.nodes@, cols, 0);
            assert forall|j: int|
                0 <= j < kruskal.nodes@.len() && j != r0 implies (
            #[trigger] kruskal.nodes@[j]).parent is Some by {
                if kruskal.nodes@[j].parent is None {
                    assert(root_of(kruskal.nodes@, j) == j);
                    let pj = Coord {
                        row: kruskal.nodes@[j].row,
                        column: kruskal.nodes@[j].column,
                    };
                    lemma_node_in_bounds(kruskal.nodes@, cols, rows as int, j);
                    assert(grid.in_bounds(pj));
                    assert(flat_index(cols, pj.row as int, pj.column as int) == j);
                    assert(root_of(kruskal.nodes@, j) == r0);
                }
            }
            lemma_count_parentless_extremes(kruskal.nodes@, r0);
            assert(count_parentless(kruskal.nodes@) == 1);
            if cell_count >= 2 {
                assert forall|p: Coord| grid.in_bounds(p) implies (#[trigger] grid.links_at(
                    p,
                )).len() > 0 by {
                    if grid.links_at(p).len() == 0 {
                        lemma_flat_bounds(cols, rows as int, p);
                        let i = flat_index(cols, p.row as int, p.column as int);
                        lemma_node_at(kruskal.nodes@, cols, p.row as int, p.column as int);
                        assert(grid.links_at(
                            Coord {
                                row: kruskal.nodes@[i].row,
                                column: kruskal.nodes@[i].column,
                            },
                        ).len() == 0);
                        let j0: int = if i == 0 { 1 } else { 0 };
                        lemma_node_in_bounds(kruskal.nodes@, cols, rows as int, j0);
                        let pj = Coord {
                            row: kruskal.nodes@[j0].row,
                            column: kruskal.nodes@[j0].column,
                        };
                        assert(flat_index(cols, pj.row as int, pj.column as int) == j0);
                        assert(root_of(kruskal.nodes@, j0) == r0);
                        assert(root_of(kruskal.nodes@, i) == i);
                        assert(root_of(kruskal.nodes@, j0) != i);
                        assert(r0 == root_of(kruskal.nodes@, i));
                    }
                }
            } else {
                assert(cell_count == 1);
            }
        }
    }
}

/// The flat index of an in-bounds coordinate lies within the node table.
proof fn lemma_flat_bounds(columns: int, rows: int, p: Coord)
    requires
        p.row < rows,
        p.column < columns,
    ensures
        0 <= flat_index(columns, p.row as int, p.column as int) < rows * columns,
{
    crate::distance::lemma_flat_index(p.row as int, p.column as int, rows, columns);
}

/// Every node of a full sound forest stands for an in-bounds cell.
proof fn lemma_node_in_bounds(nodes: Seq<KruskalNode>, columns: int, rows: int, i: int)
    requires
        nodes_wf(nodes, columns),
        nodes.len() == rows * columns,
        0 <= i < nodes.len(),
    ensures
        nodes[i].row < rows,
        nodes[i].column < columns,
        nodes[i].row * columns + nodes[i].column == i,
        flat_index(columns, nodes[i].row as int, nodes[i].column as int) == i,
{
    let nr = nodes[i].row as int;
    let nc = nodes[i].column as int;
    assert(nr < rows) by (nonlinear_arith)
        requires
            nr * columns + nc == i,
            i < rows * columns,
            0 <= nc < columns,
            0 <= nr,
            columns >= 1,
    ;
}

} // verus!
