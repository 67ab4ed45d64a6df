//! Cells of the grid: identity by `(row, column)`, four optional positional
//! neighbors, and the list of carved link partners, together with the
//! symmetric link and unlink operations over a grid.
use vstd::prelude::*;

use crate::grid::Grid;
use crate::grid::lemma_grid_empties_update;
use crate::grid::lemma_grid_entries_update;
use crate::grid::lemma_row_empties_update;
use crate::grid::lemma_row_entries_update;

verus! {

/// Identity of a cell inside a grid: its row and column, both 0-indexed.
#[derive(Clone, Copy, Debug, PartialEq, Eq, Hash, Structural)]
pub struct Coord {
    pub row: usize,
    pub column: usize,
}

/// A graph node of the grid. Neighbor fields are positional adjacency,
/// wired once after construction; `links` is the mutable set of carved
/// link partners, kept symmetric by the grid's link/unlink operations.
#[derive(Clone, Debug)]
pub struct Cell {
    pub row: usize,
    pub column: usize,
    pub north: Option<Coord>,
    pub south: Option<Coord>,
    pub east: Option<Coord>,
    pub west: Option<Coord>,
    pub links: Vec<Coord>,
}

impl Cell {
    /// The positional neighbors that exist, in north, south, east, west order.
    pub open spec fn neighbor_seq(self) -> Seq<Coord> {
        opt_seq(self.north) + opt_seq(self.south) + opt_seq(self.east) + opt_seq(self.west)
    }

    /// A fresh cell: no neighbors wired, no links carved.
    pub fn new(row: usize, column: usize) -> (c: Cell)
        ensures
            c.row == row,
            c.column == column,
            c.north is None,
            c.south is None,
            c.east is None,
            c.west is None,
            c.links@ == Seq::<Coord>::empty(),
    {
        Cell { row, column, north: None, south: None, east: None, west: None, links: Vec::new() }
    }

    /// The coordinate of the northern neighbor, if one was wired.
    pub fn north(&self) -> (r: Option<Coord>)
        ensures
            r == self.north,
    {
        self.north
    }

    /// The coordinate of the southern neighbor, if one was wired.
    pub fn south(&self) -> (r: Option<Coord>)
        ensures
            r == self.south,
    {
        self.south
    }

    /// The coordinate of the eastern neighbor, if one was wired.
    pub fn east(&self) -> (r: Option<Coord>)
        ensures
            r == self.east,
    {
        self.east
    }

    /// The coordinate of the western neighbor, if one was wired.
    pub fn west(&self) -> (r: Option<Coord>)
        ensures
            r == self.west,
    {
        self.west
    }

    /// True iff `other` is among this cell's carved link partners.
    pub fn linked(&self, other: Coord) -> (r: bool)
        ensures
            r == self.links@.contains(other),
    {
        let mut i: usize = 0;
        while i < self.links.len()
            invariant
                i <= self.links@.len(),
                forall|j: int| 0 <= j < i ==> self.links@[j] != other,
            decreases self.links@.len() - i,
        {
            if self.links[i] == other {
                return true;
            }
            i = i + 1;
        }
        false
    }

    /// The positional neighbors that exist, in north, south, east, west order.
    pub fn neighbors(&self) -> (r: Vec<Coord>)
        ensures
            r@ == self.neighbor_seq(),
    {
        let mut result: Vec<Coord> = Vec::new();
        if let Some(c) = self.north {
            result.push(c);
        }
        if let Some(c) = self.south {
            result.push(c);
        }
        if let Some(c) = self.east {
            result.push(c);
        }
        if let Some(c) = self.west {
            result.push(c);
        }
        proof {
            assert(result@ =~= self.neighbor_seq());
        }
        result
    }
}

/// `p` and `q` are coordinates of side-by-side cells.
pub open spec fn adjacent(p: Coord, q: Coord) -> bool {
    ||| (p.row == q.row && (p.column + 1 == q.column || q.column + 1 == p.column))
    ||| (p.column == q.column && (p.row + 1 == q.row || q.row + 1 == p.row))
}

/// The sequence a present value contributes to `neighbor_seq`.
pub open spec fn opt_seq(o: Option<Coord>) -> Seq<Coord> {
    match o {
        Some(c) => seq![c],
        None => Seq::empty(),
    }
}

/// Law: the carved relation of a well-formed grid is symmetric.
pub proof fn lemma_linked_symmetric(g: Grid, a: Coord, b: Coord)
    requires
        g.wf(),
        g.is_linked(a, b),
    ensures
        g.is_linked(b, a),
{
    assert(g.wf_links_at(a));
    let i = choose|i: int| 0 <= i < g.links_at(a).len() && g.links_at(a)[i] == b;
    assert(g.in_bounds(g.links_at(a)[i]));
    assert(g.links_at(g.links_at(a)[i]).contains(a));
}

/// The position of `target` in `v`, absent when it does not occur.
fn position_of(v: &Vec<Coord>, target: Coord) -> (r: Option<usize>)
    ensures
        match r {
            Some(i) => i < v@.len() && v@[i as int] == target,
            None => !v@.contains(target),
        },
{
    let mut i: usize = 0;
    while i < v.len()
        invariant
            i <= v@.len(),
            forall|j: int| 0 <= j < i ==> v@[j] != target,
        decreases v@.len() - i,
    {
        if v[i] == target {
            return Some(i);
        }
        i = i + 1;
    }
    None
}

/// Carves a link between the cells at `a` and `b`: each is added to the
/// other's link list, so the relation stays symmetric. Linking an
/// already-linked pair changes nothing — no duplicate entries.
pub fn link(grid: &mut Grid, a: Coord, b: Coord)
    requires
        old(grid).wf(),
        old(grid).in_bounds(a),
        old(grid).in_bounds(b),
        a != b,
    ensures
        final(grid).wf(),
        old(grid).same_shape(*final(grid)),
        final(grid).distance == old(grid).distance,
        final(grid).is_linked(a, b),
        final(grid).is_linked(b, a),
        forall|p: Coord|
            old(grid).in_bounds(p) && p != a && p != b ==> final(grid).links_at(p) == old(
                grid,
            ).links_at(p),
        forall|p: Coord, q: Coord|
            !(p == a && q == b) && !(p == b && q == a) ==> final(grid).is_linked(p, q) == old(
                grid,
            ).is_linked(p, q),
        old(grid).is_linked(a, b) ==> *final(grid) == *old(grid),
        !old(grid).is_linked(a, b) ==> {
            &&& final(grid).links_at(a) == old(grid).links_at(a).push(b)
            &&& final(grid).links_at(b) == old(grid).links_at(b).push(a)
            &&& final(grid).total_link_entries() == old(grid).total_link_entries() + 2
            &&& crate::grid::grid_empties(final(grid).grid@) == crate::grid::grid_empties(
                old(grid).grid@,
            ) - (if old(grid).links_at(a).len() == 0 {
                1int
            } else {
                0int
            }) - (if old(grid).links_at(b).len() == 0 {
                1int
            } else {
                0int
            })
        },
{
    let ghost g0 = *old(grid);
    let already = grid.grid[a.row][a.column].linked(b);
    if already {
        proof {
            lemma_linked_symmetric(g0, a, b);
        }
        return ;
    }
    proof {
        assert(g0.wf_links_at(b));
        if g0.links_at(b).contains(a) {
            lemma_linked_symmetric(g0, b, a);
        }
    }
    grid.grid[a.row][a.column].links.push(b);
    let ghost g1 = *grid;
    proof {
        assert(g1.grid@ =~= g0.grid@.update(a.row as int, g1.grid@[a.row as int]));
        lemma_grid_entries_update(g0.grid@, a.row as int, g1.grid@[a.row as int]);
        assert(g1.grid@[a.row as int]@ =~= g0.grid@[a.row as int]@.update(
            a.column as int,
            g1.cell_at(a),
        ));
        lemma_row_entries_update(g0.grid@[a.row as int]@, a.column as int, g1.cell_at(a));
        lemma_grid_empties_update(g0.grid@, a.row as int, g1.grid@[a.row as int]);
        lemma_row_empties_update(g0.grid@[a.row as int]@, a.column as int, g1.cell_at(a));
        assert(g1.cell_at(a).links@ == g0.links_at(a).push(b));
        assert(g1.total_link_entries() == g0.total_link_entries() + 1);
    }
    grid.grid[b.row][b.column].links.push(a);
    proof {
        broadcast use vstd::seq_lib::lemma_seq_contains_after_push;

        let gf = *grid;
        assert(gf.grid@ =~= g1.grid@.update(b.row as int, gf.grid@[b.row as int]));
        lemma_grid_entries_update(g1.grid@, b.row as int, gf.grid@[b.row as int]);
        assert(gf.grid@[b.row as int]@ =~= g1.grid@[b.row as int]@.update(
            b.column as int,
            gf.cell_at(b),
        ));
        lemma_row_entries_update(g1.grid@[b.row as int]@, b.column as int, gf.cell_at(b));
        lemma_grid_empties_update(g1.grid@, b.row as int, gf.grid@[b.row as int]);
        lemma_row_empties_update(g1.grid@[b.row as int]@, b.column as int, gf.cell_at(b));
        assert(g1.links_at(b) == g0.links_at(b));
        assert(gf.cell_at(b).links@ == g0.links_at(b).push(a));
        assert(gf.total_link_entries() == g0.total_link_entries() + 2);
        assert forall|p: Coord| g0.in_bounds(p) && p != a && p != b implies gf.cell_at(p)
            == g0.cell_at(p) by {}
        assert(gf.links_at(a) == g0.links_at(a).push(b));
        assert(gf.links_at(b) == g0.links_at(b).push(a));
        assert(gf.is_linked(a, b));
        assert(gf.is_linked(b, a));
        assert forall|p: Coord| gf.in_bounds(p) implies #[trigger] gf.wf_cell(p) by {
            assert(g0.wf_cell(p));
            if p != a && p != b {
                assert(gf.cell_at(p) == g0.cell_at(p));
            }
        }
        assert forall|p: Coord| gf.in_bounds(p) implies #[trigger] gf.wf_links_at(p) by {
            assert(g0.wf_links_at(p));
            assert(g0.wf_links_at(a));
            assert(g0.wf_links_at(b));
            let l = gf.links_at(p);
            if p == a {
                assert forall|i: int| 0 <= i < l.len() implies gf.in_bounds(#[trigger] l[i])
                    && l[i] != p by {
                    if i < l.len() - 1 {
                        assert(l[i] == g0.links_at(a)[i]);
                    } else {
                        assert(l[i] == b);
                    }
                }
                assert forall|i: int, j: int| 0 <= i < j < l.len() implies l[i] != l[j] by {
                    if j == l.len() - 1 {
                        assert(l[i] == g0.links_at(a)[i]);
                        assert(g0.links_at(a).contains(g0.links_at(a)[i]));
                        assert(!g0.links_at(a).contains(b));
                    }
                }
                assert forall|i: int| 0 <= i < l.len() implies gf.links_at(
                    #[trigger] l[i],
                ).contains(p) by {
                    if i < l.len() - 1 {
                        let q = g0.links_at(a)[i];
                        assert(l[i] == q);
                        assert(g0.links_at(q).contains(a));
                        if q != a && q != b {
                            assert(gf.links_at(q) == g0.links_at(q));
                        } else {
                            assert(q == b ==> gf.links_at(b).contains(a));
                        }
                    } else {
                        assert(l[i] == b);
                        assert(gf.links_at(b).contains(a));
                    }
                }
            } else if p == b {
                assert forall|i: int| 0 <= i < l.len() implies gf.in_bounds(#[trigger] l[i])
                    && l[i] != p by {
                    if i < l.len() - 1 {
                        assert(l[i] == g0.links_at(b)[i]);
                    } else {
                        assert(l[i] == a);
                    }
                }
                assert forall|i: int, j: int| 0 <= i < j < l.len() implies l[i] != l[j] by {
                    if j == l.len() - 1 {
                        assert(l[i] == g0.links_at(b)[i]);
                        assert(g0.links_at(b).contains(g0.links_at(b)[i]));
                        assert(!g0.links_at(b).contains(a));
                    }
                }
                assert forall|i: int| 0 <= i < l.len() implies gf.links_at(
                    #[trigger] l[i],
                ).contains(p) by {
                    if i < l.len() - 1 {
                        let q = g0.links_at(b)[i];
                        assert(l[i] == q);
                        assert(g0.links_at(q).contains(b));
                        if q != a && q != b {
                            assert(gf.links_at(q) == g0.links_at(q));
                        } else {
                            assert(q == a ==> gf.links_at(a).contains(b));
                        }
                    } else {
                        assert(l[i] == a);
                        assert(gf.links_at(a).contains(b));
                    }
                }
            } else {
                assert(l == g0.links_at(p));
                assert forall|i: int| 0 <= i < l.len() implies gf.links_at(
                    #[trigger] l[i],
                ).contains(p) by {
                    let q = l[i];
                    assert(g0.links_at(q).contains(p));
                    if q == a {
                        assert(gf.links_at(a).contains(p));
                    } else if q == b {
                        assert(gf.links_at(b).contains(p));
                    } else {
                        assert(gf.links_at(q) == g0.links_at(q));
                    }
                }
            }
        }
        assert forall|p: Coord, q: Coord|
            !(p == a && q == b) && !(p == b && q == a) implies gf.is_linked(p, q) == g0.is_linked(
            p,
            q,
        ) by {
            if g0.in_bounds(p) {
                if p == a {
                    assert(gf.links_at(a).contains(q) == (g0.links_at(a).contains(q) || q == b));
                } else if p == b {
                    assert(gf.links_at(b).contains(q) == (g0.links_at(b).contains(q) || q == a));
                } else {
                    assert(gf.links_at(p) == g0.links_at(p));
                }
            }
        }
    }
}

/// Removes the link between the cells at `a` and `b` from both endpoints.
/// Unlinking a pair that is not linked is a no-op.
pub fn unlink(grid: &mut Grid, a: Coord, b: Coord)
    requires
        old(grid).wf(),
        old(grid).in_bounds(a),
        old(grid).in_bounds(b),
        a != b,
    ensures
        final(grid).wf(),
        old(grid).same_shape(*final(grid)),
        final(grid).distance == old(grid).distance,
        !final(grid).is_linked(a, b),
        !final(grid).is_linked(b, a),
        forall|p: Coord|
            old(grid).in_bounds(p) && p != a && p != b ==> final(grid).links_at(p) == old(
                grid,
            ).links_at(p),
        forall|p: Coord, q: Coord|
            !(p == a && q == b) && !(p == b && q == a) ==> final(grid).is_linked(p, q) == old(
                grid,
            ).is_linked(p, q),
        !old(grid).is_linked(a, b) ==> *final(grid) == *old(grid),
        old(grid).is_linked(a, b) ==> {
            &&& final(grid).links_at(a).len() == old(grid).links_at(a).len() - 1
            &&& final(grid).links_at(b).len() == old(grid).links_at(b).len() - 1
            &&& final(grid).total_link_entries() == old(grid).total_link_entries() - 2
        },
{
    let ghost g0 = *old(grid);
    let pos_a = position_of(&grid.grid[a.row][a.column].links, b);
    let i = match pos_a {
        Some(i) => i,
        None => {
            proof {
                assert(g0.wf_links_at(b));
                if g0.links_at(b).contains(a) {
                    lemma_linked_symmetric(g0, b, a);
                }
            }
            return ;
        },
    };
    grid.grid[a.row][a.column].links.remove(i);
    let ghost g1 = *grid;
    proof {
        assert(g1.grid@ =~= g0.grid@.update(a.row as int, g1.grid@[a.row as int]));
        lemma_grid_entries_update(g0.grid@, a.row as int, g1.grid@[a.row as int]);
        assert(g1.grid@[a.row as int]@ =~= g0.grid@[a.row as int]@.update(
            a.column as int,
            g1.cell_at(a),
        ));
        lemma_row_entries_update(g0.grid@[a.row as int]@, a.column as int, g1.cell_at(a));
        assert(g1.cell_at(a).links@ == g0.links_at(a).remove(i as int));
        g0.links_at(a).remove_ensures(i as int);
        assert(g1.total_link_entries() == g0.total_link_entries() - 1);
        assert(g1.links_at(b) == g0.links_at(b));
        lemma_linked_symmetric(g0, a, b);
    }
    let pos_b = position_of(&grid.grid[b.row][b.column].links, a);
    let j = match pos_b {
        Some(j) => j,
        None => {
            proof {
                assert(g1.links_at(b).contains(a));
                assert(false);
            }
            vstd::pervasive::unreached()
        },
    };
    grid.grid[b.row][b.column].links.remove(j);
    proof {
        let gf = *grid;
        let la0 = g0.links_at(a);
        let lb0 = g0.links_at(b);
        let laf = la0.remove(i as int);
        let lbf = lb0.remove(j as int);
        assert(gf.grid@ =~= g1.grid@.update(b.row as int, gf.grid@[b.row as int]));
        lemma_grid_entries_update(g1.grid@, b.row as int, gf.grid@[b.row as int]);
        assert(gf.grid@[b.row as int]@ =~= g1.grid@[b.row as int]@.update(
            b.column as int,
            gf.cell_at(b),
        ));
        lemma_row_entries_update(g1.grid@[b.row as int]@, b.column as int, gf.cell_at(b));
        assert(gf.cell_at(b).links@ == lbf);
        lb0.remove_ensures(j as int);
        la0.remove_ensures(i as int);
        assert(gf.total_link_entries() == g0.total_link_entries() - 2);
        assert(gf.links_at(a) == laf);
        assert(gf.links_at(b) == lbf);
        assert(g0.wf_links_at(a));
        assert(g0.wf_links_at(b));
        assert forall|p: Coord| g0.in_bounds(p) && p != a && p != b implies gf.cell_at(p)
            == g0.cell_at(p) by {}
        // with no duplicate entries, removing the one occurrence removes the value
        assert forall|q: Coord| laf.contains(q) implies la0.contains(q) && q != b by {
            let k = choose|k: int| 0 <= k < laf.len() && laf[k] == q;
            if k < i {
                assert(la0[k] == q);
            } else {
                assert(la0[k + 1] == q);
            }
        }
        assert forall|q: Coord| la0.contains(q) && q != b implies laf.contains(q) by {
            let k = choose|k: int| 0 <= k < la0.len() && la0[k] == q;
            assert(la0[i as int] == b);
            if k < i {
                assert(laf[k] == q);
            } else {
                assert(k > i);
                assert(laf[k - 1] == q);
            }
        }
        assert forall|q: Coord| lbf.contains(q) implies lb0.contains(q) && q != a by {
            let k = choose|k: int| 0 <= k < lbf.len() && lbf[k] == q;
            if k < j {
                assert(lb0[k] == q);
            } else {
                assert(lb0[k + 1] == q);
            }
        }
        assert forall|q: Coord| lb0.contains(q) && q != a implies lbf.contains(q) by {
            let k = choose|k: int| 0 <= k < lb0.len() && lb0[k] == q;
            assert(lb0[j as int] == a);
            if k < j {
                assert(lbf[k] == q);
            } else {
                assert(k > j);
                assert(lbf[k - 1] == q);
            }
        }
        assert(!gf.is_linked(a, b));
        assert(!gf.is_linked(b, a));
        assert forall|p: Coord| gf.in_bounds(p) implies #[trigger] gf.wf_cell(p) by {
            assert(g0.wf_cell(p));
            if p != a && p != b {
                assert(gf.cell_at(p) == g0.cell_at(p));
            }
        }
        assert forall|p: Coord| gf.in_bounds(p) implies #[trigger] gf.wf_links_at(p) by {
            assert(g0.wf_links_at(p));
            let l = gf.links_at(p);
            if p == a {
                assert forall|k: int| 0 <= k < l.len() implies gf.in_bounds(#[trigger] l[k])
                    && l[k] != p by {
                    assert(laf.contains(l[k]));
                    assert(la0.contains(l[k]));
                    let m = choose|m: int| 0 <= m < la0.len() && la0[m] == l[k];
                    assert(gf.in_bounds(la0[m]) && la0[m] != a);
                }
                assert forall|k1: int, k2: int| 0 <= k1 < k2 < l.len() implies l[k1] != l[k2] by {
                    let m1: int = if k1 < i { k1 } else { k1 + 1 };
                    let m2: int = if k2 < i { k2 } else { k2 + 1 };
                    assert(l[k1] == la0[m1]);
                    assert(l[k2] == la0[m2]);
                }
                assert forall|k: int| 0 <= k < l.len() implies gf.links_at(
                    #[trigger] l[k],
                ).contains(p) by {
                    let q = l[k];
                    assert(laf.contains(q));
                    assert(la0.contains(q) && q != b);
                    let m = choose|m: int| 0 <= m < la0.len() && la0[m] == q;
                    assert(g0.links_at(la0[m]).contains(a));
                    if q == a {
                        assert(la0[m] != a);
                        assert(false);
                    } else if q == b {
                        assert(false);
                    } else {
                        assert(gf.links_at(q) == g0.links_at(q));
                    }
                }
            } else if p == b {
                assert forall|k: int| 0 <= k < l.len() implies gf.in_bounds(#[trigger] l[k])
                    && l[k] != p by {
                    assert(lbf.contains(l[k]));
                    assert(lb0.contains(l[k]));
                    let m = choose|m: int| 0 <= m < lb0.len() && lb0[m] == l[k];
                    assert(gf.in_bounds(lb0[m]) && lb0[m] != b);
                }
                assert forall|k1: int, k2: int| 0 <= k1 < k2 < l.len() implies l[k1] != l[k2] by {
                    let m1: int = if k1 < j { k1 } else { k1 + 1 };
                    let m2: int = if k2 < j { k2 } else { k2 + 1 };
                    assert(l[k1] == lb0[m1]);
                    assert(l[k2] == lb0[m2]);
                }
                assert forall|k: int| 0 <= k < l.len() implies gf.links_at(
                    #[trigger] l[k],
                ).contains(p) by {
                    let q = l[k];
                    assert(lbf.contains(q));
                    assert(lb0.contains(q) && q != a);
                    let m = choose|m: int| 0 <= m < lb0.len() && lb0[m] == q;
                    assert(g0.links_at(lb0[m]).contains(b));
                    if q == b {
                        assert(lb0[m] != b);
                        assert(false);
                    } else if q == a {
                        assert(false);
                    } else {
                        assert(gf.links_at(q) == g0.links_at(q));
                    }
                }
            } else {
                assert(l == g0.links_at(p));
                assert forall|k: int| 0 <= k < l.len() implies gf.links_at(
                    #[trigger] l[k],
                ).contains(p) by {
                    let q = l[k];
                    assert(g0.links_at(q).contains(p));
                    if q == a {
                        // p stayed in a's list: it is not b
                        assert(la0.contains(p) && p != b);
                        assert(gf.links_at(a).contains(p));
                    } else if q == b {
                        assert(lb0.contains(p) && p != a);
                        assert(gf.links_at(b).contains(p));
                    } else {
                        assert(gf.links_at(q) == g0.links_at(q));
                    }
                }
            }
        }
        assert forall|p: Coord, q: Coord|
            !(p == a && q == b) && !(p == b && q == a) implies gf.is_linked(p, q) == g0.is_linked(
            p,
            q,
        ) by {
            if g0.in_bounds(p) {
                if p == a {
                    assert(gf.links_at(a).contains(q) == (g0.links_at(a).contains(q) && q != b));
                } else if p == b {
                    assert(gf.links_at(b).contains(q) == (g0.links_at(b).contains(q) && q != a));
                } else {
                    assert(gf.links_at(p) == g0.links_at(p));
                }
            }
        }
    }
}

} // verus!
