//! The 9x9 grid: 81 cells in row-major order, the entropy-based cell
//! selection, the recursive constraint propagation across rows, columns
//! and boxes, and the restart-on-contradiction step driver.

use vstd::prelude::*;
use crate::cell::{lemma_cell_len_bound, Cell};
use crate::peers::{
    box_peers, col_peers, is_peer, row_peers, same_box, same_col, same_row,
};

verus! {

/// The full candidate set of a fresh cell.
pub open spec fn full_candidates() -> Seq<u8> {
    seq![1u8, 2, 3, 4, 5, 6, 7, 8, 9]
}

/// A 9x9 grid of cells, addressed by linear index `0..81` where
/// `row = index / 9` and `column = index % 9`.
pub struct Grid {
    pub cells: Vec<Cell>,
}

/// How many cells of `s` are not yet marked as propagated.
pub open spec fn unmarked_count(s: Seq<Cell>) -> nat
    decreases s.len(),
{
    if s.len() == 0 {
        0
    } else {
        unmarked_count(s.drop_last()) + if s.last().marked() {
            0nat
        } else {
            1nat
        }
    }
}

/// Marks only ever get set while a pass runs: every cell marked in `g1`
/// is still marked in `g2`.
pub open spec fn marks_monotone(g1: Grid, g2: Grid) -> bool {
    forall|i: int| 0 <= i < 81 && g1.cells@[i].marked() ==> g2.cells@[i].marked()
}

/// Candidate sets are only ever reduced, never extended.
pub open spec fn shrinks(g1: Grid, g2: Grid) -> bool {
    forall|i: int, w: u8|
        0 <= i < 81 && #[trigger] g2.cells@[i].vals().contains(w) ==> g1.cells@[i].vals().contains(
            w,
        )
}

/// Cells already marked as propagated are never touched again in a pass.
pub open spec fn marked_frozen(g1: Grid, g2: Grid) -> bool {
    forall|i: int|
        0 <= i < 81 && g1.cells@[i].marked() ==> #[trigger] g2.cells@[i].vals() == g1.cells@[
            i
        ].vals()
}

/// After a successful broadcast of value `v` from `idx`, no peer of `idx`
/// that is still unmarked lists `v` among its candidates.
pub open spec fn peers_cleared(g: Grid, idx: int, v: u8) -> bool {
    forall|j: int|
        0 <= j < 81 && j != idx && is_peer(j, idx) && !g.cells@[j].marked()
            ==> !#[trigger] g.cells@[j].vals().contains(v)
}

impl Grid {
    /// Well-formedness: exactly 81 well-formed cells.
    pub open spec fn wf(&self) -> bool {
        &&& self.cells@.len() == 81
        &&& forall|i: int| 0 <= i < 81 ==> (#[trigger] self.cells@[i]).wf()
    }

    /// Every cell has been reduced to a single candidate.
    pub open spec fn resolved(&self) -> bool {
        forall|i: int| 0 <= i < 81 ==> (#[trigger] self.cells@[i]).vals().len() == 1
    }

    /// Every cell holds the full candidate set and no cell is marked.
    pub open spec fn fresh(&self) -> bool {
        &&& forall|i: int| 0 <= i < 81 ==> (#[trigger] self.cells@[i]).vals() == full_candidates()
        &&& self.all_unmarked()
    }

    /// No cell carries the per-pass propagation marker.
    pub open spec fn all_unmarked(&self) -> bool {
        forall|i: int| 0 <= i < 81 ==> !(#[trigger] self.cells@[i]).marked()
    }

    /// A fresh grid: 81 cells with all nine candidates, nothing propagated,
    /// and therefore not yet resolved.
    pub fn new() -> (g: Grid)
        ensures
            g.wf(),
            g.fresh(),
            !g.resolved(),
    {
        let mut cells: Vec<Cell> = Vec::new();
        let mut i: usize = 0;
        while i < 81
            invariant
                i <= 81,
                cells@.len() == i,
                forall|j: int|
                    0 <= j < i ==> (#[trigger] cells@[j]).wf() && cells@[j].vals()
                        == full_candidates() && !cells@[j].marked(),
            decreases 81 - i,
        {
            cells.push(Cell::new());
            i = i + 1;
        }
        let g = Grid { cells };
        assert(g.cells@[0].vals().len() == 9);
        g
    }

    /// True exactly when every cell holds a single candidate.
    pub fn is_resolved(&self) -> (b: bool)
        requires
            self.wf(),
        ensures
            b == self.resolved(),
    {
        let mut i: usize = 0;
        while i < 81
            invariant
                self.wf(),
                i <= 81,
                forall|j: int| 0 <= j < i ==> (#[trigger] self.cells@[j]).vals().len() == 1,
            decreases 81 - i,
        {
            if self.cells[i].count() > 1 {
                return false;
            }
            i = i + 1;
        }
        true
    }

    /// How many candidates remain at `idx`.
    pub fn candidate_count(&self, idx: usize) -> (n: usize)
        requires
            self.wf(),
            idx < 81,
        ensures
            n == self.cells@[idx as int].vals().len(),
    {
        self.cells[idx].count()
    }

    /// A copy of the candidates at `idx`, ascending, for display.
    pub fn candidates(&self, idx: usize) -> (r: Vec<u8>)
        requires
            self.wf(),
            idx < 81,
        ensures
            r@ == self.cells@[idx as int].vals(),
    {
        self.cells[idx].values()
    }

    /// Whether the cell at `idx` is marked as propagated.
    pub fn is_propagated(&self, idx: usize) -> (b: bool)
        requires
            self.wf(),
            idx < 81,
        ensures
            b == self.cells@[idx as int].marked(),
    {
        self.cells[idx].is_propagated()
    }

    /// Clear every cell's propagated marker, so that the next pass starts
    /// from a clean traversal state; no candidate set changes.
    pub fn end_propagation(&mut self)
        requires
            old(self).wf(),
        ensures
            final (self).wf(),
            final (self).all_unmarked(),
            forall|i: int|
                0 <= i < 81 ==> (#[trigger] final (self).cells@[i]).vals() == old(self).cells@[
                    i
                ].vals(),
    {
        let mut i: usize = 0;
        while i < 81
            invariant
                self.wf(),
                i <= 81,
                forall|j: int| 0 <= j < i ==> !(#[trigger] self.cells@[j]).marked(),
                forall|j: int|
                    0 <= j < 81 ==> (#[trigger] self.cells@[j]).vals() == old(self).cells@[
                        j
                    ].vals(),
            decreases 81 - i,
        {
            (&mut self.cells[i]).clear_propagated();
            i = i + 1;
        }
    }
}

/// Every unmarked cell still has slack against removals of `v`: at least
/// three candidates, or at least two candidates not including `v`. While
/// this holds, a broadcast of `v` can neither empty a cell nor create a
/// new singleton, so it can never run into a contradiction.
pub open spec fn ample_for(g: Grid, v: u8) -> bool {
    forall|j: int|
        0 <= j < 81 && !(#[trigger] g.cells@[j]).marked() ==> (g.cells@[j].vals().len() >= 3 || (
        g.cells@[j].vals().len() >= 2 && !g.cells@[j].vals().contains(v)))
}

/// Every unmarked cell can still take one removal of `v` without clashing:
/// at least three candidates, or at least two candidates not including `v`,
/// or it is exactly the singleton `{v}` (a clash waiting to be visited).
/// While this holds no removal of `v` ever creates a new singleton, so no
/// recursive cascade fires.
pub open spec fn primed_for(g: Grid, v: u8) -> bool {
    forall|i: int|
        0 <= i < 81 && !(#[trigger] g.cells@[i]).marked() ==> (g.cells@[i].vals().len() >= 3 || (
        g.cells@[i].vals().len() >= 2 && !g.cells@[i].vals().contains(v)) || (g.cells@[
            i
        ].vals().len() == 1 && g.cells@[i].vals()[0] == v))
}

/// Cell `j` has a finally-marked singleton peer whose sole value is `w`:
/// the broadcast that accounts for `w` disappearing from `j`.
pub open spec fn broadcast_witness(g: Grid, j: int, w: u8) -> bool {
    exists|m: int|
        0 <= m < 81 && m != j && is_peer(m, j) && (#[trigger] g.cells@[m]).marked() && g.cells@[
            m
        ].vals().len() == 1 && g.cells@[m].vals()[0] == w
}

/// Removal attribution: a candidate disappears from a cell only if it is
/// the value of some finally-marked singleton peer of that cell.
pub open spec fn removals_attributed(g1: Grid, g2: Grid) -> bool {
    forall|j: int, w: u8|
        0 <= j < 81 && g1.cells@[j].vals().contains(w) && !(#[trigger] g2.cells@[
            j
        ].vals().contains(w)) ==> broadcast_witness(g2, j, w)
}

/// A cell marked during a pass was a singleton whose value was broadcast:
/// every newly set marker sits on a cell with exactly one candidate.
pub open spec fn new_marks_singleton(g1: Grid, g2: Grid) -> bool {
    forall|i: int|
        0 <= i < 81 && !g1.cells@[i].marked() && (#[trigger] g2.cells@[i]).marked() ==> g2.cells@[
            i
        ].vals().len() == 1
}

/// Index `i` occurs among the first `t` entries of the peer list.
pub open spec fn listed_before(peers: Seq<usize>, t: int, i: int) -> bool {
    exists|k: int| 0 <= k < t && #[trigger] peers[k] == i
}

/// The first `t` entries of the peer list hold no candidate `v` unless
/// they are marked as propagated.
pub open spec fn cleared_prefix(g: Grid, peers: Seq<usize>, v: u8, t: int) -> bool {
    forall|k: int|
        0 <= k < t && !g.cells@[#[trigger] peers[k] as int].marked() ==> !g.cells@[
            peers[k] as int
        ].vals().contains(v)
}

impl Grid {
    /// Enforce the adjacency constraint: given an index whose cell is a
    /// singleton not yet broadcast, remove its value from every unmarked
    /// peer in its column, row and box, cascading recursively through any
    /// peer that becomes a new singleton. On the first contradiction the
    /// whole pass aborts with `Err`. A cell that is not a singleton, or
    /// whose value was already broadcast in this pass, is left alone.
    pub fn propagate(&mut self, idx: usize) -> (r: Result<(), ()>)
        requires
            old(self).wf(),
            idx < 81,
        ensures
            final (self).wf(),
            marks_monotone(*old(self), *final (self)),
            shrinks(*old(self), *final (self)),
            marked_frozen(*old(self), *final (self)),
            unmarked_count(final (self).cells@) <= unmarked_count(old(self).cells@),
            (old(self).cells@[idx as int].vals().len() != 1 || old(self).cells@[
                idx as int
            ].marked()) ==> (r is Ok && final (self).cells@ == old(self).cells@),
            (old(self).cells@[idx as int].vals().len() == 1 && !old(self).cells@[
                idx as int
            ].marked()) ==> (final (self).cells@[idx as int].marked() && final (self).cells@[
                idx as int
            ].vals() == old(self).cells@[idx as int].vals()),
            (r is Ok && old(self).cells@[idx as int].vals().len() == 1 && !old(self).cells@[
                idx as int
            ].marked()) ==> peers_cleared(
                *final (self),
                idx as int,
                old(self).cells@[idx as int].vals()[0],
            ),
            removals_attributed(*old(self), *final (self)),
            new_marks_singleton(*old(self), *final (self)),
            (forall|j: int|
                0 <= j < 81 && j != idx && !(#[trigger] old(self).cells@[j]).marked() ==> old(
                    self,
                ).cells@[j].vals().len() >= 3) ==> r is Ok,
            (old(self).cells@[idx as int].vals().len() == 1 && !old(self).cells@[
                idx as int
            ].marked() && (forall|j: int|
                0 <= j < 81 && j != idx && !(#[trigger] old(self).cells@[j]).marked() ==> old(
                    self,
                ).cells@[j].vals().len() >= 3)) ==> ((forall|i: int|
                0 <= i < 81 && i != idx ==> (#[trigger] final (self).cells@[i]).marked() == old(
                    self,
                ).cells@[i].marked()) && (forall|i: int, w: u8|
                0 <= i < 81 && i != idx ==> ((#[trigger] final (self).cells@[i].vals().contains(w))
                    <==> (old(self).cells@[i].vals().contains(w) && !(w == old(self).cells@[
                    idx as int
                ].vals()[0] && is_peer(i, idx as int) && !old(self).cells@[i].marked()))))),
            (old(self).cells@[idx as int].vals().len() == 1 && !old(self).cells@[
                idx as int
            ].marked() && primed_for(*old(self), old(self).cells@[idx as int].vals()[0]) && (exists|
                j: int
            |
                0 <= j < 81 && j != idx && is_peer(j, idx as int) && !(#[trigger] old(
                    self,
                ).cells@[j]).marked() && old(self).cells@[j].vals().len() == 1 && old(self).cells@[
                    j
                ].vals()[0] == old(self).cells@[idx as int].vals()[0])) ==> r is Err,
        decreases unmarked_count(old(self).cells@), 0int,
    {
        let n = self.cells[idx].count();
        let already = self.cells[idx].is_propagated();
        if n == 1 && !already {
            let v = self.cells[idx].value_at(0);
            (&mut self.cells[idx]).mark_propagated();
            proof {
                lemma_unmarked_count_strict(old(self).cells@, self.cells@, idx as int);
                assert forall|j2: int, w: u8|
                    0 <= j2 < 81 && old(self).cells@[j2].vals().contains(w) && !(
                #[trigger] self.cells@[j2].vals().contains(w)) implies broadcast_witness(
                    *self,
                    j2,
                    w,
                ) by {
                    assert(self.cells@[j2].vals() == old(self).cells@[j2].vals());
                }
                assert(removals_attributed(*old(self), *self));
                assert(new_marks_singleton(*old(self), *self));
            }
            let ghost g_mark = *self;
            let ghost roomy = forall|j: int|
                0 <= j < 81 && j != idx as int && !(#[trigger] old(self).cells@[j]).marked()
                    ==> old(self).cells@[j].vals().len() >= 3;
            proof {
                if roomy {
                    assert forall|j: int|
                        0 <= j < 81 && !(#[trigger] g_mark.cells@[j]).marked() implies (
                    g_mark.cells@[j].vals().len() >= 3 || (g_mark.cells@[j].vals().len() >= 2
                        && !g_mark.cells@[j].vals().contains(v))) by {
                        assert(j != idx as int);
                        assert(g_mark.cells@[j] == old(self).cells@[j]);
                    }
                    assert(ample_for(g_mark, v));
                }
                if primed_for(*old(self), v) || roomy {
                    assert forall|i: int|
                        0 <= i < 81 && !(#[trigger] g_mark.cells@[i]).marked() implies (
                    g_mark.cells@[i].vals().len() >= 3 || (g_mark.cells@[i].vals().len() >= 2
                        && !g_mark.cells@[i].vals().contains(v)) || (g_mark.cells@[
                        i
                    ].vals().len() == 1 && g_mark.cells@[i].vals()[0] == v)) by {
                        assert(i != idx as int);
                        assert(g_mark.cells@[i] == old(self).cells@[i]);
                    }
                    assert(primed_for(g_mark, v));
                }
                assert(g_mark.cells@[idx as int].marked());
                assert(g_mark.cells@[idx as int].vals().len() == 1 && g_mark.cells@[
                    idx as int
                ].vals()[0] == v);
            }
            let cols = col_peers(idx);
            proof {
                assert forall|k: int|
                    0 <= k < cols@.len() && !self.cells@[#[trigger] cols@[
                        k
                    ] as int].marked() implies broadcast_witness(*self, cols@[k] as int, v) by {
                    let jj = cols@[k] as int;
                    assert(same_col(jj, idx as int));
                    assert(self.cells@[idx as int].marked());
                    assert(self.cells@[idx as int].vals().len() == 1 && self.cells@[
                        idx as int
                    ].vals()[0] == v);
                    assert(is_peer(idx as int, jj));
                }
            }
            let r1 = self.propagate_peers(v, &cols);
            proof {
                lemma_pass_trans(*old(self), g_mark, *self);
                lemma_attr_trans(*old(self), g_mark, *self);
            }
            if r1.is_err() {
                return Err(());
            }
            let ghost g1 = *self;
            proof {
                assert(g1.cells@[idx as int].marked());
                assert(g1.cells@[idx as int].vals().len() == 1 && g1.cells@[idx as int].vals()[0]
                    == v);
            }
            let rows = row_peers(idx);
            proof {
                assert forall|k: int|
                    0 <= k < rows@.len() && !self.cells@[#[trigger] rows@[
                        k
                    ] as int].marked() implies broadcast_witness(*self, rows@[k] as int, v) by {
                    let jj = rows@[k] as int;
                    assert(same_row(jj, idx as int));
                    assert(self.cells@[idx as int].marked());
                    assert(self.cells@[idx as int].vals().len() == 1 && self.cells@[
                        idx as int
                    ].vals()[0] == v);
                    assert(is_peer(idx as int, jj));
                }
            }
            let r2 = self.propagate_peers(v, &rows);
            proof {
                lemma_pass_trans(*old(self), g1, *self);
                lemma_attr_trans(*old(self), g1, *self);
            }
            if r2.is_err() {
                return Err(());
            }
            let ghost g2 = *self;
            proof {
                assert(g2.cells@[idx as int].marked());
                assert(g2.cells@[idx as int].vals().len() == 1 && g2.cells@[idx as int].vals()[0]
                    == v);
            }
            let boxes = box_peers(idx);
            proof {
                assert forall|k: int|
                    0 <= k < boxes@.len() && !self.cells@[#[trigger] boxes@[
                        k
                    ] as int].marked() implies broadcast_witness(*self, boxes@[k] as int, v) by {
                    let jj = boxes@[k] as int;
                    assert(same_box(jj, idx as int));
                    assert(self.cells@[idx as int].marked());
                    assert(self.cells@[idx as int].vals().len() == 1 && self.cells@[
                        idx as int
                    ].vals()[0] == v);
                    assert(is_peer(idx as int, jj));
                }
            }
            let r3 = self.propagate_peers(v, &boxes);
            proof {
                lemma_pass_trans(*old(self), g2, *self);
                lemma_attr_trans(*old(self), g2, *self);
                lemma_pass_trans(g1, g2, *self);
                lemma_cleared_persists(g1, *self, cols@, v, 9);
                lemma_cleared_persists(g2, *self, rows@, v, 9);
            }
            if r3.is_err() {
                return Err(());
            }
            proof {
                let gi = idx as int;
                assert forall|j: int|
                    0 <= j < 81 && j != gi && is_peer(j, gi) && !self.cells@[j].marked() implies !(
                #[trigger] self.cells@[j]).vals().contains(v) by {
                    if same_col(j, gi) {
                        let k = choose|k: int| 0 <= k < 9 && cols@[k] == j;
                        assert(!self.cells@[cols@[k] as int].marked());
                    } else if same_row(j, gi) {
                        let k = choose|k: int| 0 <= k < 9 && rows@[k] == j;
                        assert(!self.cells@[rows@[k] as int].marked());
                    } else {
                        assert(same_box(j, gi));
                        let k = choose|k: int| 0 <= k < 9 && boxes@[k] == j;
                        assert(!self.cells@[boxes@[k] as int].marked());
                    }
                }
                assert(peers_cleared(*self, gi, v));
                if roomy {
                    assert(primed_for(g1, v));
                    assert(primed_for(g2, v));
                    assert forall|i: int|
                        0 <= i < 81 && i != gi implies (#[trigger] self.cells@[i]).marked() == old(
                        self,
                    ).cells@[i].marked() by {
                        assert(g_mark.cells@[i].marked() == old(self).cells@[i].marked());
                        assert(g1.cells@[i].marked() == g_mark.cells@[i].marked());
                        assert(g2.cells@[i].marked() == g1.cells@[i].marked());
                        assert(self.cells@[i].marked() == g2.cells@[i].marked());
                    }
                    assert forall|i: int, w: u8|
                        0 <= i < 81 && i != gi implies ((#[trigger] self.cells@[
                        i
                    ].vals().contains(w)) <==> (old(self).cells@[i].vals().contains(w) && !(w == v
                        && is_peer(i, gi) && !old(self).cells@[i].marked()))) by {
                        assert(listed_before(cols@, 9, i) <==> same_col(i, gi)) by {
                            if listed_before(cols@, 9, i) {
                                let k = choose|k: int| 0 <= k < 9 && #[trigger] cols@[k] == i;
                                assert(same_col(cols@[k] as int, gi));
                            }
                            if same_col(i, gi) {
                                let k = choose|k: int| 0 <= k < 9 && #[trigger] cols@[k] == i;
                                assert(listed_before(cols@, 9, i));
                            }
                        }
                        assert(listed_before(rows@, 9, i) <==> same_row(i, gi)) by {
                            if listed_before(rows@, 9, i) {
                                let k = choose|k: int| 0 <= k < 9 && #[trigger] rows@[k] == i;
                                assert(same_row(rows@[k] as int, gi));
                            }
                            if same_row(i, gi) {
                                let k = choose|k: int| 0 <= k < 9 && #[trigger] rows@[k] == i;
                                assert(listed_before(rows@, 9, i));
                            }
                        }
                        assert(listed_before(boxes@, 9, i) <==> same_box(i, gi)) by {
                            if listed_before(boxes@, 9, i) {
                                let k = choose|k: int| 0 <= k < 9 && #[trigger] boxes@[k] == i;
                                assert(same_box(boxes@[k] as int, gi));
                            }
                            if same_box(i, gi) {
                                let k = choose|k: int| 0 <= k < 9 && #[trigger] boxes@[k] == i;
                                assert(listed_before(boxes@, 9, i));
                            }
                        }
                        assert(self.cells@[i].vals().contains(w) <==> (g2.cells@[
                            i
                        ].vals().contains(w) && !(w == v && listed_before(boxes@, 9, i)
                            && !g2.cells@[i].marked())));
                        assert(g2.cells@[i].vals().contains(w) <==> (g1.cells@[
                            i
                        ].vals().contains(w) && !(w == v && listed_before(rows@, 9, i)
                            && !g1.cells@[i].marked())));
                        assert(g1.cells@[i].vals().contains(w) <==> (g_mark.cells@[
                            i
                        ].vals().contains(w) && !(w == v && listed_before(cols@, 9, i)
                            && !g_mark.cells@[i].marked())));
                        assert(g_mark.cells@[i].vals() == old(self).cells@[i].vals());
                        assert(g_mark.cells@[i].marked() == old(self).cells@[i].marked());
                        assert(g1.cells@[i].marked() == g_mark.cells@[i].marked());
                        assert(g2.cells@[i].marked() == g1.cells@[i].marked());
                    }
                }
                if primed_for(*old(self), v) && (exists|j: int|
                    0 <= j < 81 && j != gi && is_peer(j, gi) && !(#[trigger] old(
                        self,
                    ).cells@[j]).marked() && old(self).cells@[j].vals().len() == 1 && old(
                        self,
                    ).cells@[j].vals()[0] == v) {
                    let jj = choose|j: int|
                        0 <= j < 81 && j != gi && is_peer(j, gi) && !(#[trigger] old(
                            self,
                        ).cells@[j]).marked() && old(self).cells@[j].vals().len() == 1 && old(
                            self,
                        ).cells@[j].vals()[0] == v;
                    assert(g_mark.cells@[jj] == old(self).cells@[jj]);
                    lemma_sole_members(g_mark.cells@[jj], v);
                    assert(!listed_before(cols@, 9, jj)) by {
                        if listed_before(cols@, 9, jj) {
                            let k = choose|k: int| 0 <= k < 9 && #[trigger] cols@[k] == jj;
                            assert(!g_mark.cells@[cols@[k] as int].marked() && g_mark.cells@[
                                cols@[k] as int
                            ].vals().len() == 1 && g_mark.cells@[cols@[k] as int].vals()[0] == v);
                            assert(r1 is Err);
                        }
                    }
                    assert(!same_col(jj, gi)) by {
                        if same_col(jj, gi) {
                            let k = choose|k: int| 0 <= k < 9 && #[trigger] cols@[k] == jj;
                            assert(listed_before(cols@, 9, jj));
                        }
                    }
                    assert(!g1.cells@[jj].marked());
                    assert forall|w: u8| g1.cells@[jj].vals().contains(w) implies w == v by {
                        assert(g_mark.cells@[jj].vals().contains(w));
                    }
                    assert(g1.cells@[jj].vals().contains(v));
                    lemma_sole_value(g1.cells@[jj], v);
                    assert(primed_for(g1, v));
                    assert(!listed_before(rows@, 9, jj)) by {
                        if listed_before(rows@, 9, jj) {
                            let k = choose|k: int| 0 <= k < 9 && #[trigger] rows@[k] == jj;
                            assert(!g1.cells@[rows@[k] as int].marked() && g1.cells@[
                                rows@[k] as int
                            ].vals().len() == 1 && g1.cells@[rows@[k] as int].vals()[0] == v);
                            assert(r2 is Err);
                        }
                    }
                    assert(!same_row(jj, gi)) by {
                        if same_row(jj, gi) {
                            let k = choose|k: int| 0 <= k < 9 && #[trigger] rows@[k] == jj;
                            assert(listed_before(rows@, 9, jj));
                        }
                    }
                    assert(!g2.cells@[jj].marked());
                    lemma_sole_members(g1.cells@[jj], v);
                    assert forall|w: u8| g2.cells@[jj].vals().contains(w) implies w == v by {
                        assert(g1.cells@[jj].vals().contains(w));
                    }
                    assert(g2.cells@[jj].vals().contains(v));
                    lemma_sole_value(g2.cells@[jj], v);
                    assert(primed_for(g2, v));
                    assert(!listed_before(boxes@, 9, jj)) by {
                        if listed_before(boxes@, 9, jj) {
                            let k = choose|k: int| 0 <= k < 9 && #[trigger] boxes@[k] == jj;
                            assert(!g2.cells@[boxes@[k] as int].marked() && g2.cells@[
                                boxes@[k] as int
                            ].vals().len() == 1 && g2.cells@[boxes@[k] as int].vals()[0] == v);
                            assert(r3 is Err);
                        }
                    }
                    assert(!same_box(jj, gi)) by {
                        if same_box(jj, gi) {
                            let k = choose|k: int| 0 <= k < 9 && #[trigger] boxes@[k] == jj;
                            assert(listed_before(boxes@, 9, jj));
                        }
                    }
                    assert(!is_peer(jj, gi));
                    assert(false);
                }
            }
            Ok(())
        } else {
            Ok(())
        }
    }

    /// One broadcast sweep over one peer group: remove `v` from every
    /// unmarked cell of `peers`, recursing into each visited peer so that a
    /// newly created singleton cascades in turn. Aborts on the first
    /// contradiction.
    fn propagate_peers(&mut self, v: u8, peers: &Vec<usize>) -> (r: Result<(), ()>)
        requires
            old(self).wf(),
            forall|k: int| 0 <= k < peers@.len() ==> peers@[k] < 81,
            forall|k: int|
                0 <= k < peers@.len() && !old(self).cells@[#[trigger] peers@[
                    k
                ] as int].marked() ==> broadcast_witness(*old(self), peers@[k] as int, v),
        ensures
            final (self).wf(),
            marks_monotone(*old(self), *final (self)),
            shrinks(*old(self), *final (self)),
            marked_frozen(*old(self), *final (self)),
            removals_attributed(*old(self), *final (self)),
            new_marks_singleton(*old(self), *final (self)),
            unmarked_count(final (self).cells@) <= unmarked_count(old(self).cells@),
            r is Ok ==> cleared_prefix(*final (self), peers@, v, peers@.len() as int),
            ample_for(*old(self), v) ==> (r is Ok && ample_for(*final (self), v)),
            (primed_for(*old(self), v) && r is Ok) ==> (primed_for(*final (self), v) && (forall|
                i: int
            |
                0 <= i < 81 ==> (#[trigger] final (self).cells@[i]).marked() == old(self).cells@[
                    i
                ].marked())) && (forall|i: int, w: u8|
                0 <= i < 81 ==> ((#[trigger] final (self).cells@[i].vals().contains(w)) <==> (old(
                    self,
                ).cells@[i].vals().contains(w) && !(w == v && listed_before(
                    peers@,
                    peers@.len() as int,
                    i,
                ) && !old(self).cells@[i].marked())))),
            (primed_for(*old(self), v) && exists|k: int|
                0 <= k < peers@.len() && !old(self).cells@[#[trigger] peers@[k] as int].marked()
                    && old(self).cells@[peers@[k] as int].vals().len() == 1 && old(self).cells@[
                    peers@[k] as int
                ].vals()[0] == v) ==> r is Err,
        decreases unmarked_count(old(self).cells@), 1int,
    {
        let mut t: usize = 0;
        while t < peers.len()
            invariant
                old(self).wf(),
                self.wf(),
                t <= peers@.len(),
                forall|k: int| 0 <= k < peers@.len() ==> peers@[k] < 81,
                forall|k: int|
                    0 <= k < peers@.len() && !old(self).cells@[#[trigger] peers@[
                        k
                    ] as int].marked() ==> broadcast_witness(*old(self), peers@[k] as int, v),
                marks_monotone(*old(self), *self),
                shrinks(*old(self), *self),
                marked_frozen(*old(self), *self),
                removals_attributed(*old(self), *self),
                new_marks_singleton(*old(self), *self),
                unmarked_count(self.cells@) <= unmarked_count(old(self).cells@),
                cleared_prefix(*self, peers@, v, t as int),
                ample_for(*old(self), v) ==> ample_for(*self, v),
                primed_for(*old(self), v) ==> (primed_for(*self, v) && (forall|i: int|
                    0 <= i < 81 ==> (#[trigger] self.cells@[i]).marked() == old(self).cells@[
                        i
                    ].marked()) && (forall|i: int, w: u8|
                    0 <= i < 81 ==> ((#[trigger] self.cells@[i].vals().contains(w)) <==> (old(
                        self,
                    ).cells@[i].vals().contains(w) && !(w == v && listed_before(peers@, t as int, i)
                        && !old(self).cells@[i].marked())))) && (forall|k: int|
                    0 <= k < t ==> !(!old(self).cells@[#[trigger] peers@[k] as int].marked()
                        && old(self).cells@[peers@[k] as int].vals().len() == 1 && old(
                        self,
                    ).cells@[peers@[k] as int].vals()[0] == v))),
            decreases peers@.len() - t,
        {
            let ghost g_s = *self;
            let j = peers[t];
            if !self.cells[j].is_propagated() {
                proof {
                    if primed_for(*old(self), v) && !old(self).cells@[j as int].marked() && old(
                        self,
                    ).cells@[j as int].vals().len() == 1 && old(self).cells@[j as int].vals()[0]
                        == v {
                        // an unvisited clash cell still holds exactly {v}
                        if listed_before(peers@, t as int, j as int) {
                            let k = choose|k: int| 0 <= k < t && peers@[k] == j as int;
                            assert(false);
                        }
                        assert(old(self).cells@[j as int].vals().contains(v));
                        assert forall|w: u8| g_s.cells@[j as int].vals().contains(w) implies w
                            == v by {
                            assert(old(self).cells@[j as int].vals().contains(w));
                            let i = choose|i: int|
                                0 <= i < old(self).cells@[j as int].vals().len() && old(
                                    self,
                                ).cells@[j as int].vals()[i] == w;
                        }
                        if g_s.cells@[j as int].vals().len() >= 2 {
                            assert(g_s.cells@[j as int].vals().contains(
                                g_s.cells@[j as int].vals()[0],
                            ));
                            assert(g_s.cells@[j as int].vals().contains(
                                g_s.cells@[j as int].vals()[1],
                            ));
                            assert(false);
                        }
                        assert(g_s.cells@[j as int].vals().contains(
                            g_s.cells@[j as int].vals()[0],
                        ));
                        assert(g_s.cells@[j as int].vals().len() == 1 && g_s.cells@[
                            j as int
                        ].vals()[0] == v);
                    }
                }
                let rr = (&mut self.cells[j]).remove_possibility(v);
                if rr.is_err() {
                    proof {
                        assert(self.cells@ =~= g_s.cells@);
                        if ample_for(*old(self), v) {
                            assert(g_s.cells@[j as int].vals().len() >= 2);
                            assert(false);
                        }
                    }
                    return Err(());
                }
                proof {
                    assert(marks_monotone(g_s, *self));
                    assert(shrinks(g_s, *self));
                    assert(marked_frozen(g_s, *self));
                    lemma_unmarked_count_monotone(g_s.cells@, self.cells@);
                    lemma_pass_trans(*old(self), g_s, *self);
                    lemma_cleared_persists(g_s, *self, peers@, v, t as int);
                    // the removal at j is attributed to the broadcasting cell
                    assert(!old(self).cells@[peers@[t as int] as int].marked());
                    assert(broadcast_witness(*old(self), j as int, v));
                    let m = choose|m: int|
                        0 <= m < 81 && m != j as int && is_peer(m, j as int) && (#[trigger] old(
                            self,
                        ).cells@[m]).marked() && old(self).cells@[m].vals().len() == 1 && old(
                            self,
                        ).cells@[m].vals()[0] == v;
                    assert(self.cells@[m].marked());
                    assert(self.cells@[m].vals() == old(self).cells@[m].vals());
                    assert(broadcast_witness(*self, j as int, v));
                    assert forall|j2: int, w: u8|
                        0 <= j2 < 81 && g_s.cells@[j2].vals().contains(w) && !(
                    #[trigger] self.cells@[j2].vals().contains(w)) implies broadcast_witness(
                        *self,
                        j2,
                        w,
                    ) by {
                        if j2 != j as int {
                            assert(self.cells@[j2] == g_s.cells@[j2]);
                        } else {
                            assert(w == v);
                        }
                    }
                    assert(new_marks_singleton(g_s, *self));
                    lemma_attr_trans(*old(self), g_s, *self);
                    if ample_for(*old(self), v) {
                        assert forall|i: int|
                            0 <= i < 81 && !(#[trigger] self.cells@[i]).marked() implies (
                        self.cells@[i].vals().len() >= 3 || (self.cells@[i].vals().len() >= 2
                            && !self.cells@[i].vals().contains(v))) by {
                            if i != j as int {
                                assert(self.cells@[i] == g_s.cells@[i]);
                            }
                        }
                        assert(ample_for(*self, v));
                    }
                    if primed_for(*old(self), v) {
                        // j was no clash cell, so it keeps at least two candidates
                        assert(!(g_s.cells@[j as int].vals().len() == 1 && g_s.cells@[
                            j as int
                        ].vals()[0] == v));
                        assert(g_s.cells@[j as int].vals().len() >= 2 || !g_s.cells@[
                            j as int
                        ].vals().contains(v));
                        assert(self.cells@[j as int].vals().len() >= 2 || self.cells@[
                            j as int
                        ].vals().len() == g_s.cells@[j as int].vals().len());
                        assert(primed_for(*self, v));
                        assert forall|i: int, w: u8|
                            0 <= i < 81 implies ((#[trigger] self.cells@[i].vals().contains(w))
                            <==> (old(self).cells@[i].vals().contains(w) && !(w == v
                            && listed_before(peers@, t as int + 1, i) && !old(self).cells@[
                            i
                        ].marked()))) by {
                            if i != j as int {
                                assert(self.cells@[i] == g_s.cells@[i]);
                                assert(listed_before(peers@, t as int + 1, i) <==> listed_before(
                                    peers@,
                                    t as int,
                                    i,
                                )) by {
                                    if listed_before(peers@, t as int + 1, i) {
                                        let k = choose|k: int|
                                            0 <= k < t + 1 && #[trigger] peers@[k] == i;
                                        assert(0 <= k < t && peers@[k] == i);
                                    }
                                }
                            } else {
                                assert(peers@[t as int] == j);
                                assert(listed_before(peers@, t as int + 1, j as int));
                            }
                        }
                    }
                }
                let ghost g_b = *self;
                let rr2 = self.propagate(j);
                proof {
                    lemma_pass_trans(*old(self), g_b, *self);
                    lemma_pass_trans(g_s, g_b, *self);
                    lemma_attr_trans(*old(self), g_b, *self);
                    lemma_cleared_persists(g_b, *self, peers@, v, t as int);
                    if ample_for(*old(self), v) {
                        assert(g_b.cells@[j as int].vals().len() >= 2);
                        assert(rr2 is Ok && self.cells@ == g_b.cells@);
                        assert(ample_for(*self, v));
                    }
                    if primed_for(*old(self), v) {
                        assert(g_b.cells@[j as int].vals().len() >= 2);
                        assert(rr2 is Ok && self.cells@ == g_b.cells@);
                    }
                }
                if rr2.is_err() {
                    return Err(());
                }
                proof {
                    assert(!g_b.cells@[j as int].vals().contains(v));
                    assert(!self.cells@[j as int].vals().contains(v));
                    assert(cleared_prefix(*self, peers@, v, t as int + 1));
                }
            } else {
                proof {
                    assert(cleared_prefix(*self, peers@, v, t as int + 1));
                    if primed_for(*old(self), v) {
                        assert(old(self).cells@[j as int].marked());
                        assert forall|i: int, w: u8|
                            0 <= i < 81 implies ((#[trigger] self.cells@[i].vals().contains(w))
                            <==> (old(self).cells@[i].vals().contains(w) && !(w == v
                            && listed_before(peers@, t as int + 1, i) && !old(self).cells@[
                            i
                        ].marked()))) by {
                            if i != j as int {
                                assert(listed_before(peers@, t as int + 1, i) <==> listed_before(
                                    peers@,
                                    t as int,
                                    i,
                                )) by {
                                    if listed_before(peers@, t as int + 1, i) {
                                        let k = choose|k: int|
                                            0 <= k < t + 1 && #[trigger] peers@[k] == i;
                                        assert(0 <= k < t && peers@[k] == i);
                                    }
                                }
                            }
                        }
                    }
                }
            }
            t = t + 1;
        }
        proof {
            if primed_for(*old(self), v) && (exists|k: int|
                0 <= k < peers@.len() && !old(self).cells@[#[trigger] peers@[k] as int].marked()
                    && old(self).cells@[peers@[k] as int].vals().len() == 1 && old(self).cells@[
                    peers@[k] as int
                ].vals()[0] == v) {
                let k = choose|k: int|
                    0 <= k < peers@.len() && !old(self).cells@[#[trigger] peers@[
                        k
                    ] as int].marked() && old(self).cells@[peers@[k] as int].vals().len() == 1
                        && old(self).cells@[peers@[k] as int].vals()[0] == v;
                assert(false);
            }
        }
        Ok(())
    }
}

impl Grid {
    /// The least candidate count among cells that still have more than one
    /// candidate. Must only be asked of an unresolved grid.
    pub fn min_entropy(&self) -> (m: usize)
        requires
            self.wf(),
            !self.resolved(),
        ensures
            2 <= m <= 9,
            exists|i: int| 0 <= i < 81 && (#[trigger] self.cells@[i]).vals().len() == m,
            forall|i: int|
                0 <= i < 81 && (#[trigger] self.cells@[i]).vals().len() > 1 ==> m <= self.cells@[
                    i
                ].vals().len(),
    {
        let mut m: usize = 9;
        let mut i: usize = 0;
        while i < 81
            invariant
                self.wf(),
                i <= 81,
                2 <= m <= 9,
                m == 9 || exists|j: int|
                    0 <= j < i && (#[trigger] self.cells@[j]).vals().len() == m,
                forall|j: int|
                    0 <= j < i && (#[trigger] self.cells@[j]).vals().len() > 1 ==> m
                        <= self.cells@[j].vals().len(),
            decreases 81 - i,
        {
            let c = self.cells[i].count();
            if c > 1 && c < m {
                m = c;
            }
            proof {
                if self.cells@[i as int].vals().len() > 1 {
                    lemma_cell_len_bound(self.cells@[i as int]);
                }
            }
            i = i + 1;
        }
        proof {
            if m == 9 {
                assert(exists|j: int|
                    0 <= j < 81 && (#[trigger] self.cells@[j]).vals().len() != 1);
                let j = choose|j: int|
                    0 <= j < 81 && (#[trigger] self.cells@[j]).vals().len() != 1;
                lemma_cell_len_bound(self.cells@[j]);
                assert(self.cells@[j].vals().len() == 9);
            }
        }
        m
    }

    /// All indices whose cells achieve the least candidate count above one,
    /// ascending. Must only be asked of an unresolved grid.
    pub fn lowest_entropy_cells(&self) -> (r: Vec<usize>)
        requires
            self.wf(),
            !self.resolved(),
        ensures
            r@.len() > 0,
            forall|k: int| 0 <= k < r@.len() ==> #[trigger] r@[k] < 81,
            forall|k: int|
                0 <= k < r@.len() ==> self.cells@[#[trigger] r@[k] as int].vals().len()
                    == self.cells@[r@[0] as int].vals().len(),
            self.cells@[r@[0] as int].vals().len() > 1,
            forall|i: int|
                0 <= i < 81 && (#[trigger] self.cells@[i]).vals().len() > 1 ==> self.cells@[
                    r@[0] as int
                ].vals().len() <= self.cells@[i].vals().len(),
            forall|i: int|
                0 <= i < 81 && (#[trigger] self.cells@[i]).vals().len() == self.cells@[
                    r@[0] as int
                ].vals().len() ==> r@.contains(i as usize),
    {
        let m = self.min_entropy();
        let mut r: Vec<usize> = Vec::new();
        let mut i: usize = 0;
        while i < 81
            invariant
                self.wf(),
                i <= 81,
                forall|k: int| 0 <= k < r@.len() ==> #[trigger] r@[k] < i,
                forall|k: int|
                    0 <= k < r@.len() ==> self.cells@[#[trigger] r@[k] as int].vals().len() == m,
                forall|j: int|
                    0 <= j < i && (#[trigger] self.cells@[j]).vals().len() == m ==> r@.contains(
                        j as usize,
                    ),
            decreases 81 - i,
        {
            let ghost r0 = r@;
            if self.cells[i].count() == m {
                r.push(i);
            }
            proof {
                assert forall|j: int|
                    0 <= j < i + 1 && (#[trigger] self.cells@[j]).vals().len() == m implies r@
                    .contains(j as usize) by {
                    if j < i {
                        let k = choose|k: int| 0 <= k < r0.len() && r0[k] == j as usize;
                        assert(r@[k] == j as usize);
                    } else {
                        assert(r@[r@.len() - 1] == j as usize);
                    }
                }
            }
            i = i + 1;
        }
        proof {
            let i0 = choose|i: int| 0 <= i < 81 && (#[trigger] self.cells@[i]).vals().len() == m;
            assert(r@.contains(i0 as usize));
            assert(r@.len() > 0);
            let k0 = choose|k: int| 0 <= k < r@.len() && r@[k] == i0 as usize;
            assert(self.cells@[r@[0] as int].vals().len() == m);
        }
        r
    }

    /// Among all cells whose candidate count exceeds one, pick uniformly at
    /// random one of the indices achieving the least count. Must only be
    /// asked of an unresolved grid.
    pub fn get_lowest_entropy_cell_idx(&self) -> (idx: usize)
        requires
            self.wf(),
            !self.resolved(),
        ensures
            idx < 81,
            self.cells@[idx as int].vals().len() > 1,
            forall|i: int|
                0 <= i < 81 && (#[trigger] self.cells@[i]).vals().len() > 1 ==> self.cells@[
                    idx as int
                ].vals().len() <= self.cells@[i].vals().len(),
    {
        let cand = self.lowest_entropy_cells();
        let k = crate::rng::random_below(cand.len());
        cand[k]
    }

    /// Collapse the cell at `idx` to the candidate at position `pick` of its
    /// candidate list; a cell already holding a single candidate is left
    /// unchanged. Returns the remaining value.
    pub fn collapse_cell_pick(&mut self, idx: usize, pick: usize) -> (v: u8)
        requires
            old(self).wf(),
            idx < 81,
            pick < old(self).cells@[idx as int].vals().len(),
        ensures
            final (self).wf(),
            shrinks(*old(self), *final (self)),
            final (self).cells@[idx as int].vals().len() == 1,
            final (self).cells@[idx as int].vals()[0] == v,
            old(self).cells@[idx as int].vals().contains(v),
            final (self).cells@[idx as int].marked() == old(self).cells@[idx as int].marked(),
            forall|i: int|
                0 <= i < 81 && i != idx ==> (#[trigger] final (self).cells@[i]).vals() == old(
                    self,
                ).cells@[i].vals() && final (self).cells@[i].marked() == old(self).cells@[
                    i
                ].marked(),
            old(self).cells@[idx as int].vals().len() > 1 ==> v == old(self).cells@[
                idx as int
            ].vals()[pick as int],
            old(self).cells@[idx as int].vals().len() == 1 ==> final (self).cells@ == old(
                self,
            ).cells@,
    {
        let v = (&mut self.cells[idx]).collapse_pick(pick);
        proof {
            if old(self).cells@[idx as int].vals().len() == 1 {
                assert(self.cells@ =~= old(self).cells@);
            }
        }
        v
    }

    /// Collapse the cell at `idx` to one uniformly random remaining
    /// candidate; a cell already holding a single candidate is left
    /// unchanged. Returns the remaining value.
    pub fn collapse_cell(&mut self, idx: usize) -> (v: u8)
        requires
            old(self).wf(),
            idx < 81,
        ensures
            final (self).wf(),
            shrinks(*old(self), *final (self)),
            final (self).cells@[idx as int].vals().len() == 1,
            final (self).cells@[idx as int].vals()[0] == v,
            old(self).cells@[idx as int].vals().contains(v),
            final (self).cells@[idx as int].marked() == old(self).cells@[idx as int].marked(),
            forall|i: int|
                0 <= i < 81 && i != idx ==> (#[trigger] final (self).cells@[i]).vals() == old(
                    self,
                ).cells@[i].vals() && final (self).cells@[i].marked() == old(self).cells@[
                    i
                ].marked(),
            old(self).cells@[idx as int].vals().len() == 1 ==> final (self).cells@ == old(
                self,
            ).cells@,
    {
        let v = (&mut self.cells[idx]).collapse();
        proof {
            if old(self).cells@[idx as int].vals().len() == 1 {
                assert(self.cells@ =~= old(self).cells@);
            }
        }
        v
    }

    /// Manual full reset: discard the grid and replace it wholesale by a
    /// fresh one, whatever its current state.
    pub fn reset(&mut self)
        ensures
            final (self).wf(),
            final (self).fresh(),
    {
        *self = Grid::new();
    }

    /// Finish one step with the result of its propagation: on success clear
    /// every per-pass marker and keep all candidate sets; on a contradiction
    /// discard everything and start over from a fresh grid.
    pub fn conclude_step(&mut self, outcome: Result<(), ()>)
        requires
            old(self).wf(),
        ensures
            final (self).wf(),
            final (self).all_unmarked(),
            outcome is Ok ==> forall|i: int|
                0 <= i < 81 ==> (#[trigger] final (self).cells@[i]).vals() == old(self).cells@[
                    i
                ].vals(),
            outcome is Err ==> final (self).fresh(),
    {
        match outcome {
            Ok(()) => self.end_propagation(),
            Err(()) => self.reset(),
        }
    }

    /// One discrete step: if the grid is resolved, do nothing. Otherwise
    /// collapse the most constrained cell (ties and values drawn at random),
    /// propagate the choice, and either clear the pass markers on success or
    /// replace the grid by a fresh one on contradiction.
    pub fn step(&mut self)
        requires
            old(self).wf(),
        ensures
            final (self).wf(),
            old(self).resolved() ==> final (self).cells@ == old(self).cells@,
            !old(self).resolved() ==> final (self).all_unmarked() && (final (self).fresh()
                || shrinks(*old(self), *final (self))),
            !old(self).resolved() ==> (final (self).fresh() || exists|i: int|
                0 <= i < 81 && old(self).cells@[i].vals().len() > 1
                    && (#[trigger] final (self).cells@[i]).vals().len() == 1
                    && old(self).cells@[i].vals().contains(final (self).cells@[i].vals()[0])),
            (!old(self).resolved() && forall|i: int|
                0 <= i < 81 ==> (#[trigger] old(self).cells@[i]).vals().len() >= 3)
                ==> !final (self).fresh(),
    {
        if self.is_resolved() {
            return ;
        }
        let idx = self.get_lowest_entropy_cell_idx();
        let v = self.collapse_cell(idx);
        let ghost g_c = *self;
        let r = self.propagate(idx);
        let ghost g_p = *self;
        self.conclude_step(r);
        proof {
            if r is Ok {
                assert forall|i: int, w: u8|
                    0 <= i < 81 && #[trigger] self.cells@[i].vals().contains(w) implies old(
                    self,
                ).cells@[i].vals().contains(w) by {
                    assert(g_p.cells@[i].vals().contains(w));
                    assert(g_c.cells@[i].vals().contains(w));
                }
                assert(shrinks(*old(self), *self));
                assert(g_p.cells@[idx as int].vals() == g_c.cells@[idx as int].vals());
                assert(self.cells@[idx as int].vals() == g_c.cells@[idx as int].vals());
                assert(self.cells@[idx as int].vals().len() == 1 && self.cells@[
                    idx as int
                ].vals()[0] == v);
            }
            if !old(self).resolved() && (forall|i: int|
                0 <= i < 81 ==> (#[trigger] old(self).cells@[i]).vals().len() >= 3) {
                assert forall|j: int|
                    0 <= j < 81 && j != idx as int && !(#[trigger] g_c.cells@[
                        j
                    ]).marked() implies g_c.cells@[j].vals().len() >= 3 by {
                    assert(g_c.cells@[j].vals() == old(self).cells@[j].vals());
                }
                assert(r is Ok);
                assert(full_candidates().len() == 9);
                assert(self.cells@[idx as int].vals().len() == 1);
                assert(!self.fresh());
            }
        }
    }
}

/// Monotonicity, shrinking and freezing of a pass compose across two
/// successive stretches of the same pass.
proof fn lemma_pass_trans(ga: Grid, gb: Grid, gc: Grid)
    requires
        ga.cells@.len() == 81,
        gb.cells@.len() == 81,
        gc.cells@.len() == 81,
        marks_monotone(ga, gb),
        marks_monotone(gb, gc),
        shrinks(ga, gb),
        shrinks(gb, gc),
        marked_frozen(ga, gb),
        marked_frozen(gb, gc),
    ensures
        marks_monotone(ga, gc),
        shrinks(ga, gc),
        marked_frozen(ga, gc),
{
    assert forall|i: int| 0 <= i < 81 && ga.cells@[i].marked() implies gc.cells@[
        i
    ].marked() by {
        assert(gb.cells@[i].marked());
    }
    assert forall|i: int, w: u8|
        0 <= i < 81 && #[trigger] gc.cells@[i].vals().contains(w) implies ga.cells@[
        i
    ].vals().contains(w) by {
        assert(gb.cells@[i].vals().contains(w));
    }
    assert forall|i: int| 0 <= i < 81 && ga.cells@[i].marked() implies #[trigger] gc.cells@[
        i
    ].vals() == ga.cells@[i].vals() by {
        assert(gb.cells@[i].marked());
        assert(gb.cells@[i].vals() == ga.cells@[i].vals());
        assert(gc.cells@[i].vals() == gb.cells@[i].vals());
    }
}

/// A well-formed cell containing `v` and nothing else is exactly the
/// singleton holding `v`.
proof fn lemma_sole_value(c: Cell, v: u8)
    requires
        c.wf(),
        c.vals().contains(v),
        forall|w: u8| c.vals().contains(w) ==> w == v,
    ensures
        c.vals().len() == 1,
        c.vals()[0] == v,
{
    if c.vals().len() >= 2 {
        assert(c.vals().contains(c.vals()[0]));
        assert(c.vals().contains(c.vals()[1]));
    }
    assert(c.vals().contains(c.vals()[0]));
}

/// A singleton cell holding `v` contains `v` and nothing else.
proof fn lemma_sole_members(c: Cell, v: u8)
    requires
        c.vals().len() == 1,
        c.vals()[0] == v,
    ensures
        c.vals().contains(v),
        forall|w: u8| c.vals().contains(w) ==> w == v,
{
    assert(c.vals().contains(c.vals()[0]));
    assert forall|w: u8| c.vals().contains(w) implies w == v by {
        let i = choose|i: int| 0 <= i < c.vals().len() && c.vals()[i] == w;
    }
}

/// Removal attribution and the newly-marked-singleton property compose
/// across two successive stretches of the same pass: a witness found after
/// the first stretch is marked, hence frozen, through the second.
proof fn lemma_attr_trans(ga: Grid, gb: Grid, gc: Grid)
    requires
        ga.cells@.len() == 81,
        gb.cells@.len() == 81,
        gc.cells@.len() == 81,
        marks_monotone(gb, gc),
        marked_frozen(gb, gc),
        removals_attributed(ga, gb),
        removals_attributed(gb, gc),
        new_marks_singleton(ga, gb),
        new_marks_singleton(gb, gc),
    ensures
        removals_attributed(ga, gc),
        new_marks_singleton(ga, gc),
{
    assert forall|j: int, w: u8|
        0 <= j < 81 && ga.cells@[j].vals().contains(w) && !(#[trigger] gc.cells@[
            j
        ].vals().contains(w)) implies broadcast_witness(gc, j, w) by {
        if gb.cells@[j].vals().contains(w) {
            assert(broadcast_witness(gc, j, w));
        } else {
            assert(broadcast_witness(gb, j, w));
            let m = choose|m: int|
                0 <= m < 81 && m != j && is_peer(m, j) && (#[trigger] gb.cells@[m]).marked()
                    && gb.cells@[m].vals().len() == 1 && gb.cells@[m].vals()[0] == w;
            assert(gc.cells@[m].marked());
            assert(gc.cells@[m].vals() == gb.cells@[m].vals());
            assert(broadcast_witness(gc, j, w));
        }
    }
    assert forall|i: int|
        0 <= i < 81 && !ga.cells@[i].marked() && (#[trigger] gc.cells@[i]).marked() implies
        gc.cells@[i].vals().len() == 1 by {
        if gb.cells@[i].marked() {
            assert(gb.cells@[i].vals().len() == 1);
            assert(gc.cells@[i].vals() == gb.cells@[i].vals());
        }
    }
}

/// A cleared peer-list prefix stays cleared while marks only get set and
/// candidate sets only shrink.
proof fn lemma_cleared_persists(g1: Grid, g2: Grid, peers: Seq<usize>, v: u8, t: int)
    requires
        g1.cells@.len() == 81,
        g2.cells@.len() == 81,
        forall|k: int| 0 <= k < peers.len() ==> peers[k] < 81,
        marks_monotone(g1, g2),
        shrinks(g1, g2),
        0 <= t <= peers.len(),
        cleared_prefix(g1, peers, v, t),
    ensures
        cleared_prefix(g2, peers, v, t),
{
    assert forall|k: int|
        0 <= k < t && !g2.cells@[#[trigger] peers[k] as int].marked() implies !g2.cells@[
        peers[k] as int
    ].vals().contains(v) by {
        let j = peers[k] as int;
        assert(!g1.cells@[j].marked());
        assert(!g1.cells@[j].vals().contains(v));
        if g2.cells@[j].vals().contains(v) {
            assert(g1.cells@[j].vals().contains(v));
        }
    }
}

/// If every cell marked in `s1` is marked in `s2`, the unmarked count
/// cannot grow.
pub proof fn lemma_unmarked_count_monotone(s1: Seq<Cell>, s2: Seq<Cell>)
    requires
        s1.len() == s2.len(),
        forall|i: int| 0 <= i < s1.len() && s1[i].marked() ==> s2[i].marked(),
    ensures
        unmarked_count(s2) <= unmarked_count(s1),
    decreases s1.len(),
{
    if s1.len() > 0 {
        lemma_unmarked_count_monotone(s1.drop_last(), s2.drop_last());
    }
}

/// Marking one cell that was unmarked strictly lowers the unmarked count.
pub proof fn lemma_unmarked_count_strict(s1: Seq<Cell>, s2: Seq<Cell>, w: int)
    requires
        s1.len() == s2.len(),
        forall|i: int| 0 <= i < s1.len() && s1[i].marked() ==> s2[i].marked(),
        0 <= w < s1.len(),
        !s1[w].marked(),
        s2[w].marked(),
    ensures
        unmarked_count(s2) < unmarked_count(s1),
    decreases s1.len(),
{
    if w == s1.len() - 1 {
        lemma_unmarked_count_monotone(s1.drop_last(), s2.drop_last());
    } else {
        lemma_unmarked_count_strict(s1.drop_last(), s2.drop_last(), w);
    }
}

} // verus!
