//! One grid position: the set of values still possible for it, and a
//! transient marker saying whether that value has been broadcast to its
//! peers during the current propagation pass.

use vstd::prelude::*;

verus! {

/// A cell holds the candidate values still possible for its position,
/// kept as a strictly increasing sequence of digits in `1..=9`, together
/// with the per-pass `propagated` marker.
pub struct Cell {
    possible_values: Vec<u8>,
    propagated: bool,
}

impl Cell {
    /// The candidate values, as a mathematical sequence.
    pub closed spec fn vals(&self) -> Seq<u8> {
        self.possible_values@
    }

    /// Whether this cell's value was already broadcast in the current pass.
    pub closed spec fn marked(&self) -> bool {
        self.propagated
    }

    /// Well-formedness: at least one candidate, all digits in `1..=9`,
    /// strictly increasing (hence distinct).
    pub open spec fn wf(&self) -> bool {
        &&& self.vals().len() > 0
        &&& forall|i: int| 0 <= i < self.vals().len() ==> 1 <= #[trigger] self.vals()[i] <= 9
        &&& forall|i: int, j: int| 0 <= i < j < self.vals().len() ==> self.vals()[i] < self.vals()[j]
    }

    /// A fresh cell: all nine candidates, not yet propagated.
    pub fn new() -> (c: Cell)
        ensures
            c.wf(),
            c.vals() =~= seq![1u8, 2, 3, 4, 5, 6, 7, 8, 9],
            !c.marked(),
    {
        let mut vals: Vec<u8> = Vec::new();
        let mut d: u8 = 1;
        while d <= 9
            invariant
                1 <= d <= 10,
                vals@.len() == d - 1,
                forall|i: int| 0 <= i < vals@.len() ==> #[trigger] vals@[i] == i + 1,
            decreases 10 - d,
        {
            vals.push(d);
            d = d + 1;
        }
        Cell { possible_values: vals, propagated: false }
    }

    /// How many candidates remain.
    pub fn count(&self) -> (n: usize)
        ensures
            n == self.vals().len(),
    {
        self.possible_values.len()
    }

    /// The candidate at position `k` (ascending order).
    pub fn value_at(&self, k: usize) -> (v: u8)
        requires
            k < self.vals().len(),
        ensures
            v == self.vals()[k as int],
    {
        self.possible_values[k]
    }

    /// A copy of the candidate values, for display.
    pub fn values(&self) -> (r: Vec<u8>)
        ensures
            r@ == self.vals(),
    {
        let mut r: Vec<u8> = Vec::new();
        let mut k: usize = 0;
        while k < self.possible_values.len()
            invariant
                k <= self.vals().len(),
                r@ =~= self.vals().subrange(0, k as int),
            decreases self.vals().len() - k,
        {
            r.push(self.possible_values[k]);
            k = k + 1;
        }
        assert(r@ =~= self.vals());
        r
    }

    /// Whether this cell's value was already broadcast in the current pass.
    pub fn is_propagated(&self) -> (b: bool)
        ensures
            b == self.marked(),
    {
        self.propagated
    }

    /// Record that this cell's value has been broadcast in the current pass.
    pub fn mark_propagated(&mut self)
        ensures
            final (self).vals() == old(self).vals(),
            final (self).marked(),
    {
        self.propagated = true;
    }

    /// Clear the per-pass marker.
    pub fn clear_propagated(&mut self)
        ensures
            final (self).vals() == old(self).vals(),
            !final (self).marked(),
    {
        self.propagated = false;
    }

    /// Collapse to the candidate at position `pick` (ascending order): if
    /// more than one candidate remains, only that one is kept; a cell that
    /// is already a singleton is left unchanged. Returns the remaining value.
    pub fn collapse_pick(&mut self, pick: usize) -> (v: u8)
        requires
            old(self).wf(),
            pick < old(self).vals().len(),
        ensures
            final (self).wf(),
            final (self).marked() == old(self).marked(),
            final (self).vals().len() == 1,
            v == final (self).vals()[0],
            old(self).vals().contains(v),
            old(self).vals().len() > 1 ==> v == old(self).vals()[pick as int],
            old(self).vals().len() == 1 ==> *final (self) == *old(self),
    {
        if self.possible_values.len() > 1 {
            let v = self.possible_values[pick];
            let mut single: Vec<u8> = Vec::new();
            single.push(v);
            self.possible_values = single;
            v
        } else {
            self.possible_values[0]
        }
    }

    /// Collapse to one uniformly random remaining candidate; a cell that is
    /// already a singleton is left unchanged (the operation is idempotent).
    /// Returns the remaining value.
    pub fn collapse(&mut self) -> (v: u8)
        requires
            old(self).wf(),
        ensures
            final (self).wf(),
            final (self).marked() == old(self).marked(),
            final (self).vals().len() == 1,
            v == final (self).vals()[0],
            old(self).vals().contains(v),
            old(self).vals().len() == 1 ==> *final (self) == *old(self),
    {
        let n = self.possible_values.len();
        let pick = if n > 1 {
            crate::rng::random_below(n)
        } else {
            0
        };
        self.collapse_pick(pick)
    }

    /// Remove `value` from the candidates. On a cell with more than one
    /// candidate this always succeeds (a no-op when `value` is not present).
    /// On a singleton holding exactly `value` it signals a contradiction and
    /// leaves the cell unchanged; on a singleton holding another value it
    /// succeeds and leaves the cell unchanged.
    pub fn remove_possibility(&mut self, value: u8) -> (r: Result<(), ()>)
        requires
            old(self).wf(),
        ensures
            final (self).wf(),
            final (self).marked() == old(self).marked(),
            r is Err <==> (old(self).vals().len() == 1 && old(self).vals()[0] == value),
            r is Err ==> *final (self) == *old(self),
            r is Ok ==> !final (self).vals().contains(value),
            r is Ok ==> forall|w: u8|
                final (self).vals().contains(w) <==> (old(self).vals().contains(w) && w != value),
            r is Ok ==> final (self).vals().len() == (if old(self).vals().contains(value) {
                old(self).vals().len() - 1
            } else {
                old(self).vals().len() as int
            }),
            old(self).vals().len() == 1 ==> *final (self) == *old(self),
    {
        if self.possible_values.len() > 1 {
            let mut kept: Vec<u8> = Vec::new();
            let mut k: usize = 0;
            while k < self.possible_values.len()
                invariant
                    self.wf(),
                    k <= self.vals().len(),
                    self.vals().len() > 1,
                    forall|i: int, j: int|
                        0 <= i < j < kept@.len() ==> kept@[i] < kept@[j],
                    forall|w: u8|
                        kept@.contains(w) <==> (self.vals().subrange(0, k as int).contains(w)
                            && w != value),
                    kept@.len() == (if self.vals().subrange(0, k as int).contains(value) {
                        k - 1
                    } else {
                        k as int
                    }),
                    kept@.len() > 0 ==> exists|i: int|
                        0 <= i < k && kept@[kept@.len() - 1] == self.vals()[i],
                decreases self.vals().len() - k,
            {
                let cand = self.possible_values[k];
                if cand != value {
                    proof {
                        if kept@.len() > 0 {
                            let i = choose|i: int|
                                0 <= i < k && kept@[kept@.len() - 1] == self.vals()[i];
                            assert(self.vals()[i] < self.vals()[k as int]);
                        }
                    }
                    let ghost kept0 = kept@;
                    kept.push(cand);
                    proof {
                        lemma_subrange_contains_step(self.vals(), k as int, value);
                        assert forall|w: u8|
                            kept@.contains(w) <==> (self.vals().subrange(
                                0,
                                k as int + 1,
                            ).contains(w) && w != value) by {
                            lemma_subrange_contains_step(self.vals(), k as int, w);
                            if kept@.contains(w) {
                                let i = choose|i: int| 0 <= i < kept@.len() && kept@[i] == w;
                                if i < kept@.len() - 1 {
                                    assert(kept0[i] == w);
                                    assert(kept0.contains(w));
                                } else {
                                    assert(w == cand);
                                }
                            }
                            if kept0.contains(w) {
                                let i = choose|i: int| 0 <= i < kept0.len() && kept0[i] == w;
                                assert(kept@[i] == w);
                            }
                            if w == cand {
                                assert(kept@[kept@.len() - 1] == w);
                            }
                        }
                    }
                } else {
                    proof {
                        lemma_subrange_contains_step(self.vals(), k as int, value);
                        if self.vals().subrange(0, k as int).contains(value) {
                            let i = choose|i: int|
                                0 <= i < k && self.vals().subrange(0, k as int)[i] == value;
                            assert(self.vals()[i] == value);
                            assert(self.vals()[i] < self.vals()[k as int]);
                        }
                        assert forall|w: u8|
                            kept@.contains(w) <==> (self.vals().subrange(
                                0,
                                k as int + 1,
                            ).contains(w) && w != value) by {
                            lemma_subrange_contains_step(self.vals(), k as int, w);
                        }
                    }
                }
                k = k + 1;
            }
            proof {
                assert(self.vals().subrange(0, self.vals().len() as int) =~= self.vals());
                // removing one value from at least two leaves at least one
                let v0 = self.vals()[0];
                let v1 = self.vals()[1];
                assert(self.vals().contains(v0) && self.vals().contains(v1));
                assert(v0 != v1);
                if v0 != value {
                    assert(kept@.contains(v0));
                } else {
                    assert(kept@.contains(v1));
                }
                assert(kept@.len() > 0);
                assert forall|i: int| 0 <= i < kept@.len() implies 1 <= #[trigger] kept@[i]
                    <= 9 by {
                    assert(kept@.contains(kept@[i]));
                    let j = choose|j: int|
                        0 <= j < self.vals().len() && self.vals()[j] == kept@[i];
                }
            }
            self.possible_values = kept;
            Ok(())
        } else {
            if self.possible_values[0] == value {
                Err(())
            } else {
                proof {
                    assert forall|w: u8| self.vals().contains(w) implies w == self.vals()[0] by {
                        let i = choose|i: int| 0 <= i < self.vals().len() && self.vals()[i] == w;
                    }
                }
                Ok(())
            }
        }
    }
}

impl Default for Cell {
    /// A fresh cell, as `Cell::new` builds it.
    fn default() -> (c: Self)
        ensures
            c.wf(),
            c.vals() =~= seq![1u8, 2, 3, 4, 5, 6, 7, 8, 9],
            !c.marked(),
    {
        Cell::new()
    }
}

/// The well-formed representation of a candidate set is canonical: two
/// strictly increasing sequences admitting exactly the same values are
/// equal. Contracts that pin a cell's membership therefore pin its whole
/// candidate list.
pub proof fn lemma_sorted_members_unique(s1: Seq<u8>, s2: Seq<u8>)
    requires
        forall|a: int, b: int| 0 <= a < b < s1.len() ==> s1[a] < s1[b],
        forall|a: int, b: int| 0 <= a < b < s2.len() ==> s2[a] < s2[b],
        forall|w: u8| s1.contains(w) <==> s2.contains(w),
    ensures
        s1 == s2,
    decreases s1.len(),
{
    if s1.len() == 0 {
        if s2.len() > 0 {
            assert(s2.contains(s2[0]));
            assert(s1.contains(s2[0]));
        }
        assert(s1 =~= s2);
    } else {
        assert(s1.contains(s1[0]));
        assert(s2.contains(s1[0]));
        assert(s2.contains(s2[0]));
        assert(s1.contains(s2[0]));
        let i = choose|i: int| 0 <= i < s2.len() && s2[i] == s1[0];
        let j = choose|j: int| 0 <= j < s1.len() && s1[j] == s2[0];
        assert(i > 0 ==> s2[0] < s2[i]);
        assert(j > 0 ==> s1[0] < s1[j]);
        assert(s1[0] == s2[0]);
        let t1 = s1.subrange(1, s1.len() as int);
        let t2 = s2.subrange(1, s2.len() as int);
        assert forall|w: u8| t1.contains(w) <==> t2.contains(w) by {
            assert(t1.contains(w) <==> (s1.contains(w) && w != s1[0])) by {
                if t1.contains(w) {
                    let k = choose|k: int| 0 <= k < t1.len() && t1[k] == w;
                    assert(s1[k + 1] == w);
                }
                if s1.contains(w) && w != s1[0] {
                    let k = choose|k: int| 0 <= k < s1.len() && s1[k] == w;
                    assert(t1[k - 1] == w);
                }
            }
            assert(t2.contains(w) <==> (s2.contains(w) && w != s2[0])) by {
                if t2.contains(w) {
                    let k = choose|k: int| 0 <= k < t2.len() && t2[k] == w;
                    assert(s2[k + 1] == w);
                }
                if s2.contains(w) && w != s2[0] {
                    let k = choose|k: int| 0 <= k < s2.len() && s2[k] == w;
                    assert(t2[k - 1] == w);
                }
            }
        }
        lemma_sorted_members_unique(t1, t2);
        assert(s1 =~= s2) by {
            assert(s1.len() == s2.len());
            assert forall|k: int| 0 <= k < s1.len() implies s1[k] == s2[k] by {
                if k > 0 {
                    assert(t1[k - 1] == t2[k - 1]);
                }
            }
        }
    }
}

/// A well-formed cell holds at most nine candidates: they are strictly
/// increasing digits of `1..=9`.
pub proof fn lemma_cell_len_bound(c: Cell)
    requires
        c.wf(),
    ensures
        1 <= c.vals().len() <= 9,
{
    if c.vals().len() > 9 {
        lemma_strict_lower(c.vals(), 9);
    }
}

/// In a strictly increasing sequence, the entry at `i` is at least the
/// first entry plus `i`.
proof fn lemma_strict_lower(s: Seq<u8>, i: int)
    requires
        forall|a: int, b: int| 0 <= a < b < s.len() ==> s[a] < s[b],
        0 <= i < s.len(),
    ensures
        s[i] >= s[0] + i,
    decreases i,
{
    if i > 0 {
        lemma_strict_lower(s, i - 1);
        assert(s[i - 1] < s[i]);
    }
}

/// Membership in a sequence prefix extended by one element.
proof fn lemma_subrange_contains_step(s: Seq<u8>, k: int, w: u8)
    requires
        0 <= k < s.len(),
    ensures
        s.subrange(0, k + 1).contains(w) <==> (s.subrange(0, k).contains(w) || s[k] == w),
{
    let pre = s.subrange(0, k);
    let ext = s.subrange(0, k + 1);
    if ext.contains(w) {
        let i = choose|i: int| 0 <= i < ext.len() && ext[i] == w;
        if i < k {
            assert(pre[i] == w);
        }
    }
    if pre.contains(w) {
        let i = choose|i: int| 0 <= i < pre.len() && pre[i] == w;
        assert(ext[i] == w);
    }
    if s[k] == w {
        assert(ext[k] == w);
    }
}

} // verus!
