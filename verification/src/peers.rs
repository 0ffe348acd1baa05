//! Peer-index enumeration: for a linear index `0..81` over a 9x9 grid,
//! the nine indices sharing its row, its column, and its 3x3 box.
//! Every peer group includes the index itself.

use vstd::prelude::*;
use vstd::arithmetic::div_mod::{
    lemma_fundamental_div_mod, lemma_fundamental_div_mod_converse,
    lemma_mod_division_less_than_divisor, lemma_div_pos_is_pos,
};
verus! {

/// Two linear indices lie in the same row.
pub open spec fn same_row(a: int, b: int) -> bool {
    a / 9 == b / 9
}

/// Two linear indices lie in the same column.
pub open spec fn same_col(a: int, b: int) -> bool {
    a % 9 == b % 9
}

/// The linear index of the top-left corner of the 3x3 box holding `a`.
pub open spec fn box_base(a: int) -> int {
    27 * ((a / 9) / 3) + 3 * ((a % 9) / 3)
}

/// Two linear indices lie in the same 3x3 box.
pub open spec fn same_box(a: int, b: int) -> bool {
    box_base(a) == box_base(b)
}

/// Two indices share a constraint group: row, column or box.
pub open spec fn is_peer(a: int, b: int) -> bool {
    same_row(a, b) || same_col(a, b) || same_box(a, b)
}

/// The `k`-th index (ascending) of the row through `idx`.
pub open spec fn row_elem(idx: int, k: int) -> int {
    9 * (idx / 9) + k
}

/// The `k`-th index (ascending) of the column through `idx`.
pub open spec fn col_elem(idx: int, k: int) -> int {
    idx % 9 + 9 * k
}

/// The `k`-th index (ascending) of the box holding `idx`.
pub open spec fn box_elem(idx: int, k: int) -> int {
    box_base(idx) + 9 * (k / 3) + k % 3
}

/// Division and remainder of a valid index by 9 are bounded.
proof fn lemma_idx_bounds(idx: int)
    requires
        0 <= idx < 81,
    ensures
        0 <= idx / 9 <= 8,
        0 <= idx % 9 <= 8,
{
    lemma_fundamental_div_mod(idx, 9);
    lemma_mod_division_less_than_divisor(idx, 9);
    lemma_div_pos_is_pos(idx, 9);
}

/// The row elements are valid indices of the same row.
proof fn lemma_row_elem(idx: int, k: int)
    requires
        0 <= idx < 81,
        0 <= k < 9,
    ensures
        0 <= row_elem(idx, k) < 81,
        same_row(row_elem(idx, k), idx),
{
    lemma_idx_bounds(idx);
    lemma_fundamental_div_mod_converse(row_elem(idx, k), 9, idx / 9, k);
}

/// Every index of the row through `idx` is one of its row elements.
proof fn lemma_row_complete(idx: int, j: int)
    requires
        0 <= idx < 81,
        0 <= j < 81,
        same_row(j, idx),
    ensures
        0 <= j % 9 < 9,
        row_elem(idx, j % 9) == j,
{
    lemma_idx_bounds(j);
    lemma_fundamental_div_mod(j, 9);
}

/// The column elements are valid indices of the same column.
proof fn lemma_col_elem(idx: int, k: int)
    requires
        0 <= idx < 81,
        0 <= k < 9,
    ensures
        0 <= col_elem(idx, k) < 81,
        same_col(col_elem(idx, k), idx),
{
    lemma_idx_bounds(idx);
    lemma_fundamental_div_mod_converse(col_elem(idx, k), 9, k, idx % 9);
}

/// Every index of the column through `idx` is one of its column elements.
proof fn lemma_col_complete(idx: int, j: int)
    requires
        0 <= idx < 81,
        0 <= j < 81,
        same_col(j, idx),
    ensures
        0 <= j / 9 < 9,
        col_elem(idx, j / 9) == j,
{
    lemma_idx_bounds(j);
    lemma_fundamental_div_mod(j, 9);
}

/// The box elements are valid indices of the same box.
proof fn lemma_box_elem(idx: int, k: int)
    requires
        0 <= idx < 81,
        0 <= k < 9,
    ensures
        0 <= box_elem(idx, k) < 81,
        same_box(box_elem(idx, k), idx),
{
    lemma_idx_bounds(idx);
    let b = (idx / 9) / 3;
    let c = (idx % 9) / 3;
    lemma_fundamental_div_mod(idx / 9, 3);
    lemma_mod_division_less_than_divisor(idx / 9, 3);
    lemma_div_pos_is_pos(idx / 9, 3);
    lemma_fundamental_div_mod(idx % 9, 3);
    lemma_mod_division_less_than_divisor(idx % 9, 3);
    lemma_div_pos_is_pos(idx % 9, 3);
    let a = k / 3;
    let d = k % 3;
    lemma_fundamental_div_mod(k, 3);
    lemma_mod_division_less_than_divisor(k, 3);
    lemma_div_pos_is_pos(k, 3);
    assert(0 <= a <= 2 && 0 <= d <= 2);
    let e = box_elem(idx, k);
    assert(e == 9 * (3 * b + a) + (3 * c + d));
    lemma_fundamental_div_mod_converse(e, 9, 3 * b + a, 3 * c + d);
    lemma_fundamental_div_mod_converse(3 * b + a, 3, b, a);
    lemma_fundamental_div_mod_converse(3 * c + d, 3, c, d);
}

/// Every index of the box holding `idx` is one of its box elements.
proof fn lemma_box_complete(idx: int, j: int)
    requires
        0 <= idx < 81,
        0 <= j < 81,
        same_box(j, idx),
    ensures
        0 <= 3 * ((j / 9) % 3) + (j % 9) % 3 < 9,
        box_elem(idx, 3 * ((j / 9) % 3) + (j % 9) % 3) == j,
{
    lemma_idx_bounds(j);
    let a = (j / 9) % 3;
    let d = (j % 9) % 3;
    lemma_fundamental_div_mod(j, 9);
    lemma_fundamental_div_mod(j / 9, 3);
    lemma_mod_division_less_than_divisor(j / 9, 3);
    lemma_fundamental_div_mod(j % 9, 3);
    lemma_mod_division_less_than_divisor(j % 9, 3);
    assert(j == box_base(j) + 9 * a + d);
    let k = 3 * a + d;
    lemma_fundamental_div_mod_converse(k, 3, a, d);
}

/// The nine indices of the row through `idx`, ascending.
pub fn row_peers(idx: usize) -> (r: Vec<usize>)
    requires
        idx < 81,
    ensures
        r@.len() == 9,
        forall|k: int| 0 <= k < 9 ==> #[trigger] r@[k] == row_elem(idx as int, k),
        forall|k: int| 0 <= k < 9 ==> #[trigger] r@[k] < 81 && same_row(r@[k] as int, idx as int),
        forall|j: int|
            0 <= j < 81 && same_row(j, idx as int) ==> exists|k: int|
                0 <= k < 9 && #[trigger] r@[k] == j,
{
    proof {
        lemma_idx_bounds(idx as int);
    }
    let base: usize = (idx / 9) * 9;
    let mut r: Vec<usize> = Vec::new();
    let mut k: usize = 0;
    while k < 9
        invariant
            base == 9 * (idx as int / 9),
            base <= 72,
            k <= 9,
            r@.len() == k,
            forall|k2: int| 0 <= k2 < k ==> #[trigger] r@[k2] == row_elem(idx as int, k2),
        decreases 9 - k,
    {
        r.push(base + k);
        k = k + 1;
    }
    proof {
        assert forall|k: int| 0 <= k < 9 implies #[trigger] r@[k] < 81 && same_row(
            r@[k] as int,
            idx as int,
        ) by {
            lemma_row_elem(idx as int, k);
        }
        assert forall|j: int| 0 <= j < 81 && same_row(j, idx as int) implies exists|k: int|
            0 <= k < 9 && #[trigger] r@[k] == j by {
            lemma_row_complete(idx as int, j);
            assert(r@[j % 9] == j);
        }
    }
    r
}

/// The nine indices of the column through `idx`, ascending.
pub fn col_peers(idx: usize) -> (r: Vec<usize>)
    requires
        idx < 81,
    ensures
        r@.len() == 9,
        forall|k: int| 0 <= k < 9 ==> #[trigger] r@[k] == col_elem(idx as int, k),
        forall|k: int| 0 <= k < 9 ==> #[trigger] r@[k] < 81 && same_col(r@[k] as int, idx as int),
        forall|j: int|
            0 <= j < 81 && same_col(j, idx as int) ==> exists|k: int|
                0 <= k < 9 && #[trigger] r@[k] == j,
{
    proof {
        lemma_idx_bounds(idx as int);
    }
    let base: usize = idx % 9;
    let mut r: Vec<usize> = Vec::new();
    let mut k: usize = 0;
    while k < 9
        invariant
            base == idx as int % 9,
            base <= 8,
            k <= 9,
            r@.len() == k,
            forall|k2: int| 0 <= k2 < k ==> #[trigger] r@[k2] == col_elem(idx as int, k2),
        decreases 9 - k,
    {
        r.push(base + 9 * k);
        k = k + 1;
    }
    proof {
        assert forall|k: int| 0 <= k < 9 implies #[trigger] r@[k] < 81 && same_col(
            r@[k] as int,
            idx as int,
        ) by {
            lemma_col_elem(idx as int, k);
        }
        assert forall|j: int| 0 <= j < 81 && same_col(j, idx as int) implies exists|k: int|
            0 <= k < 9 && #[trigger] r@[k] == j by {
            lemma_col_complete(idx as int, j);
            assert(r@[j / 9] == j);
        }
    }
    r
}

/// The nine indices of the 3x3 box holding `idx`, ascending.
pub fn box_peers(idx: usize) -> (r: Vec<usize>)
    requires
        idx < 81,
    ensures
        r@.len() == 9,
        forall|k: int| 0 <= k < 9 ==> #[trigger] r@[k] == box_elem(idx as int, k),
        forall|k: int| 0 <= k < 9 ==> #[trigger] r@[k] < 81 && same_box(r@[k] as int, idx as int),
        forall|j: int|
            0 <= j < 81 && same_box(j, idx as int) ==> exists|k: int|
                0 <= k < 9 && #[trigger] r@[k] == j,
{
    proof {
        lemma_idx_bounds(idx as int);
    }
    let base: usize = 27 * ((idx / 9) / 3) + 3 * ((idx % 9) / 3);
    proof {
        assert(base == box_base(idx as int));
    }
    let mut r: Vec<usize> = Vec::new();
    let mut k: usize = 0;
    while k < 9
        invariant
            base == box_base(idx as int),
            0 <= base <= 60,
            k <= 9,
            r@.len() == k,
            forall|k2: int| 0 <= k2 < k ==> #[trigger] r@[k2] == box_elem(idx as int, k2),
        decreases 9 - k,
    {
        proof {
            lemma_box_elem(idx as int, k as int);
        }
        r.push(base + 9 * (k / 3) + k % 3);
        k = k + 1;
    }
    proof {
        assert forall|k: int| 0 <= k < 9 implies #[trigger] r@[k] < 81 && same_box(
            r@[k] as int,
            idx as int,
        ) by {
            lemma_box_elem(idx as int, k);
        }
        assert forall|j: int| 0 <= j < 81 && same_box(j, idx as int) implies exists|k: int|
            0 <= k < 9 && #[trigger] r@[k] == j by {
            lemma_box_complete(idx as int, j);
            assert(r@[3 * ((j / 9) % 3) + (j % 9) % 3] == j);
        }
    }
    r
}

/// The set of indices sharing the row of `idx`.
pub open spec fn row_set(idx: int) -> Set<int> {
    Set::new(|j: int| 0 <= j < 81 && same_row(j, idx))
}

/// The set of indices sharing the column of `idx`.
pub open spec fn col_set(idx: int) -> Set<int> {
    Set::new(|j: int| 0 <= j < 81 && same_col(j, idx))
}

/// The set of indices sharing the box of `idx`.
pub open spec fn box_set(idx: int) -> Set<int> {
    Set::new(|j: int| 0 <= j < 81 && same_box(j, idx))
}

/// Two distinct positions within a box have distinct box elements.
proof fn lemma_box_elem_distinct(idx: int, k1: int, k2: int)
    requires
        0 <= idx < 81,
        0 <= k1 < k2 < 9,
    ensures
        box_elem(idx, k1) < box_elem(idx, k2),
{
    lemma_fundamental_div_mod(k1, 3);
    lemma_mod_division_less_than_divisor(k1, 3);
    lemma_div_pos_is_pos(k1, 3);
    lemma_fundamental_div_mod(k2, 3);
    lemma_mod_division_less_than_divisor(k2, 3);
    lemma_div_pos_is_pos(k2, 3);
    vstd::arithmetic::div_mod::lemma_div_is_ordered(k1, k2, 3);
}

/// Law: each of the three peer groups of a valid index has exactly nine
/// members and contains the index itself.
pub proof fn lemma_peer_group_sizes(idx: int)
    requires
        0 <= idx < 81,
    ensures
        row_set(idx).finite() && row_set(idx).len() == 9 && row_set(idx).contains(idx),
        col_set(idx).finite() && col_set(idx).len() == 9 && col_set(idx).contains(idx),
        box_set(idx).finite() && box_set(idx).len() == 9 && box_set(idx).contains(idx),
{
    let qr = Seq::new(9, |k: int| row_elem(idx, k));
    assert forall|i: int, j: int| 0 <= i < qr.len() && 0 <= j < qr.len() && i != j implies qr[i]
        != qr[j] by {}
    assert(qr.no_duplicates());
    qr.unique_seq_to_set();
    assert forall|j: int| row_set(idx).contains(j) implies qr.to_set().contains(j) by {
        lemma_row_complete(idx, j);
        assert(qr[j % 9] == j);
    }
    assert forall|j: int| qr.to_set().contains(j) implies row_set(idx).contains(j) by {
        let k = choose|k: int| 0 <= k < 9 && qr[k] == j;
        lemma_row_elem(idx, k);
    }
    assert(qr.to_set() =~= row_set(idx));

    let qc = Seq::new(9, |k: int| col_elem(idx, k));
    assert forall|i: int, j: int| 0 <= i < qc.len() && 0 <= j < qc.len() && i != j implies qc[i]
        != qc[j] by {}
    assert(qc.no_duplicates());
    qc.unique_seq_to_set();
    assert forall|j: int| col_set(idx).contains(j) implies qc.to_set().contains(j) by {
        lemma_col_complete(idx, j);
        assert(qc[j / 9] == j);
    }
    assert forall|j: int| qc.to_set().contains(j) implies col_set(idx).contains(j) by {
        let k = choose|k: int| 0 <= k < 9 && qc[k] == j;
        lemma_col_elem(idx, k);
    }
    assert(qc.to_set() =~= col_set(idx));

    let qb = Seq::new(9, |k: int| box_elem(idx, k));
    assert forall|i: int, j: int| 0 <= i < qb.len() && 0 <= j < qb.len() && i != j implies qb[i]
        != qb[j] by {
        if i < j {
            lemma_box_elem_distinct(idx, i, j);
        } else {
            lemma_box_elem_distinct(idx, j, i);
        }
    }
    assert(qb.no_duplicates());
    qb.unique_seq_to_set();
    assert forall|j: int| box_set(idx).contains(j) implies qb.to_set().contains(j) by {
        lemma_box_complete(idx, j);
        assert(qb[3 * ((j / 9) % 3) + (j % 9) % 3] == j);
    }
    assert forall|j: int| qb.to_set().contains(j) implies box_set(idx).contains(j) by {
        let k = choose|k: int| 0 <= k < 9 && qb[k] == j;
        lemma_box_elem(idx, k);
    }
    assert(qb.to_set() =~= box_set(idx));
}

} // verus!
