//! Lock and key silhouettes: a key fits a lock when, in each of the five
//! columns, the two pin heights together leave the available space of five.

use vstd::prelude::*;

verus! {

/// Whether the key's pins clear the lock's pins in every column.
pub open spec fn fits(lock: Seq<u8>, key: Seq<u8>) -> bool {
    forall|i: int| 0 <= i < 5 ==> lock[i] + key[i] < 6
}

/// Whether a lock and a key fit together: no column's combined pin heights
/// reach six.
pub fn does_lock_fit_key(lock: [u8; 5], key: [u8; 5]) -> (r: bool)
    ensures
        r == fits(lock@, key@),
{
    let mut i: usize = 0;
    while i < 5
        invariant
            0 <= i <= 5,
            forall|j: int| 0 <= j < i ==> lock@[j] + key@[j] < 6,
        decreases 5 - i,
    {
        if lock[i] as u32 + key[i] as u32 >= 6 {
            return false;
        }
        i = i + 1;
    }
    true
}

/// The number of lock/key pairs, among those at `(i, j)` and after in
/// lexicographic order, that fit together.
pub open spec fn fit_count_from(locks: Seq<Seq<u8>>, keys: Seq<Seq<u8>>, i: int, j: int) -> nat
    decreases locks.len() - i, keys.len() - j
        when 0 <= i && 0 <= j <= keys.len()
{
    if i >= locks.len() {
        0
    } else if j >= keys.len() {
        fit_count_from(locks, keys, i + 1, 0)
    } else {
        (if fits(locks[i], keys[j]) {
            1nat
        } else {
            0nat
        }) + fit_count_from(locks, keys, i, j + 1)
    }
}

/// Counts how many of the lock/key pairs fit together.
pub fn count_fitting_pairs(locks: &Vec<[u8; 5]>, keys: &Vec<[u8; 5]>) -> (r: usize)
    requires
        locks@.len() * keys@.len() <= usize::MAX,
    ensures
        r == fit_count_from(
            locks@.map_values(|a: [u8; 5]| a@),
            keys@.map_values(|a: [u8; 5]| a@),
            0,
            0,
        ),
{
    let ghost ls = locks@.map_values(|a: [u8; 5]| a@);
    let ghost ks = keys@.map_values(|a: [u8; 5]| a@);
    let mut count: usize = 0;
    let mut i: usize = 0;
    while i < locks.len()
        invariant
            ls == locks@.map_values(|a: [u8; 5]| a@),
            ks == keys@.map_values(|a: [u8; 5]| a@),
            ls.len() * ks.len() <= usize::MAX,
            0 <= i <= ls.len(),
            count <= i * ks.len(),
            count + fit_count_from(ls, ks, i as int, 0) == fit_count_from(ls, ks, 0, 0),
        decreases ls.len() - i,
    {
        let mut j: usize = 0;
        while j < keys.len()
            invariant
                ls == locks@.map_values(|a: [u8; 5]| a@),
                ks == keys@.map_values(|a: [u8; 5]| a@),
                ls.len() * ks.len() <= usize::MAX,
                0 <= i < ls.len(),
                0 <= j <= ks.len(),
                count <= i * ks.len() + j,
                count + fit_count_from(ls, ks, i as int, j as int) == fit_count_from(ls, ks, 0, 0),
            decreases ks.len() - j,
        {
            proof {
                crate::grid::lemma_row_major_mono(ks.len() as int, i as int, j as int, ls.len() as int);
            }
            if does_lock_fit_key(locks[i], keys[j]) {
                count = count + 1;
            }
            j = j + 1;
        }
        i = i + 1;
        proof {
            assert(i * ks.len() == (i - 1) * ks.len() + ks.len()) by (nonlinear_arith);
        }
    }
    count
}

} // verus!
