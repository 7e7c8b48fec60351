//! Lexicographic key order: comparison, validation and sorting of
//! dictionary keys.

use vstd::prelude::*;
use crate::error::RcoError;
use crate::bencode::model::{lex_lt, key_fault, key_fault_from};
use crate::bencode::lemmas::lemma_lex_trichotomy;

verus! {

/// Outcome of comparing two byte strings.
pub enum LexOrder {
    Less,
    Equal,
    Greater,
}

/// Three-way byte-wise lexicographic comparison.
pub fn lex_compare(a: &[u8], b: &[u8]) -> (r: LexOrder)
    ensures
        r is Less <==> lex_lt(a@, b@),
        r is Equal <==> a@ == b@,
        r is Greater <==> lex_lt(b@, a@),
{
    let mut i: usize = 0;
    assert(a@.skip(0) == a@);
    assert(b@.skip(0) == b@);
    while i < a.len() && i < b.len() && a[i] == b[i]
        invariant
            i <= a@.len(),
            i <= b@.len(),
            a@.subrange(0, i as int) == b@.subrange(0, i as int),
            lex_lt(a@, b@) == lex_lt(a@.skip(i as int), b@.skip(i as int)),
            lex_lt(b@, a@) == lex_lt(b@.skip(i as int), a@.skip(i as int)),
        decreases a.len() - i,
    {
        assert(a@.skip(i as int).drop_first() == a@.skip(i + 1));
        assert(b@.skip(i as int).drop_first() == b@.skip(i + 1));
        assert(a@.subrange(0, i + 1) == a@.subrange(0, i as int).push(a@[i as int]));
        assert(b@.subrange(0, i + 1) == b@.subrange(0, i as int).push(b@[i as int]));
        i = i + 1;
    }
    proof {
        lemma_lex_trichotomy(a@, b@);
    }
    if i < a.len() && i < b.len() {
        if a[i] < b[i] {
            LexOrder::Less
        } else {
            LexOrder::Greater
        }
    } else if i < b.len() {
        assert(a@ == a@.subrange(0, i as int));
        LexOrder::Less
    } else if i < a.len() {
        assert(b@ == b@.subrange(0, i as int));
        LexOrder::Greater
    } else {
        assert(a@ == a@.subrange(0, i as int));
        assert(b@ == b@.subrange(0, i as int));
        LexOrder::Equal
    }
}

/// Whether `a` is strictly less than `b` in byte-wise lexicographic order.
pub fn is_lex_less(a: &[u8], b: &[u8]) -> (r: bool)
    ensures
        r == lex_lt(a@, b@),
{
    match lex_compare(a, b) {
        LexOrder::Less => true,
        _ => false,
    }
}

/// The keys of a slice of key slices, as sequences.
pub open spec fn key_views(keys: Seq<&[u8]>) -> Seq<Seq<u8>> {
    keys.map_values(|k: &[u8]| k@)
}

/// Validates that keys are in strictly ascending order. The first adjacent
/// pair out of order decides the error: equal keys are a duplicate, a
/// descending pair is an order violation.
pub fn validate_key_order(keys: &[&[u8]]) -> (r: Result<(), RcoError>)
    ensures
        r == match key_fault(key_views(keys@)) {
            Some(e) => Err(e),
            None => Ok(()),
        },
{
    let ghost ks = key_views(keys@);
    if keys.len() < 2 {
        return Ok(());
    }
    let mut i: usize = 0;
    while i + 1 < keys.len()
        invariant
            keys@.len() >= 2,
            i + 1 <= keys@.len(),
            ks == key_views(keys@),
            key_fault_from(ks, 0) == key_fault_from(ks, i as int),
        decreases keys.len() - i,
    {
        assert(ks[i as int] == keys@[i as int]@);
        assert(ks[i + 1] == keys@[i + 1]@);
        match lex_compare(keys[i], keys[i + 1]) {
            LexOrder::Less => {},
            LexOrder::Equal => {
                return Err(RcoError::DuplicateKey);
            },
            LexOrder::Greater => {
                proof {
                    lemma_lex_trichotomy(ks[i as int], ks[i + 1]);
                }
                return Err(RcoError::KeyOrderViolation);
            },
        }
        i = i + 1;
    }
    Ok(())
}

/// The keys are in ascending order, equal neighbours allowed.
pub open spec fn keys_ascending<V>(s: Seq<(Vec<u8>, V)>) -> bool {
    forall|k: int| 0 <= k < s.len() - 1 ==> !lex_lt(#[trigger] s[k + 1].0@, s[k].0@)
}

/// `perm` maps each position of `after` to the position of `before` that
/// held the same entry, one to one.
pub open spec fn is_permutation<V>(before: Seq<(Vec<u8>, V)>, after: Seq<(Vec<u8>, V)>, perm: Seq<int>) -> bool {
    &&& perm.len() == after.len() == before.len()
    &&& forall|k: int| 0 <= k < perm.len() ==> 0 <= #[trigger] perm[k] < before.len()
    &&& forall|k: int| 0 <= k < perm.len() ==> after[k] == before[#[trigger] perm[k]]
    &&& forall|k: int, l: int| 0 <= k < l < perm.len() ==> #[trigger] perm[k] != #[trigger] perm[l]
}

/// Entries with equal keys keep their relative order.
pub open spec fn is_stable<V>(after: Seq<(Vec<u8>, V)>, perm: Seq<int>) -> bool {
    forall|k: int, l: int|
        0 <= k < l < after.len() && after[k].0@ == after[l].0@ ==> #[trigger] perm[k] < #[trigger] perm[l]
}

/// Sorts key-value pairs by key, stably: entries with equal keys keep their
/// relative order.
pub fn sort_keys_lexicographic<V>(entries: &mut Vec<(Vec<u8>, V)>)
    ensures
        keys_ascending(final(entries)@),
        exists|perm: Seq<int>| is_permutation(old(entries)@, final(entries)@, perm) && is_stable(final(entries)@, perm),
{
    let ghost orig = entries@;
    let n = entries.len();
    let ghost mut perm: Seq<int> = Seq::new(n as nat, |k: int| k);
    if n < 2 {
        assert(is_permutation(orig, entries@, perm) && is_stable(entries@, perm));
        return;
    }
    let mut i: usize = 1;
    while i < n
        invariant
            1 <= i <= n,
            entries@.len() == n,
            orig.len() == n,
            is_permutation(orig, entries@, perm),
            is_stable(entries@.subrange(0, i as int), perm),
            forall|k: int| i <= k < n ==> #[trigger] perm[k] == k,
            forall|k: int| 0 <= k < i ==> #[trigger] perm[k] < i,
            forall|k: int| 0 <= k < i - 1 ==> !lex_lt(#[trigger] entries@[k + 1].0@, entries@[k].0@),
        decreases n - i,
    {
        let ghost before = entries@;
        let ghost p0 = perm;
        let x = entries.remove(i);
        let ghost removed = entries@;
        let mut j: usize = i;
        while j > 0 && is_lex_less(x.0.as_slice(), entries[j - 1].0.as_slice())
            invariant
                0 <= j <= i,
                i < n,
                entries@ == removed,
                removed.len() == n - 1,
                forall|k: int| j <= k < i ==> lex_lt(x.0@, #[trigger] removed[k].0@),
            decreases j,
        {
            j = j - 1;
        }
        let ghost xv = x;
        entries.insert(j, x);
        proof {
            let p1 = p0.remove(i as int);
            perm = p1.insert(j as int, i as int);
            let after = entries@;
            assert(after =~= removed.insert(j as int, xv));
            assert(removed =~= before.remove(i as int));
            assert(xv == before[i as int]);
            assert(p0[i as int] == i);
            // positions of `after` in terms of `before`
            assert forall|k: int| 0 <= k < n implies
                after[k] == (if k < j { before[k] } else if k == j { before[i as int] } else if k <= i { before[k - 1] } else { before[k] })
                && perm[k] == (if k < j { p0[k] } else if k == j { i as int } else if k <= i { p0[k - 1] } else { p0[k] }) by {
            }
            assert forall|k: int| 0 <= k < perm.len() implies 0 <= #[trigger] perm[k] < orig.len() by {}
            assert forall|k: int| 0 <= k < perm.len() implies after[k] == orig[#[trigger] perm[k]] by {}
            assert forall|k: int, l: int| 0 <= k < l < perm.len() implies #[trigger] perm[k] != #[trigger] perm[l] by {
                let kk = if k < j { k } else if k == j { i as int } else if k <= i { k - 1 } else { k };
                let ll = if l < j { l } else if l == j { i as int } else if l <= i { l - 1 } else { l };
                assert(perm[k] == p0[kk]);
                assert(perm[l] == p0[ll]);
                assert(kk != ll);
                if kk < ll {
                    assert(p0[kk] != p0[ll]);
                } else {
                    assert(p0[ll] != p0[kk]);
                }
            }
            assert(is_permutation(orig, after, perm));
            assert forall|k: int| 0 <= k < i + 1 implies #[trigger] perm[k] < i + 1 by {}
            assert forall|k: int| i + 1 <= k < n implies #[trigger] perm[k] == k by {}
            assert forall|k: int| 0 <= k < i implies !lex_lt(#[trigger] after[k + 1].0@, after[k].0@) by {
                if k + 1 < j {
                    assert(after[k + 1] == before[k + 1] && after[k] == before[k]);
                } else if k + 1 == j {
                    // before[k] is not above x
                    assert(after[k] == before[k]);
                    assert(!lex_lt(xv.0@, removed[k].0@));
                    lemma_lex_trichotomy(xv.0@, before[k].0@);
                } else if k == j {
                    assert(lex_lt(xv.0@, removed[k].0@));
                    lemma_lex_trichotomy(xv.0@, removed[k].0@);
                } else {
                    let m = k - 1;
                    assert(!lex_lt(before[m + 1].0@, before[m].0@));
                    assert(after[k + 1] == before[m + 1] && after[k] == before[m]);
                }
            }
            let sub = after.subrange(0, i + 1);
            assert forall|k: int, l: int|
                0 <= k < l < sub.len() && sub[k].0@ == sub[l].0@ implies #[trigger] perm[k] < #[trigger] perm[l] by {
                let kk = if k < j { k } else if k == j { i as int } else { k - 1 };
                let ll = if l < j { l } else if l == j { i as int } else { l - 1 };
                assert(sub[k] == after[k] && sub[l] == after[l]);
                if k != j && l != j {
                    assert(before.subrange(0, i as int)[kk] == before[kk]);
                    assert(before.subrange(0, i as int)[ll] == before[ll]);
                } else if l == j {
                    assert(perm[k] < i);
                } else {
                    // k == j: everything after x up to i is strictly above it
                    assert(lex_lt(xv.0@, removed[l - 1].0@));
                    lemma_lex_trichotomy(xv.0@, removed[l - 1].0@);
                }
            }
        }
        i = i + 1;
    }
    assert(entries@.subrange(0, n as int) =~= entries@);
    assert(is_permutation(orig, entries@, perm) && is_stable(entries@, perm));
}

} // verus!
