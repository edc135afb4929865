use vstd::prelude::*;
use crate::layout::{encoded_len, encoding_of, fits_count, DynError, KeyElement};
use crate::resize::{charged, mutated, other_than, reconciled, resized, size_change, Slot};

verus! {

/// Growing the empty record to `ks`: the slot ends at exactly the length of
/// `ks`'s encoding, the payer pays, and the slot receives, exactly the rent of
/// the added key bytes; this succeeds exactly when the count fits, the slot may
/// grow that far and the payer can cover the rent.
pub proof fn lemma_grow_from_empty<F: Fn(usize) -> u64>(
    min_balance: F,
    before: Slot,
    payer: u64,
    ks: Seq<KeyElement>,
    required: u64,
    after: Slot,
    payer_after: u64,
    r: Result<(), DynError>,
)
    requires
        before.data@ == encoding_of(Seq::<KeyElement>::empty()),
        ks.len() > 0,
        charged(min_balance, before, ks, required),
        reconciled(before, payer, ks, required, after, payer_after, r),
    ensures
        r is Ok <==> fits_count(ks) && encoded_len(ks.len()) <= before.max_len && required <= payer,
        r is Ok ==> {
            &&& after.data@.len() == encoded_len(ks.len())
            &&& after.data@ == encoding_of(ks)
            &&& min_balance.ensures(((32 * ks.len()) as usize,), required)
            &&& payer_after == payer - required
            &&& after.lamports == before.lamports + required
        },
{
    assert(before.data@.len() == 4);
    assert(size_change(4, ks.len()) == 32 * ks.len());
}

/// Shrinking a stored record of N keys to `ks` of M < N keys: the slot ends at
/// exactly the length of `ks`'s encoding, the slot gives back, and the payer
/// receives, exactly the rent of the removed key bytes; this succeeds exactly
/// when the slot's balance covers that rent.
pub proof fn lemma_shrink<F: Fn(usize) -> u64>(
    min_balance: F,
    before: Slot,
    payer: u64,
    ks_before: Seq<KeyElement>,
    ks: Seq<KeyElement>,
    required: u64,
    after: Slot,
    payer_after: u64,
    r: Result<(), DynError>,
)
    requires
        fits_count(ks_before),
        before.data@ == encoding_of(ks_before),
        ks.len() < ks_before.len(),
        charged(min_balance, before, ks, required),
        reconciled(before, payer, ks, required, after, payer_after, r),
    ensures
        r is Ok <==> required <= before.lamports,
        r is Ok ==> {
            &&& after.data@.len() == encoded_len(ks.len())
            &&& after.data@ == encoding_of(ks)
            &&& min_balance.ensures(((32 * (ks_before.len() - ks.len())) as usize,), required)
            &&& after.lamports == before.lamports - required
            &&& payer_after == payer + required
        },
{
    assert(before.data@.len() == encoded_len(ks_before.len()));
    assert(size_change(before.data@.len(), ks.len()) == 32 * (ks_before.len() - ks.len()));
}

proof fn lemma_filter_keeps_all(ks: Seq<KeyElement>, key: KeyElement)
    requires
        !ks.contains(key),
    ensures
        ks.filter(other_than(key)) == ks,
    decreases ks.len(),
{
    reveal(Seq::filter);
    if ks.len() > 0 {
        let rest = ks.drop_last();
        assert(!rest.contains(key)) by {
            if rest.contains(key) {
                let i = choose|i: int| 0 <= i < rest.len() && rest[i] == key;
                assert(ks[i] == key);
            }
        }
        lemma_filter_keeps_all(rest, key);
        assert(ks[ks.len() - 1] != key);
        assert(rest.push(ks.last()) =~= ks);
    }
}

/// Removing a key that the stored record does not hold changes nothing: the
/// update succeeds, the bytes are rewritten as they were, and neither balance
/// moves.
pub proof fn lemma_remove_absent_is_noop(
    before: Slot,
    payer: u64,
    ks: Seq<KeyElement>,
    key: KeyElement,
    required: u64,
    after: Slot,
    payer_after: u64,
    r: Result<(), DynError>,
)
    requires
        fits_count(ks),
        before.data@ == encoding_of(ks),
        !ks.contains(key),
        reconciled(before, payer, mutated(ks, false, key), required, after, payer_after, r),
    ensures
        r is Ok,
        after.data@ == before.data@,
        after.lamports == before.lamports,
        payer_after == payer,
{
    lemma_filter_keeps_all(ks, key);
}

/// Growth that the payer cannot fund fails with `InsufficientFunds`: the slot
/// is left at the new length with its former bytes in front and zero bytes
/// after them, and neither balance moves.
pub proof fn lemma_unfunded_growth(
    before: Slot,
    payer: u64,
    ks_before: Seq<KeyElement>,
    ks: Seq<KeyElement>,
    required: u64,
    after: Slot,
    payer_after: u64,
    r: Result<(), DynError>,
)
    requires
        fits_count(ks_before),
        fits_count(ks),
        before.data@ == encoding_of(ks_before),
        ks.len() > ks_before.len(),
        encoded_len(ks.len()) <= before.max_len,
        required > payer,
        reconciled(before, payer, ks, required, after, payer_after, r),
    ensures
        r == Err::<(), DynError>(DynError::InsufficientFunds),
        after.data@.len() == encoded_len(ks.len()),
        after.data@.subrange(0, before.data@.len() as int) == before.data@,
        forall|i: int| before.data@.len() <= i < after.data@.len() ==> after.data@[i] == 0u8,
        after.lamports == before.lamports,
        payer_after == payer,
{
    let old_len = before.data@.len();
    let new_len = encoded_len(ks.len());
    assert(old_len == encoded_len(ks_before.len()));
    assert(after.data@ == resized(before.data@, new_len));
    assert(after.data@.subrange(0, old_len as int) =~= before.data@);
}

} // verus!
