use vstd::prelude::*;
use crate::layout::{
    decoded, encoded_len, encoding_of, fits_count, keys_bytes, layout_ok, lemma_decode_encode,
    DynError, DynamicState, KeyElement,
};

verus! {

/// The storage that holds the encoded record: its bytes, the balance that
/// funds it, and the largest length that the environment lets it reach.
#[derive(Clone, Debug)]
pub struct Slot {
    pub data: Vec<u8>,
    pub lamports: u64,
    pub max_len: usize,
}

/// `data` cut down, or padded with zero bytes, to `len` bytes.
pub open spec fn resized(data: Seq<u8>, len: nat) -> Seq<u8> {
    if len <= data.len() {
        data.subrange(0, len as int)
    } else {
        data + Seq::new((len - data.len()) as nat, |i: int| 0u8)
    }
}

/// The keys after one update: `key` appended, or every copy of it removed.
pub open spec fn mutated(ks: Seq<KeyElement>, add: bool, key: KeyElement) -> Seq<KeyElement> {
    if add {
        ks.push(key)
    } else {
        ks.filter(other_than(key))
    }
}

/// Holds of every key but `key`.
pub open spec fn other_than(key: KeyElement) -> spec_fn(KeyElement) -> bool {
    |k: KeyElement| k != key
}

/// How many bytes the slot grows or shrinks by to hold `n` keys.
pub open spec fn size_change(cur: nat, n: nat) -> nat {
    if encoded_len(n) >= cur {
        (encoded_len(n) - cur) as nat
    } else {
        (cur - encoded_len(n)) as nat
    }
}

/// The outcome of bringing `before` (and the payer's balance `payer`) in line
/// with the keys `ks`, where `required` is the rent of the size change.
pub open spec fn reconciled(
    before: Slot,
    payer: u64,
    ks: Seq<KeyElement>,
    required: u64,
    after: Slot,
    payer_after: u64,
    r: Result<(), DynError>,
) -> bool {
    let cur = before.data@.len();
    let new_len = encoded_len(ks.len());
    let grows = new_len > cur;
    let shrinks = new_len < cur;
    &&& after.max_len == before.max_len
    &&& if !fits_count(ks) || (grows && new_len > before.max_len) {
        &&& r == Err::<(), DynError>(DynError::CapacityExceeded)
        &&& after.data@ == before.data@
        &&& after.lamports == before.lamports
        &&& payer_after == payer
    } else if (grows && required > payer) || (shrinks && required > before.lamports) {
        &&& r == Err::<(), DynError>(DynError::InsufficientFunds)
        &&& after.data@ == resized(before.data@, new_len)
        &&& after.lamports == before.lamports
        &&& payer_after == payer
    } else {
        &&& r is Ok
        &&& after.data@ == encoding_of(ks)
        &&& grows ==> after.lamports == before.lamports + required && payer_after == payer
            - required
        &&& shrinks ==> after.lamports == before.lamports - required && payer_after == payer
            + required
        &&& !grows && !shrinks ==> after.lamports == before.lamports && payer_after == payer
    }
}

impl DynamicState {
    /// Writes this record's encoding over the slot's bytes. Fails with
    /// `CapacityExceeded` when the count does not fit 32 bits, and with
    /// `CorruptLayout`, leaving the slot alone, when the slot's length differs
    /// from the encoding's.
    pub fn pack(&self, slot: &mut Slot) -> (r: Result<(), DynError>)
        ensures
            final(slot).lamports == old(slot).lamports,
            final(slot).max_len == old(slot).max_len,
            !fits_count(self.keys@) ==> r == Err::<(), DynError>(DynError::CapacityExceeded)
                && final(slot).data@ == old(slot).data@,
            fits_count(self.keys@) && old(slot).data@.len() != encoded_len(self.keys@.len()) ==> r
                == Err::<(), DynError>(DynError::CorruptLayout) && final(slot).data@ == old(
                slot).data@,
            fits_count(self.keys@) && old(slot).data@.len() == encoded_len(self.keys@.len()) ==> r
                is Ok && final(slot).data@ == encoding_of(self.keys@),
    {
        if self.keys.len() as u64 > 0xffff_ffffu64 {
            return Err(DynError::CapacityExceeded);
        }
        let bytes = self.to_bytes();
        if bytes.len() != slot.data.len() {
            return Err(DynError::CorruptLayout);
        }
        slot.data = bytes;
        Ok(())
    }

    /// Appends `key`; duplicates are kept.
    pub fn add_key(&mut self, key: KeyElement)
        ensures
            final(self).keys@ == mutated(old(self).keys@, true, key),
    {
        self.keys.push(key);
    }

    /// Removes every copy of `key`, keeping the others in order.
    pub fn remove_key(&mut self, key: KeyElement)
        ensures
            final(self).keys@ == mutated(old(self).keys@, false, key),
    {
        let mut kept: Vec<KeyElement> = Vec::new();
        let mut i: usize = 0;
        while i < self.keys.len()
            invariant
                0 <= i <= self.keys@.len(),
                kept@ == self.keys@.subrange(0, i as int).filter(other_than(key)),
            decreases self.keys@.len() - i,
        {
            let k = self.keys[i];
            let ghost s = self.keys@.subrange(0, i + 1);
            proof {
                assert(s.drop_last() =~= self.keys@.subrange(0, i as int));
                assert(s.last() == k);
                assert(other_than(key)(k) == (k != key));
                reveal(Seq::filter);
                assert(s.filter(other_than(key)) == if other_than(key)(k) {
                    s.drop_last().filter(other_than(key)).push(k)
                } else {
                    s.drop_last().filter(other_than(key))
                });
            }
            if !same_key(&k, &key) {
                kept.push(k);
            }
            i = i + 1;
            assert(kept@ == s.filter(other_than(key)));
        }
        assert(self.keys@.subrange(0, i as int) =~= self.keys@);
        self.keys = kept;
    }
}

/// Whether two keys hold the same bytes.
pub fn same_key(a: &KeyElement, b: &KeyElement) -> (r: bool)
    ensures
        r == (*a == *b),
{
    let mut i: usize = 0;
    while i < 32
        invariant
            0 <= i <= 32,
            forall|t: int| 0 <= t < i ==> a.id@[t] == b.id@[t],
        decreases 32 - i,
    {
        if a.id[i] != b.id[i] {
            return false;
        }
        i = i + 1;
    }
    assert(a.id =~= b.id);
    true
}

/// Brings the slot in line with `state`: resizes it to exactly the encoding's
/// length, moves `required` (the rent of the size change) from the payer to the
/// slot on growth or back on shrink, then writes the encoding. A failed transfer
/// leaves the slot resized but its balance, the payer's, and the bytes it kept,
/// untouched.
pub fn reconcile(state: &DynamicState, slot: &mut Slot, payer: &mut u64, required: u64) -> (r:
    Result<(), DynError>)
    requires
        old(slot).lamports + *old(payer) <= u64::MAX,
    ensures
        reconciled(*old(slot), *old(payer), state.keys@, required, *final(slot), *final(payer), r),
{
    let n = state.keys.len();
    if n as u64 > 0xffff_ffffu64 {
        return Err(DynError::CapacityExceeded);
    }
    let cur = slot.data.len();
    let new_len64: u64 = 4 + 32 * (n as u64);
    if new_len64 > cur as u64 && new_len64 > slot.max_len as u64 {
        return Err(DynError::CapacityExceeded);
    }
    let new_len = new_len64 as usize;
    if new_len > cur {
        let ghost before = slot.data@;
        while slot.data.len() < new_len
            invariant
                cur <= slot.data@.len() <= new_len,
                slot.lamports == old(slot).lamports,
                slot.max_len == old(slot).max_len,
                slot.data@.subrange(0, cur as int) == before,
                forall|t: int| cur <= t < slot.data@.len() ==> slot.data@[t] == 0u8,
            decreases new_len - slot.data@.len(),
        {
            slot.data.push(0u8);
            assert(slot.data@.subrange(0, cur as int) =~= before);
        }
        assert(slot.data@ =~= resized(before, new_len as nat));
        if required > *payer {
            return Err(DynError::InsufficientFunds);
        }
        *payer = *payer - required;
        slot.lamports = slot.lamports + required;
    } else if new_len < cur {
        slot.data.truncate(new_len);
        if required > slot.lamports {
            return Err(DynError::InsufficientFunds);
        }
        slot.lamports = slot.lamports - required;
        *payer = *payer + required;
    }
    state.pack(slot)
}

/// Writes the empty record into a freshly allocated slot of four bytes; fails
/// with `CorruptLayout`, leaving the slot alone, on a slot of any other length.
pub fn initialize(slot: &mut Slot) -> (r: Result<(), DynError>)
    ensures
        r is Ok <==> old(slot).data@.len() == 4,
        r is Ok ==> final(slot).data@ == seq![0u8, 0u8, 0u8, 0u8],
        r is Err ==> r == Err::<(), DynError>(DynError::CorruptLayout) && final(slot).data@ == old(
            slot).data@,
        final(slot).lamports == old(slot).lamports,
        final(slot).max_len == old(slot).max_len,
{
    let state = DynamicState::new();
    let r = state.pack(slot);
    proof {
        if r is Ok {
            let z: u32 = 0;
            assert((z & 0xff) as u8 == 0u8 && ((z >> 8u32) & 0xff) as u8 == 0u8 && ((z >> 16u32)
                & 0xff) as u8 == 0u8 && (z >> 24u32) as u8 == 0u8) by (bit_vector)
                requires
                    z == 0,
            ;
            assert(keys_bytes(state.keys@) =~= Seq::<u8>::empty());
            assert(encoding_of(state.keys@) =~= seq![0u8, 0u8, 0u8, 0u8]);
        }
    }
    r
}

/// Whether `required` is what `min_balance` charges for the size change of
/// `before` into the keys `ks`, wherever the change is funded at all.
pub open spec fn charged<F: Fn(usize) -> u64>(
    min_balance: F,
    before: Slot,
    ks: Seq<KeyElement>,
    required: u64,
) -> bool {
    let change = size_change(before.data@.len(), ks.len());
    fits_count(ks) && change > 0 && (encoded_len(ks.len()) < before.data@.len()
        || encoded_len(ks.len()) <= before.max_len) ==> min_balance.ensures((change as usize,), required)
}

/// One update of the stored record: decodes the slot, appends `key` (`add`) or
/// removes every copy of it, and reconciles the slot with the result, charging
/// `min_balance` of the size change. Fails with `CorruptLayout`, touching
/// nothing, when the slot's bytes are not a well-formed record.
pub fn update<F: Fn(usize) -> u64>(
    slot: &mut Slot,
    payer: &mut u64,
    add: bool,
    key: KeyElement,
    min_balance: F,
) -> (r: Result<(), DynError>)
    requires
        old(slot).lamports + *old(payer) <= u64::MAX,
        forall|d: usize| min_balance.requires((d,)),
    ensures
        !layout_ok(old(slot).data@) ==> {
            &&& r == Err::<(), DynError>(DynError::CorruptLayout)
            &&& final(slot).data@ == old(slot).data@
            &&& final(slot).lamports == old(slot).lamports
            &&& final(slot).max_len == old(slot).max_len
            &&& *final(payer) == *old(payer)
        },
        layout_ok(old(slot).data@) ==> exists|required: u64|
            {
                &&& charged(min_balance, *old(slot), mutated(decoded(old(slot).data@), add, key), required)
                &&& #[trigger] reconciled(
                    *old(slot),
                    *old(payer),
                    mutated(decoded(old(slot).data@), add, key),
                    required,
                    *final(slot),
                    *final(payer),
                    r,
                )
            },
{
    let mut state = match DynamicState::unpack(slot.data.as_slice()) {
        Ok(s) => s,
        Err(e) => return Err(e),
    };
    proof {
        lemma_decode_encode(state.keys@);
    }
    if add {
        state.add_key(key);
    } else {
        state.remove_key(key);
    }
    let n = state.keys.len();
    let cur = slot.data.len();
    let mut required: u64 = 0;
    if n as u64 <= 0xffff_ffffu64 {
        let new_len64: u64 = 4 + 32 * (n as u64);
        if new_len64 < cur as u64 || (new_len64 > cur as u64 && new_len64 <= slot.max_len as u64) {
            let change: u64 = if new_len64 > cur as u64 {
                new_len64 - cur as u64
            } else {
                cur as u64 - new_len64
            };
            required = min_balance(change as usize);
        }
    }
    let ghost before = *slot;
    let r = reconcile(&state, slot, payer, required);
    assert(charged(min_balance, before, state.keys@, required));
    r
}

} // verus!
