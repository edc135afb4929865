use vstd::prelude::*;

verus! {

/// Width in bytes of one stored key.
pub const KEY_SIZE: usize = 32;

/// A fixed-width identifier; equality is byte for byte.
#[derive(Clone, Copy, Debug, PartialEq, Eq)]
pub struct KeyElement {
    pub id: [u8; 32],
}

/// The in-memory record: keys in stored order.
#[derive(Clone, Debug)]
pub struct DynamicState {
    pub keys: Vec<KeyElement>,
}

/// What can go wrong while decoding, resizing or funding the slot.
#[derive(Clone, Copy, Debug, PartialEq, Eq)]
pub enum DynError {
    /// The buffer's length disagrees with its count prefix, or the slot has
    /// the wrong length for the bytes to be written.
    CorruptLayout,
    /// The payer (on growth) or the slot (on shrink) cannot cover the rent.
    InsufficientFunds,
    /// The slot may not grow that far, or the count does not fit 32 bits.
    CapacityExceeded,
}

/// The four little-endian bytes of `n`.
pub open spec fn le_bytes(n: u32) -> Seq<u8> {
    seq![(n & 0xff) as u8, ((n >> 8u32) & 0xff) as u8, ((n >> 16u32) & 0xff) as u8, (n >> 24u32) as u8]
}

/// The count that the first four bytes of `b` hold, read little-endian.
pub open spec fn prefix_of(b: Seq<u8>) -> u32
    recommends
        b.len() >= 4,
{
    (b[0] as u32) | ((b[1] as u32) << 8u32) | ((b[2] as u32) << 16u32) | ((b[3] as u32) << 24u32)
}

/// Length of the buffer that holds `n` keys.
pub open spec fn encoded_len(n: nat) -> nat {
    4 + 32 * n
}

/// The keys' bytes laid end to end.
pub open spec fn keys_bytes(ks: Seq<KeyElement>) -> Seq<u8> {
    Seq::new(32 * ks.len(), |j: int| ks[j / 32].id@[j % 32])
}

/// The buffer that stores `ks`: its count, then each key's bytes in order.
pub open spec fn encoding_of(ks: Seq<KeyElement>) -> Seq<u8> {
    le_bytes(ks.len() as u32) + keys_bytes(ks)
}

/// A buffer whose length is exactly what its count prefix announces.
pub open spec fn layout_ok(b: Seq<u8>) -> bool {
    b.len() >= 4 && b.len() == encoded_len(prefix_of(b) as nat)
}

/// A record that fits the 32-bit count.
pub open spec fn fits_count(ks: Seq<KeyElement>) -> bool {
    ks.len() <= u32::MAX
}

/// The keys that a well-formed buffer stores.
pub open spec fn decoded(b: Seq<u8>) -> Seq<KeyElement> {
    choose|ks: Seq<KeyElement>| fits_count(ks) && encoding_of(ks) == b
}

proof fn lemma_le_bytes_read(b0: u8, b1: u8, b2: u8, b3: u8)
    ensures
        le_bytes(prefix_of(seq![b0, b1, b2, b3])) == seq![b0, b1, b2, b3],
{
    let n = (b0 as u32) | ((b1 as u32) << 8u32) | ((b2 as u32) << 16u32) | ((b3 as u32) << 24u32);
    assert((n & 0xff) as u8 == b0 && ((n >> 8u32) & 0xff) as u8 == b1 && ((n >> 16u32) & 0xff) as u8
        == b2 && (n >> 24u32) as u8 == b3) by (bit_vector)
        requires
            n == (b0 as u32) | ((b1 as u32) << 8u32) | ((b2 as u32) << 16u32) | ((b3 as u32) << 24u32),
    ;
    assert(le_bytes(n) =~= seq![b0, b1, b2, b3]);
}

proof fn lemma_le_bytes_write(n: u32)
    ensures
        prefix_of(le_bytes(n)) == n,
{
    let b = le_bytes(n);
    assert(((n & 0xff) as u8 as u32) | ((((n >> 8u32) & 0xff) as u8 as u32) << 8u32) | ((((n
        >> 16u32) & 0xff) as u8 as u32) << 16u32) | (((n >> 24u32) as u8 as u32) << 24u32) == n)
        by (bit_vector);
}

/// Bytes `0..4` of a buffer are the little-endian form of its prefix.
pub proof fn lemma_prefix_bytes(b: Seq<u8>)
    requires
        b.len() >= 4,
    ensures
        le_bytes(prefix_of(b)) == b.subrange(0, 4),
{
    lemma_le_bytes_read(b[0], b[1], b[2], b[3]);
    assert(b.subrange(0, 4) =~= seq![b[0], b[1], b[2], b[3]]);
}

proof fn lemma_split_index(i: int, k: int)
    requires
        0 <= i,
        0 <= k < 32,
    ensures
        (32 * i + k) / 32 == i,
        (32 * i + k) % 32 == k,
{
    vstd::arithmetic::div_mod::lemma_fundamental_div_mod_converse(32 * i + k, 32, i, k);
}

/// Two records with the same encoding are the same record.
pub proof fn lemma_encoding_injective(ks1: Seq<KeyElement>, ks2: Seq<KeyElement>)
    requires
        fits_count(ks1),
        fits_count(ks2),
        encoding_of(ks1) == encoding_of(ks2),
    ensures
        ks1 == ks2,
{
    let e1 = encoding_of(ks1);
    let e2 = encoding_of(ks2);
    assert(e1.len() == 4 + 32 * ks1.len());
    assert(e2.len() == 4 + 32 * ks2.len());
    assert(ks1.len() == ks2.len());
    assert forall|i: int| 0 <= i < ks1.len() implies ks1[i] == ks2[i] by {
        assert forall|k: int| 0 <= k < 32 implies ks1[i].id[k] == ks2[i].id[k] by {
            lemma_split_index(i, k);
            assert(0 <= 32 * i + k < 32 * ks1.len()) by (nonlinear_arith)
                requires
                    0 <= i < ks1.len(),
                    0 <= k < 32,
            ;
            assert(e1[4 + 32 * i + k] == keys_bytes(ks1)[32 * i + k]);
            assert(e2[4 + 32 * i + k] == keys_bytes(ks2)[32 * i + k]);
        }
        assert(ks1[i].id =~= ks2[i].id);
    }
    assert(ks1 =~= ks2);
}

/// Every record that fits the count encodes to a well-formed buffer, and that
/// buffer decodes to the record again.
pub proof fn lemma_decode_encode(ks: Seq<KeyElement>)
    requires
        fits_count(ks),
    ensures
        layout_ok(encoding_of(ks)),
        encoding_of(ks).len() == encoded_len(ks.len()),
        decoded(encoding_of(ks)) == ks,
{
    let e = encoding_of(ks);
    lemma_le_bytes_write(ks.len() as u32);
    assert(e.subrange(0, 4) == le_bytes(ks.len() as u32));
    assert(prefix_of(e) == prefix_of(le_bytes(ks.len() as u32)));
    let d = decoded(e);
    assert(fits_count(ks) && encoding_of(ks) == e);
    lemma_encoding_injective(d, ks);
}

} // verus!
