use vstd::prelude::*;
use crate::layout::{
    encoded_len, encoding_of, fits_count, keys_bytes, layout_ok, le_bytes, lemma_prefix_bytes,
    prefix_of, DynError, DynamicState, KeyElement,
};

verus! {

#[verifier::external_type_specification]
#[verifier::external_body]
pub struct ExPodCastError(bytemuck::PodCastError);

/// Relies on bytemuck::try_cast_slice from bytes to 32-byte arrays: a byte array
/// needs no alignment, so the cast succeeds exactly when the length is a multiple
/// of 32, and the i-th array is the i-th run of 32 bytes.
#[verifier::external_body]
fn cast_to_ids(b: &[u8]) -> (r: Result<Vec<[u8; 32]>, bytemuck::PodCastError>)
    ensures
        r is Ok <==> b@.len() % 32 == 0,
        r matches Ok(v) ==> {
            &&& v@.len() == b@.len() / 32
            &&& forall|i: int, k: int|
                0 <= i < v@.len() && 0 <= k < 32 ==> #[trigger] v@[i]@[k] == b@[32 * i + k]
        },
{
    bytemuck::try_cast_slice::<u8, [u8; 32]>(b).map(|s| s.to_vec())
}

/// Relies on bytemuck::cast_slice from 32-byte arrays to bytes: the arrays' bytes
/// laid end to end (a cast to bytes never fails).
#[verifier::external_body]
fn ids_as_bytes(ids: &[[u8; 32]]) -> (r: Vec<u8>)
    ensures
        r@.len() == 32 * ids@.len(),
        forall|i: int, k: int|
            0 <= i < ids@.len() && 0 <= k < 32 ==> #[trigger] ids@[i]@[k] == r@[32 * i + k],
{
    bytemuck::cast_slice::<[u8; 32], u8>(ids).to_vec()
}

proof fn lemma_join_index(j: int)
    requires
        0 <= j,
    ensures
        j == 32 * (j / 32) + j % 32,
        0 <= j % 32 < 32,
        0 <= j / 32,
{
    vstd::arithmetic::div_mod::lemma_fundamental_div_mod(j, 32);
}

impl DynamicState {
    /// The empty record.
    pub fn new() -> (r: Self)
        ensures
            r.keys@.len() == 0,
    {
        DynamicState { keys: Vec::new() }
    }

    /// Reads a record from `data`: a little-endian 32-bit count, then that many
    /// keys of 32 bytes. Fails with `CorruptLayout` unless the buffer's length is
    /// exactly what the count announces.
    pub fn unpack(data: &[u8]) -> (r: Result<Self, DynError>)
        ensures
            r is Ok <==> layout_ok(data@),
            r matches Ok(s) ==> fits_count(s.keys@) && encoding_of(s.keys@) == data@,
            r matches Err(e) ==> e == DynError::CorruptLayout,
    {
        if data.len() < 4 {
            return Err(DynError::CorruptLayout);
        }
        let n: u32 = (data[0] as u32) | ((data[1] as u32) << 8u32) | ((data[2] as u32) << 16u32)
            | ((data[3] as u32) << 24u32);
        assert(n == prefix_of(data@));
        let total: u64 = 4 + 32 * (n as u64);
        if data.len() as u64 != total {
            return Err(DynError::CorruptLayout);
        }
        let body = vstd::slice::slice_subrange(data, 4, data.len());
        let ids = match cast_to_ids(body) {
            Ok(v) => v,
            Err(_) => return Err(DynError::CorruptLayout),
        };
        let mut keys: Vec<KeyElement> = Vec::new();
        let mut i: usize = 0;
        while i < ids.len()
            invariant
                0 <= i <= ids@.len(),
                keys@.len() == i,
                forall|t: int| 0 <= t < i ==> #[trigger] keys@[t].id == ids@[t],
            decreases ids@.len() - i,
        {
            keys.push(KeyElement { id: ids[i] });
            i = i + 1;
        }
        proof {
            let ks = keys@;
            assert(ks.len() == n);
            lemma_prefix_bytes(data@);
            assert forall|j: int| 0 <= j < 32 * ks.len() implies #[trigger] keys_bytes(ks)[j]
                == data@[4 + j] by {
                lemma_join_index(j);
                let q = j / 32;
                let k = j % 32;
                assert(q < ks.len()) by (nonlinear_arith)
                    requires
                        j == 32 * q + k,
                        0 <= k < 32,
                        j < 32 * ks.len(),
                ;
                assert(ids@[q]@[k] == body@[32 * q + k]);
            }
            assert(encoding_of(ks) =~= data@);
        }
        Ok(DynamicState { keys })
    }

    /// The buffer that stores this record: the count as four little-endian
    /// bytes, then each key's bytes in order.
    pub fn to_bytes(&self) -> (r: Vec<u8>)
        requires
            fits_count(self.keys@),
        ensures
            r@ == encoding_of(self.keys@),
            r@.len() == encoded_len(self.keys@.len()),
    {
        let n: u32 = self.keys.len() as u32;
        let mut out: Vec<u8> = Vec::new();
        out.push((n & 0xff) as u8);
        out.push(((n >> 8u32) & 0xff) as u8);
        out.push(((n >> 16u32) & 0xff) as u8);
        out.push((n >> 24u32) as u8);
        assert(out@ =~= le_bytes(n));
        let mut ids: Vec<[u8; 32]> = Vec::new();
        let mut i: usize = 0;
        while i < self.keys.len()
            invariant
                0 <= i <= self.keys@.len(),
                ids@.len() == i,
                forall|t: int| 0 <= t < i ==> #[trigger] ids@[t] == self.keys@[t].id,
            decreases self.keys@.len() - i,
        {
            ids.push(self.keys[i].id);
            i = i + 1;
        }
        let body = ids_as_bytes(ids.as_slice());
        out.extend_from_slice(body.as_slice());
        proof {
            let ks = self.keys@;
            assert forall|j: int| 0 <= j < 32 * ks.len() implies #[trigger] keys_bytes(ks)[j]
                == body@[j] by {
                lemma_join_index(j);
                let q = j / 32;
                let k = j % 32;
                assert(q < ks.len()) by (nonlinear_arith)
                    requires
                        j == 32 * q + k,
                        0 <= k < 32,
                        j < 32 * ks.len(),
                ;
                assert(ids@[q]@[k] == body@[32 * q + k]);
            }
            assert(out@ =~= encoding_of(ks));
        }
        out
    }
}

} // verus!
