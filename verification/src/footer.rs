//! The store-file footer: how a hotcache payload is appended to the end
//! of a split's `.store` file and located again.
//!
//! Layout, at the end of the file:
//! ```text
//! [... original store bytes ...][payload][8-byte little-endian u64 N]
//! N = payload length + 8
//! ```
//! Reading back: take the last 8 bytes as `N`, require `8 <= N <= file
//! size`, and the payload is the `N - 8` bytes just before the trailer.
//! `lemma_footer_round_trip` proves that extraction inverts embedding.

use crate::codec::{dec_u64, enc_u64, lemma_subrange_of_concat, spec_enc_u64};
use crate::error::SplitsError;
use vstd::bytes::{lemma_auto_spec_u64_to_from_le_bytes, spec_u64_from_le_bytes};
use vstd::prelude::*;
use vstd::slice::{slice_subrange, slice_to_vec};
use vstd::string::StringExecFns;

verus! {

/// A store file after the footer is appended.
pub open spec fn spec_footer(store: Seq<u8>, payload: Seq<u8>) -> Seq<u8> {
    store + payload + spec_enc_u64((payload.len() + 8) as u64)
}

/// The payload a file's footer holds, or `None` when the file has no
/// valid footer.
pub open spec fn spec_extract_footer(f: Seq<u8>) -> Option<Seq<u8>> {
    if f.len() < 8 {
        None
    } else {
        let n = spec_u64_from_le_bytes(f.subrange(f.len() - 8, f.len() as int));
        if 8 <= n && n <= f.len() {
            Some(f.subrange(f.len() - n, f.len() - 8))
        } else {
            None
        }
    }
}

/// Appends `payload` and the length trailer to `store`, returning the
/// byte offsets `(start, end)` at which the payload now lies.
pub fn embed_footer(store: &mut Vec<u8>, payload: &Vec<u8>) -> (r: (u64, u64))
    requires
        old(store)@.len() + payload@.len() + 8 <= u64::MAX,
    ensures
        final(store)@ == spec_footer(old(store)@, payload@),
        r.0 == old(store)@.len(),
        r.1 == old(store)@.len() + payload@.len(),
{
    let start = store.len() as u64;
    store.extend_from_slice(payload.as_slice());
    let end = store.len() as u64;
    enc_u64(store, payload.len() as u64 + 8);
    (start, end)
}

/// Reads the footer of a store-file image back out, per the layout above.
/// Fails with `InvalidSplit` exactly when the file is shorter than a
/// trailer or the trailer's length field is out of bounds.
pub fn extract_footer(f: &[u8]) -> (r: Result<Vec<u8>, SplitsError>)
    ensures
        match spec_extract_footer(f@) {
            Some(p) => r matches Ok(v) && v@ == p,
            None => r matches Err(SplitsError::InvalidSplit(_)),
        },
{
    if f.len() < 8 {
        return Err(
            SplitsError::InvalidSplit(
                String::from_str("store file too small to hold a hotcache footer"),
            ),
        );
    }
    let (n, _) = match dec_u64(f, f.len() - 8) {
        None => {
            return Err(SplitsError::InvalidSplit(String::from_str("unreadable footer length")));
        },
        Some(p) => p,
    };
    if n < 8 || n > f.len() as u64 {
        return Err(
            SplitsError::InvalidSplit(String::from_str("footer length out of bounds")),
        );
    }
    let start = f.len() - (n as usize);
    let payload = slice_to_vec(slice_subrange(f, start, f.len() - 8));
    Ok(payload)
}

/// Round trip of the footer layout: embedding a payload into any store
/// file and extracting it again yields the payload unchanged.
pub proof fn lemma_footer_round_trip(store: Seq<u8>, payload: Seq<u8>)
    requires
        store.len() + payload.len() + 8 <= u64::MAX,
    ensures
        spec_extract_footer(spec_footer(store, payload)) == Some(payload),
{
    lemma_auto_spec_u64_to_from_le_bytes();
    let trailer = spec_enc_u64((payload.len() + 8) as u64);
    assert(trailer.len() == 8);
    let f = spec_footer(store, payload);
    assert(f.subrange(0, f.len() as int) =~= f);
    lemma_subrange_of_concat(f, 0, store + payload, trailer);
    lemma_subrange_of_concat(f, 0, store, payload);
    assert(f.subrange(f.len() - 8, f.len() as int) == trailer);
}

} // verus!
