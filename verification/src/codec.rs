use vstd::prelude::*;
use vstd::utf8::{decode_utf8, valid_utf8};
use crate::frame::length_prefix_in_bounds;
use crate::numerals::{accepts_txid, base36_text, be_value};

verus! {

/// The transaction id (a 32-byte hash) of the snap-coin crate; handled opaquely.
#[verifier::external_type_specification]
#[verifier::external_body]
pub struct ExHash(snap_coin::crypto::Hash);

/// Calls `String::from_utf8` (std). As std documents, it succeeds exactly when the
/// bytes are valid UTF-8, and the text it returns is what those bytes encode.
#[verifier::external_body]
pub(crate) fn utf8_text(bytes: &[u8]) -> (r: Option<String>)
    ensures
        r is Some <==> valid_utf8(bytes@),
        r matches Some(s) ==> s@ == decode_utf8(bytes@),
{
    String::from_utf8(bytes.to_vec()).ok()
}

/// Calls `snap_coin::core::transaction::TransactionId::new_from_base36`, that is
/// `snap_coin::crypto::Hash::new_from_base36`. Claimed: it returns a hash exactly when
/// the string is an optional `+` and a non-empty base-36 numeral (digits of either case,
/// `_` separators, not leading with `_`) whose value fits in 32 bytes (`accepts_txid`),
/// as `num_bigint::BigUint::parse_bytes` and the length test of that function show.
/// The hash returned is not described.
#[verifier::external_body]
pub(crate) fn parse_txid(s: &str) -> (r: Option<snap_coin::crypto::Hash>)
    ensures
        r is Some <==> accepts_txid(s@),
{
    snap_coin::core::transaction::TransactionId::new_from_base36(s)
}

/// What `bincode::decode_from_slice` gives for a list of optional
/// `snap_coin::core::transaction::TransactionOutput` under `bincode::config::standard()`:
/// `None` where decoding fails, else each slot as `None` (spent) or the output's amount
/// and the 32 bytes of its receiver's public key.
pub uninterp spec fn bincode_outputs(bytes: Seq<u8>) -> Option<Seq<Option<(u64, Seq<u8>)>>>;

/// The decoded slots with each receiver key taken by its bytes.
pub open spec fn raw_slots_view(v: Seq<Option<(u64, [u8; 32])>>) -> Seq<Option<(u64, Seq<u8>)>> {
    v.map_values(
        |o: Option<(u64, [u8; 32])>|
            match o {
                Some(p) => Some((p.0, p.1@)),
                None => None,
            },
    )
}

/// Calls `bincode::decode_from_slice::<Vec<Option<TransactionOutput>>, _>` with the
/// standard configuration and converts each output to its amount and the bytes of its
/// receiver (`Public::dump_buf`). Claimed: the result is `bincode_outputs` of the bytes;
/// bytes after the encoded list are ignored. `requires` keeps out declared lengths for
/// which the decoder's up-front `Vec::with_capacity` would panic. Left unsaid: the
/// process may still abort if the allocator cannot provide that room.
#[verifier::external_body]
pub(crate) fn decode_outputs(bytes: &[u8]) -> (r: Option<Vec<Option<(u64, [u8; 32])>>>)
    requires
        length_prefix_in_bounds(bytes@),
    ensures
        match r {
            Some(v) => bincode_outputs(bytes@) == Some(raw_slots_view(v@)),
            None => bincode_outputs(bytes@) is None,
        },
{
    match bincode::decode_from_slice::<Vec<Option<snap_coin::core::transaction::TransactionOutput>>, _>(
        bytes,
        bincode::config::standard(),
    ) {
        Ok((outputs, _)) => Some(
            outputs.into_iter().map(|o| o.map(|t| (t.amount, *t.receiver.dump_buf()))).collect(),
        ),
        Err(_) => None,
    }
}

/// Calls `snap_coin::crypto::keys::Public::dump_base36` on the key with these bytes
/// (`Public::new_from_buf`). Claimed, as `num_bigint::BigUint::to_str_radix(36)` shows:
/// the lower-case base-36 numeral of the bytes read big-endian, without leading zeros.
#[verifier::external_body]
pub(crate) fn receiver_base36(key: &[u8; 32]) -> (r: String)
    ensures
        r@ == base36_text(be_value(key@)),
{
    snap_coin::crypto::keys::Public::new_from_buf(key).dump_base36()
}

} // verus!
