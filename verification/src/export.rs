//! Serialization of result sets to JSON bytes. The nested-integer
//! structures are built by verified code in `ring` and `tile`; only the
//! final byte encoding is delegated to serde_json.

use vstd::prelude::*;

verus! {

/// The JSON encoding of a sequence of flat integer rows.
pub uninterp spec fn json_ring_bytes(rows: Seq<Seq<u8>>) -> Seq<u8>;

/// The JSON encoding of a sequence of integer grids.
pub uninterp spec fn json_grid_bytes(grids: Seq<Seq<Seq<u8>>>) -> Seq<u8>;

/// Relies on serde_json::to_vec: serializing nested integer vectors is a
/// pure function of the values alone, and cannot fail for this type.
#[verifier::external_body]
pub(crate) fn ring_rows_to_json(rows: &Vec<Vec<u8>>) -> (r: Vec<u8>)
    ensures
        r@ == json_ring_bytes(rows.deep_view()),
{
    match serde_json::to_vec(rows) {
        Ok(v) => v,
        Err(_) => Vec::new(),
    }
}

/// Relies on serde_json::to_vec: serializing nested integer vectors is a
/// pure function of the values alone, and cannot fail for this type.
#[verifier::external_body]
pub(crate) fn grid_rows_to_json(grids: &Vec<Vec<Vec<u8>>>) -> (r: Vec<u8>)
    ensures
        r@ == json_grid_bytes(grids.deep_view()),
{
    match serde_json::to_vec(grids) {
        Ok(v) => v,
        Err(_) => Vec::new(),
    }
}

} // verus!
