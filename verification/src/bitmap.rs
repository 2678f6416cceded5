//! Posting sets: compressed sets of series identifiers.
//!
//! The sets are `roaring::RoaringBitmap` values. The contracts in this file
//! are not proved: each states what is taken on trust about that crate.

use roaring::RoaringBitmap;
use vstd::prelude::*;

verus! {

/// `roaring::RoaringBitmap`, a set of `u32` values whose inside is not visible
/// to the verifier.
#[verifier::external_type_specification]
#[verifier::external_body]
pub struct ExRoaringBitmap(roaring::RoaringBitmap);

/// The integers that a bitmap holds.
pub uninterp spec fn members(b: RoaringBitmap) -> Set<u32>;

/// What `RoaringBitmap::deserialize_from` makes of a byte string: the set it
/// encodes, or `None` where it is rejected.
pub uninterp spec fn decoded_members(bytes: Seq<u8>) -> Option<Set<u32>>;

/// `RoaringBitmap::new` creates an empty set.
pub assume_specification[ RoaringBitmap::new ]() -> (b: RoaringBitmap)
    ensures
        members(b) == Set::<u32>::empty(),
;

/// `RoaringBitmap::insert` adds `value` to the set and tells whether it was
/// absent before.
pub assume_specification[ RoaringBitmap::insert ](b: &mut RoaringBitmap, value: u32) -> (added:
    bool)
    ensures
        members(*final(b)) == members(*old(b)).insert(value),
        added == !members(*old(b)).contains(value),
;

/// `RoaringBitmap::len` counts the distinct integers in the set.
pub assume_specification[ RoaringBitmap::len ](b: &RoaringBitmap) -> (n: u64)
    ensures
        n == members(*b).len(),
;

/// `RoaringBitmap::serialize_into`, writing into a fresh vector, which cannot
/// fail. The bytes written are in the standard on-disk format of such
/// bitmaps, so that `RoaringBitmap::deserialize_from` reads the same set back
/// from them.
#[verifier::external_body]
pub(crate) fn to_bytes(b: &RoaringBitmap) -> (bytes: Vec<u8>)
    ensures
        decoded_members(bytes@) == Some(members(*b)),
{
    let mut bytes = Vec::new();
    b.serialize_into(&mut bytes).expect("writing to a vector does not fail");
    bytes
}

/// `RoaringBitmap::deserialize_from`, reading from a byte slice. It checks
/// the bytes and returns the set they encode, or `None` where they are not a
/// valid encoding.
#[verifier::external_body]
pub(crate) fn from_bytes(bytes: &[u8]) -> (r: Option<RoaringBitmap>)
    ensures
        match r {
            Some(b) => decoded_members(bytes@) == Some(members(b)),
            None => decoded_members(bytes@) is None,
        },
{
    RoaringBitmap::deserialize_from(bytes).ok()
}

} // verus!
