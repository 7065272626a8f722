//! The perfect index function: an opaque minimal-perfect-hash function built
//! over a fixed key set, consumed through a small trusted surface.
//!
//! The construction algorithm lives in the `ph` crate and is out of scope
//! here; what the rest of the library relies on is stated in the contracts of
//! `build_index` and `query_index`, over the uninterpreted name `slot_of`.

use vstd::prelude::*;
use crate::bytes::key_views;
use ph::BuildSeededHasher;

verus! {

/// A perfect index function over byte keys, built once from a full key set.
/// Holds `ph`'s fingerprint-based minimal perfect hash function; the value is
/// opaque, and everything known about it is said through `slot_of`.
#[verifier::external_body]
pub struct IndexFn {
    inner: ph::fmph::Function,
}

/// The slot that an index function assigns to a key: `None` when the function
/// can produce no index for it. For the keys the function was built over this
/// is always `Some` of a unique in-range slot; for any other key it may be
/// `None` or may alias an in-range slot.
pub uninterp spec fn slot_of(f: IndexFn, key: Seq<u8>) -> Option<usize>;

/// The verification hash of a key: a stable 64-bit keyed hash of the key
/// bytes, the same at build time and at query time.
pub uninterp spec fn hash_of(key: Seq<u8>) -> u64;

/// Whether the index construction succeeds over these keys. The construction
/// is deterministic in the key sequence: the hasher is fixed, each level is
/// seeded with its level number, and level sizes are a function of key
/// counts, so one key sequence either always builds or never does.
pub uninterp spec fn index_builds(ks: Seq<Seq<u8>>) -> bool;

/// Relies on `seedable_hash::BuildSeededHasher::hash_one` for
/// `ph::BuildDefaultSeededHasher` (std's `DefaultHasher` behind a fixed seed):
/// the result is a function of the key bytes and the seed alone.
#[verifier::external_body]
pub fn hash_key(key: &[u8]) -> (h: u64)
    ensures
        h == hash_of(key@),
{
    ph::BuildDefaultSeededHasher::default().hash_one(key, 0)
}

/// Relies on `ph::fmph::Function::try_with_conf_stats`: on success it returns
/// a minimal perfect hash function for the given keys, so each build key gets
/// a distinct slot, and every slot the function ever emits is below the number
/// of build keys. On failure (possible only by hash-family exhaustion, since
/// the keys here are distinct) it returns `None` rather than panicking; the
/// outcome is a function of the key sequence alone, named `index_builds`. The
/// empty key set always builds: the level loop has nothing to place.
#[verifier::external_body]
pub fn build_index(keys: &Vec<Vec<u8>>) -> (r: Option<IndexFn>)
    requires
        crate::bytes::seqs_distinct(key_views(keys@)),
    ensures
        r is Some <==> index_builds(key_views(keys@)),
        r matches Some(f) ==> forall|i: int|
            0 <= i < keys@.len() ==> (#[trigger] slot_of(f, keys@[i]@)) is Some,
        r matches Some(f) ==> forall|i: int, j: int|
            0 <= i < j < keys@.len() ==> slot_of(f, keys@[i]@) != slot_of(f, keys@[j]@),
        r matches Some(f) ==> forall|k: Seq<u8>|
            (#[trigger] slot_of(f, k)) is Some ==> slot_of(f, k).unwrap() < keys@.len(),
        keys@.len() == 0 ==> r is Some,
    {
    ph::fmph::Function::try_with_conf_stats(keys.clone(), ph::fmph::BuildConf::default(), &mut ())
        .map(|f| IndexFn { inner: f })
}

/// Relies on `ph::fmph::Function::get`: the result is a function of the built
/// structure and the key bytes alone, named `slot_of`.
#[verifier::external_body]
pub fn query_index(f: &IndexFn, key: &[u8]) -> (r: Option<usize>)
    ensures
        r == slot_of(*f, key@),
{
    f.inner.get(key).map(|i| i as usize)
}

} // verus!
