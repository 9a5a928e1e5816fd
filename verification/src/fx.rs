//! Hash maps with the Fx hasher.

use vstd::prelude::*;
use rustc_hash::FxBuildHasher;
use rustc_hash::FxHashMap;
use vstd::std_specs::hash::builds_valid_hashers;

verus! {

/// `FxBuildHasher` of `rustc_hash`, of which nothing is known here but that
/// it is a type.
#[verifier::external_type_specification]
#[verifier::external_body]
pub struct ExFxBuildHasher(FxBuildHasher);

/// Whether the hasher of `m` is one for which a hash map behaves as a map:
/// two hashers that it builds give equal digests for equal input.
pub open spec fn hasher_is_valid<K, V>(m: &FxHashMap<K, V>) -> bool {
    builds_valid_hashers::<FxBuildHasher>()
}

/// `FxHashMap::default()` of `rustc_hash`: a map without entries. Its hasher
/// is `FxBuildHasher`, which holds no state and builds the same `FxHasher` at
/// every call, so the map finds again every key that was put into it.
#[verifier::external_body]
pub(crate) fn new_fx_map<K, V>() -> (m: FxHashMap<K, V>)
    ensures
        m@ == (Map::<K, V>::empty()),
        hasher_is_valid(&m),
{
    FxHashMap::default()
}

} // verus!
