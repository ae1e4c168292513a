//! The sharded concurrent map that caches and stores are held in.
use vstd::prelude::*;

verus! {

/// [`dashmap::DashMap`], a hash map split over lock-protected shards. Its value
/// is opaque here; each module that owns one names what its map holds.
#[verifier::external_type_specification]
#[verifier::external_body]
#[verifier::reject_recursive_types(K)]
#[verifier::reject_recursive_types(V)]
#[verifier::reject_recursive_types(S)]
pub struct ExDashMap<K, V, S>(dashmap::DashMap<K, V, S>);

} // verus!
