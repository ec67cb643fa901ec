//! Sets of addresses, kept in the hash sets of `rustc_hash`.

use rustc_hash::FxHashSet;
use vstd::prelude::*;

verus! {

/// The hasher that [`FxHashSet`] is built with.
#[verifier::external_type_specification]
#[verifier::external_body]
pub struct ExFxBuildHasher(rustc_hash::FxBuildHasher);

/// Adds an address with `HashSet::insert` under the hasher of `rustc_hash`.
///
/// Trusted: the set gains exactly this member, and the result says whether it was
/// missing before. `FxHasher` hashes equal integers alike, which is what the set
/// asks of a hasher.
#[verifier::external_body]
pub(crate) fn add_slot(set: &mut FxHashSet<u64>, slot: u64) -> (fresh: bool)
    ensures
        final(set)@ == old(set)@.insert(slot),
        fresh == !old(set)@.contains(slot),
{
    set.insert(slot)
}

/// Looks an address up with `HashSet::contains` under the hasher of `rustc_hash`.
///
/// Trusted: the result says whether the address is a member.
#[verifier::external_body]
pub(crate) fn has_slot(set: &FxHashSet<u64>, slot: u64) -> (r: bool)
    ensures
        r == set@.contains(slot),
{
    set.contains(&slot)
}

} // verus!
