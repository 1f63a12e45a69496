//! The set of file ids met during a scan.
use vstd::prelude::*;
use dashmap::DashSet;

verus! {

/// `dashmap::DashSet`, a set of keys.
#[verifier::external_type_specification]
#[verifier::external_body]
#[verifier::reject_recursive_types(K)]
#[verifier::reject_recursive_types(S)]
pub struct ExDashSet<K, S>(DashSet<K, S>);

/// The ids that a set holds.
pub uninterp spec fn seen_ids(s: DashSet<u64>) -> Set<u64>;

/// `DashSet::new`: the set holds nothing.
#[verifier::external_body]
pub(crate) fn no_ids() -> (s: DashSet<u64>)
    ensures
        seen_ids(s) == Set::<u64>::empty(),
{
    DashSet::new()
}

/// `DashSet::insert`: the set holds the id from then on, and what it held before; the result says
/// whether the id is new. The set is borrowed for the call alone, so nobody else changes it.
#[verifier::external_body]
pub(crate) fn insert_id(s: &mut DashSet<u64>, id: u64) -> (new: bool)
    ensures
        seen_ids(*final(s)) == seen_ids(*old(s)).insert(id),
        new == !seen_ids(*old(s)).contains(id),
{
    s.insert(id)
}

} // verus!
