use vstd::prelude::*;
use std::collections::BTreeMap;

verus! {

/// `BTreeMap::first_key_value`, keeping the key: the smallest key of the
/// map, or `None` for an empty map.
#[verifier::external_body]
pub(crate) fn first_key<V>(m: &BTreeMap<u64, V>) -> (r: Option<u64>)
    ensures
        match r {
            None => m@.dom() =~= Set::<u64>::empty(),
            Some(k) => m@.contains_key(k) && forall|j: u64| #[trigger] m@.contains_key(j) ==> k <= j,
        },
{
    m.first_key_value().map(|(k, _)| *k)
}

/// `BTreeMap::last_key_value`, keeping the key: the largest key of the
/// map, or `None` for an empty map.
#[verifier::external_body]
pub(crate) fn last_key<V>(m: &BTreeMap<u64, V>) -> (r: Option<u64>)
    ensures
        match r {
            None => m@.dom() =~= Set::<u64>::empty(),
            Some(k) => m@.contains_key(k) && forall|j: u64| #[trigger] m@.contains_key(j) ==> j <= k,
        },
{
    m.last_key_value().map(|(k, _)| *k)
}

/// `BTreeMap::pop_first`: removes and returns the entry with the smallest
/// key; leaves an empty map unchanged and returns `None`.
#[verifier::external_body]
pub(crate) fn pop_first<V>(m: &mut BTreeMap<u64, V>) -> (r: Option<(u64, V)>)
    ensures
        match r {
            None => old(m)@.dom() =~= Set::<u64>::empty() && final(m)@ == old(m)@,
            Some((k, v)) => {
                &&& old(m)@.contains_key(k)
                &&& forall|j: u64| #[trigger] old(m)@.contains_key(j) ==> k <= j
                &&& v == old(m)@[k]
                &&& final(m)@ == old(m)@.remove(k)
            },
        },
{
    m.pop_first()
}

} // verus!
