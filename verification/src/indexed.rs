//! Trusted declarations for the insertion-ordered collections of the
//! `indexmap` crate that the delta cache and the discover adapter keep their
//! bookkeeping in: an insertion-ordered set of addresses and an
//! insertion-ordered map from an address to the token of its in-flight build.

use crate::net::SockAddr;
use vstd::prelude::*;

verus! {

#[verifier::external_type_specification]
#[verifier::external_body]
#[verifier::reject_recursive_types(T)]
#[verifier::reject_recursive_types(S)]
pub struct ExIndexSet<T, S>(indexmap::IndexSet<T, S>);

#[verifier::external_type_specification]
#[verifier::external_body]
#[verifier::reject_recursive_types(K)]
#[verifier::reject_recursive_types(V)]
#[verifier::reject_recursive_types(S)]
pub struct ExIndexMap<K, V, S>(indexmap::IndexMap<K, V, S>);

/// The values an address set holds, in insertion order.
pub uninterp spec fn addr_set_elems(s: indexmap::IndexSet<SockAddr>) -> Seq<SockAddr>;

/// The entries a cancellation map holds, in insertion order.
pub uninterp spec fn cancel_map_entries(m: indexmap::IndexMap<SockAddr, u64>) -> Seq<
    (SockAddr, u64),
>;

/// Whether some entry of a cancellation map carries the given key.
pub open spec fn has_key(entries: Seq<(SockAddr, u64)>, a: SockAddr) -> bool {
    exists|i: int| 0 <= i < entries.len() && entries[i].0 == a
}

/// Relies on indexmap::IndexSet::new: makes an empty set.
#[verifier::external_body]
pub(crate) fn addr_set_new() -> (s: indexmap::IndexSet<SockAddr>)
    ensures
        addr_set_elems(s) == Seq::<SockAddr>::empty(),
{
    indexmap::IndexSet::new()
}

/// Relies on indexmap::IndexSet::insert: a value not yet present is appended
/// last in order and `true` is returned; a value already present leaves the
/// set unchanged and returns `false`.
#[verifier::external_body]
pub(crate) fn addr_set_insert(s: &mut indexmap::IndexSet<SockAddr>, a: SockAddr) -> (r: bool)
    ensures
        r == !addr_set_elems(*old(s)).contains(a),
        addr_set_elems(*final(s)) == (if addr_set_elems(*old(s)).contains(a) {
            addr_set_elems(*old(s))
        } else {
            addr_set_elems(*old(s)).push(a)
        }),
{
    s.insert(a)
}

/// Relies on indexmap::IndexSet::shift_remove: the value is removed by
/// shifting the values that follow it down, keeping their relative order;
/// `true` is returned exactly when the value was present. A set never holds a
/// value twice, so removing the first occurrence removes the only one.
#[verifier::external_body]
pub(crate) fn addr_set_shift_remove(s: &mut indexmap::IndexSet<SockAddr>, a: &SockAddr) -> (r: bool)
    ensures
        r == addr_set_elems(*old(s)).contains(*a),
        addr_set_elems(*final(s)) == addr_set_elems(*old(s)).remove_value(*a),
{
    s.shift_remove(a)
}

/// Relies on indexmap::IndexSet::drain over the full range: every value is
/// handed out in order and the set is left empty.
#[verifier::external_body]
pub(crate) fn addr_set_drain(s: &mut indexmap::IndexSet<SockAddr>) -> (r: Vec<SockAddr>)
    ensures
        r@ == addr_set_elems(*old(s)),
        addr_set_elems(*final(s)) == Seq::<SockAddr>::empty(),
{
    s.drain(..).collect()
}

/// Relies on indexmap::IndexSet::iter: hands out every value in order,
/// leaving the set as it is.
#[verifier::external_body]
pub(crate) fn addr_set_to_vec(s: &indexmap::IndexSet<SockAddr>) -> (r: Vec<SockAddr>)
    ensures
        r@ == addr_set_elems(*s),
{
    s.iter().cloned().collect()
}

/// Relies on indexmap::IndexMap::new: makes an empty map.
#[verifier::external_body]
pub(crate) fn cancel_map_new() -> (m: indexmap::IndexMap<SockAddr, u64>)
    ensures
        cancel_map_entries(m) == Seq::<(SockAddr, u64)>::empty(),
{
    indexmap::IndexMap::new()
}

/// Relies on indexmap::IndexMap::insert: an absent key is appended last in
/// order with its value and `None` is returned; a present key keeps its place
/// in the order, its value is replaced, and the old value is returned.
#[verifier::external_body]
pub(crate) fn cancel_map_insert(m: &mut indexmap::IndexMap<SockAddr, u64>, a: SockAddr, v: u64) -> (r:
    Option<u64>)
    ensures
        !has_key(cancel_map_entries(*old(m)), a) ==> r == None::<u64> && cancel_map_entries(
            *final(m),
        ) == cancel_map_entries(*old(m)).push((a, v)),
        has_key(cancel_map_entries(*old(m)), a) ==> exists|i: int|
            0 <= i < cancel_map_entries(*old(m)).len() && #[trigger] cancel_map_entries(*old(m))[i].0
                == a && r == Some(cancel_map_entries(*old(m))[i].1) && cancel_map_entries(*final(m))
                == cancel_map_entries(*old(m)).update(i, (a, v)),
{
    m.insert(a, v)
}

/// Relies on indexmap::IndexMap::shift_remove: a present key's entry is
/// removed by shifting the entries that follow it down, keeping their relative
/// order, and its value is returned; an absent key leaves the map unchanged.
#[verifier::external_body]
pub(crate) fn cancel_map_shift_remove(m: &mut indexmap::IndexMap<SockAddr, u64>, a: &SockAddr) -> (r:
    Option<u64>)
    ensures
        !has_key(cancel_map_entries(*old(m)), *a) ==> r == None::<u64> && cancel_map_entries(
            *final(m),
        ) == cancel_map_entries(*old(m)),
        has_key(cancel_map_entries(*old(m)), *a) ==> exists|i: int|
            0 <= i < cancel_map_entries(*old(m)).len() && #[trigger] cancel_map_entries(*old(m))[i].0
                == *a && r == Some(cancel_map_entries(*old(m))[i].1) && cancel_map_entries(
                *final(m),
            ) == cancel_map_entries(*old(m)).remove(i),
{
    m.shift_remove(a)
}

} // verus!
