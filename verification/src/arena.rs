//! The arena in which resting orders live: a `slab::Slab` of list nodes.
//!
//! Verus sees the slab only through the name `arena_view` (which key holds
//! which node) and the wrappers below, each of which makes one call into the
//! `slab` crate.
use crate::price_level::OrderNode;
use slab::Slab;
use vstd::prelude::*;

verus! {

#[verifier::external_type_specification]
#[verifier::external_body]
#[verifier::reject_recursive_types(T)]
pub struct ExSlab<T>(Slab<T>);

/// The occupied entries of the slab: each key that holds a value, mapped to that value.
pub uninterp spec fn arena_view(s: Slab<OrderNode>) -> Map<usize, OrderNode>;

/// `Slab::with_capacity`: the slab it returns holds no value (the capacity
/// only sizes the allocation).
#[verifier::external_body]
pub(crate) fn slab_with_capacity(capacity: usize) -> (slab: Slab<OrderNode>)
    ensures
        arena_view(slab).dom().is_empty(),
{
    Slab::with_capacity(capacity)
}

/// `Slab::insert`: stores `val` under a key that held no value before and
/// returns that key; every other entry is left as it was. Like `Vec::push`
/// in vstd, this leaves unstated the panic on exhausting the address space.
#[verifier::external_body]
pub(crate) fn slab_insert(s: &mut Slab<OrderNode>, val: OrderNode) -> (key: usize)
    ensures
        !arena_view(*old(s)).contains_key(key),
        arena_view(*final(s)) == arena_view(*old(s)).insert(key, val),
{
    s.insert(val)
}

/// `Slab::get`: the value stored under `key`, or `None` when the key holds no value.
#[verifier::external_body]
pub(crate) fn slab_get(s: &Slab<OrderNode>, key: usize) -> (r: Option<&OrderNode>)
    ensures
        match r {
            Some(v) => arena_view(*s).contains_key(key) && *v == arena_view(*s)[key],
            None => !arena_view(*s).contains_key(key),
        },
{
    s.get(key)
}

/// `Slab::index_mut` (`&mut s[key]`): a mutable reference to the value under
/// `key`, which must hold one (the call panics otherwise); what is written
/// through the reference becomes the entry, the other entries stay.
#[verifier::external_body]
pub(crate) fn slab_get_mut(s: &mut Slab<OrderNode>, key: usize) -> (r: &mut OrderNode)
    requires
        arena_view(*old(s)).contains_key(key),
    ensures
        *r == arena_view(*old(s))[key],
        arena_view(*final(s)) == arena_view(*old(s)).insert(key, *final(r)),
{
    &mut s[key]
}

/// `Slab::try_remove`: takes out and returns the value under `key`, or
/// returns `None` and changes nothing when the key holds no value.
#[verifier::external_body]
pub(crate) fn slab_try_remove(s: &mut Slab<OrderNode>, key: usize) -> (r: Option<OrderNode>)
    ensures
        match r {
            Some(v) => {
                &&& arena_view(*old(s)).contains_key(key)
                &&& v == arena_view(*old(s))[key]
                &&& arena_view(*final(s)) == arena_view(*old(s)).remove(key)
            },
            None => {
                &&& !arena_view(*old(s)).contains_key(key)
                &&& arena_view(*final(s)) == arena_view(*old(s))
            },
        },
{
    s.try_remove(key)
}

} // verus!
