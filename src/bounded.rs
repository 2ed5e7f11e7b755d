//! The server's short address lists (at most one gateway, at most two DNS
//! servers), held in heapless's fixed-capacity vectors.

use vstd::prelude::*;

verus! {

#[verifier::external_type_specification]
#[verifier::external_body]
#[verifier::reject_recursive_types(T)]
pub struct ExHeaplessVec<T, const N: usize>(heapless::Vec<T, N>);

/// The addresses a one-slot list holds, in order.
pub uninterp spec fn one_slot(v: heapless::Vec<u32, 1>) -> Seq<u32>;

/// The addresses a two-slot list holds, in order.
pub uninterp spec fn two_slots(v: heapless::Vec<u32, 2>) -> Seq<u32>;

/// Relies on heapless::Vec::new: a new vector is empty.
#[verifier::external_body]
pub(crate) fn one_slot_new() -> (r: heapless::Vec<u32, 1>)
    ensures
        one_slot(r) == Seq::<u32>::empty(),
{
    heapless::Vec::new()
}

/// Relies on heapless::Vec::push: appends while the length is under the
/// capacity, and otherwise hands the item back and leaves the vector as it was.
#[verifier::external_body]
pub(crate) fn one_slot_push(v: &mut heapless::Vec<u32, 1>, x: u32) -> (r: bool)
    ensures
        r == (one_slot(*old(v)).len() < 1),
        r ==> one_slot(*final(v)) == one_slot(*old(v)).push(x),
        !r ==> one_slot(*final(v)) == one_slot(*old(v)),
{
    v.push(x).is_ok()
}

/// Relies on heapless::Vec::as_slice: the items held, in order.
#[verifier::external_body]
pub(crate) fn one_slot_items(v: &heapless::Vec<u32, 1>) -> (r: &[u32])
    ensures
        r@ == one_slot(*v),
{
    v.as_slice()
}

/// Relies on heapless::Vec::new: a new vector is empty.
#[verifier::external_body]
pub(crate) fn two_slots_new() -> (r: heapless::Vec<u32, 2>)
    ensures
        two_slots(r) == Seq::<u32>::empty(),
{
    heapless::Vec::new()
}

/// Relies on heapless::Vec::push: appends while the length is under the
/// capacity, and otherwise hands the item back and leaves the vector as it was.
#[verifier::external_body]
pub(crate) fn two_slots_push(v: &mut heapless::Vec<u32, 2>, x: u32) -> (r: bool)
    ensures
        r == (two_slots(*old(v)).len() < 2),
        r ==> two_slots(*final(v)) == two_slots(*old(v)).push(x),
        !r ==> two_slots(*final(v)) == two_slots(*old(v)),
{
    v.push(x).is_ok()
}

/// Relies on heapless::Vec::as_slice: the items held, in order.
#[verifier::external_body]
pub(crate) fn two_slots_items(v: &heapless::Vec<u32, 2>) -> (r: &[u32])
    ensures
        r@ == two_slots(*v),
{
    v.as_slice()
}

} // verus!
