//! The bounded registry of partition rectangles, kept in a `heapless::Vec`.
use vstd::prelude::*;
use crate::geometry::Rectangle;

verus! {

/// Most partitions that one screen holds at once.
pub const MAX_APPS_PER_SCREEN: usize = 8;

#[verifier::external_type_specification]
#[verifier::external_body]
#[verifier::reject_recursive_types(T)]
pub struct ExHeaplessVec<T, const N: usize>(heapless::Vec<T, N>);

/// The rectangles that a registry holds, in order.
pub uninterp spec fn registered_areas(v: heapless::Vec<Rectangle, MAX_APPS_PER_SCREEN>) -> Seq<Rectangle>;

/// Relies on `heapless::Vec::new`: a new vector is empty.
#[verifier::external_body]
pub(crate) fn registry_new() -> (r: heapless::Vec<Rectangle, MAX_APPS_PER_SCREEN>)
    ensures
        registered_areas(r) == Seq::<Rectangle>::empty(),
{
    heapless::Vec::new()
}

/// Relies on `heapless::Vec::push`: below capacity the item is appended
/// (`Ok`), at capacity it is handed back (`Err`) and the vector is
/// unchanged.
#[verifier::external_body]
pub(crate) fn registry_push(v: &mut heapless::Vec<Rectangle, MAX_APPS_PER_SCREEN>, item: Rectangle) -> (pushed: bool)
    ensures
        pushed == (registered_areas(*old(v)).len() < MAX_APPS_PER_SCREEN),
        pushed ==> registered_areas(*final(v)) == registered_areas(*old(v)).push(item),
        !pushed ==> registered_areas(*final(v)) == registered_areas(*old(v)),
{
    v.push(item).is_ok()
}

/// Relies on the length of `heapless::Vec` (through its slice): the number
/// of items, which never exceeds the capacity.
#[verifier::external_body]
pub(crate) fn registry_len(v: &heapless::Vec<Rectangle, MAX_APPS_PER_SCREEN>) -> (r: usize)
    ensures
        r == registered_areas(*v).len(),
        r <= MAX_APPS_PER_SCREEN,
{
    v.len()
}

/// Relies on indexing `heapless::Vec` (through its slice): item `i`.
#[verifier::external_body]
pub(crate) fn registry_get(v: &heapless::Vec<Rectangle, MAX_APPS_PER_SCREEN>, i: usize) -> (r: Rectangle)
    requires
        i < registered_areas(*v).len(),
    ensures
        r == registered_areas(*v)[i as int],
{
    v[i]
}

} // verus!
