//! A buffer of identifier replacements, backed by `smallvec`'s inline-capacity
//! vector: the common case is a single replacement per peel operation.

use vstd::prelude::*;
use crate::oid::ObjectId;

verus! {

/// The replacement buffer. The field is a `smallvec::SmallVec` with inline
/// capacity for one pair; Verus sees the buffer only through the wrappers
/// below and the contents name `replacement_items`.
#[verifier::external_body]
pub struct ReplacementBuf {
    items: smallvec::SmallVec<[(ObjectId, ObjectId); 1]>,
}

/// What the replacement buffer holds, in insertion order.
pub uninterp spec fn replacement_items(v: ReplacementBuf) -> Seq<(ObjectId, ObjectId)>;

/// Relies on smallvec::SmallVec::new: a newly constructed vector is empty.
#[verifier::external_body]
pub(crate) fn replacements_new() -> (r: ReplacementBuf)
    ensures
        replacement_items(r) == Seq::<(ObjectId, ObjectId)>::empty(),
{
    ReplacementBuf { items: smallvec::SmallVec::new() }
}

/// Relies on smallvec::SmallVec::push: appends the value at the end.
#[verifier::external_body]
pub(crate) fn replacements_push(v: &mut ReplacementBuf, find: ObjectId, replace: ObjectId)
    ensures
        replacement_items(*final(v)) == replacement_items(*old(v)).push((find, replace)),
{
    v.items.push((find, replace));
}

/// Relies on smallvec::SmallVec::into_vec: hands the elements out in their
/// stored order.
#[verifier::external_body]
pub(crate) fn replacements_into_vec(v: ReplacementBuf) -> (r: Vec<(ObjectId, ObjectId)>)
    ensures
        r@ == replacement_items(v),
{
    v.items.into_vec()
}

} // verus!
