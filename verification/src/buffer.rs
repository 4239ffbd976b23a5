//! The pending-mark buffer: a `smallvec::SmallVec` with an inline fast path
//! for short combining-mark runs, seen by the verifier only through the
//! contracts below.

use smallvec::SmallVec;
use vstd::prelude::*;

verus! {

/// Holds the marks blocked from composing with the current composee.  The
/// verifier does not look inside; everything it knows of a `MarkBuffer` is
/// said over `pending_of` by the trusted functions below.
#[verifier::external_body]
pub struct MarkBuffer {
    inner: SmallVec<[(char, isize); 4]>,
}

/// The elements the buffer holds, in order.
pub uninterp spec fn pending_of(v: MarkBuffer) -> Seq<(char, isize)>;

/// Relies on smallvec::SmallVec::new: constructs an empty vector.
#[verifier::external_body]
pub(crate) fn buf_new() -> (r: MarkBuffer)
    ensures
        pending_of(r) == Seq::<(char, isize)>::empty(),
{
    MarkBuffer { inner: SmallVec::new() }
}

/// Relies on smallvec::SmallVec::push: appends one element at the back.
#[verifier::external_body]
pub(crate) fn buf_push(v: &mut MarkBuffer, x: (char, isize))
    ensures
        pending_of(*final(v)) == pending_of(*old(v)).push(x),
{
    v.inner.push(x)
}

/// Relies on slice::get, reached through smallvec::SmallVec's Deref to a
/// slice: `Some` of the element at `i` when `i` is in bounds, else `None`.
#[verifier::external_body]
pub(crate) fn buf_get(v: &MarkBuffer, i: usize) -> (r: Option<(char, isize)>)
    ensures
        i < pending_of(*v).len() ==> r == Some(pending_of(*v)[i as int]),
        i >= pending_of(*v).len() ==> r is None,
{
    v.inner.get(i).cloned()
}

/// Relies on smallvec::SmallVec::clear: removes every element.
#[verifier::external_body]
pub(crate) fn buf_clear(v: &mut MarkBuffer)
    ensures
        pending_of(*final(v)) == Seq::<(char, isize)>::empty(),
{
    v.inner.clear()
}

} // verus!
