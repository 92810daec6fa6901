//! The parameter spans of a message, kept in a `SmallVec` so that the usual
//! one or two parameters need no allocation of their own.
use smallvec::SmallVec;
use vstd::prelude::*;

verus! {

/// The parameter spans of one message, in a `smallvec::SmallVec` that holds
/// two inline. Verus refuses a declaration of `SmallVec` itself (its `Array`
/// bound), so the vector sits in this opaque struct and is reached only
/// through the functions below.
#[verifier::external_body]
pub struct SpanList {
    items: SmallVec<[(u16, u16); 2]>,
}

/// The spans that `v` holds, in order.
pub uninterp spec fn span_list(v: SpanList) -> Seq<(u16, u16)>;

/// Relies on `SmallVec::new`: the vector starts empty.
#[verifier::external_body]
pub(crate) fn spans_new() -> (r: SpanList)
    ensures
        span_list(r) == Seq::<(u16, u16)>::empty(),
{
    SpanList { items: SmallVec::new() }
}

/// Relies on `SmallVec::push`: the item is appended at the end. It panics only
/// when the new capacity overflows, which the bound on the length keeps far off.
#[verifier::external_body]
pub(crate) fn spans_push(v: &mut SpanList, item: (u16, u16))
    requires
        span_list(*old(v)).len() < 0x0100_0000,
    ensures
        span_list(*final(v)) == span_list(*old(v)).push(item),
{
    v.items.push(item)
}

/// Relies on `SmallVec::as_slice`: the items in order.
#[verifier::external_body]
pub(crate) fn spans_slice(v: &SpanList) -> (r: &[(u16, u16)])
    ensures
        r@ == span_list(*v),
{
    v.items.as_slice()
}

impl SpanList {
    /// An empty list.
    pub fn new() -> (r: Self)
        ensures
            span_list(r) == Seq::<(u16, u16)>::empty(),
    {
        spans_new()
    }

    /// The spans in order.
    pub fn as_slice(&self) -> (r: &[(u16, u16)])
        ensures
            r@ == span_list(*self),
    {
        spans_slice(self)
    }
}

} // verus!
