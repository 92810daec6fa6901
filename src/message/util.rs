//! An iterator adaptor that stops at a given item.
use vstd::prelude::*;

verus! {

/// An iterator adaptor that ends a run of items at the first item equal to
/// `until`, which it consumes from the inner iterator.
pub struct Until<I> where I: Iterator {
    iter: I,
    until: I::Item,
}

impl<I: Iterator> Until<I> {
    /// The iterator that items are drawn from.
    pub closed spec fn inner(&self) -> I {
        self.iter
    }

    /// The item that ends a run.
    pub closed spec fn stop_item(&self) -> I::Item {
        self.until
    }

    pub fn new(iter: I, until: I::Item) -> (r: Self)
        ensures
            r.inner() == iter,
            r.stop_item() == until,
    {
        Self { iter, until }
    }
}

impl<I> Iterator for Until<I> where I: Iterator, I::Item: PartialEq<I::Item> + Copy {
    type Item = I::Item;

    fn next(&mut self) -> Option<Self::Item> {
        let n = self.iter.next();
        if let Some(b) = n {
            if b == self.until {
                return None;
            }
        }
        n
    }
}

// After a run ends, `next` goes on drawing from the inner iterator, so a `None`
// may be followed by more items: the adaptor does not claim the laws of an
// iterator that stays finished, which is what `remaining` would describe.
impl<I> vstd::std_specs::iter::IteratorSpecImpl for Until<I> where I: Iterator, I::Item: PartialEq<I::Item> + Copy {
    open spec fn obeys_prophetic_iter_laws(&self) -> bool {
        false
    }

    open spec fn remaining(&self) -> Seq<Self::Item> {
        Seq::empty()
    }

    open spec fn will_return_none(&self) -> bool {
        false
    }

    open spec fn initial_value_relation(&self, init: &Self) -> bool {
        true
    }

    open spec fn decrease(&self) -> Option<nat> {
        None
    }

    open spec fn peek(&self, index: int) -> Option<Self::Item> {
        None
    }
}

/// `iter.until(x)` for any iterator.
pub trait UntilExt<I: Iterator> {
    fn until(self, until: I::Item) -> Until<I>;
}

impl<I> UntilExt<I> for I where I: Iterator, I::Item: PartialEq<I::Item> {
    fn until(self, until: I::Item) -> Until<I> {
        Until::new(self, until)
    }
}

} // verus!
