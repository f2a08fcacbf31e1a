//! A producer over a borrowed slice.

use crate::producer::{BidirectionalProducer, Bounds, CountedProducer, ExactProducer, Producer};
use vstd::prelude::*;

verus! {

/// The references to the values of `s`, in order.
pub open spec fn refs_of<'a, T>(s: Seq<T>) -> Seq<&'a T> {
    Seq::new(s.len(), |i: int| &s[i])
}

/// Yields references to the elements of a slice, from either end.
pub struct SliceProducer<'a, T> {
    items: &'a [T],
    front: usize,
    back: usize,
}

impl<'a, T> SliceProducer<'a, T> {
    #[verifier::type_invariant]
    spec fn well_formed(&self) -> bool {
        self.front <= self.back <= self.items@.len()
    }

    /// The elements not yet yielded.
    pub closed spec fn pending(&self) -> Seq<T> {
        self.items@.subrange(self.front as int, self.back as int)
    }

    /// Creates a producer of references to all elements of `items`.
    pub fn new(items: &'a [T]) -> (r: Self)
        ensures
            r.pending() == items@,
            r.remaining() == refs_of(items@),
            r.remaining().len() <= usize::MAX,
    {
        SliceProducer { items, front: 0, back: items.len() }
    }
}

impl<'a, T> Producer<&'a T> for SliceProducer<'a, T> {
    open spec fn remaining(&self) -> Seq<&'a T> {
        refs_of(self.pending())
    }

    fn produce_next(&mut self) -> (r: Option<&'a T>) {
        proof {
            use_type_invariant(&*self);
        }
        if self.front < self.back {
            let i = self.front;
            self.front = self.front + 1;
            Some(&self.items[i])
        } else {
            None
        }
    }
}

impl<'a, T> CountedProducer<&'a T> for SliceProducer<'a, T> {
    open spec fn bounds(&self) -> Bounds {
        (self.pending().len(), Some(self.pending().len()))
    }

    open spec fn count_in_range(&self) -> bool {
        self.pending().len() <= usize::MAX
    }

    proof fn lemma_bounds_hold(&self) {
    }

    fn count_fits(&self) -> (b: bool) {
        proof {
            use_type_invariant(self);
        }
        true
    }

    fn remaining_count(&self) -> (r: (usize, Option<usize>)) {
        proof {
            use_type_invariant(self);
        }
        let n = self.back - self.front;
        (n, Some(n))
    }
}

impl<'a, T> ExactProducer<&'a T> for SliceProducer<'a, T> {
    proof fn lemma_count_exact(&self) {
    }
}

impl<'a, T> BidirectionalProducer<&'a T> for SliceProducer<'a, T> {
    fn tail_fits(&self) -> (b: bool) {
        true
    }

    fn produce_previous(&mut self) -> (r: Option<&'a T>) {
        proof {
            use_type_invariant(&*self);
        }
        if self.front < self.back {
            self.back = self.back - 1;
            Some(&self.items[self.back])
        } else {
            None
        }
    }
}

} // verus!
