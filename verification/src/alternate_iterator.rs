//! A list combinator over producers of borrowed values.
//!
//! [`Altern`] alternates between the producers of a list as
//! [`VecAltern`](crate::altern::VecAltern) does, and is kept for code that
//! yields references and builds its combinator in one chain of `add` calls.

use crate::altern::vec_altern::{ListState, VecAltern};
use crate::producer::Producer;
use vstd::prelude::*;

verus! {

/// Alternates between the producers of a list, each yielding references.
#[verifier::reject_recursive_types(A)]
pub struct Altern<'a, P, A> where P: Producer<&'a A> {
    list: VecAltern<P, &'a A>,
}

impl<'a, P: Producer<&'a A>, A> View for Altern<'a, P, A> {
    type V = ListState<&'a A>;

    open spec fn view(&self) -> ListState<&'a A> {
        self.list()@
    }
}

impl<'a, P: Producer<&'a A>, A> Altern<'a, P, A> {
    /// The list combinator that does the work.
    pub closed spec fn list(&self) -> VecAltern<P, &'a A> {
        self.list
    }

    /// Creates a combinator with no producer.
    pub fn new() -> (r: Self)
        ensures
            r.list().producers() == Seq::<P>::empty(),
            r.list().current() == 0,
            r@ == ListState::start(Seq::<Seq<&'a A>>::empty()),
            r.wf(),
    {
        Altern { list: VecAltern::new() }
    }

    /// Appends a producer and hands the combinator back, to chain calls.
    pub fn add(self, producer: P) -> (r: Self)
        ensures
            r.list().producers() == self.list().producers().push(producer),
            r.list().current() == self.list().current(),
            r@ == self@.with_added(producer.remaining()),
            self.wf() && producer.wf() ==> r.wf(),
    {
        Altern { list: self.list.add_and(producer) }
    }
}

impl<'a, P: Producer<&'a A>, A> Producer<&'a A> for Altern<'a, P, A> {
    open spec fn remaining(&self) -> Seq<&'a A> {
        self@.output()
    }

    open spec fn wf(&self) -> bool {
        self.list().wf()
    }

    fn produce_next(&mut self) -> (r: Option<&'a A>)
        ensures
            (r, final(self)@) == old(self)@.after_next(),
    {
        self.list.produce_next()
    }
}

} // verus!
