//! Alternation between any number of producers.
//!
//! [`VecAltern`] holds an ordered list of live producers and a cursor into
//! it. A pull asks the producer under the cursor: a value moves the cursor
//! one place on, around the end of the list; an exhausted producer leaves
//! the list, the cursor is brought back into it, and its new producer is
//! asked in turn. Producers can be added at any time, also between pulls.

use crate::producer::{head_of, tail_of, Producer};
use core::marker::PhantomData;
use vstd::arithmetic::div_mod::{
    lemma_div_is_ordered, lemma_fundamental_div_mod, lemma_fundamental_div_mod_converse,
    lemma_mod_bound,
};
use vstd::prelude::*;

verus! {

/// The number of values held by all the queues together.
pub open spec fn total_len<T>(queues: Seq<Seq<T>>) -> nat
    decreases queues.len(),
{
    if queues.len() == 0 {
        0
    } else {
        total_len(queues.drop_last()) + queues.last().len()
    }
}

/// The larger of `n` and 1: the modulus that brings a cursor back into a
/// list of `n` producers, also when none is left.
pub open spec fn at_least_one(n: nat) -> int {
    if n > 1 {
        n as int
    } else {
        1
    }
}

/// How many of the first `pulls` pulls go to the producer at `position` in a
/// list of `count` producers of which none runs out: one pull each in list
/// order, round after round.
pub open spec fn turns(count: int, position: int, pulls: int) -> int {
    (pulls + count - 1 - position) / count
}

/// Whether `out` holds the values of the queues and no other, each as often
/// as it stands in them, and the values of each queue in that queue's order:
/// its first value is the first value of some queue, and the rest is such a
/// merge of what is then left.
pub open spec fn is_merge<T>(out: Seq<T>, queues: Seq<Seq<T>>) -> bool
    decreases out.len(),
{
    if out.len() == 0 {
        forall|i: int| 0 <= i < queues.len() ==> (#[trigger] queues[i]).len() == 0
    } else {
        exists|i: int| #[trigger]
            merge_from(out, queues, i) && is_merge(
                out.drop_first(),
                queues.update(i, queues[i].drop_first()),
            )
    }
}

/// Whether queue `i` has the first value of `out` as its own first value.
pub open spec fn merge_from<T>(out: Seq<T>, queues: Seq<Seq<T>>, i: int) -> bool {
    &&& out.len() > 0
    &&& 0 <= i < queues.len()
    &&& queues[i].len() > 0
    &&& queues[i][0] == out[0]
}

/// Whether `out` holds the values of `a` and of `b` and no other, each as
/// often as it stands in them, those of `a` in the order of `a` and those
/// of `b` in the order of `b`.
pub open spec fn is_shuffle<T>(out: Seq<T>, a: Seq<T>, b: Seq<T>) -> bool
    decreases out.len(),
{
    if out.len() == 0 {
        a.len() == 0 && b.len() == 0
    } else {
        ||| a.len() > 0 && a[0] == out[0] && is_shuffle(out.drop_first(), a.drop_first(), b)
        ||| b.len() > 0 && b[0] == out[0] && is_shuffle(out.drop_first(), a, b.drop_first())
    }
}

/// What one round over the queues gives: the first value of each queue that
/// has one, in list order.
pub open spec fn round_values<T>(queues: Seq<Seq<T>>) -> Seq<T>
    decreases queues.len(),
{
    if queues.len() == 0 {
        Seq::empty()
    } else if queues[0].len() > 0 {
        seq![queues[0][0]] + round_values(queues.drop_first())
    } else {
        round_values(queues.drop_first())
    }
}

/// What one round over the queues leaves: the queues that had a value, in
/// list order, each without its first value.
pub open spec fn after_round<T>(queues: Seq<Seq<T>>) -> Seq<Seq<T>>
    decreases queues.len(),
{
    if queues.len() == 0 {
        Seq::empty()
    } else if queues[0].len() > 0 {
        seq![queues[0].drop_first()] + after_round(queues.drop_first())
    } else {
        after_round(queues.drop_first())
    }
}

/// The values of the queues taken round after round, until no queue has a
/// value left.
pub open spec fn by_rounds<T>(queues: Seq<Seq<T>>) -> Seq<T>
    decreases total_len(queues),
{
    if total_len(queues) == 0 {
        Seq::empty()
    } else {
        proof {
            lemma_round_total(queues);
        }
        round_values(queues) + by_rounds(after_round(queues))
    }
}

/// A list combinator seen through what each of its live producers has yet
/// to yield, with the position of the producer to ask next.
pub struct ListState<T> {
    pub queues: Seq<Seq<T>>,
    pub current: int,
}

impl<T> ListState<T> {
    /// The state before the first pull: all of every queue, cursor at 0.
    pub open spec fn start(queues: Seq<Seq<T>>) -> ListState<T> {
        ListState { queues, current: 0 }
    }

    /// The state in which every producer has given its [`turns`] of the
    /// first `pulls` pulls, and the cursor has gone round with them.
    pub open spec fn fair_state(queues: Seq<Seq<T>>, pulls: int) -> ListState<T> {
        ListState {
            queues: Seq::new(
                queues.len(),
                |i: int| queues[i].skip(turns(queues.len() as int, i, pulls)),
            ),
            current: pulls % (queues.len() as int),
        }
    }

    /// The state that `pulls` pulls lead to.
    pub open spec fn after(self, pulls: nat) -> ListState<T>
        decreases pulls,
    {
        if pulls == 0 {
            self
        } else {
            self.after((pulls - 1) as nat).after_next().1
        }
    }

    /// The state once a producer that has `queue` to give was added: it
    /// stands at the end of the list, and the cursor has not moved.
    pub open spec fn with_added(self, queue: Seq<T>) -> ListState<T> {
        ListState { queues: self.queues.push(queue), current: self.current }
    }

    /// Whether a producer under the cursor or after it has a value left, so
    /// that the next pull is served before the end of the list.
    pub open spec fn round_has_value(self) -> bool {
        exists|j: int|
            self.current <= j < self.queues.len() && (#[trigger] self.queues[j]).len() > 0
    }

    /// The cursor points into the list, or at 0 when the list is empty.
    pub open spec fn in_range(self) -> bool {
        0 <= self.current && (self.current < self.queues.len() || (self.queues.len() == 0
            && self.current == 0))
    }

    /// The state once the producer under the cursor, found exhausted, has
    /// left the list: later producers move one place down, and the cursor is
    /// taken modulo the new length, or modulo 1 when nothing is left.
    pub open spec fn without_current(self) -> ListState<T> {
        let shorter = self.queues.remove(self.current);
        ListState {
            queues: shorter,
            current: self.current % at_least_one(shorter.len()),
        }
    }

    /// The state once the producer under the cursor has given its head: the
    /// cursor moves one place on, around the end of the list.
    pub open spec fn advanced(self) -> ListState<T> {
        ListState {
            queues: self.queues.update(self.current, self.queues[self.current].drop_first()),
            current: (self.current + 1) % (self.queues.len() as int),
        }
    }

    /// The value of a pull and the state it leaves: exhausted producers are
    /// dropped from the cursor on until one gives a value or none is left.
    pub open spec fn after_next(self) -> (Option<T>, ListState<T>)
        decreases self.queues.len(),
    {
        if self.queues.len() == 0 || !(0 <= self.current < self.queues.len()) {
            (None, self)
        } else if self.queues[self.current].len() > 0 {
            (Some(self.queues[self.current][0]), self.advanced())
        } else {
            self.without_current().after_next()
        }
    }

    /// Everything the list will yield, in order, if no producer is added.
    pub open spec fn output(self) -> Seq<T>
        decreases total_len(self.queues),
    {
        match self.after_next() {
            (Some(value), next) => {
                proof {
                    lemma_list_after_next_total(self);
                }
                seq![value] + next.output()
            },
            (None, _) => Seq::empty(),
        }
    }
}

/// Alternates between the producers of a list, which can grow at any time.
#[verifier::reject_recursive_types(Item)]
pub struct VecAltern<P, Item> where P: Producer<Item> {
    iters: Vec<P>,
    current: usize,
    item: PhantomData<Item>,
}

impl<P: Producer<Item>, Item> View for VecAltern<P, Item> {
    type V = ListState<Item>;

    open spec fn view(&self) -> ListState<Item> {
        ListState {
            queues: Seq::new(self.producers().len(), |i: int| self.producers()[i].remaining()),
            current: self.current(),
        }
    }
}

impl<P: Producer<Item>, Item> VecAltern<P, Item> {
    /// The live producers, in the order in which they were added.
    pub closed spec fn producers(&self) -> Seq<P> {
        self.iters@
    }

    /// The position of the producer that the next pull asks first.
    pub closed spec fn current(&self) -> int {
        self.current as int
    }

    /// Creates a combinator with no producer.
    pub fn new() -> (r: Self)
        ensures
            r.producers() == Seq::<P>::empty(),
            r.current() == 0,
            r@ == ListState::start(Seq::<Seq<Item>>::empty()),
            r.wf(),
    {
        let r = VecAltern { iters: Vec::new(), current: 0, item: PhantomData };
        assert(r@.queues =~= Seq::<Seq<Item>>::empty());
        r
    }

    /// Creates a combinator with no producer and room for `capacity` of
    /// them; it behaves as one made by [`VecAltern::new`].
    pub fn with_capacity(capacity: usize) -> (r: Self)
        ensures
            r.producers() == Seq::<P>::empty(),
            r.current() == 0,
            r@ == ListState::start(Seq::<Seq<Item>>::empty()),
            r.wf(),
    {
        let r = VecAltern { iters: Vec::with_capacity(capacity), current: 0, item: PhantomData };
        assert(r@.queues =~= Seq::<Seq<Item>>::empty());
        r
    }

    /// Appends a producer and hands the combinator back, to chain calls.
    pub fn add_and(self, producer: P) -> (r: Self)
        ensures
            r.producers() == self.producers().push(producer),
            r.current() == self.current(),
            r@ == self@.with_added(producer.remaining()),
            self.wf() && producer.wf() ==> r.wf(),
    {
        let mut altern = self;
        altern.iters.push(producer);
        assert(altern@.queues =~= self@.queues.push(producer.remaining()));
        altern
    }

    /// Appends a producer at the end of the list; the cursor stays.
    pub fn add(&mut self, producer: P)
        ensures
            final(self).producers() == old(self).producers().push(producer),
            final(self).current() == old(self).current(),
            final(self)@ == old(self)@.with_added(producer.remaining()),
            old(self).wf() && producer.wf() ==> final(self).wf(),
    {
        self.iters.push(producer);
        assert(self@.queues =~= old(self)@.queues.push(producer.remaining()));
    }
}

impl<P: Producer<Item>, Item> Producer<Item> for VecAltern<P, Item> {
    open spec fn remaining(&self) -> Seq<Item> {
        self@.output()
    }

    open spec fn wf(&self) -> bool {
        &&& self@.in_range()
        &&& forall|i: int| 0 <= i < self.producers().len() ==> #[trigger] self.producers()[i].wf()
    }

    fn produce_next(&mut self) -> (r: Option<Item>)
        ensures
            (r, final(self)@) == old(self)@.after_next(),
    {
        loop
            invariant
                self.wf(),
                self@.after_next() == old(self)@.after_next(),
            decreases self.producers().len(),
        {
            proof {
                lemma_list_after_next(self@);
            }
            if self.iters.is_empty() {
                return None;
            }
            let ghost before = *self;
            let next = self.iters[self.current].produce_next();
            match next {
                Some(value) => {
                    assert(self@.queues =~= before@.queues.update(
                        before@.current,
                        before@.queues[before@.current].drop_first(),
                    ));
                    let len = self.iters.len();
                    self.current = (self.current + 1) % len;
                    return Some(value);
                },
                None => {
                    let _ = self.iters.remove(self.current);
                    let n = if self.iters.len() > 1 {
                        self.iters.len()
                    } else {
                        1
                    };
                    self.current = self.current % n;
                    assert(self@.queues =~= before@.without_current().queues);
                },
            }
        }
    }
}

/// Replacing one queue changes the total by the difference of the lengths.
pub proof fn lemma_total_len_update<T>(queues: Seq<Seq<T>>, i: int, queue: Seq<T>)
    requires
        0 <= i < queues.len(),
    ensures
        total_len(queues.update(i, queue)) == total_len(queues) - queues[i].len() + queue.len(),
    decreases queues.len(),
{
    if i == queues.len() - 1 {
        assert(queues.update(i, queue).drop_last() =~= queues.drop_last());
    } else {
        lemma_total_len_update(queues.drop_last(), i, queue);
        assert(queues.update(i, queue).drop_last() =~= queues.drop_last().update(i, queue));
    }
}

/// Removing one queue takes its length off the total.
pub proof fn lemma_total_len_remove<T>(queues: Seq<Seq<T>>, i: int)
    requires
        0 <= i < queues.len(),
    ensures
        total_len(queues.remove(i)) == total_len(queues) - queues[i].len(),
    decreases queues.len(),
{
    if i < queues.len() - 1 {
        lemma_total_len_remove(queues.drop_last(), i);
        assert(queues.remove(i).drop_last() =~= queues.drop_last().remove(i));
    }
}

/// A pull that gives a value leaves one value less in the queues; a pull
/// that gives none found no value in them.
pub proof fn lemma_list_after_next_total<T>(s: ListState<T>)
    ensures
        s.after_next().0 is Some ==> total_len(s.after_next().1.queues) + 1 == total_len(
            s.queues,
        ),
        s.after_next().0 is None && s.in_range() ==> total_len(s.queues) == 0,
    decreases s.queues.len(),
{
    if 0 <= s.current < s.queues.len() {
        if s.queues[s.current].len() > 0 {
            lemma_total_len_update(s.queues, s.current, s.queues[s.current].drop_first());
        } else {
            lemma_total_len_remove(s.queues, s.current);
            lemma_list_after_next_total(s.without_current());
        }
    }
}

/// Queues that are all empty hold no value.
pub proof fn lemma_total_len_of_empty<T>(queues: Seq<Seq<T>>)
    requires
        forall|i: int| 0 <= i < queues.len() ==> (#[trigger] queues[i]).len() == 0,
    ensures
        total_len(queues) == 0,
    decreases queues.len(),
{
    if queues.len() > 0 {
        lemma_total_len_of_empty(queues.drop_last());
    }
}

/// A list yields as many values as its producers hold together.
pub proof fn lemma_list_output_len<T>(s: ListState<T>)
    requires
        s.in_range(),
    ensures
        s.output().len() == total_len(s.queues),
    decreases total_len(s.queues),
{
    lemma_list_after_next_total(s);
    lemma_list_after_next(s);
    if s.after_next().0 is Some {
        lemma_list_output_len(s.after_next().1);
    }
}

/// A list without producers, or whose producers all have nothing left,
/// gives nothing at the first pull already.
pub proof fn lemma_list_empty<T>(s: ListState<T>)
    requires
        s.in_range(),
        total_len(s.queues) == 0,
    ensures
        s.output() == Seq::<T>::empty(),
        s.after_next().0 is None,
{
    lemma_list_output_len(s);
    lemma_list_after_next(s);
}

/// A pull takes the head of the list's output and leaves the rest, and the
/// cursor stays within the list.
pub proof fn lemma_list_after_next<T>(s: ListState<T>)
    requires
        s.in_range(),
    ensures
        s.after_next().0 == head_of(s.output()),
        s.after_next().1.output() == tail_of(s.output()),
        s.after_next().1.in_range(),
    decreases s.queues.len(),
{
    if s.queues.len() > 0 && s.queues[s.current].len() == 0 {
        lemma_list_after_next(s.without_current());
    }
}

/// A merge of queues is as well a merge of the same queues with an empty
/// one put among them.
pub proof fn lemma_merge_with_empty<T>(out: Seq<T>, queues: Seq<Seq<T>>, position: int)
    requires
        0 <= position < queues.len(),
        queues[position].len() == 0,
        is_merge(out, queues.remove(position)),
    ensures
        is_merge(out, queues),
    decreases out.len(),
{
    let fewer = queues.remove(position);
    if out.len() == 0 {
        assert forall|i: int| 0 <= i < queues.len() implies (#[trigger] queues[i]).len() == 0 by {
            if i < position {
                assert(fewer[i] == queues[i]);
            } else if i > position {
                assert(fewer[i - 1] == queues[i]);
            }
        }
    } else {
        let from = choose|i: int| #[trigger]
            merge_from(out, fewer, i) && is_merge(
                out.drop_first(),
                fewer.update(i, fewer[i].drop_first()),
            );
        let here = if from < position {
            from
        } else {
            from + 1
        };
        let left = queues.update(here, queues[here].drop_first());
        assert(left.remove(position) =~= fewer.update(from, fewer[from].drop_first()));
        lemma_merge_with_empty(out.drop_first(), left, position);
        assert(merge_from(out, queues, here));
    }
}

/// Conservation, with the order kept: what a list yields is a merge of what
/// its producers hold. Every value of every producer comes out once, no
/// other value does, and the values of each producer come in its own order.
pub proof fn lemma_output_is_merge<T>(s: ListState<T>)
    requires
        s.in_range(),
    ensures
        is_merge(s.output(), s.queues),
    decreases total_len(s.queues), s.queues.len(),
{
    lemma_list_after_next(s);
    lemma_list_after_next_total(s);
    if s.queues.len() > 0 {
        if s.queues[s.current].len() > 0 {
            lemma_output_is_merge(s.advanced());
            assert(merge_from(s.output(), s.queues, s.current));
        } else {
            let fewer = s.without_current();
            lemma_total_len_remove(s.queues, s.current);
            lemma_mod_bound(s.current, at_least_one(fewer.queues.len()));
            lemma_output_is_merge(fewer);
            lemma_merge_with_empty(s.output(), s.queues, s.current);
        }
    }
}

/// A sequence is the shuffle of itself and nothing.
pub proof fn lemma_shuffle_with_nothing<T>(out: Seq<T>)
    ensures
        is_shuffle(out, out, Seq::empty()),
    decreases out.len(),
{
    if out.len() > 0 {
        lemma_shuffle_with_nothing(out.drop_first());
    }
}

/// What a list yields is a shuffle of what it would yield without its last
/// producer and of what that producer holds. Without the last producer, the
/// cursor stands where it stood, or at the start if it stood on that
/// producer.
pub proof fn lemma_last_is_shuffled_in<T>(s: ListState<T>)
    requires
        s.queues.len() > 0,
        s.in_range(),
    ensures
        is_shuffle(
            s.output(),
            ListState {
                queues: s.queues.drop_last(),
                current: s.current % at_least_one((s.queues.len() - 1) as nat),
            }.output(),
            s.queues.last(),
        ),
    decreases total_len(s.queues), s.queues.len(),
{
    let others = s.queues.len() - 1;
    let last = s.queues.last();
    let without = ListState {
        queues: s.queues.drop_last(),
        current: s.current % at_least_one(others as nat),
    };
    lemma_list_after_next(s);
    lemma_list_after_next_total(s);
    if s.current < others {
        lemma_fundamental_div_mod_converse(s.current, at_least_one(others as nat), 0, s.current);
        if s.queues[s.current].len() > 0 {
            let next = s.advanced();
            let next_without = without.advanced();
            assert(next.queues.drop_last() =~= next_without.queues);
            lemma_fundamental_div_mod_converse(s.current + 1, others + 1, 0, s.current + 1);
            if s.current + 1 < others {
                lemma_fundamental_div_mod_converse(s.current + 1, others, 0, s.current + 1);
            } else {
                lemma_fundamental_div_mod_converse(s.current + 1, others, 1, 0);
                lemma_fundamental_div_mod_converse(
                    s.current + 1,
                    at_least_one(others as nat),
                    1,
                    0,
                );
            }
            lemma_last_is_shuffled_in(next);
            assert(without.output().drop_first() =~= next_without.output());
        } else {
            let next = s.without_current();
            let next_without = without.without_current();
            lemma_total_len_remove(s.queues, s.current);
            assert(next.queues.drop_last() =~= next_without.queues);
            lemma_mod_bound(s.current, at_least_one((others - 1) as nat));
            lemma_last_is_shuffled_in(next);
        }
    } else {
        if others > 0 {
            lemma_fundamental_div_mod_converse(s.current, at_least_one(others as nat), 1, 0);
        } else {
            lemma_fundamental_div_mod_converse(s.current, at_least_one(others as nat), 0, 0);
        }
        if last.len() > 0 {
            let next = s.advanced();
            lemma_fundamental_div_mod_converse(s.current + 1, others + 1, 1, 0);
            lemma_fundamental_div_mod_converse(0, at_least_one(others as nat), 0, 0);
            assert(next.queues.drop_last() =~= without.queues);
            lemma_last_is_shuffled_in(next);
        } else {
            lemma_shuffle_with_nothing(s.output());
            assert(last =~= Seq::<T>::empty());
        }
    }
}

/// A producer added to a list is shuffled into what the list yields: with
/// the added producer, the list yields the values that it would have yielded
/// without it, in the same order, and among them the values of the added
/// producer, in its order.
pub proof fn lemma_added_is_shuffled_in<T>(s: ListState<T>, queue: Seq<T>)
    requires
        s.in_range(),
    ensures
        is_shuffle(s.with_added(queue).output(), s.output(), queue),
{
    let added = s.with_added(queue);
    if s.queues.len() > 0 {
        lemma_fundamental_div_mod_converse(
            s.current,
            at_least_one(s.queues.len()),
            0,
            s.current,
        );
    } else {
        lemma_fundamental_div_mod_converse(0, 1, 0, 0);
    }
    assert(added.queues.drop_last() =~= s.queues);
    lemma_last_is_shuffled_in(added);
}

/// A producer added during a round waits for its turn: as long as a producer
/// between the cursor and the end of the list has a value left, the next
/// pull gives what it would have given without the addition, and leaves the
/// same producers with the added one behind them. Where the cursor would
/// have gone back to the start, it goes to the added producer instead.
pub proof fn lemma_added_waits_its_turn<T>(s: ListState<T>, queue: Seq<T>)
    requires
        s.in_range(),
        s.round_has_value(),
    ensures
        s.with_added(queue).after_next().0 == s.after_next().0,
        s.with_added(queue).after_next().1.queues == s.after_next().1.queues.push(queue),
        s.with_added(queue).after_next().1.current == if s.after_next().1.current == 0 {
            s.after_next().1.queues.len() as int
        } else {
            s.after_next().1.current
        },
    decreases s.queues.len(),
{
    let count = s.queues.len() as int;
    let ahead = choose|j: int|
        s.current <= j < s.queues.len() && (#[trigger] s.queues[j]).len() > 0;
    if s.queues[s.current].len() > 0 {
        lemma_fundamental_div_mod_converse(s.current + 1, count + 1, 0, s.current + 1);
        if s.current + 1 < count {
            lemma_fundamental_div_mod_converse(s.current + 1, count, 0, s.current + 1);
        } else {
            lemma_fundamental_div_mod_converse(s.current + 1, count, 1, 0);
        }
    } else {
        let rest = s.without_current();
        assert(s.queues.push(queue).remove(s.current) =~= s.queues.remove(s.current).push(queue));
        lemma_fundamental_div_mod_converse(
            s.current,
            at_least_one((count - 1) as nat),
            0,
            s.current,
        );
        lemma_fundamental_div_mod_converse(s.current, at_least_one(count as nat), 0, s.current);
        assert(rest.queues[ahead - 1] == s.queues[ahead]);
        lemma_added_waits_its_turn(rest, queue);
    }
}

/// A producer added during a round leaves the rest of the round as it was:
/// as long as the pulls are served before the end of the list and the cursor
/// has not gone back to the start, the list gives with the added producer
/// what it gives without it, pull by pull, and the added producer stands
/// behind the others, untouched.
pub proof fn lemma_added_leaves_the_round<T>(s: ListState<T>, queue: Seq<T>, pulls: nat)
    requires
        s.in_range(),
        forall|k: nat|
            k < pulls ==> {
                &&& (#[trigger] s.after(k)).round_has_value()
                &&& s.after(k).after_next().1.current != 0
            },
    ensures
        s.with_added(queue).after(pulls) == s.after(pulls).with_added(queue),
        s.after(pulls).in_range(),
        pulls > 0 ==> s.with_added(queue).after((pulls - 1) as nat).after_next().0 == s.after(
            (pulls - 1) as nat,
        ).after_next().0,
    decreases pulls,
{
    if pulls > 0 {
        let before = s.after((pulls - 1) as nat);
        lemma_added_leaves_the_round(s, queue, (pulls - 1) as nat);
        lemma_added_waits_its_turn(before, queue);
        lemma_list_after_next(before);
    }
}

/// A producer added during a round is served at the end of the list: when
/// no producer between the cursor and the end has a value left, the next
/// pull drops those producers and gives the first value of the added one,
/// before the round starts again.
pub proof fn lemma_added_is_served_at_the_end<T>(s: ListState<T>, queue: Seq<T>)
    requires
        s.in_range(),
        !s.round_has_value(),
        queue.len() > 0,
    ensures
        s.with_added(queue).after_next() == (
            Some(queue[0]),
            ListState { queues: s.queues.take(s.current).push(queue.drop_first()), current: 0 },
        ),
    decreases s.queues.len() - s.current,
{
    let count = s.queues.len() as int;
    let added = s.with_added(queue);
    if s.current < count {
        let rest = ListState { queues: s.queues.remove(s.current), current: s.current };
        assert(added.queues.remove(s.current) =~= rest.queues.push(queue));
        lemma_fundamental_div_mod_converse(s.current, at_least_one(count as nat), 0, s.current);
        assert(rest.queues.take(rest.current) =~= s.queues.take(s.current));
        if rest.current < rest.queues.len() {
            lemma_added_is_served_at_the_end(rest, queue);
        } else {
            lemma_added_at_the_cursor(rest, queue);
        }
    } else {
        lemma_added_at_the_cursor(s, queue);
    }
}

/// A producer added to a list that the cursor has left behind is the next
/// one to be asked.
proof fn lemma_added_at_the_cursor<T>(s: ListState<T>, queue: Seq<T>)
    requires
        0 <= s.current == s.queues.len(),
        queue.len() > 0,
    ensures
        s.with_added(queue).after_next() == (
            Some(queue[0]),
            ListState { queues: s.queues.take(s.current).push(queue.drop_first()), current: 0 },
        ),
{
    let count = s.queues.len() as int;
    lemma_fundamental_div_mod_converse(count + 1, count + 1, 1, 0);
    assert(s.queues.take(s.current) =~= s.queues);
    assert(s.queues.push(queue).update(s.current, queue.drop_first()) =~= s.queues.push(
        queue.drop_first(),
    ));
}

/// The total counts the first queue and then the others.
pub proof fn lemma_total_len_front<T>(queues: Seq<Seq<T>>)
    requires
        queues.len() > 0,
    ensures
        total_len(queues) == queues[0].len() + total_len(queues.drop_first()),
    decreases queues.len(),
{
    if queues.len() > 1 {
        lemma_total_len_front(queues.drop_last());
        assert(queues.drop_last().drop_first() =~= queues.drop_first().drop_last());
    } else {
        assert(queues.drop_first() =~= queues.drop_last());
    }
}

/// A round gives one value for each value that it takes out of the queues,
/// and gives a value as long as a queue has one.
pub proof fn lemma_round_total<T>(queues: Seq<Seq<T>>)
    ensures
        total_len(after_round(queues)) + round_values(queues).len() == total_len(queues),
        total_len(queues) > 0 ==> round_values(queues).len() > 0,
        total_len(queues) == 0 ==> after_round(queues).len() == 0,
    decreases queues.len(),
{
    if queues.len() > 0 {
        lemma_total_len_front(queues);
        lemma_round_total(queues.drop_first());
        if queues[0].len() > 0 {
            let rest = after_round(queues.drop_first());
            let left = seq![queues[0].drop_first()] + rest;
            lemma_total_len_front(left);
            assert(left.drop_first() =~= rest);
        }
    }
}

/// The values by rounds are those of the first round, then those by rounds of
/// what it leaves.
pub proof fn lemma_by_rounds_unfold<T>(queues: Seq<Seq<T>>)
    ensures
        by_rounds(queues) == round_values(queues) + by_rounds(after_round(queues)),
{
    lemma_round_total(queues);
}

/// In the middle of a round, a list yields what the round still has to give
/// from the cursor on, and then by rounds what the producers before the
/// cursor hold and what the round leaves of the others.
proof fn lemma_mid_round<T>(s: ListState<T>)
    requires
        s.in_range(),
        s.queues.len() > 0,
    ensures
        s.output() == round_values(s.queues.skip(s.current)) + by_rounds(
            s.queues.take(s.current) + after_round(s.queues.skip(s.current)),
        ),
    decreases total_len(s.queues), s.queues.len(), 0int,
{
    let count = s.queues.len() as int;
    let done = s.queues.take(s.current);
    let todo = s.queues.skip(s.current);
    let later = s.queues.skip(s.current + 1);
    assert(todo.drop_first() =~= later);
    lemma_list_after_next(s);
    lemma_list_after_next_total(s);
    if s.queues[s.current].len() > 0 {
        let left = s.queues[s.current].drop_first();
        let next = s.advanced();
        if s.current + 1 < count {
            lemma_fundamental_div_mod_converse(s.current + 1, count, 0, s.current + 1);
            assert(next.queues.skip(next.current) =~= later);
            assert(next.queues.take(next.current) =~= done + seq![left]);
            assert(done + (seq![left] + after_round(later)) =~= (done + seq![left]) + after_round(
                later,
            ));
            lemma_mid_round(next);
        } else {
            lemma_fundamental_div_mod_converse(s.current + 1, count, 1, 0);
            assert(done + (seq![left] + after_round(later)) =~= next.queues);
            lemma_round_start(next);
        }
    } else {
        let next = s.without_current();
        lemma_total_len_remove(s.queues, s.current);
        assert(round_values(todo) == round_values(later));
        if s.current < count - 1 {
            lemma_fundamental_div_mod_converse(
                s.current,
                at_least_one((count - 1) as nat),
                0,
                s.current,
            );
            assert(next.queues.skip(next.current) =~= later);
            assert(next.queues.take(next.current) =~= done);
            lemma_mid_round(next);
        } else {
            if count > 1 {
                lemma_fundamental_div_mod_converse(
                    s.current,
                    at_least_one((count - 1) as nat),
                    1,
                    0,
                );
                lemma_round_start(next);
            } else {
                lemma_by_rounds_unfold(done);
                assert(after_round(done) =~= done);
            }
        }
    }
}

/// At the start of a round, a list yields the values of its producers by
/// rounds.
proof fn lemma_round_start<T>(s: ListState<T>)
    requires
        s.in_range(),
        s.current == 0,
    ensures
        s.output() == by_rounds(s.queues),
    decreases total_len(s.queues), s.queues.len(), 1int,
{
    lemma_by_rounds_unfold(s.queues);
    if s.queues.len() > 0 {
        lemma_mid_round(s);
        assert(s.queues.skip(0) =~= s.queues);
    } else {
        lemma_list_empty(s);
    }
}

/// Round-robin fairness over the whole drain. A list pulled from its start
/// until nothing is left gives the values of its producers by rounds: in
/// every round one value of each producer that still has one, in list
/// order. So at every point the producers that are still live have given as
/// many values as there were full rounds, or one more.
pub proof fn lemma_drain_by_rounds<T>(queues: Seq<Seq<T>>)
    ensures
        ListState::start(queues).output() == by_rounds(queues),
{
    lemma_round_start(ListState::start(queues));
}

/// Among the first `pulls` pulls, every producer has its share to within
/// one: the number of full rounds, and one more for the producers that the
/// round under way has reached.
pub proof fn lemma_turns_even(count: int, position: int, pulls: int)
    requires
        0 <= position < count,
        0 <= pulls,
    ensures
        turns(count, position, pulls) == pulls / count + if position < pulls % count {
            1int
        } else {
            0int
        },
{
    let round = pulls / count;
    let reached = pulls % count;
    lemma_fundamental_div_mod(pulls, count);
    lemma_mod_bound(pulls, count);
    assert(count * round == round * count) by (nonlinear_arith);
    assert((round + 1) * count == round * count + count) by (nonlinear_arith);
    if position < reached {
        lemma_fundamental_div_mod_converse(
            pulls + count - 1 - position,
            count,
            round + 1,
            reached - 1 - position,
        );
    } else {
        lemma_fundamental_div_mod_converse(
            pulls + count - 1 - position,
            count,
            round,
            reached + count - 1 - position,
        );
    }
}

/// As long as no producer is asked for more than it holds, a pull gives the
/// value whose turn it is, and leaves the state of one pull more.
proof fn lemma_fair_step<T>(queues: Seq<Seq<T>>, pulls: int)
    requires
        queues.len() > 0,
        0 <= pulls,
        forall|i: int|
            0 <= i < queues.len() ==> turns(queues.len() as int, i, pulls + 1) <= queues[i].len(),
    ensures
        0 <= pulls % (queues.len() as int) < queues.len(),
        0 <= pulls / (queues.len() as int) < queues[pulls % (queues.len() as int)].len(),
        ListState::fair_state(queues, pulls).after_next() == (
            Some(queues[pulls % (queues.len() as int)][pulls / (queues.len() as int)]),
            ListState::fair_state(queues, pulls + 1),
        ),
{
    let count = queues.len() as int;
    let round = pulls / count;
    let reached = pulls % count;
    let before = ListState::fair_state(queues, pulls);
    let after = ListState::fair_state(queues, pulls + 1);
    lemma_fundamental_div_mod(pulls, count);
    lemma_fundamental_div_mod(pulls + 1, count);
    lemma_mod_bound(pulls, count);
    lemma_mod_bound(pulls + 1, count);
    lemma_div_is_ordered(0, pulls, count);
    assert((round + 1) * count == round * count + count) by (nonlinear_arith);
    lemma_turns_even(count, reached, pulls);
    assert forall|i: int| 0 <= i < count implies turns(count, i, pulls + 1) == turns(
        count,
        i,
        pulls,
    ) + if i == reached {
        1int
    } else {
        0int
    } by {
        lemma_turns_even(count, i, pulls);
        lemma_turns_even(count, i, pulls + 1);
        if reached + 1 < count {
            lemma_fundamental_div_mod_converse(pulls + 1, count, round, reached + 1);
        } else {
            lemma_fundamental_div_mod_converse(pulls + 1, count, round + 1, 0);
        }
    }
    assert(before.advanced().queues =~= after.queues) by {
        assert(before.queues[reached].drop_first() =~= queues[reached].skip(round + 1));
    }
    assert((reached + 1) % count == (pulls + 1) % count) by {
        if reached + 1 < count {
            lemma_fundamental_div_mod_converse(reached + 1, count, 0, reached + 1);
            lemma_fundamental_div_mod_converse(pulls + 1, count, round, reached + 1);
        } else {
            lemma_fundamental_div_mod_converse(reached + 1, count, 1, 0);
            lemma_fundamental_div_mod_converse(pulls + 1, count, round + 1, 0);
        }
    }
}

/// From the state reached after `done` fair pulls, pull `k` of the whole run
/// is pull `k - done`, and gives the value whose turn it is.
proof fn lemma_fair_from<T>(queues: Seq<Seq<T>>, done: int, k: int)
    requires
        queues.len() > 0,
        0 <= done <= k,
        forall|i: int|
            0 <= i < queues.len() ==> turns(queues.len() as int, i, k + 1) <= queues[i].len(),
    ensures
        k - done < ListState::fair_state(queues, done).output().len(),
        0 <= k % (queues.len() as int) < queues.len(),
        0 <= k / (queues.len() as int) < queues[k % (queues.len() as int)].len(),
        ListState::fair_state(queues, done).output()[k - done] == queues[k % (queues.len()
            as int)][k / (queues.len() as int)],
    decreases k - done,
{
    let count = queues.len() as int;
    assert forall|i: int| 0 <= i < count implies turns(count, i, done + 1) <= queues[i].len() by {
        lemma_div_is_ordered(done + 1 + count - 1 - i, k + 1 + count - 1 - i, count);
    }
    lemma_fair_step(queues, done);
    if done < k {
        lemma_fair_from(queues, done + 1, k);
    }
}

/// Before the first pull no producer has given anything.
proof fn lemma_fair_state_start<T>(queues: Seq<Seq<T>>)
    requires
        queues.len() > 0,
    ensures
        ListState::fair_state(queues, 0) == ListState::start(queues),
{
    let count = queues.len() as int;
    let first = ListState::fair_state(queues, 0);
    assert(first.queues =~= queues) by {
        assert forall|i: int| 0 <= i < count implies first.queues[i] == queues[i] by {
            lemma_turns_even(count, i, 0);
            lemma_fundamental_div_mod_converse(0, count, 0, 0);
        }
    }
    lemma_fundamental_div_mod_converse(0, count, 0, 0);
}

/// Round-robin fairness, by values. As long as no producer is asked for more
/// than it holds, which [`turns`] counts, the list gives one value of each
/// producer per round, in list order: pull `k`, counting from 0, gives value
/// `k / n` of producer `k % n`, where `n` is the number of producers.
pub proof fn lemma_fair_pull<T>(queues: Seq<Seq<T>>, k: int)
    requires
        queues.len() > 0,
        0 <= k,
        forall|i: int|
            0 <= i < queues.len() ==> turns(queues.len() as int, i, k + 1) <= queues[i].len(),
    ensures
        k < ListState::start(queues).output().len(),
        0 <= k % (queues.len() as int) < queues.len(),
        0 <= k / (queues.len() as int) < queues[k % (queues.len() as int)].len(),
        ListState::start(queues).output()[k] == queues[k % (queues.len() as int)][k / (
        queues.len() as int)],
{
    lemma_fair_state_start(queues);
    lemma_fair_from(queues, 0, k);
}

/// Round-robin fairness, by state. As long as no producer is asked for more
/// than it holds, `pulls` pulls have taken from each producer its [`turns`]:
/// by [`lemma_turns_even`] as many values as there were full rounds, or one
/// more, and no producer has left the list.
pub proof fn lemma_fair_state<T>(queues: Seq<Seq<T>>, pulls: nat)
    requires
        queues.len() > 0,
        forall|i: int|
            0 <= i < queues.len() ==> turns(queues.len() as int, i, pulls as int)
                <= queues[i].len(),
    ensures
        ListState::start(queues).after(pulls) == ListState::fair_state(queues, pulls as int),
    decreases pulls,
{
    if pulls == 0 {
        lemma_fair_state_start(queues);
    } else {
        let count = queues.len() as int;
        assert forall|i: int| 0 <= i < count implies turns(count, i, pulls - 1)
            <= queues[i].len() by {
            lemma_div_is_ordered(pulls - 1 + count - 1 - i, pulls + count - 1 - i, count);
            assert(turns(count, i, pulls as int) <= queues[i].len());
        }
        lemma_fair_state(queues, (pulls - 1) as nat);
        lemma_fair_step(queues, pulls - 1);
    }
}

} // verus!
