//! The pull contract shared by every source of values and by the combinators.
//!
//! A producer is described by the sequence of values it has yet to yield.
//! A forward pull takes the head of that sequence, a tail-end pull its last
//! value. What a producer reports about the length of that sequence is kept
//! apart from the sequence itself, so that a report may be loose.

use vstd::prelude::*;
use vstd::seq_lib::lemma_multiset_commutative;

/// The type of the sequences that contracts speak of, for implementations of
/// the traits that are written outside verified code.
pub use vstd::seq::Seq as Values;

verus! {

/// The value at the head of `s`, if there is one.
pub open spec fn head_of<T>(s: Seq<T>) -> Option<T> {
    if s.len() > 0 {
        Some(s[0])
    } else {
        None
    }
}

/// `s` without its head; `s` itself when it is empty.
pub open spec fn tail_of<T>(s: Seq<T>) -> Seq<T> {
    if s.len() > 0 {
        s.drop_first()
    } else {
        s
    }
}

/// The value at the end of `s`, if there is one.
pub open spec fn last_of<T>(s: Seq<T>) -> Option<T> {
    if s.len() > 0 {
        Some(s.last())
    } else {
        None
    }
}

/// `s` without its last value; `s` itself when it is empty.
pub open spec fn front_of<T>(s: Seq<T>) -> Seq<T> {
    if s.len() > 0 {
        s.drop_last()
    } else {
        s
    }
}

/// What a run of pulls has taken from a sequence, and what it has left.
pub struct Pulls<T> {
    /// The values taken from the head, in the order in which they came.
    pub heads: Seq<T>,
    /// The values taken from the tail, in the order in which they came.
    pub tails: Seq<T>,
    /// The values not taken.
    pub rest: Seq<T>,
}

/// The effect on `s` of one pull for each entry of `from_head`, in order: a
/// pull from the head where the entry is `true`, from the tail where it is
/// `false`. A pull that finds nothing left takes nothing.
pub open spec fn pulls<T>(s: Seq<T>, from_head: Seq<bool>) -> Pulls<T>
    decreases from_head.len(),
{
    if from_head.len() == 0 {
        Pulls { heads: Seq::empty(), tails: Seq::empty(), rest: s }
    } else {
        let before = pulls(s, from_head.drop_last());
        if from_head.last() {
            match head_of(before.rest) {
                Some(v) => Pulls {
                    heads: before.heads.push(v),
                    tails: before.tails,
                    rest: tail_of(before.rest),
                },
                None => before,
            }
        } else {
            match last_of(before.rest) {
                Some(v) => Pulls {
                    heads: before.heads,
                    tails: before.tails.push(v),
                    rest: front_of(before.rest),
                },
                None => before,
            }
        }
    }
}

/// A lower bound and, where one is known, an upper bound on a count.
pub type Bounds = (nat, Option<nat>);

/// Whether both bounds can be held in a `usize`.
pub open spec fn bounds_fit(b: Bounds) -> bool {
    &&& b.0 <= usize::MAX
    &&& b.1 matches Some(u) ==> u <= usize::MAX
}

/// Whether `n` lies within the bounds.
pub open spec fn within_bounds(b: Bounds, n: nat) -> bool {
    &&& b.0 <= n
    &&& b.1 matches Some(u) ==> n <= u
}

/// The bounds that a reported pair of machine integers stands for.
pub open spec fn bounds_of(reported: (usize, Option<usize>)) -> Bounds {
    (
        reported.0 as nat,
        match reported.1 {
            Some(u) => Some(u as nat),
            None => None,
        },
    )
}

/// A source of a finite sequence of values of type `Item`, consumed from the
/// head.
pub trait Producer<Item> {
    /// The values still to be produced, the next one first.
    spec fn remaining(&self) -> Seq<Item>;

    /// The invariant of the producer's own state, which its constructors
    /// establish and every pull keeps. A producer without one keeps this
    /// default.
    open spec fn wf(&self) -> bool {
        true
    }

    /// Whether a pull from the tail is within machine limits. A producer
    /// that chooses between parts by what each has left needs each of those
    /// counts to fit in a `usize`, and its parts to be ready in turn; every
    /// pull keeps that. A producer that counts nothing keeps this default.
    open spec fn tail_ready(&self) -> bool {
        true
    }

    /// Yields the next value, or `None` once nothing remains.
    fn produce_next(&mut self) -> (r: Option<Item>)
        requires
            old(self).wf(),
        ensures
            final(self).wf(),
            old(self).tail_ready() ==> final(self).tail_ready(),
            r == head_of(old(self).remaining()),
            final(self).remaining() == tail_of(old(self).remaining()),
    ;
}

/// A producer that reports bounds on how many values remain.
pub trait CountedProducer<Item>: Producer<Item> {
    /// The bounds this producer reports.
    spec fn bounds(&self) -> Bounds;

    /// Whether the report can be made in machine integers.
    spec fn count_in_range(&self) -> bool;

    /// Tests whether the report can be made in machine integers, which is
    /// what [`CountedProducer::remaining_count`] asks of its caller.
    fn count_fits(&self) -> (b: bool)
        ensures
            b == self.count_in_range(),
    ;

    /// The reported bounds hold of what remains.
    proof fn lemma_bounds_hold(&self)
        ensures
            within_bounds(self.bounds(), self.remaining().len()),
    ;

    /// Reports a lower bound and, where known, an upper bound on the number
    /// of values that remain.
    fn remaining_count(&self) -> (r: (usize, Option<usize>))
        requires
            self.count_in_range(),
        ensures
            bounds_of(r) == self.bounds(),
    ;
}

/// A counted producer whose report is exact: it can be made just when the
/// number of values that remain fits in a `usize`, and both bounds are then
/// that number.
pub trait ExactProducer<Item>: CountedProducer<Item> {
    /// The report can be made just when the number of values that remain
    /// fits in a `usize`, and both reported bounds are then that number.
    proof fn lemma_count_exact(&self)
        ensures
            self.count_in_range() <==> self.remaining().len() <= usize::MAX,
            self.count_in_range() ==> self.bounds() == (
                self.remaining().len(),
                Some(self.remaining().len()),
            ),
    ;

    /// The number of values that remain.
    fn len(&self) -> (n: usize)
        requires
            self.remaining().len() <= usize::MAX,
        ensures
            n == self.remaining().len(),
    {
        proof {
            self.lemma_count_exact();
        }
        self.remaining_count().0
    }
}

/// A producer that can also be consumed from the tail.
pub trait BidirectionalProducer<Item>: Producer<Item> {
    /// Tests whether a pull from the tail is within machine limits, which is
    /// what [`BidirectionalProducer::produce_previous`] asks of its caller.
    fn tail_fits(&self) -> (b: bool)
        ensures
            b == self.tail_ready(),
    ;

    /// Yields the last of the remaining values, or `None` once nothing
    /// remains.
    fn produce_previous(&mut self) -> (r: Option<Item>)
        requires
            old(self).wf(),
            old(self).tail_ready(),
        ensures
            final(self).wf(),
            final(self).tail_ready(),
            r == last_of(old(self).remaining()),
            final(self).remaining() == front_of(old(self).remaining()),
    ;
}

/// A producer behind an owned handle that hides its type, so that producers
/// of different types can stand in one list.
impl<'a, Item> Producer<Item> for Box<dyn Producer<Item> + 'a> {
    open spec fn remaining(&self) -> Seq<Item> {
        (**self).remaining()
    }

    open spec fn wf(&self) -> bool {
        (**self).wf()
    }

    open spec fn tail_ready(&self) -> bool {
        (**self).tail_ready()
    }

    fn produce_next(&mut self) -> (r: Option<Item>) {
        (**self).produce_next()
    }
}

/// However pulls from the head and from the tail are mixed, no value comes
/// twice and none is passed over: the values taken from the head, then what
/// is left, then the values taken from the tail in reverse, are the sequence
/// as it was. Every pull takes a value as long as one is left, and once as
/// many pulls were made as there were values, the values taken are those of
/// the sequence, each as often as it stood there.
pub proof fn lemma_pulls_partition<T>(s: Seq<T>, from_head: Seq<bool>)
    ensures
        pulls(s, from_head).heads + pulls(s, from_head).rest + pulls(s, from_head).tails.reverse()
            == s,
        pulls(s, from_head).heads.len() + pulls(s, from_head).tails.len() == if from_head.len()
            <= s.len() {
            from_head.len()
        } else {
            s.len()
        },
        from_head.len() >= s.len() ==> (pulls(s, from_head).heads + pulls(
            s,
            from_head,
        ).tails).to_multiset() == s.to_multiset(),
    decreases from_head.len(),
{
    if from_head.len() > 0 {
        lemma_pulls_partition(s, from_head.drop_last());
    }
    if from_head.len() >= s.len() {
        let after = pulls(s, from_head);
        lemma_multiset_commutative(after.heads, after.tails.reverse());
        after.tails.lemma_reverse_to_multiset();
        lemma_multiset_commutative(after.heads, after.tails);
    }
}

/// However pulls from the head and from the tail are mixed, the values taken
/// from the head are the first values of the sequence, in its order, the
/// values taken from the tail are its last values, last first, and what is
/// left is the part between them. So a pull gives nothing exactly when as
/// many values were taken before it as the sequence had.
pub proof fn lemma_pulls_ends<T>(s: Seq<T>, from_head: Seq<bool>)
    ensures
        pulls(s, from_head).heads.len() + pulls(s, from_head).tails.len() + pulls(
            s,
            from_head,
        ).rest.len() == s.len(),
        pulls(s, from_head).heads == s.take(pulls(s, from_head).heads.len() as int),
        pulls(s, from_head).rest == s.subrange(
            pulls(s, from_head).heads.len() as int,
            s.len() - pulls(s, from_head).tails.len(),
        ),
        pulls(s, from_head).tails == s.skip(
            s.len() - pulls(s, from_head).tails.len(),
        ).reverse(),
{
    lemma_pulls_partition(s, from_head);
}

/// Pulled from the tail alone until nothing is left, a sequence comes out in
/// reverse; pulled from the head alone, as it stands.
pub proof fn lemma_pulls_one_end<T>(s: Seq<T>, from_head: Seq<bool>)
    requires
        from_head.len() == s.len(),
    ensures
        (forall|i: int| 0 <= i < from_head.len() ==> !from_head[i]) ==> pulls(s, from_head).tails
            == s.reverse(),
        (forall|i: int| 0 <= i < from_head.len() ==> from_head[i]) ==> pulls(s, from_head).heads
            == s,
{
    lemma_pulls_one_end_counts(s, from_head);
    lemma_pulls_partition(s, from_head);
}

/// Pulls from one end alone take nothing from the other.
pub proof fn lemma_pulls_one_end_counts<T>(s: Seq<T>, from_head: Seq<bool>)
    ensures
        (forall|i: int| 0 <= i < from_head.len() ==> !from_head[i]) ==> pulls(
            s,
            from_head,
        ).heads.len() == 0,
        (forall|i: int| 0 <= i < from_head.len() ==> from_head[i]) ==> pulls(
            s,
            from_head,
        ).tails.len() == 0,
    decreases from_head.len(),
{
    if from_head.len() > 0 {
        lemma_pulls_one_end_counts(s, from_head.drop_last());
    }
}

/// Pulls from the head until nothing remains; the values come back in the
/// order in which they were produced.
pub fn collect_all<Item, P: Producer<Item>>(producer: P) -> (values: Vec<Item>)
    requires
        producer.wf(),
    ensures
        values@ == producer.remaining(),
{
    let mut producer = producer;
    let ghost all = producer.remaining();
    let mut values: Vec<Item> = Vec::new();
    loop
        invariant
            producer.wf(),
            values@ + producer.remaining() == all,
        ensures
            values@ == all,
        decreases producer.remaining().len(),
    {
        match producer.produce_next() {
            Some(v) => {
                values.push(v);
            },
            None => {
                break ;
            },
        }
    }
    values
}

/// Pulls from the tail until nothing remains; the values come back last
/// first, the reverse of what head pulls would have given.
pub fn collect_all_reversed<Item, P: BidirectionalProducer<Item>>(producer: P) -> (values: Vec<
    Item,
>)
    requires
        producer.wf(),
        producer.tail_ready(),
    ensures
        values@ == producer.remaining().reverse(),
{
    let mut producer = producer;
    let ghost all = producer.remaining();
    let mut values: Vec<Item> = Vec::new();
    loop
        invariant
            producer.wf(),
            producer.tail_ready(),
            producer.remaining() + values@.reverse() == all,
        ensures
            values@ == all.reverse(),
        decreases producer.remaining().len(),
    {
        match producer.produce_previous() {
            Some(v) => {
                values.push(v);
            },
            None => {
                break ;
            },
        }
    }
    values
}

} // verus!
