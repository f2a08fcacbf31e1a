//! Alternation between exactly two producers.
//!
//! [`BiAltern`] holds two producers of the same item type, one per slot, and
//! a cursor that says which slot serves the next forward pull. It yields one
//! value from each side in turn. A side that is pulled and gives nothing
//! leaves its slot for good and is never asked again; the other side is then
//! pulled alone, and once both slots are empty the pair gives nothing and
//! reports that exactly nothing remains.
//!
//! `BiAltern` is itself a producer, so it can be nested. Nesting alternates
//! between subtrees, not between leaves: `BiAltern(BiAltern(a, b), c)` pulls
//! `c` every second time. To visit four producers `a, b, c, d` in that order,
//! pair them as `BiAltern(BiAltern(a, c), BiAltern(b, d))`.
//!
//! When both producers report bounds on what remains, so does the pair; when
//! both report it exactly and can be pulled from the tail, so can the pair,
//! in the exact reverse of the forward order. A pull from the tail compares
//! what the two sides have left, so each of those two counts has to fit in a
//! `usize`; their sum need not.

use crate::producer::{
    bounds_fit, front_of, head_of, last_of, lemma_pulls_ends, lemma_pulls_one_end_counts,
    lemma_pulls_partition, pulls, tail_of, BidirectionalProducer, Bounds, CountedProducer,
    ExactProducer, Producer,
};
use core::marker::PhantomData;
use vstd::prelude::*;
use vstd::seq_lib::lemma_multiset_commutative;

verus! {

/// The alternation of `first` and `second`, starting with `first`: one value
/// from each in turn, and once one side has run out, the rest of the other.
pub open spec fn interleave<T>(first: Seq<T>, second: Seq<T>) -> Seq<T>
    decreases first.len() + second.len(),
{
    if first.len() == 0 {
        second
    } else {
        seq![first[0]] + interleave(second, first.drop_first())
    }
}

/// Value `k` of the alternation of `first` and `second`, in closed form: as
/// long as both sides last, the values at even places are those of `first`
/// and the values at odd places those of `second`, each side in its order;
/// after that come the values that the longer side has left.
pub open spec fn interleave_at<T>(first: Seq<T>, second: Seq<T>, k: int) -> T {
    let shorter = if first.len() <= second.len() {
        first.len() as int
    } else {
        second.len() as int
    };
    if k < 2 * shorter {
        if k % 2 == 0 {
            first[k / 2]
        } else {
            second[k / 2]
        }
    } else if first.len() > second.len() {
        first[k - shorter]
    } else {
        second[k - shorter]
    }
}

/// Whether the last value of the alternation of two sides, of `left_len` and
/// `right_len` values, comes from the right side. The left count is taken one
/// higher when the right side is the next to be pulled forward.
pub open spec fn tail_is_right(left_len: nat, right_len: nat, next_is_left: bool) -> bool {
    right_len >= left_len + if next_is_left {
        0nat
    } else {
        1nat
    }
}

/// The sum of two reports: lower bounds add up, and so do upper bounds where
/// both are known.
pub open spec fn sum_bounds(a: Bounds, b: Bounds) -> Bounds {
    (
        a.0 + b.0,
        match (a.1, b.1) {
            (Some(x), Some(y)) => Some(x + y),
            _ => None,
        },
    )
}

/// A pairwise combinator seen through what each of its producers has yet to
/// yield. A slot is `None` once its producer was pulled and gave nothing; a
/// producer that has given its last value but was not asked again is still
/// in its slot, with nothing to yield.
pub struct PairState<T> {
    pub left: Option<Seq<T>>,
    pub right: Option<Seq<T>>,
    pub next_is_left: bool,
}

/// What a slot still has to give: nothing once it is empty.
pub open spec fn slot_items<T>(slot: Option<Seq<T>>) -> Seq<T> {
    match slot {
        Some(items) => items,
        None => Seq::empty(),
    }
}

/// The value of a forward pull from a producer that has `items` to give, and
/// the slot it leaves: a producer that gives nothing leaves its slot empty.
pub open spec fn slot_after_next<T>(items: Seq<T>) -> (Option<T>, Option<Seq<T>>) {
    if items.len() > 0 {
        (Some(items[0]), Some(items.drop_first()))
    } else {
        (None, None)
    }
}

/// The value of a tail-end pull from a producer that has `items` to give,
/// and the slot it leaves: a producer that gives nothing leaves its slot
/// empty.
pub open spec fn slot_after_previous<T>(items: Seq<T>) -> (Option<T>, Option<Seq<T>>) {
    if items.len() > 0 {
        (Some(items.last()), Some(items.drop_last()))
    } else {
        (None, None)
    }
}

impl<T> PairState<T> {
    /// Everything the pair will yield from the head, in order.
    pub open spec fn output(self) -> Seq<T> {
        if self.next_is_left {
            interleave(slot_items(self.left), slot_items(self.right))
        } else {
            interleave(slot_items(self.right), slot_items(self.left))
        }
    }

    /// The value of a forward pull and the state it leaves.
    ///
    /// With both slots present the cursor side is pulled and the cursor
    /// flips, whatever came; if that side gave nothing, the other side is
    /// pulled instead. With one slot present that side is pulled and the
    /// cursor stays. With no slot present nothing is pulled. Every producer
    /// that is pulled and gives nothing leaves its slot empty.
    pub open spec fn after_next(self) -> (Option<T>, PairState<T>) {
        match (self.left, self.right) {
            (Some(l), Some(r)) => {
                if self.next_is_left {
                    if l.len() > 0 {
                        (
                            Some(l[0]),
                            PairState {
                                left: Some(l.drop_first()),
                                right: self.right,
                                next_is_left: false,
                            },
                        )
                    } else {
                        (
                            slot_after_next(r).0,
                            PairState {
                                left: None,
                                right: slot_after_next(r).1,
                                next_is_left: false,
                            },
                        )
                    }
                } else {
                    if r.len() > 0 {
                        (
                            Some(r[0]),
                            PairState {
                                left: self.left,
                                right: Some(r.drop_first()),
                                next_is_left: true,
                            },
                        )
                    } else {
                        (
                            slot_after_next(l).0,
                            PairState {
                                left: slot_after_next(l).1,
                                right: None,
                                next_is_left: true,
                            },
                        )
                    }
                }
            },
            (Some(l), None) => (
                slot_after_next(l).0,
                PairState { left: slot_after_next(l).1, ..self },
            ),
            (None, Some(r)) => (
                slot_after_next(r).0,
                PairState { right: slot_after_next(r).1, ..self },
            ),
            (None, None) => (None, self),
        }
    }

    /// The state that a run of pulls leads to, one pull for each entry of
    /// `from_head` in order: a forward pull where the entry is `true`, a
    /// tail-end pull where it is `false`.
    pub open spec fn after_pulls(self, from_head: Seq<bool>) -> PairState<T>
        decreases from_head.len(),
    {
        if from_head.len() == 0 {
            self
        } else if from_head.last() {
            self.after_pulls(from_head.drop_last()).after_next().1
        } else {
            self.after_pulls(from_head.drop_last()).after_previous().1
        }
    }

    /// The value that the last pull of a run of pulls gives.
    pub open spec fn last_pulled(self, from_head: Seq<bool>) -> Option<T>
        recommends
            from_head.len() > 0,
    {
        if from_head.last() {
            self.after_pulls(from_head.drop_last()).after_next().0
        } else {
            self.after_pulls(from_head.drop_last()).after_previous().0
        }
    }

    /// The value of a tail-end pull and the state it leaves.
    ///
    /// With both slots present the side chosen by [`tail_is_right`] is
    /// pulled; with one slot present that side is pulled; with no slot
    /// present nothing is pulled. A producer that is pulled and gives
    /// nothing leaves its slot empty. The cursor never moves.
    pub open spec fn after_previous(self) -> (Option<T>, PairState<T>) {
        match (self.left, self.right) {
            (Some(l), Some(r)) => {
                if tail_is_right(l.len(), r.len(), self.next_is_left) {
                    (
                        slot_after_previous(r).0,
                        PairState { right: slot_after_previous(r).1, ..self },
                    )
                } else {
                    (
                        slot_after_previous(l).0,
                        PairState { left: slot_after_previous(l).1, ..self },
                    )
                }
            },
            (Some(l), None) => (
                slot_after_previous(l).0,
                PairState { left: slot_after_previous(l).1, ..self },
            ),
            (None, Some(r)) => (
                slot_after_previous(r).0,
                PairState { right: slot_after_previous(r).1, ..self },
            ),
            (None, None) => (None, self),
        }
    }
}

/// Alternates between two producers of the same item type.
#[verifier::reject_recursive_types(Item)]
pub struct BiAltern<L, R, Item> where L: Producer<Item>, R: Producer<Item> {
    left: Option<L>,
    right: Option<R>,
    next_is_left: bool,
    item: PhantomData<Item>,
}

impl<L, R, Item> View for BiAltern<L, R, Item> where L: Producer<Item>, R: Producer<Item> {
    type V = PairState<Item>;

    open spec fn view(&self) -> PairState<Item> {
        PairState {
            left: match self.left() {
                Some(p) => Some(p.remaining()),
                None => None,
            },
            right: match self.right() {
                Some(p) => Some(p.remaining()),
                None => None,
            },
            next_is_left: self.next_is_left(),
        }
    }
}

impl<L, R, Item> BiAltern<L, R, Item> where L: Producer<Item>, R: Producer<Item> {
    /// The left slot: `None` once the left producer was pulled and gave
    /// nothing.
    pub closed spec fn left(&self) -> Option<L> {
        self.left
    }

    /// The right slot: `None` once the right producer was pulled and gave
    /// nothing.
    pub closed spec fn right(&self) -> Option<R> {
        self.right
    }

    /// Whether a forward pull with both slots present goes to the left.
    pub closed spec fn next_is_left(&self) -> bool {
        self.next_is_left
    }

    /// Creates a combinator over both producers; the left one is pulled first.
    pub fn new(left: L, right: R) -> (r: Self)
        ensures
            r.left() == Some(left),
            r.right() == Some(right),
            r.next_is_left(),
            r.remaining() == interleave(left.remaining(), right.remaining()),
            left.wf() && right.wf() ==> r.wf(),
    {
        BiAltern { left: Some(left), right: Some(right), next_is_left: true, item: PhantomData }
    }
}

/// Pairs a producer with another one, fluently.
pub trait AlternWith<Item>: Producer<Item> + Sized {
    /// Alternates between `self`, pulled first, and `other`.
    fn altern_with<Other: Producer<Item>>(self, other: Other) -> (r: BiAltern<Self, Other, Item>)
        ensures
            r.left() == Some(self),
            r.right() == Some(other),
            r.next_is_left(),
            r.remaining() == interleave(self.remaining(), other.remaining()),
            self.wf() && other.wf() ==> r.wf(),
    ;
}

impl<P: Producer<Item>, Item> AlternWith<Item> for P {
    fn altern_with<Other: Producer<Item>>(self, other: Other) -> (r: BiAltern<Self, Other, Item>) {
        BiAltern::new(self, other)
    }
}

impl<L, R, Item> Producer<Item> for BiAltern<L, R, Item> where
    L: Producer<Item>,
    R: Producer<Item>,
 {
    open spec fn remaining(&self) -> Seq<Item> {
        self@.output()
    }

    open spec fn wf(&self) -> bool {
        &&& self.left() matches Some(p) ==> p.wf()
        &&& self.right() matches Some(p) ==> p.wf()
    }

    open spec fn tail_ready(&self) -> bool {
        &&& self.left() matches Some(p) ==> p.tail_ready() && p.remaining().len() <= usize::MAX
        &&& self.right() matches Some(p) ==> p.tail_ready() && p.remaining().len() <= usize::MAX
    }

    fn produce_next(&mut self) -> (r: Option<Item>)
        ensures
            (r, final(self)@) == old(self)@.after_next(),
    {
        proof {
            lemma_pair_after_next(self@);
        }
        match (self.next_is_left, self.left.as_mut(), self.right.as_mut()) {
            (true, Some(left), Some(right)) => {
                self.next_is_left = !self.next_is_left;
                match left.produce_next() {
                    Some(v) => Some(v),
                    None => {
                        self.left = None;
                        let r = right.produce_next();
                        if r.is_none() {
                            self.right = None;
                        }
                        r
                    },
                }
            },
            (false, Some(left), Some(right)) => {
                self.next_is_left = !self.next_is_left;
                match right.produce_next() {
                    Some(v) => Some(v),
                    None => {
                        self.right = None;
                        let r = left.produce_next();
                        if r.is_none() {
                            self.left = None;
                        }
                        r
                    },
                }
            },
            (_, Some(left), None) => {
                let r = left.produce_next();
                if r.is_none() {
                    self.left = None;
                }
                r
            },
            (_, None, Some(right)) => {
                let r = right.produce_next();
                if r.is_none() {
                    self.right = None;
                }
                r
            },
            (_, None, None) => None,
        }
    }
}

impl<L, R, Item> CountedProducer<Item> for BiAltern<L, R, Item> where
    L: CountedProducer<Item>,
    R: CountedProducer<Item>,
 {
    open spec fn bounds(&self) -> Bounds {
        match (self.left(), self.right()) {
            (None, None) => (0, Some(0)),
            (None, Some(r)) => r.bounds(),
            (Some(l), None) => l.bounds(),
            (Some(l), Some(r)) => sum_bounds(l.bounds(), r.bounds()),
        }
    }

    open spec fn count_in_range(&self) -> bool {
        match (self.left(), self.right()) {
            (None, None) => true,
            (None, Some(r)) => r.count_in_range(),
            (Some(l), None) => l.count_in_range(),
            (Some(l), Some(r)) => {
                &&& l.count_in_range()
                &&& r.count_in_range()
                &&& bounds_fit(sum_bounds(l.bounds(), r.bounds()))
            },
        }
    }

    proof fn lemma_bounds_hold(&self) {
        lemma_pair_output_len(self@);
        match (self.left(), self.right()) {
            (None, None) => {},
            (None, Some(r)) => {
                r.lemma_bounds_hold();
            },
            (Some(l), None) => {
                l.lemma_bounds_hold();
            },
            (Some(l), Some(r)) => {
                l.lemma_bounds_hold();
                r.lemma_bounds_hold();
            },
        }
    }

    fn count_fits(&self) -> (b: bool) {
        match (self.left.as_ref(), self.right.as_ref()) {
            (None, None) => true,
            (None, Some(right)) => right.count_fits(),
            (Some(left), None) => left.count_fits(),
            (Some(left), Some(right)) => {
                if left.count_fits() && right.count_fits() {
                    let hint1 = left.remaining_count();
                    let hint2 = right.remaining_count();
                    let upper_fits = match (hint1.1, hint2.1) {
                        (Some(u1), Some(u2)) => u1.checked_add(u2).is_some(),
                        _ => true,
                    };
                    hint1.0.checked_add(hint2.0).is_some() && upper_fits
                } else {
                    false
                }
            },
        }
    }

    fn remaining_count(&self) -> (r: (usize, Option<usize>)) {
        match (self.left.as_ref(), self.right.as_ref()) {
            (None, None) => (0, Some(0)),
            (None, Some(right)) => right.remaining_count(),
            (Some(left), None) => left.remaining_count(),
            (Some(left), Some(right)) => {
                let hint1 = left.remaining_count();
                let hint2 = right.remaining_count();
                let upper_bound = match (hint1.1, hint2.1) {
                    (Some(u1), Some(u2)) => Some(u1 + u2),
                    _ => None,
                };
                (hint1.0 + hint2.0, upper_bound)
            },
        }
    }
}

impl<L, R, Item> ExactProducer<Item> for BiAltern<L, R, Item> where
    L: ExactProducer<Item>,
    R: ExactProducer<Item>,
 {
    proof fn lemma_count_exact(&self) {
        lemma_pair_output_len(self@);
        match (self.left(), self.right()) {
            (None, None) => {},
            (None, Some(r)) => {
                r.lemma_count_exact();
            },
            (Some(l), None) => {
                l.lemma_count_exact();
            },
            (Some(l), Some(r)) => {
                l.lemma_count_exact();
                r.lemma_count_exact();
            },
        }
    }
}

impl<L, R, Item> BidirectionalProducer<Item> for BiAltern<L, R, Item> where
    L: BidirectionalProducer<Item> + ExactProducer<Item>,
    R: BidirectionalProducer<Item> + ExactProducer<Item>,
 {
    fn tail_fits(&self) -> (b: bool) {
        let left_fits = match self.left.as_ref() {
            Some(left) => {
                proof {
                    left.lemma_count_exact();
                }
                left.tail_fits() && left.count_fits()
            },
            None => true,
        };
        let right_fits = match self.right.as_ref() {
            Some(right) => {
                proof {
                    right.lemma_count_exact();
                }
                right.tail_fits() && right.count_fits()
            },
            None => true,
        };
        left_fits && right_fits
    }

    fn produce_previous(&mut self) -> (r: Option<Item>)
        ensures
            (r, final(self)@) == old(self)@.after_previous(),
    {
        proof {
            lemma_pair_after_previous(self@);
        }
        match (self.left.as_mut(), self.right.as_mut()) {
            (None, None) => None,
            (None, Some(right)) => {
                let r = right.produce_previous();
                if r.is_none() {
                    self.right = None;
                }
                r
            },
            (Some(left), None) => {
                let r = left.produce_previous();
                if r.is_none() {
                    self.left = None;
                }
                r
            },
            (Some(left), Some(right)) => {
                let n_left = left.len();
                let n_right = right.len();
                // The left count is taken one higher after a left pull; comparing
                // strictly does that without a sum that could overflow.
                let from_right = if self.next_is_left {
                    n_right >= n_left
                } else {
                    n_right > n_left
                };
                if from_right {
                    let r = right.produce_previous();
                    if r.is_none() {
                        self.right = None;
                    }
                    r
                } else {
                    let r = left.produce_previous();
                    if r.is_none() {
                        self.left = None;
                    }
                    r
                }
            },
        }
    }
}

/// The alternation starts with the head of its first side, then goes on with
/// the sides swapped; with an empty first side it is the second side.
pub proof fn lemma_interleave_step<T>(first: Seq<T>, second: Seq<T>)
    ensures
        first.len() > 0 ==> head_of(interleave(first, second)) == Some(first[0]),
        first.len() > 0 ==> tail_of(interleave(first, second)) == interleave(
            second,
            first.drop_first(),
        ),
        first.len() == 0 ==> interleave(first, second) == second,
{
}

/// Alternating with an empty side changes nothing.
pub proof fn lemma_interleave_empty<T>(s: Seq<T>)
    ensures
        interleave(s, Seq::empty()) == s,
        interleave(Seq::empty(), s) == s,
{
    if s.len() > 0 {
        assert(interleave(Seq::<T>::empty(), s.drop_first()) == s.drop_first());
    }
}

/// An alternation yields as many values as its two sides hold together.
pub proof fn lemma_interleave_len<T>(first: Seq<T>, second: Seq<T>)
    ensures
        interleave(first, second).len() == first.len() + second.len(),
    decreases first.len() + second.len(),
{
    if first.len() > 0 {
        lemma_interleave_len(second, first.drop_first());
    }
}

/// Every value of an alternation is the one that [`interleave_at`] names.
pub proof fn lemma_interleave_at<T>(first: Seq<T>, second: Seq<T>, k: int)
    requires
        0 <= k < first.len() + second.len(),
    ensures
        k < interleave(first, second).len(),
        interleave(first, second)[k] == interleave_at(first, second, k),
    decreases first.len() + second.len(),
{
    lemma_interleave_len(first, second);
    if first.len() > 0 && k > 0 {
        lemma_interleave_at(second, first.drop_first(), k - 1);
    }
}

/// Four producers of equal length, paired first with third and second with
/// fourth, come out of the pair of pairs in flat round-robin order: value `i`
/// of the first, of the second, of the third, of the fourth, for each `i` in
/// turn.
pub proof fn lemma_nested_round_robin<T>(
    a: Seq<T>,
    b: Seq<T>,
    c: Seq<T>,
    d: Seq<T>,
    k: int,
)
    requires
        a.len() == b.len() == c.len() == d.len(),
        0 <= k < 4 * a.len(),
    ensures
        k < interleave(interleave(a, c), interleave(b, d)).len(),
        interleave(interleave(a, c), interleave(b, d))[k] == (if k % 4 == 0 {
            a[k / 4]
        } else if k % 4 == 1 {
            b[k / 4]
        } else if k % 4 == 2 {
            c[k / 4]
        } else {
            d[k / 4]
        }),
{
    lemma_interleave_len(a, c);
    lemma_interleave_len(b, d);
    lemma_interleave_at(interleave(a, c), interleave(b, d), k);
    lemma_interleave_at(a, c, k / 2);
    lemma_interleave_at(b, d, k / 2);
}

/// The last value of an alternation comes from the second side when that
/// side is at least as long as the first, and from the first side otherwise;
/// without it, what is left is the alternation with that side shortened.
pub proof fn lemma_interleave_last<T>(first: Seq<T>, second: Seq<T>)
    ensures
        second.len() >= first.len() && second.len() > 0 ==> {
            &&& last_of(interleave(first, second)) == Some(second.last())
            &&& front_of(interleave(first, second)) == interleave(first, second.drop_last())
        },
        second.len() < first.len() ==> {
            &&& last_of(interleave(first, second)) == Some(first.last())
            &&& front_of(interleave(first, second)) == interleave(first.drop_last(), second)
        },
    decreases first.len() + second.len(),
{
    lemma_interleave_len(first, second);
    if first.len() > 0 {
        let rest = first.drop_first();
        lemma_interleave_last(second, rest);
        lemma_interleave_len(second, rest);
        if rest.len() >= second.len() && rest.len() > 0 {
            assert(first.drop_last().drop_first() =~= rest.drop_last());
        }
    }
}

/// An alternation holds the values of its two sides and no other, each as
/// often as it stands in them.
pub proof fn lemma_interleave_multiset<T>(first: Seq<T>, second: Seq<T>)
    ensures
        interleave(first, second).to_multiset() == first.to_multiset().add(second.to_multiset()),
    decreases first.len() + second.len(),
{
    broadcast use vstd::multiset::group_multiset_axioms;

    if first.len() == 0 {
        first.to_multiset_ensures();
    } else {
        let head = seq![first[0]];
        let rest = first.drop_first();
        lemma_interleave_multiset(second, rest);
        lemma_multiset_commutative(head, interleave(second, rest));
        lemma_multiset_commutative(head, rest);
        assert(head + rest =~= first);
    }
}

/// A pair yields as many values as its two slots hold together.
pub proof fn lemma_pair_output_len<T>(s: PairState<T>)
    ensures
        s.output().len() == slot_items(s.left).len() + slot_items(s.right).len(),
{
    lemma_interleave_len(slot_items(s.left), slot_items(s.right));
    lemma_interleave_len(slot_items(s.right), slot_items(s.left));
}

/// A pair whose producers both have nothing left gives nothing, from either
/// end, at the first pull already.
pub proof fn lemma_pair_empty<T>(s: PairState<T>)
    requires
        slot_items(s.left).len() == 0,
        slot_items(s.right).len() == 0,
    ensures
        s.output() == Seq::<T>::empty(),
        s.after_next().0 is None,
        s.after_previous().0 is None,
{
    lemma_pair_output_len(s);
}

/// However forward and tail-end pulls on a pair are mixed, every forward
/// pull gives the first and every tail-end pull the last value of what all
/// the pulls before it have left of the pair's forward order. With
/// [`lemma_pulls_ends`]: the forward pulls give that order from its start,
/// the tail-end pulls give it from its end backwards, no value comes twice
/// and none is passed over, and a pull gives nothing exactly when all values
/// were given before it. Pulled from the tail alone, the pair gives its
/// forward order in reverse ([`lemma_pulls_one_end`]).
pub proof fn lemma_pair_mixed_pulls<T>(s: PairState<T>, from_head: Seq<bool>)
    ensures
        s.after_pulls(from_head).output() == pulls(s.output(), from_head).rest,
        from_head.len() > 0 ==> s.last_pulled(from_head) == if from_head.last() {
            head_of(pulls(s.output(), from_head.drop_last()).rest)
        } else {
            last_of(pulls(s.output(), from_head.drop_last()).rest)
        },
    decreases from_head.len(),
{
    if from_head.len() > 0 {
        let before = s.after_pulls(from_head.drop_last());
        lemma_pair_mixed_pulls(s, from_head.drop_last());
        lemma_pair_after_next(before);
        lemma_pair_after_previous(before);
    }
}

/// Forward and backward symmetry. Pulled from one end alone, a pair gives at
/// pull `k`, counting from 0, value `k` of its forward order if the pulls
/// are forward pulls, and value `k` from the end of that order if they are
/// tail-end pulls: from the tail the pair gives its forward order in exact
/// reverse.
pub proof fn lemma_pair_one_end<T>(s: PairState<T>, forward: bool, k: int)
    requires
        0 <= k < s.output().len(),
    ensures
        s.last_pulled(Seq::new((k + 1) as nat, |i: int| forward)) == Some(
            if forward {
                s.output()[k]
            } else {
                s.output()[s.output().len() - 1 - k]
            },
        ),
{
    let all = Seq::new((k + 1) as nat, |i: int| forward);
    let before = all.drop_last();
    lemma_pair_mixed_pulls(s, all);
    lemma_pulls_one_end_counts(s.output(), before);
    lemma_pulls_partition(s.output(), before);
    lemma_pulls_ends(s.output(), before);
}

/// However pulls from the head and from the tail of a pair are mixed, once
/// as many were made as the pair had values, the values given are those of
/// its two producers and no other, each as often as it stood in them.
pub proof fn lemma_pair_pulls_all<T>(s: PairState<T>, from_head: Seq<bool>)
    requires
        from_head.len() >= s.output().len(),
    ensures
        (pulls(s.output(), from_head).heads + pulls(s.output(), from_head).tails).to_multiset()
            == slot_items(s.left).to_multiset().add(slot_items(s.right).to_multiset()),
{
    lemma_pulls_partition(s.output(), from_head);
    lemma_interleave_multiset(slot_items(s.left), slot_items(s.right));
    lemma_interleave_multiset(slot_items(s.right), slot_items(s.left));
}

/// A forward pull that gives nothing leaves both slots empty: the pair has
/// then heard from each of its producers that it has nothing left. A tail-end
/// pull that gives nothing empties the slot it asked, and the next one the
/// other slot.
pub proof fn lemma_pair_end<T>(s: PairState<T>)
    ensures
        s.after_next().0 is None ==> s.after_next().1.left is None && s.after_next().1.right
            is None,
        s.after_previous().0 is None ==> s.after_previous().1.left is None
            || s.after_previous().1.right is None,
        s.after_previous().0 is None ==> s.after_previous().1.after_previous().1.left is None
            && s.after_previous().1.after_previous().1.right is None,
{
}

/// A slot that has been emptied stays empty, whatever is pulled.
pub proof fn lemma_pair_slots_stay_empty<T>(s: PairState<T>)
    ensures
        s.left is None ==> s.after_next().1.left is None && s.after_previous().1.left is None,
        s.right is None ==> s.after_next().1.right is None && s.after_previous().1.right is None,
{
}

/// A forward pull takes the head of the pair's output and leaves the rest.
pub proof fn lemma_pair_after_next<T>(s: PairState<T>)
    ensures
        s.after_next().0 == head_of(s.output()),
        s.after_next().1.output() == tail_of(s.output()),
{
    let l = slot_items(s.left);
    let r = slot_items(s.right);
    lemma_interleave_step(l, r);
    lemma_interleave_step(r, l);
    lemma_interleave_empty(l);
    lemma_interleave_empty(r);
    lemma_interleave_empty(tail_of(l));
    lemma_interleave_empty(tail_of(r));
}

/// A tail-end pull takes the last value of the pair's output and leaves the
/// rest: pulled to the end, it gives the forward order in reverse.
pub proof fn lemma_pair_after_previous<T>(s: PairState<T>)
    ensures
        s.after_previous().0 == last_of(s.output()),
        s.after_previous().1.output() == front_of(s.output()),
{
    let l = slot_items(s.left);
    let r = slot_items(s.right);
    lemma_interleave_last(l, r);
    lemma_interleave_last(r, l);
    lemma_interleave_empty(l);
    lemma_interleave_empty(r);
    lemma_interleave_empty(front_of(l));
    lemma_interleave_empty(front_of(r));
}

} // verus!
