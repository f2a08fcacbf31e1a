use combin_iterator::altern::{AlternWith, BiAltern};
use combin_iterator::producer::{
    collect_all, collect_all_reversed, BidirectionalProducer, CountedProducer, ExactProducer,
    Producer,
};
use combin_iterator::slice_producer::SliceProducer;

#[test]
fn normal_usage() {
    let vec1 = vec![1, 3, 5, 6];
    let vec2 = vec![2, 4];

    let iter = BiAltern::new(SliceProducer::new(&vec1), SliceProducer::new(&vec2));

    assert_eq!(collect_all(iter), vec![&1, &2, &3, &4, &5, &6]);
}

#[test]
fn reverse() {
    let vec1 = vec![1, 3, 5, 6];
    let vec2 = vec![2, 4];

    let iter = BiAltern::new(SliceProducer::new(&vec1), SliceProducer::new(&vec2));

    assert_eq!(collect_all_reversed(iter), vec![&6, &5, &4, &3, &2, &1]);
}

#[test]
fn next_and_next_back() {
    let vec1 = vec![1, 3, 5, 6];
    let vec2 = vec![2, 4];

    let mut iter = BiAltern::new(SliceProducer::new(&vec1), SliceProducer::new(&vec2));

    assert_eq!(iter.produce_next(), Some(&1));
    assert_eq!(iter.produce_previous(), Some(&6));
    assert_eq!(iter.produce_previous(), Some(&5));
    assert_eq!(iter.produce_next(), Some(&2));
    assert_eq!(iter.produce_previous(), Some(&4));
    assert_eq!(iter.produce_next(), Some(&3));
    assert_eq!(iter.produce_previous(), None);
}

#[test]
fn len() {
    let vec1 = vec![1, 3, 5, 6];
    let vec2 = vec![2, 4];
    let iter = BiAltern::new(SliceProducer::new(&vec1), SliceProducer::new(&vec2));
    assert_eq!(iter.len(), 6);
}

#[test]
fn bi_altern() {
    let vec1 = vec![1, 3, 5, 6];
    let vec2 = vec![2, 4];

    let iter = BiAltern::new(SliceProducer::new(&vec1), SliceProducer::new(&vec2));

    assert_eq!(collect_all(iter), vec![&1, &2, &3, &4, &5, &6]);
}

#[test]
fn bi_altern_reverse() {
    let vec1 = vec![1, 3, 5, 6];
    let vec2 = vec![2, 4];

    let iter = BiAltern::new(SliceProducer::new(&vec1), SliceProducer::new(&vec2));

    assert_eq!(collect_all_reversed(iter), vec![&6, &5, &4, &3, &2, &1]);
}

#[test]
fn bi_altern_next_and_next_back() {
    let vec1 = vec![1, 3, 5, 6];
    let vec2 = vec![2, 4];

    let mut iter = BiAltern::new(SliceProducer::new(&vec1), SliceProducer::new(&vec2));

    assert_eq!(iter.produce_next(), Some(&1));
    assert_eq!(iter.produce_previous(), Some(&6));
    assert_eq!(iter.produce_previous(), Some(&5));
    assert_eq!(iter.produce_next(), Some(&2));
    assert_eq!(iter.produce_previous(), Some(&4));
    assert_eq!(iter.produce_next(), Some(&3));
    assert_eq!(iter.produce_previous(), None);
}

#[test]
fn bi_altern_len() {
    let vec1 = vec![1, 3, 5, 6];
    let vec2 = vec![2, 4];

    let iter = BiAltern::new(SliceProducer::new(&vec1), SliceProducer::new(&vec2));

    assert_eq!(iter.len(), 6);
}

#[test]
fn nested_pair_with_single_producer_alternates_between_subtrees() {
    let vec1 = vec![1, 1, 1, 1];
    let vec2 = vec![2, 2];
    let vec3 = vec![3, 3, 3];

    let iter = BiAltern::new(
        BiAltern::new(SliceProducer::new(&vec1), SliceProducer::new(&vec2)),
        SliceProducer::new(&vec3),
    );
    let all = collect_all(iter);
    assert_eq!(all, vec![&1, &3, &2, &3, &1, &3, &2, &1, &1]);
    assert_ne!(all, vec![&1, &2, &3, &1, &2, &3, &1, &3, &1]);
}

#[test]
fn nested_pairs_in_naive_order() {
    let vec1 = vec![1, 1];
    let vec2 = vec![2, 2];
    let vec3 = vec![3, 3];
    let vec4 = vec![4, 4];

    let iter = BiAltern::new(
        BiAltern::new(SliceProducer::new(&vec1), SliceProducer::new(&vec2)),
        BiAltern::new(SliceProducer::new(&vec3), SliceProducer::new(&vec4)),
    );
    assert_eq!(collect_all(iter), vec![&1, &3, &2, &4, &1, &3, &2, &4]);
}

#[test]
fn nested_pairs_in_flat_round_robin_order() {
    let vec1 = vec![1, 1];
    let vec2 = vec![2, 2];
    let vec3 = vec![3, 3];
    let vec4 = vec![4, 4];

    let iter = BiAltern::new(
        BiAltern::new(SliceProducer::new(&vec1), SliceProducer::new(&vec3)),
        BiAltern::new(SliceProducer::new(&vec2), SliceProducer::new(&vec4)),
    );
    assert_eq!(collect_all(iter), vec![&1, &2, &3, &4, &1, &2, &3, &4]);
}

#[test]
fn altern_with_pairs_fluently() {
    let vec1 = vec![1, 3, 5, 6];
    let vec2 = vec![2, 4];

    let iter = SliceProducer::new(&vec1).altern_with(SliceProducer::new(&vec2));
    assert_eq!(collect_all(iter), vec![&1, &2, &3, &4, &5, &6]);
}

#[test]
fn altern_with_chained_nests_to_the_left() {
    let vec1 = vec![1, 1, 1, 1];
    let vec2 = vec![2, 2];
    let vec3 = vec![3, 3, 3];

    let iter = SliceProducer::new(&vec1)
        .altern_with(SliceProducer::new(&vec2))
        .altern_with(SliceProducer::new(&vec3));
    assert_eq!(collect_all(iter), vec![&1, &3, &2, &3, &1, &3, &2, &1, &1]);
}

#[test]
fn pair_of_empty_producers_gives_nothing() {
    let vec1: Vec<u8> = vec![];
    let vec2: Vec<u8> = vec![];

    let mut iter = BiAltern::new(SliceProducer::new(&vec1), SliceProducer::new(&vec2));
    assert_eq!(iter.produce_next(), None);
    assert_eq!(iter.produce_next(), None);

    let mut iter = BiAltern::new(SliceProducer::new(&vec1), SliceProducer::new(&vec2));
    assert_eq!(iter.produce_previous(), None);
    assert_eq!(iter.produce_next(), None);
}

#[test]
fn pair_with_one_empty_side_gives_the_other() {
    let vec1: Vec<i32> = vec![];
    let vec2 = vec![2, 4, 6];

    let iter = BiAltern::new(SliceProducer::new(&vec1), SliceProducer::new(&vec2));
    assert_eq!(collect_all(iter), vec![&2, &4, &6]);
    let iter = BiAltern::new(SliceProducer::new(&vec2), SliceProducer::new(&vec1));
    assert_eq!(collect_all(iter), vec![&2, &4, &6]);
    let iter = BiAltern::new(SliceProducer::new(&vec1), SliceProducer::new(&vec2));
    assert_eq!(collect_all_reversed(iter), vec![&6, &4, &2]);
    let iter = BiAltern::new(SliceProducer::new(&vec2), SliceProducer::new(&vec1));
    assert_eq!(collect_all_reversed(iter), vec![&6, &4, &2]);
}

#[test]
fn pair_goes_on_with_the_longer_side() {
    let vec1 = vec![1];
    let vec2 = vec![2, 3, 4, 5];

    let iter = BiAltern::new(SliceProducer::new(&vec1), SliceProducer::new(&vec2));
    assert_eq!(collect_all(iter), vec![&1, &2, &3, &4, &5]);
    let iter = BiAltern::new(SliceProducer::new(&vec1), SliceProducer::new(&vec2));
    assert_eq!(collect_all_reversed(iter), vec![&5, &4, &3, &2, &1]);
}

#[test]
fn pair_of_equal_lengths_ends_on_the_right() {
    let vec1 = vec![1, 3, 5];
    let vec2 = vec![2, 4, 6];

    let mut iter = BiAltern::new(SliceProducer::new(&vec1), SliceProducer::new(&vec2));
    assert_eq!(iter.produce_previous(), Some(&6));
    assert_eq!(iter.produce_previous(), Some(&5));
    assert_eq!(iter.produce_previous(), Some(&4));
    assert_eq!(iter.produce_previous(), Some(&3));
    assert_eq!(iter.produce_previous(), Some(&2));
    assert_eq!(iter.produce_previous(), Some(&1));
    assert_eq!(iter.produce_previous(), None);
}

#[test]
fn tail_pull_counts_the_left_side_one_higher_after_a_left_pull() {
    let vec1 = vec![1, 3, 5];
    let vec2 = vec![2, 4, 6];

    let mut iter = BiAltern::new(SliceProducer::new(&vec1), SliceProducer::new(&vec2));
    assert_eq!(iter.produce_next(), Some(&1));
    assert_eq!(iter.produce_previous(), Some(&6));
    assert_eq!(iter.produce_next(), Some(&2));
    assert_eq!(iter.produce_previous(), Some(&5));
    assert_eq!(iter.produce_next(), Some(&3));
    assert_eq!(iter.produce_previous(), Some(&4));
    assert_eq!(iter.produce_next(), None);
    assert_eq!(iter.produce_previous(), None);
}

#[test]
fn tail_pulls_reach_over_an_exhausted_side() {
    let vec1 = vec![1, 3, 5, 7];
    let vec2 = vec![2];

    let mut iter = BiAltern::new(SliceProducer::new(&vec1), SliceProducer::new(&vec2));
    assert_eq!(iter.produce_previous(), Some(&7));
    assert_eq!(iter.produce_next(), Some(&1));
    assert_eq!(iter.produce_next(), Some(&2));
    assert_eq!(iter.produce_previous(), Some(&5));
    assert_eq!(iter.produce_next(), Some(&3));
    assert_eq!(iter.produce_previous(), None);
}

#[test]
fn nested_pairs_reverse_exactly() {
    let vec1 = vec![1, 5, 9];
    let vec2 = vec![2, 6];
    let vec3 = vec![3, 7];
    let vec4 = vec![4, 8];

    let forward = BiAltern::new(
        BiAltern::new(SliceProducer::new(&vec1), SliceProducer::new(&vec3)),
        BiAltern::new(SliceProducer::new(&vec2), SliceProducer::new(&vec4)),
    );
    assert_eq!(collect_all(forward), vec![&1, &2, &3, &4, &5, &6, &7, &8, &9]);
    let backward = BiAltern::new(
        BiAltern::new(SliceProducer::new(&vec1), SliceProducer::new(&vec3)),
        BiAltern::new(SliceProducer::new(&vec2), SliceProducer::new(&vec4)),
    );
    assert_eq!(collect_all_reversed(backward), vec![&9, &8, &7, &6, &5, &4, &3, &2, &1]);
}

#[test]
fn remaining_count_adds_both_sides() {
    let vec1 = vec![1, 3, 5, 6];
    let vec2 = vec![2, 4];

    let mut iter = BiAltern::new(SliceProducer::new(&vec1), SliceProducer::new(&vec2));
    assert!(iter.count_fits());
    assert_eq!(iter.remaining_count(), (6, Some(6)));
    iter.produce_next();
    assert_eq!(iter.remaining_count(), (5, Some(5)));
    iter.produce_previous();
    assert_eq!(iter.remaining_count(), (4, Some(4)));
    assert_eq!(iter.len(), 4);
}

#[test]
fn remaining_count_with_emptied_slots() {
    let vec1 = vec![1];
    let vec2 = vec![2, 3, 4, 5];

    let mut iter = BiAltern::new(SliceProducer::new(&vec1), SliceProducer::new(&vec2));
    assert_eq!(iter.produce_next(), Some(&1));
    assert_eq!(iter.produce_next(), Some(&2));
    // The left side is found exhausted by the next pull, which falls back to the right.
    assert_eq!(iter.produce_next(), Some(&3));
    assert_eq!(iter.remaining_count(), (2, Some(2)));
    assert_eq!(iter.len(), 2);
    assert_eq!(iter.produce_previous(), Some(&5));
    assert_eq!(iter.produce_next(), Some(&4));
    assert_eq!(iter.remaining_count(), (0, Some(0)));
    assert_eq!(iter.produce_next(), None);
    assert_eq!(iter.remaining_count(), (0, Some(0)));

    let empty1: Vec<i32> = vec![];
    let empty2: Vec<i32> = vec![];
    let mut iter = BiAltern::new(SliceProducer::new(&empty1), SliceProducer::new(&empty2));
    assert_eq!(iter.produce_next(), None);
    assert_eq!(iter.produce_previous(), None);
    assert_eq!(iter.remaining_count(), (0, Some(0)));
    assert_eq!(iter.len(), 0);
}

#[test]
fn nested_pair_counts_all_leaves() {
    let vec1 = vec![1, 1, 1, 1];
    let vec2 = vec![2, 2];
    let vec3 = vec![3, 3, 3];

    let iter = BiAltern::new(
        BiAltern::new(SliceProducer::new(&vec1), SliceProducer::new(&vec2)),
        SliceProducer::new(&vec3),
    );
    assert!(iter.count_fits());
    assert_eq!(iter.remaining_count(), (9, Some(9)));
    assert_eq!(iter.len(), 9);
}

#[test]
fn count_does_not_fit_when_the_sum_overflows() {
    let units = vec![(); usize::MAX];

    let pair = BiAltern::new(SliceProducer::new(&units), SliceProducer::new(&units));
    assert!(!pair.count_fits());

    let empty: Vec<()> = vec![];
    let pair = BiAltern::new(SliceProducer::new(&units), SliceProducer::new(&empty));
    assert!(pair.count_fits());
    assert_eq!(pair.remaining_count(), (usize::MAX, Some(usize::MAX)));
    assert_eq!(pair.len(), usize::MAX);
}

#[test]
fn tail_pulls_need_only_each_side_to_count() {
    let units = vec![(); usize::MAX];

    let mut pair = BiAltern::new(SliceProducer::new(&units), SliceProducer::new(&units));
    assert!(!pair.count_fits());
    assert!(pair.tail_fits());
    assert_eq!(pair.produce_previous(), Some(&()));
    assert_eq!(pair.produce_next(), Some(&()));
    assert_eq!(pair.produce_previous(), Some(&()));
    assert!(pair.tail_fits());
}

#[test]
fn drained_pair_of_slices_has_both_slots_empty() {
    let vec1 = vec![1];
    let vec2: Vec<i32> = vec![];

    let mut pair = BiAltern::new(SliceProducer::new(&vec1), SliceProducer::new(&vec2));
    assert_eq!(pair.produce_next(), Some(&1));
    assert_eq!(pair.produce_next(), None);
    assert_eq!(pair.remaining_count(), (0, Some(0)));
    assert_eq!(pair.len(), 0);
    assert!(pair.tail_fits());
    assert_eq!(pair.produce_previous(), None);
    assert_eq!(pair.produce_next(), None);

    let mut pair = BiAltern::new(SliceProducer::new(&vec2), SliceProducer::new(&vec2));
    assert_eq!(pair.produce_previous(), None);
    assert_eq!(pair.produce_previous(), None);
    assert_eq!(pair.remaining_count(), (0, Some(0)));
    assert_eq!(pair.produce_previous(), None);
}
