use combin_iterator::altern::{BiAltern, VecAltern};
use combin_iterator::producer::{collect_all, Producer};
use combin_iterator::slice_producer::SliceProducer;

#[test]
fn vec_altern() {
    let vec1 = vec![1, 4, 7, 9];
    let vec2 = vec![2, 5];
    let vec3 = vec![3, 6, 8];

    let iter = VecAltern::new()
        .add_and(SliceProducer::new(&vec1))
        .add_and(SliceProducer::new(&vec2))
        .add_and(SliceProducer::new(&vec3));

    assert_eq!(collect_all(iter), vec![&1, &2, &3, &4, &5, &6, &7, &8, &9]);
}

#[test]
fn empty_vec_altern() {
    let vec1: Vec<u8> = vec![];
    let vec2: Vec<u8> = vec![];
    let vec3: Vec<u8> = vec![];

    let mut iter = VecAltern::new()
        .add_and(SliceProducer::new(&vec1))
        .add_and(SliceProducer::new(&vec2))
        .add_and(SliceProducer::new(&vec3));

    assert_eq!(iter.produce_next(), None);
}

#[test]
fn vec_altern_macro_altern() {
    let vec1 = vec![1, 4, 7, 9];
    let vec2 = vec![2, 5];
    let vec3 = vec![3, 6, 8];
    let iter = {
        let capacity = 1 + (1 + (1 + 0));
        let mut vec_altern = VecAltern::with_capacity(capacity);
        vec_altern.add(SliceProducer::new(&vec1));
        vec_altern.add(SliceProducer::new(&vec2));
        vec_altern.add(SliceProducer::new(&vec3));
        vec_altern
    };
    assert_eq!(collect_all(iter), vec![&1, &2, &3, &4, &5, &6, &7, &8, &9]);
}

#[test]
fn macros_macro_altern() {
    let vec1 = vec![1, 4, 7, 9];
    let vec2 = vec![2, 5];
    let vec3 = vec![3, 6, 8];

    let iter = {
        let capacity = 1 + (1 + (1 + 0));
        let mut vec_altern = VecAltern::with_capacity(capacity);
        vec_altern.add(SliceProducer::new(&vec1));
        vec_altern.add(SliceProducer::new(&vec2));
        vec_altern.add(SliceProducer::new(&vec3));
        vec_altern
    };
    assert_eq!(collect_all(iter), vec![&1, &2, &3, &4, &5, &6, &7, &8, &9]);
}

#[test]
fn macro_combin() {
    let vec1 = vec![1, 4, 7, 9];
    let vec2 = vec![2, 5];
    let vec3 = vec![3, 6, 8];

    let iter = {
        let capacity = 1 + (1 + (1 + 0));
        let mut vec_altern = VecAltern::with_capacity(capacity);
        vec_altern.add(SliceProducer::new(&vec1));
        vec_altern.add(SliceProducer::new(&vec2));
        vec_altern.add(SliceProducer::new(&vec3));
        vec_altern
    };
    assert_eq!(collect_all(iter), vec![&1, &2, &3, &4, &5, &6, &7, &8, &9]);
}

#[test]
fn list_without_producers_gives_nothing() {
    let mut iter: VecAltern<SliceProducer<u8>, &u8> = VecAltern::new();
    assert_eq!(iter.produce_next(), None);
    assert_eq!(iter.produce_next(), None);

    let mut iter: VecAltern<SliceProducer<u8>, &u8> = VecAltern::with_capacity(4);
    assert_eq!(iter.produce_next(), None);
}

#[test]
fn list_with_one_producer_gives_it_whole() {
    let vec1 = vec![1, 2, 3];
    let iter = VecAltern::new().add_and(SliceProducer::new(&vec1));
    assert_eq!(collect_all(iter), vec![&1, &2, &3]);
}

#[test]
fn list_of_equal_lengths_goes_round() {
    let vec1 = vec![10, 11, 12];
    let vec2 = vec![20, 21, 22];
    let vec3 = vec![30, 31, 32];
    let queues = [&vec1, &vec2, &vec3];

    let iter = VecAltern::new()
        .add_and(SliceProducer::new(&vec1))
        .add_and(SliceProducer::new(&vec2))
        .add_and(SliceProducer::new(&vec3));
    let all = collect_all(iter);

    assert_eq!(all.len(), 9);
    for k in 0..9 {
        assert_eq!(all[k], &queues[k % 3][k / 3]);
    }
}

#[test]
fn list_is_fair_until_a_producer_is_found_exhausted() {
    let vec1 = vec![1, 4, 7, 9];
    let vec2 = vec![2, 5];
    let vec3 = vec![3, 6, 8];
    let queues = [&vec1, &vec2, &vec3];

    let iter = VecAltern::new()
        .add_and(SliceProducer::new(&vec1))
        .add_and(SliceProducer::new(&vec2))
        .add_and(SliceProducer::new(&vec3));
    let all = collect_all(iter);

    // The second producer is asked for a third value at pull 7.
    for k in 0..7 {
        assert_eq!(all[k], &queues[k % 3][k / 3]);
    }
    assert_eq!(all, vec![&1, &2, &3, &4, &5, &6, &7, &8, &9]);
}

#[test]
fn list_skips_producers_that_start_empty() {
    let vec1 = vec![1, 2, 3];
    let vec2: Vec<i32> = vec![];
    let vec3 = vec![4];
    let vec4 = vec![5, 6];

    let iter = VecAltern::new()
        .add_and(SliceProducer::new(&vec1))
        .add_and(SliceProducer::new(&vec2))
        .add_and(SliceProducer::new(&vec3))
        .add_and(SliceProducer::new(&vec4));
    assert_eq!(collect_all(iter), vec![&1, &4, &5, &2, &6, &3]);
}

#[test]
fn list_wraps_the_cursor_when_the_last_producer_leaves() {
    let vec1 = vec![1, 3, 4];
    let vec2 = vec![2];

    let mut iter = VecAltern::new()
        .add_and(SliceProducer::new(&vec1))
        .add_and(SliceProducer::new(&vec2));
    assert_eq!(iter.produce_next(), Some(&1));
    assert_eq!(iter.produce_next(), Some(&2));
    assert_eq!(iter.produce_next(), Some(&3));
    // The second producer is asked, found exhausted and dropped; the cursor wraps to the first.
    assert_eq!(iter.produce_next(), Some(&4));
    assert_eq!(iter.produce_next(), None);
    assert_eq!(iter.produce_next(), None);
}

#[test]
fn producer_added_after_a_full_round_is_asked_last() {
    let vec1 = vec![1, 4, 7];
    let vec2 = vec![2, 5, 8];
    let vec3 = vec![3, 6, 9];

    let mut iter = VecAltern::new();
    iter.add(SliceProducer::new(&vec1));
    iter.add(SliceProducer::new(&vec2));
    assert_eq!(iter.produce_next(), Some(&1));
    assert_eq!(iter.produce_next(), Some(&2));
    iter.add(SliceProducer::new(&vec3));
    assert_eq!(collect_all(iter), vec![&4, &5, &3, &7, &8, &6, &9]);
}

#[test]
fn producer_added_within_a_round_joins_that_round() {
    let vec1 = vec![1, 4, 7];
    let vec2 = vec![2, 5, 8];
    let vec3 = vec![3, 6, 9];

    let mut iter = VecAltern::new();
    iter.add(SliceProducer::new(&vec1));
    iter.add(SliceProducer::new(&vec2));
    assert_eq!(iter.produce_next(), Some(&1));
    iter.add(SliceProducer::new(&vec3));
    assert_eq!(collect_all(iter), vec![&2, &3, &4, &5, &6, &7, &8, &9]);
}

#[test]
fn producer_added_after_the_end_is_pulled() {
    let vec1 = vec![1];
    let vec2 = vec![2, 3];
    let vec3 = vec![9, 10];

    let mut iter = VecAltern::new();
    iter.add(SliceProducer::new(&vec1));
    iter.add(SliceProducer::new(&vec2));
    assert_eq!(iter.produce_next(), Some(&1));
    assert_eq!(iter.produce_next(), Some(&2));
    assert_eq!(iter.produce_next(), Some(&3));
    assert_eq!(iter.produce_next(), None);
    iter.add(SliceProducer::new(&vec3));
    assert_eq!(iter.produce_next(), Some(&9));
    assert_eq!(iter.produce_next(), Some(&10));
    assert_eq!(iter.produce_next(), None);
}

#[test]
fn list_of_pairs_nests() {
    let vec1 = vec![1, 5];
    let vec2 = vec![3, 7];
    let vec3 = vec![2, 6];
    let vec4 = vec![4, 8];

    let iter = VecAltern::new()
        .add_and(BiAltern::new(SliceProducer::new(&vec1), SliceProducer::new(&vec2)))
        .add_and(BiAltern::new(SliceProducer::new(&vec3), SliceProducer::new(&vec4)));
    assert_eq!(collect_all(iter), vec![&1, &2, &3, &4, &5, &6, &7, &8]);
}
