use dbsp::zset::{OrdIndexedZSet, OrdZSet, OrdZSetBuilder, OrdZSetMerger, ZWeight};

fn collect<K: dbsp::order::DBData, V: dbsp::order::DBData>(z: &OrdZSet<K, V>) -> Vec<(K, V, ZWeight)> {
    let mut it = z.iter();
    let mut out = Vec::new();
    while let Some(t) = it.next() {
        out.push(t);
    }
    out
}

fn s(x: &str) -> String {
    x.to_string()
}

#[test]
fn test_indexed_zset_iterator() {
    let tuples: Vec<(i64, String, ZWeight)> = vec![
        (1, s("a"), 1),
        (1, s("b"), 2),
        (1, s("c"), -1),
        (2, s("d"), 1),
    ];
    let indexed_zset = <OrdIndexedZSet<i64, String>>::from_tuples(tuples.clone());
    assert_eq!(collect(&indexed_zset), tuples);

    let indexed_zset = <OrdIndexedZSet<i64, String>>::from_tuples(vec![]);
    assert_eq!(collect(&indexed_zset), Vec::new());
}

#[test]
fn distinct_keeps_positive_pairs_with_weight_one() {
    let z = OrdIndexedZSet::<i64, String>::from_tuples(vec![
        (1, s("a"), 1),
        (1, s("b"), 2),
        (1, s("c"), -1),
        (2, s("d"), 1),
    ]);
    let d = z.distinct();
    assert_eq!(collect(&d), vec![(1, s("a"), 1), (1, s("b"), 1), (2, s("d"), 1)]);
    // idempotent
    assert_eq!(collect(&d.distinct()), collect(&d));
}

#[test]
fn merge_is_sum_and_drops_zero() {
    let a = OrdZSet::<String, ()>::from_keys(vec![(s("a"), 1), (s("b"), 2)]);
    let b = OrdZSet::<String, ()>::from_keys(vec![(s("a"), -1), (s("c"), 3)]);
    let m = a.add_by_ref(&b);
    assert_eq!(collect(&m), vec![(s("b"), (), 2), (s("c"), (), 3)]);
    let mut c = a.add_by_ref(&OrdZSet::empty());
    c.add_assign_by_ref(&b);
    assert_eq!(collect(&c), collect(&m));
}

#[test]
fn merge_weights_wrap() {
    let a = OrdZSet::<i64, ()>::from_keys(vec![(7, i64::MAX)]);
    let b = OrdZSet::<i64, ()>::from_keys(vec![(7, 1)]);
    assert_eq!(collect(&a.add_by_ref(&b)), vec![(7, (), i64::MIN)]);
}

#[test]
fn incremental_merge_with_fuel() {
    let a = OrdZSet::<i64, ()>::from_keys(vec![(1, 1), (3, 1), (5, 1)]);
    let b = OrdZSet::<i64, ()>::from_keys(vec![(2, 1), (3, -1), (6, 4)]);
    let mut merger = a.begin_merge(&b);
    let mut fuel: isize = 2;
    merger.work(&a, &b, &mut fuel);
    assert_eq!(fuel, 1);
    assert!(!merger.is_complete(&a, &b));
    let mut fuel: isize = 100;
    merger.work(&a, &b, &mut fuel);
    assert!(merger.is_complete(&a, &b));
    assert_eq!(fuel, 98);
    let m: OrdZSet<i64, ()> = OrdZSetMerger::done(merger);
    assert_eq!(collect(&m), vec![(1, (), 1), (2, (), 1), (5, (), 1), (6, (), 4)]);
}

#[test]
fn builder_sorts_consolidates_and_drops_zero() {
    let mut b = OrdZSetBuilder::<i64, i64>::with_capacity(4);
    b.push((2, 1, 5));
    b.push((1, 9, 1));
    b.push((2, 0, 3));
    b.push((1, 9, -1));
    b.push((2, 1, -2));
    b.push((3, 3, 0));
    let z = b.done();
    assert_eq!(collect(&z), vec![(2, 0, 3), (2, 1, 3)]);
    assert_eq!(z.len(), 2);
    assert_eq!(z.key_count(), 1);
}

#[test]
fn negation_and_weighted_count() {
    let z = OrdZSet::<i64, ()>::from_keys(vec![(1, 2), (2, -5), (3, 7)]);
    let mut sum: ZWeight = 99;
    z.weighted_count(&mut sum);
    assert_eq!(sum, 4);
    let n = z.neg_by_ref();
    assert_eq!(collect(&n), vec![(1, (), -2), (2, (), 5), (3, (), -7)]);
    let mut sum: ZWeight = 0;
    n.neg().weighted_count(&mut sum);
    assert_eq!(sum, 4);
}

#[test]
fn cursor_navigation() {
    let z = OrdIndexedZSet::<i64, i64>::from_tuples(vec![
        (1, 10, 1),
        (1, 20, 2),
        (4, 5, 3),
        (9, 1, -1),
        (9, 2, 1),
    ]);
    let mut c = z.cursor();
    assert!(c.key_valid());
    assert_eq!(*c.key(), 1);
    assert_eq!(*c.val(), 10);
    assert_eq!(c.weight(), 1);
    c.seek_val(&15);
    assert_eq!(*c.val(), 20);
    c.step_val();
    assert!(!c.val_valid());
    c.step_key();
    assert_eq!(c.get_key(), Some(&4));
    c.seek_key(&5);
    assert_eq!(*c.key(), 9);
    assert_eq!(c.weight(), -1);
    c.step_val();
    assert_eq!(*c.val(), 2);
    c.rewind_vals();
    assert_eq!(*c.val(), 1);
    assert_eq!(c.last_key(), Some(&9));
    c.step_key();
    assert!(!c.key_valid());
    assert_eq!(c.get_val(), None);
    c.rewind_keys();
    assert_eq!(*c.key(), 1);
}

#[test]
fn consumer_takes_tuples_key_by_key() {
    let z = OrdIndexedZSet::<i64, i64>::from_tuples(vec![(1, 10, 1), (1, 20, 2), (4, 5, 3), (9, 1, -1)]);
    let mut c = z.consumer();
    assert!(c.key_valid());
    assert_eq!(*c.peek_key(), 1);
    let (k, mut vals) = c.next_key();
    assert_eq!(k, 1);
    assert_eq!(vals.remaining_values(), 2);
    assert_eq!(vals.next_value(), (10, 1));
    assert_eq!(vals.next_value(), (20, 2));
    assert!(!vals.value_valid());
    c.seek_key(&5);
    let (k, mut vals) = c.next_key();
    assert_eq!(k, 9);
    assert_eq!(vals.next_value(), (1, -1));
    assert!(!c.key_valid());
}

#[test]
fn recede_leaves_batch_unchanged() {
    let mut z = OrdZSet::<i64, ()>::from_keys(vec![(3, 1)]);
    z.recede_to(&());
    assert_eq!(collect(&z), vec![(3, (), 1)]);
    assert!(!z.is_empty());
    assert!(OrdZSet::<i64, ()>::empty().is_empty());
}

#[test]
fn cursor_lists_tuples() {
    let z = OrdIndexedZSet::<i64, i64>::from_tuples(vec![(1, 10, 1), (1, 20, 2), (4, 5, 3)]);
    let mut c = z.cursor();
    assert_eq!(
        c.to_vec(),
        vec![((1, 10), vec![((), 1)]), ((1, 20), vec![((), 2)]), ((4, 5), vec![((), 3)])]
    );
    assert!(!c.key_valid());
    c.rewind_keys();
    c.step_val();
    assert_eq!(c.val_to_vec(), vec![(20, vec![((), 2)])]);
    assert!(!c.val_valid());
    assert_eq!(*c.key(), 1);
}

#[test]
fn by_value_sum() {
    let a = OrdZSet::<String, ()>::from_keys(vec![(s("a"), 1), (s("b"), 2)]);
    let b = OrdZSet::<String, ()>::from_keys(vec![(s("a"), -1), (s("c"), 3)]);
    let mut c = OrdZSet::<String, ()>::from_keys(vec![(s("b"), 1)]);
    c.add_assign(OrdZSet::from_keys(vec![(s("b"), -1)]));
    assert!(c.is_empty());
    assert_eq!(collect(&a.add(b)), vec![(s("b"), (), 2), (s("c"), (), 3)]);
}

#[test]
fn fuel_counts_pushed_tuples() {
    let a = OrdZSet::<i64, ()>::from_keys(vec![(1, 1), (2, 1)]);
    let b = OrdZSet::<i64, ()>::from_keys(vec![(1, 2), (2, -1)]);
    let mut merger = a.begin_merge(&b);
    let mut fuel: isize = 5;
    merger.work(&a, &b, &mut fuel);
    // one pair merged into one tuple, one pair cancelled out
    assert_eq!(fuel, 4);
    assert!(merger.is_complete(&a, &b));
    assert_eq!(collect(&merger.done()), vec![(1, (), 3)]);
}

#[test]
fn plain_zset_consumer_gives_one_value_per_key() {
    let z = OrdZSet::<i64, ()>::from_keys(vec![(5, 2), (1, -1), (5, 1), (3, 4)]);
    let mut c = z.consumer();
    let mut seen = Vec::new();
    while c.key_valid() {
        let (k, mut vals) = c.next_key();
        assert_eq!(vals.remaining_values(), 1);
        let (_, w) = vals.next_value();
        assert!(!vals.value_valid());
        seen.push((k, w));
    }
    assert_eq!(seen, vec![(1, -1), (3, 4), (5, 3)]);
}
