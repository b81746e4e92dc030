use dazone::aggregator::{Aggregator, ShardedAggregator};
use dazone::key::FixedKey;

fn key(s: &str) -> FixedKey {
    FixedKey::prefix(s)
}

fn sorted_entries(a: &Aggregator) -> Vec<(Vec<u8>, u64)> {
    let mut v: Vec<(Vec<u8>, u64)> = a
        .entries()
        .into_iter()
        .map(|(k, v)| (k.as_bytes().to_vec(), v))
        .collect();
    v.sort();
    v
}

#[test]
fn insert_then_merge_adds_values() {
    let mut a = Aggregator::new();
    a.insert_or_merge(key("x"), 5);
    a.insert_or_merge(key("y"), 1);
    a.insert_or_merge(key("x"), 3);
    assert_eq!(a.len(), 2);
    assert_eq!(a.get(&key("x")), Some(8));
    assert_eq!(a.get(&key("y")), Some(1));
    assert_eq!(a.get(&key("z")), None);
}

#[test]
fn merge_saturates_at_the_largest_value() {
    let mut a = Aggregator::new();
    a.insert_or_merge(key("x"), u64::MAX - 1);
    a.insert_or_merge(key("x"), 5);
    assert_eq!(a.get(&key("x")), Some(u64::MAX));
}

#[test]
fn permuted_emissions_give_the_same_mapping() {
    let es = vec![(key("a"), 1u64), (key("b"), 2), (key("a"), 3), (key("c"), 4), (key("b"), 5)];
    let mut rev = es.clone();
    rev.reverse();
    let mut x = Aggregator::new();
    x.insert_all(&es);
    let mut y = Aggregator::new();
    y.insert_all(&rev);
    assert_eq!(sorted_entries(&x), sorted_entries(&y));
    assert_eq!(x.get(&key("a")), Some(4));
    assert_eq!(x.get(&key("b")), Some(7));
}

#[test]
fn sharded_converge_matches_single_owner() {
    let es: Vec<(FixedKey, u64)> = (0..50u64)
        .map(|i| (FixedKey::from_bytes(format!("k{}", i % 13).as_bytes()), i))
        .collect();
    let mut single = Aggregator::new();
    single.insert_all(&es);
    for n in [1usize, 2, 3, 4, 16] {
        let mut sharded = ShardedAggregator::new(n);
        assert_eq!(sharded.shard_count(), n);
        sharded.insert_all(&es);
        let merged = sharded.converge();
        assert_eq!(sorted_entries(&merged), sorted_entries(&single));
        assert_eq!(merged.len(), 13);
    }
}

#[test]
fn shard_index_is_byte_sum_modulo_count() {
    let k = FixedKey::from_bytes(&[1, 2, 3]);
    assert_eq!(ShardedAggregator::shard_index(&k, 4), 2);
    assert_eq!(ShardedAggregator::shard_index(&k, 1), 0);
    assert_eq!(ShardedAggregator::shard_index(&k, 7), 6);
}

#[test]
fn converge_of_single_owner_keeps_mapping() {
    let mut a = Aggregator::new();
    a.insert_or_merge(key("q"), 9);
    let c = a.converge();
    assert_eq!(c.get(&key("q")), Some(9));
    assert_eq!(c.len(), 1);
}

#[test]
fn split_by_shard_keeps_order_within_each_shard() {
    let es = vec![
        (FixedKey::from_bytes(&[1]), 10u64),
        (FixedKey::from_bytes(&[2]), 20),
        (FixedKey::from_bytes(&[3]), 30),
        (FixedKey::from_bytes(&[1]), 40),
    ];
    let b = dazone::aggregator::split_by_shard(&es, 2);
    assert_eq!(b.len(), 2);
    let vals: Vec<Vec<u64>> = b.iter().map(|x| x.iter().map(|p| p.1).collect()).collect();
    assert_eq!(vals, vec![vec![20], vec![10, 30, 40]]);
}

#[test]
fn shards_can_be_handed_out_and_taken_back() {
    let mut s = ShardedAggregator::new(3);
    s.insert_or_merge(key("a"), 1);
    s.insert_or_merge(key("b"), 2);
    let shards = s.into_shards();
    assert_eq!(shards.len(), 3);
    let back = ShardedAggregator::from_shards(shards).unwrap().converge();
    assert_eq!(back.get(&key("a")), Some(1));
    assert_eq!(back.get(&key("b")), Some(2));
}

#[test]
fn misplaced_shards_are_refused() {
    let mut wrong = Aggregator::new();
    wrong.insert_or_merge(FixedKey::from_bytes(&[1]), 5);
    let shards = vec![wrong, Aggregator::new()];
    assert!(ShardedAggregator::from_shards(shards).is_none());
    assert!(ShardedAggregator::from_shards(Vec::new()).is_none());
}
