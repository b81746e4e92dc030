use dazone::aggregator::{Aggregator, ShardedAggregator};
use dazone::key::FixedKey;
use dazone::query::{
    chain_files, filter_count, find_error, map_reduce, map_reduce_single, DecodeError, Emit,
    PagerankAbove, Ranking, RecordMapper, RevenueBySourceIp, UserVisit,
};

fn ranking(rank: u32) -> Result<Ranking, DecodeError> {
    Ok(Ranking { page_url: b"http://a".to_vec(), pagerank: rank, avg_duration: 1 })
}

fn visit(ip: &str, cents: u64) -> Result<UserVisit, DecodeError> {
    Ok(UserVisit {
        source_ip: ip.as_bytes().to_vec(),
        dest_url: b"http://b".to_vec(),
        ad_revenue: cents,
        duration: 3,
    })
}

#[test]
fn filter_count_counts_matching_records() {
    let rs = vec![ranking(5), ranking(11), ranking(10), ranking(40)];
    assert_eq!(filter_count(&PagerankAbove { threshold: 10 }, &rs), Ok(2));
}

#[test]
fn filter_count_with_always_and_never_true_predicates() {
    let rs = vec![ranking(5), ranking(11), ranking(10)];
    assert_eq!(filter_count(&PagerankAbove { threshold: 0 }, &rs), Ok(3));
    assert_eq!(filter_count(&PagerankAbove { threshold: u32::MAX }, &rs), Ok(0));
    let none: Vec<Result<Ranking, DecodeError>> = Vec::new();
    assert_eq!(filter_count(&PagerankAbove { threshold: 0 }, &none), Ok(0));
}

#[test]
fn filter_count_fails_on_a_malformed_record() {
    let rs = vec![ranking(50), Err(DecodeError { offset: 17 }), ranking(60), Err(DecodeError { offset: 90 })];
    assert_eq!(filter_count(&PagerankAbove { threshold: 10 }, &rs), Err(DecodeError { offset: 17 }));
    assert_eq!(find_error(&rs), Some(DecodeError { offset: 17 }));
}

#[test]
fn revenue_by_ip_converges_over_four_shards() {
    let rs = vec![visit("10.0.0.1", 500), visit("10.0.0.1", 300), visit("10.0.0.2", 100)];
    let mut agg = ShardedAggregator::new(4);
    assert_eq!(map_reduce(&RevenueBySourceIp, &rs, &mut agg), Ok(()));
    let merged = agg.converge();
    assert_eq!(merged.len(), 2);
    assert_eq!(merged.get(&FixedKey::prefix("10.0.0.1")), Some(800));
    assert_eq!(merged.get(&FixedKey::prefix("10.0.0.2")), Some(100));
    for n in [1usize, 2, 7] {
        let mut other = ShardedAggregator::new(n);
        assert_eq!(map_reduce(&RevenueBySourceIp, &rs, &mut other), Ok(()));
        let m = other.converge();
        assert_eq!(m.get(&FixedKey::prefix("10.0.0.1")), Some(800));
        assert_eq!(m.get(&FixedKey::prefix("10.0.0.2")), Some(100));
    }
}

#[test]
fn map_reduce_fails_without_partial_aggregate() {
    let rs = vec![visit("10.0.0.1", 500), Err(DecodeError { offset: 3 }), visit("10.0.0.2", 100)];
    let mut agg = ShardedAggregator::new(4);
    assert_eq!(map_reduce(&RevenueBySourceIp, &rs, &mut agg), Err(DecodeError { offset: 3 }));
    assert_eq!(agg.converge().len(), 0);
    let mut single = Aggregator::new();
    assert_eq!(map_reduce_single(&RevenueBySourceIp, &rs, &mut single), Err(DecodeError { offset: 3 }));
    assert_eq!(single.len(), 0);
}

#[test]
fn map_reduce_single_owner_sums_per_key() {
    let rs = vec![visit("10.0.0.1", 500), visit("10.0.0.1", 300), visit("10.0.0.2", 100)];
    let mut agg = Aggregator::new();
    assert_eq!(map_reduce_single(&RevenueBySourceIp, &rs, &mut agg), Ok(()));
    assert_eq!(agg.get(&FixedKey::prefix("10.0.0.1")), Some(800));
    assert_eq!(agg.get(&FixedKey::prefix("10.0.0.2")), Some(100));
}

#[test]
fn mapper_emits_one_pair_per_visit() {
    let v = visit("192.168.100.200", 7).unwrap();
    match RevenueBySourceIp.emit(&v) {
        Emit::One(k, cents) => {
            assert_eq!(k, FixedKey::from_bytes(b"192.168."));
            assert_eq!(cents, 7);
        }
        _ => panic!("expected one emission"),
    }
}

#[test]
fn chained_files_keep_file_and_record_order() {
    let files = vec![
        vec![ranking(1), ranking(2)],
        vec![],
        vec![ranking(3), Err(DecodeError { offset: 4 }), ranking(5)],
    ];
    let all = chain_files(files);
    assert_eq!(all.len(), 5);
    let ranks: Vec<Option<u32>> = all.iter().map(|r| r.as_ref().ok().map(|x| x.pagerank)).collect();
    assert_eq!(ranks, vec![Some(1), Some(2), Some(3), None, Some(5)]);
    assert_eq!(filter_count(&PagerankAbove { threshold: 0 }, &all), Err(DecodeError { offset: 4 }));
}

#[test]
fn map_file_buckets_emissions_by_shard() {
    let rs = vec![visit("10.0.0.1", 500), visit("10.0.0.1", 300), visit("10.0.0.2", 100)];
    let buckets = dazone::query::map_file(&RevenueBySourceIp, &rs, 4).unwrap();
    assert_eq!(buckets.len(), 4);
    let mut shards: Vec<Aggregator> = ShardedAggregator::new(4).into_shards();
    for (i, b) in buckets.iter().enumerate() {
        shards[i].insert_all(b);
    }
    let merged = ShardedAggregator::from_shards(shards).unwrap().converge();
    assert_eq!(merged.get(&FixedKey::prefix("10.0.0.1")), Some(800));
    assert_eq!(merged.get(&FixedKey::prefix("10.0.0.2")), Some(100));
    let bad = vec![visit("10.0.0.1", 500), Err(DecodeError { offset: 8 })];
    assert!(matches!(dazone::query::map_file(&RevenueBySourceIp, &bad, 4), Err(DecodeError { offset: 8 })));
}
