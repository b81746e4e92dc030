use dazone::query::{filter_count_stream, DecodeError, PagerankAbove, Ranking, RecordStream};

fn ranking(rank: u32) -> Result<Ranking, DecodeError> {
    Ok(Ranking { page_url: b"http://c".to_vec(), pagerank: rank, avg_duration: 2 })
}

#[test]
fn stream_yields_files_in_order_then_ends() {
    let mut s = RecordStream::new(vec![
        vec![],
        vec![ranking(1), ranking(2)],
        vec![],
        vec![ranking(3)],
        vec![],
    ]);
    let mut seen = Vec::new();
    while let Some(r) = s.next_record() {
        seen.push(r.unwrap().pagerank);
    }
    assert_eq!(seen, vec![1, 2, 3]);
    assert!(s.next_record().is_none());
}

#[test]
fn empty_stream_yields_nothing() {
    let mut s: RecordStream<Ranking> = RecordStream::new(Vec::new());
    assert!(s.next_record().is_none());
}

#[test]
fn stream_filter_count_sums_over_files() {
    let mut s = RecordStream::new(vec![vec![ranking(20), ranking(5)], vec![ranking(11)], vec![]]);
    assert_eq!(filter_count_stream(&PagerankAbove { threshold: 10 }, &mut s), Ok(2));
    let mut all = RecordStream::new(vec![vec![ranking(20), ranking(5)], vec![ranking(11)]]);
    assert_eq!(filter_count_stream(&PagerankAbove { threshold: 0 }, &mut all), Ok(3));
    let mut none = RecordStream::new(vec![vec![ranking(20), ranking(5)], vec![ranking(11)]]);
    assert_eq!(filter_count_stream(&PagerankAbove { threshold: u32::MAX }, &mut none), Ok(0));
}

#[test]
fn stream_filter_count_stops_at_malformed_record() {
    let mut s = RecordStream::new(vec![
        vec![ranking(20)],
        vec![Err(DecodeError { offset: 12 }), ranking(30)],
        vec![Err(DecodeError { offset: 40 })],
    ]);
    assert_eq!(filter_count_stream(&PagerankAbove { threshold: 10 }, &mut s), Err(DecodeError { offset: 12 }));
}
