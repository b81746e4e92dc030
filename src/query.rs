//! Queries over decoded records: filter-count and map-reduce.
//!
//! A decode failure anywhere in the input is fatal: the query returns the
//! first failure and reports no partial count or aggregate.
use vstd::prelude::*;
use crate::aggregator::{
    Aggregator, Emission, ShardedAggregator, emissions_of, fold_emissions, lemma_fold_concat,
    lemma_route_concat, lemma_shards_match_single, route_all, for_shard, split_by_shard,
};
use crate::key::{FixedKey, key_bytes_of};

verus! {

/// Why a record's bytes could not be decoded: the byte offset, in its
/// decompressed stream, at which decoding stopped.
#[derive(Clone, Copy, Debug, PartialEq, Eq, Structural)]
pub struct DecodeError {
    pub offset: u64,
}

/// What a map step produced for one record.
pub enum Emit {
    Nothing,
    One(FixedKey, u64),
    Many(Vec<(FixedKey, u64)>),
}

impl Emit {
    /// The emissions, in order.
    pub open spec fn emissions(&self) -> Seq<Emission> {
        match self {
            Emit::Nothing => Seq::empty(),
            Emit::One(k, v) => seq![(k@, *v)],
            Emit::Many(es) => emissions_of(es@),
        }
    }
}

/// A map step: the emissions of one record.
pub trait RecordMapper<T> {
    spec fn spec_emit(&self, r: T) -> Seq<Emission>;

    fn emit(&self, r: &T) -> (e: Emit)
        ensures
            e.emissions() == self.spec_emit(*r),
    ;
}

/// A pure predicate on records.
pub trait RecordPredicate<T> {
    spec fn spec_holds(&self, r: T) -> bool;

    fn holds(&self, r: &T) -> (b: bool)
        ensures
            b == self.spec_holds(*r),
    ;
}

/// The first decode failure of `rs`, if any.
pub open spec fn first_error<T>(rs: Seq<Result<T, DecodeError>>) -> Option<DecodeError>
    decreases rs.len(),
{
    if rs.len() == 0 {
        None
    } else {
        match first_error(rs.drop_last()) {
            Some(e) => Some(e),
            None => match rs.last() {
                Err(e) => Some(e),
                Ok(_) => None,
            },
        }
    }
}

/// The number of decoded records of `rs` on which `p` holds.
pub open spec fn count_matching<T, P: RecordPredicate<T>>(p: P, rs: Seq<Result<T, DecodeError>>) -> nat
    decreases rs.len(),
{
    if rs.len() == 0 {
        0
    } else {
        count_matching(p, rs.drop_last()) + match rs.last() {
            Ok(r) => if p.spec_holds(r) {
                1nat
            } else {
                0nat
            },
            Err(_) => 0nat,
        }
    }
}

/// The emissions of the decoded records of `rs`, record by record.
pub open spec fn emitted<T, M: RecordMapper<T>>(m: M, rs: Seq<Result<T, DecodeError>>) -> Seq<Emission>
    decreases rs.len(),
{
    if rs.len() == 0 {
        Seq::empty()
    } else {
        emitted(m, rs.drop_last()) + match rs.last() {
            Ok(r) => m.spec_emit(r),
            Err(_) => Seq::empty(),
        }
    }
}

/// The first decode failure of `records`, if any.
pub fn find_error<T>(records: &Vec<Result<T, DecodeError>>) -> (r: Option<DecodeError>)
    ensures
        r == first_error(records@),
{
    let mut i: usize = 0;
    while i < records.len()
        invariant
            i <= records@.len(),
            first_error(records@.subrange(0, i as int)) is None,
        decreases records@.len() - i,
    {
        proof {
            assert(records@.subrange(0, i + 1).drop_last() =~= records@.subrange(0, i as int));
        }
        match &records[i] {
            Ok(_) => {},
            Err(e) => {
                proof {
                    lemma_first_error_prefix(records@, i + 1);
                }
                return Some(*e);
            },
        }
        i = i + 1;
    }
    proof {
        assert(records@.subrange(0, i as int) =~= records@);
    }
    None
}

proof fn lemma_first_error_prefix<T>(rs: Seq<Result<T, DecodeError>>, i: int)
    requires
        0 <= i <= rs.len(),
        first_error(rs.subrange(0, i)) is Some,
    ensures
        first_error(rs) == first_error(rs.subrange(0, i)),
    decreases rs.len() - i,
{
    if i < rs.len() {
        assert(rs.subrange(0, i + 1).drop_last() =~= rs.subrange(0, i));
        lemma_first_error_prefix(rs, i + 1);
    } else {
        assert(rs.subrange(0, i) =~= rs);
    }
}

/// Counts the records on which `p` holds, or returns the first decode
/// failure.
pub fn filter_count<T, P: RecordPredicate<T>>(p: &P, records: &Vec<Result<T, DecodeError>>) -> (r:
    Result<u64, DecodeError>)
    ensures
        r == (match first_error(records@) {
            Some(e) => Err::<u64, DecodeError>(e),
            None => Ok(count_matching(*p, records@) as u64),
        }),
{
    let mut count: usize = 0;
    let mut i: usize = 0;
    while i < records.len()
        invariant
            i <= records@.len(),
            count <= i,
            first_error(records@.subrange(0, i as int)) is None,
            count == count_matching(*p, records@.subrange(0, i as int)),
        decreases records@.len() - i,
    {
        proof {
            assert(records@.subrange(0, i + 1).drop_last() =~= records@.subrange(0, i as int));
        }
        match &records[i] {
            Ok(rec) => {
                if p.holds(rec) {
                    count = count + 1;
                }
            },
            Err(e) => {
                proof {
                    lemma_first_error_prefix(records@, i + 1);
                }
                return Err(*e);
            },
        }
        i = i + 1;
    }
    proof {
        assert(records@.subrange(0, i as int) =~= records@);
    }
    Ok(count as u64)
}

fn feed_sharded(agg: &mut ShardedAggregator, e: Emit)
    requires
        old(agg).wf(),
    ensures
        final(agg).wf(),
        final(agg).shard_views() == route_all(old(agg).shard_views(), e.emissions()),
{
    let ghost want = e.emissions();
    match e {
        Emit::Nothing => {
            assert(want =~= Seq::<Emission>::empty());
            assert(route_all(agg.shard_views(), want) == agg.shard_views());
        },
        Emit::One(k, v) => {
            assert(want.drop_last() =~= Seq::<Emission>::empty());
            assert(want.last() == (k@, v));
            assert(route_all(agg.shard_views(), want.drop_last()) == agg.shard_views());
            agg.insert_or_merge(k, v);
        },
        Emit::Many(es) => {
            assert(want == emissions_of(es@));
            agg.insert_all(&es);
        },
    }
}

fn feed_single(agg: &mut Aggregator, e: Emit)
    requires
        old(agg).wf(),
    ensures
        final(agg).wf(),
        final(agg)@ == fold_emissions(old(agg)@, e.emissions()),
{
    let ghost want = e.emissions();
    match e {
        Emit::Nothing => {
            assert(want =~= Seq::<Emission>::empty());
            assert(fold_emissions(agg@, want) == agg@);
        },
        Emit::One(k, v) => {
            assert(want.drop_last() =~= Seq::<Emission>::empty());
            assert(want.last() == (k@, v));
            assert(fold_emissions(agg@, want.drop_last()) == agg@);
            agg.insert_or_merge(k, v);
        },
        Emit::Many(es) => {
            assert(want == emissions_of(es@));
            agg.insert_all(&es);
        },
    }
}

/// Maps every record and merges the emissions into the sharded `agg`. On a
/// decode failure nothing is merged and the first failure is returned.
pub fn map_reduce<T, M: RecordMapper<T>>(
    m: &M,
    records: &Vec<Result<T, DecodeError>>,
    agg: &mut ShardedAggregator,
) -> (r: Result<(), DecodeError>)
    requires
        old(agg).wf(),
    ensures
        final(agg).wf(),
        match first_error(records@) {
            Some(e) => r == Err::<(), DecodeError>(e) && final(agg).shard_views() == old(
                agg,
            ).shard_views(),
            None => r is Ok && final(agg).shard_views() == route_all(
                old(agg).shard_views(),
                emitted(*m, records@),
            ) && final(agg)@ == fold_emissions(old(agg)@, emitted(*m, records@)),
        },
{
    match find_error(records) {
        Some(e) => {
            return Err(e);
        },
        None => {},
    }
    let mut i: usize = 0;
    while i < records.len()
        invariant
            i <= records@.len(),
            agg.wf(),
            agg.shard_views() == route_all(
                old(agg).shard_views(),
                emitted(*m, records@.subrange(0, i as int)),
            ),
        decreases records@.len() - i,
    {
        proof {
            assert(records@.subrange(0, i + 1).drop_last() =~= records@.subrange(0, i as int));
        }
        match &records[i] {
            Ok(rec) => {
                let e = m.emit(rec);
                proof {
                    lemma_route_concat(
                        old(agg).shard_views(),
                        emitted(*m, records@.subrange(0, i as int)),
                        e.emissions(),
                    );
                }
                feed_sharded(agg, e);
            },
            Err(_) => {
                proof {
                    assert(emitted(*m, records@.subrange(0, i + 1)) =~= emitted(
                        *m,
                        records@.subrange(0, i as int),
                    ));
                }
            },
        }
        i = i + 1;
    }
    proof {
        assert(records@.subrange(0, i as int) =~= records@);
        old(agg).lemma_has_shards();
        lemma_shards_match_single(old(agg).shard_views(), emitted(*m, records@));
    }
    Ok(())
}

/// Maps every record and merges the emissions into the single-owner `agg`.
/// On a decode failure nothing is merged and the first failure is returned.
pub fn map_reduce_single<T, M: RecordMapper<T>>(
    m: &M,
    records: &Vec<Result<T, DecodeError>>,
    agg: &mut Aggregator,
) -> (r: Result<(), DecodeError>)
    requires
        old(agg).wf(),
    ensures
        final(agg).wf(),
        match first_error(records@) {
            Some(e) => r == Err::<(), DecodeError>(e) && final(agg)@ == old(agg)@,
            None => r is Ok && final(agg)@ == fold_emissions(old(agg)@, emitted(*m, records@)),
        },
{
    match find_error(records) {
        Some(e) => {
            return Err(e);
        },
        None => {},
    }
    let mut i: usize = 0;
    while i < records.len()
        invariant
            i <= records@.len(),
            agg.wf(),
            agg@ == fold_emissions(old(agg)@, emitted(*m, records@.subrange(0, i as int))),
        decreases records@.len() - i,
    {
        proof {
            assert(records@.subrange(0, i + 1).drop_last() =~= records@.subrange(0, i as int));
        }
        match &records[i] {
            Ok(rec) => {
                let e = m.emit(rec);
                proof {
                    lemma_fold_concat(
                        old(agg)@,
                        emitted(*m, records@.subrange(0, i as int)),
                        e.emissions(),
                    );
                }
                feed_single(agg, e);
            },
            Err(_) => {
                proof {
                    assert(emitted(*m, records@.subrange(0, i + 1)) =~= emitted(
                        *m,
                        records@.subrange(0, i as int),
                    ));
                }
            },
        }
        i = i + 1;
    }
    proof {
        assert(records@.subrange(0, i as int) =~= records@);
    }
    Ok(())
}

fn push_emit(out: &mut Vec<(FixedKey, u64)>, e: Emit)
    ensures
        emissions_of(final(out)@) == emissions_of(old(out)@) + e.emissions(),
{
    let ghost want = e.emissions();
    match e {
        Emit::Nothing => {
            assert(emissions_of(out@) + want =~= emissions_of(out@));
        },
        Emit::One(k, v) => {
            out.push((k, v));
            assert(emissions_of(out@) =~= emissions_of(old(out)@) + want);
        },
        Emit::Many(es) => {
            let mut es = es;
            out.append(&mut es);
            assert(emissions_of(out@) =~= emissions_of(old(out)@) + want);
        },
    }
}

/// Maps the records of one file and splits the emissions into `n` lists,
/// one per shard, for merging shard by shard. On a decode failure nothing
/// is produced and the first failure is returned.
pub fn map_file<T, M: RecordMapper<T>>(m: &M, records: &Vec<Result<T, DecodeError>>, n: usize) -> (r:
    Result<Vec<Vec<(FixedKey, u64)>>, DecodeError>)
    requires
        n >= 1,
    ensures
        match first_error(records@) {
            Some(e) => r == Err::<Vec<Vec<(FixedKey, u64)>>, DecodeError>(e),
            None => r is Ok && r->Ok_0@.len() == n && forall|i: int|
                0 <= i < n ==> emissions_of(#[trigger] r->Ok_0@[i]@) == for_shard(
                    emitted(*m, records@),
                    n as nat,
                    i,
                ),
        },
{
    match find_error(records) {
        Some(e) => {
            return Err(e);
        },
        None => {},
    }
    let mut out: Vec<(FixedKey, u64)> = Vec::new();
    let mut i: usize = 0;
    while i < records.len()
        invariant
            i <= records@.len(),
            emissions_of(out@) == emitted(*m, records@.subrange(0, i as int)),
        decreases records@.len() - i,
    {
        proof {
            assert(records@.subrange(0, i + 1).drop_last() =~= records@.subrange(0, i as int));
        }
        match &records[i] {
            Ok(rec) => {
                let e = m.emit(rec);
                push_emit(&mut out, e);
            },
            Err(_) => {
                proof {
                    assert(emitted(*m, records@.subrange(0, i + 1)) =~= emitted(
                        *m,
                        records@.subrange(0, i as int),
                    ));
                }
            },
        }
        i = i + 1;
    }
    proof {
        assert(records@.subrange(0, i as int) =~= records@);
    }
    Ok(split_by_shard(&out, n))
}

/// With a predicate that holds of every record, the count is the number of
/// decoded records; with one that holds of none, it is zero.
pub proof fn lemma_count_extremes<T, P: RecordPredicate<T>>(p: P, rs: Seq<Result<T, DecodeError>>)
    ensures
        count_matching(p, rs) <= rs.len(),
        (forall|r: T| #[trigger] p.spec_holds(r)) && first_error(rs) is None ==> count_matching(p, rs)
            == rs.len(),
        (forall|r: T| !#[trigger] p.spec_holds(r)) ==> count_matching(p, rs) == 0,
    decreases rs.len(),
{
    if rs.len() > 0 {
        lemma_count_extremes(p, rs.drop_last());
    }
}

/// The per-file record sequences of a list of files.
pub open spec fn file_views<T>(files: Seq<Vec<Result<T, DecodeError>>>) -> Seq<
    Seq<Result<T, DecodeError>>,
> {
    files.map_values(|f: Vec<Result<T, DecodeError>>| f@)
}

/// The total number of records over all files.
pub open spec fn total_records<R>(files: Seq<Seq<R>>) -> nat
    decreases files.len(),
{
    if files.len() == 0 {
        0
    } else {
        files[0].len() + total_records(files.drop_first())
    }
}

/// The chained stream is as long as all files together.
pub proof fn lemma_stream_len<R>(files: Seq<Seq<R>>)
    ensures
        files.flatten().len() == total_records(files),
    decreases files.len(),
{
    if files.len() > 0 {
        lemma_stream_len(files.drop_first());
    }
}

/// Chains the decoded records of each file into one stream, keeping file
/// order and, within a file, record order.
pub fn chain_files<T>(files: Vec<Vec<Result<T, DecodeError>>>) -> (r: Vec<Result<T, DecodeError>>)
    ensures
        r@ == file_views(files@).flatten(),
        r@.len() == total_records(file_views(files@)),
{
    let ghost whole = file_views(files@);
    let mut rest = files;
    let mut r: Vec<Result<T, DecodeError>> = Vec::new();
    assert(r@ + file_views(rest@).flatten() =~= whole.flatten());
    while rest.len() > 0
        invariant
            r@ + file_views(rest@).flatten() == whole.flatten(),
        decreases rest@.len(),
    {
        let ghost before = rest@;
        let mut f = rest.remove(0);
        proof {
            assert(file_views(before).drop_first() =~= file_views(rest@));
            assert(file_views(before)[0] == f@);
        }
        let ghost prev = r@;
        r.append(&mut f);
        proof {
            assert(r@ + file_views(rest@).flatten() =~= prev + file_views(before).flatten());
        }
    }
    proof {
        assert(file_views(rest@).flatten() =~= Seq::<Result<T, DecodeError>>::empty());
        assert(r@ =~= whole.flatten());
        lemma_stream_len(whole);
    }
    r
}

/// `s` read from its end.
pub open spec fn reversed<R>(s: Seq<R>) -> Seq<R> {
    Seq::new(s.len(), |i: int| s[s.len() - 1 - i])
}

/// A forward-only stream of decoded records over several files: the records
/// of the first file, then those of the next, and so on. A file is started
/// only once the one before it is exhausted.
pub struct RecordStream<T> {
    current: Vec<Result<T, DecodeError>>,
    pending: Vec<Vec<Result<T, DecodeError>>>,
}

impl<T> View for RecordStream<T> {
    type V = Seq<Result<T, DecodeError>>;

    /// The records not yet yielded, in order.
    closed spec fn view(&self) -> Seq<Result<T, DecodeError>> {
        reversed(self.current@) + file_views(self.pending@).flatten()
    }
}

impl<T> RecordStream<T> {
    /// A stream over the records of `files`, in file order.
    pub fn new(files: Vec<Vec<Result<T, DecodeError>>>) -> (r: RecordStream<T>)
        ensures
            r@ == file_views(files@).flatten(),
    {
        let r = RecordStream { current: Vec::new(), pending: files };
        assert(reversed(r.current@) =~= Seq::<Result<T, DecodeError>>::empty());
        assert(r@ =~= file_views(files@).flatten());
        r
    }

    /// Yields the next record, or `None` once every file is exhausted.
    pub fn next_record(&mut self) -> (r: Option<Result<T, DecodeError>>)
        ensures
            match r {
                None => old(self)@.len() == 0 && final(self)@ == old(self)@,
                Some(x) => old(self)@.len() > 0 && x == old(self)@[0] && final(self)@ == old(
                    self,
                )@.drop_first(),
            },
    {
        while self.current.len() == 0 && self.pending.len() > 0
            invariant
                self@ == old(self)@,
            decreases self.pending@.len(),
        {
            let ghost before = self.pending@;
            assert(reversed(self.current@) =~= Seq::<Result<T, DecodeError>>::empty());
            let mut file = self.pending.remove(0);
            let ghost whole = file@;
            let ghost rest = self.pending@;
            proof {
                assert(file_views(before).drop_first() =~= file_views(rest));
                assert(file_views(before)[0] == whole);
                assert(file_views(before).flatten() == whole + file_views(rest).flatten());
            }
            while file.len() > 0
                invariant
                    file@ + reversed(self.current@) == whole,
                    self.pending@ == rest,
                    rest.len() < before.len(),
                decreases file@.len(),
            {
                let ghost f = file@;
                let ghost c = self.current@;
                let x = file.pop().unwrap();
                self.current.push(x);
                proof {
                    assert(f == file@.push(x));
                    assert(reversed(self.current@) =~= seq![x] + reversed(c));
                    assert(file@ + reversed(self.current@) =~= f + reversed(c));
                }
            }
            proof {
                assert(file@ + reversed(self.current@) =~= reversed(self.current@));
            }
        }
        if self.current.len() == 0 {
            proof {
                assert(self.pending@.len() == 0);
                assert(file_views(self.pending@) =~= Seq::<Seq<Result<T, DecodeError>>>::empty());
                assert(reversed(self.current@) =~= Seq::<Result<T, DecodeError>>::empty());
                assert(self@.len() == 0);
            }
            return None;
        }
        let ghost c = self.current@;
        let x = self.current.pop().unwrap();
        proof {
            assert(c == self.current@.push(x));
            assert(reversed(c) =~= seq![x] + reversed(self.current@));
            assert(old(self)@ =~= seq![x] + self@);
            assert(self@ =~= old(self)@.drop_first());
        }
        Some(x)
    }
}

/// A count of records, saturated at `u64::MAX`.
pub open spec fn saturated(n: nat) -> u64 {
    if n > u64::MAX {
        u64::MAX
    } else {
        n as u64
    }
}

/// Counts the records of a stream on which `p` holds, reading it to its
/// end, or stops at the first decode failure and returns it.
pub fn filter_count_stream<T, P: RecordPredicate<T>>(p: &P, stream: &mut RecordStream<T>) -> (r:
    Result<u64, DecodeError>)
    ensures
        r == (match first_error(old(stream)@) {
            Some(e) => Err::<u64, DecodeError>(e),
            None => Ok(saturated(count_matching(*p, old(stream)@))),
        }),
{
    let ghost all = stream@;
    let mut count: u64 = 0;
    let ghost mut seen: Seq<Result<T, DecodeError>> = Seq::empty();
    loop
        invariant
            all == old(stream)@,
            seen + stream@ == all,
            first_error(seen) is None,
            count == saturated(count_matching(*p, seen)),
        decreases stream@.len(),
    {
        let ghost before = stream@;
        let ghost prev = seen;
        match stream.next_record() {
            None => {
                proof {
                    assert(seen =~= all);
                }
                return Ok(count);
            },
            Some(Ok(rec)) => {
                proof {
                    seen = seen.push(Ok(rec));
                    assert(seen.drop_last() =~= prev);
                    assert(seen + stream@ =~= all);
                }
                if p.holds(&rec) {
                    count = count.saturating_add(1);
                }
            },
            Some(Err(e)) => {
                proof {
                    let upto = prev.push(Err(e));
                    assert(upto.drop_last() =~= prev);
                    assert(all[prev.len() as int] == before[0]);
                    assert(all.subrange(0, upto.len() as int) =~= upto);
                    lemma_first_error_prefix(all, upto.len() as int);
                }
                return Err(e);
            },
        }
    }
}

/// A page-ranking record.
pub struct Ranking {
    pub page_url: Vec<u8>,
    pub pagerank: u32,
    pub avg_duration: u32,
}

/// A user-visit record; the ad revenue is in hundredths of a unit.
pub struct UserVisit {
    pub source_ip: Vec<u8>,
    pub dest_url: Vec<u8>,
    pub ad_revenue: u64,
    pub duration: u32,
}

/// Holds of rankings whose page rank exceeds `threshold`.
pub struct PagerankAbove {
    pub threshold: u32,
}

impl RecordPredicate<Ranking> for PagerankAbove {
    open spec fn spec_holds(&self, r: Ranking) -> bool {
        r.pagerank > self.threshold
    }

    fn holds(&self, r: &Ranking) -> (b: bool) {
        r.pagerank > self.threshold
    }
}

/// Emits each visit's ad revenue under the key of its source address.
pub struct RevenueBySourceIp;

impl RecordMapper<UserVisit> for RevenueBySourceIp {
    open spec fn spec_emit(&self, r: UserVisit) -> Seq<Emission> {
        seq![(key_bytes_of(r.source_ip@), r.ad_revenue)]
    }

    fn emit(&self, r: &UserVisit) -> (e: Emit) {
        Emit::One(FixedKey::from_bytes(r.source_ip.as_slice()), r.ad_revenue)
    }
}

} // verus!
