//! Aggregators keyed by [`FixedKey`]: a single-owner form and a sharded form
//! whose shards are selected by a deterministic function of the key.
//!
//! Values are merged by saturating addition, which is associative and
//! commutative, so the final mapping does not depend on arrival order.
use vstd::prelude::*;
use crate::key::{FixedKey, KEY_LEN};

verus! {

/// A key's view: its bytes.
impl View for FixedKey {
    type V = Seq<u8>;

    open spec fn view(&self) -> Seq<u8> {
        self.bytes@
    }
}

/// One emission as the contracts see it: a key's bytes and a value.
pub type Emission = (Seq<u8>, u64);

/// The merge of two values: their sum, saturated at `u64::MAX`.
pub open spec fn merge(a: u64, b: u64) -> u64 {
    if a + b > u64::MAX {
        u64::MAX
    } else {
        (a + b) as u64
    }
}

/// The mapping after one emission: the value is stored for a new key and
/// merged into the stored value for a present one.
pub open spec fn add_emission(m: Map<Seq<u8>, u64>, e: Emission) -> Map<Seq<u8>, u64> {
    m.insert(e.0, if m.contains_key(e.0) { merge(m[e.0], e.1) } else { e.1 })
}

/// The mapping after the emissions `es`, in order, starting from `m`.
pub open spec fn fold_emissions(m: Map<Seq<u8>, u64>, es: Seq<Emission>) -> Map<Seq<u8>, u64>
    decreases es.len(),
{
    if es.len() == 0 {
        m
    } else {
        add_emission(fold_emissions(m, es.drop_last()), es.last())
    }
}

/// The mapping that the emissions `es` give from an empty aggregator.
pub open spec fn aggregate(es: Seq<Emission>) -> Map<Seq<u8>, u64> {
    fold_emissions(Map::empty(), es)
}

/// The sum of a key's bytes.
pub open spec fn byte_sum(k: Seq<u8>) -> nat
    decreases k.len(),
{
    if k.len() == 0 {
        0
    } else {
        byte_sum(k.drop_last()) + k.last() as nat
    }
}

/// The shard of `n` that holds key `k`.
pub open spec fn shard_of(k: Seq<u8>, n: nat) -> nat {
    if n == 0 {
        0
    } else {
        byte_sum(k) % n
    }
}

/// Shard mappings after one emission: only the key's own shard changes.
pub open spec fn route(shards: Seq<Map<Seq<u8>, u64>>, e: Emission) -> Seq<Map<Seq<u8>, u64>> {
    let i = shard_of(e.0, shards.len()) as int;
    shards.update(i, add_emission(shards[i], e))
}

/// Shard mappings after the emissions `es`, in order, starting from `shards`.
pub open spec fn route_all(shards: Seq<Map<Seq<u8>, u64>>, es: Seq<Emission>) -> Seq<
    Map<Seq<u8>, u64>,
>
    decreases es.len(),
{
    if es.len() == 0 {
        shards
    } else {
        route(route_all(shards, es.drop_last()), es.last())
    }
}

/// The single mapping that shard mappings stand for: each key is looked up
/// in its own shard.
pub open spec fn combined(shards: Seq<Map<Seq<u8>, u64>>) -> Map<Seq<u8>, u64> {
    Map::new(
        |k: Seq<u8>| shards[shard_of(k, shards.len()) as int].contains_key(k),
        |k: Seq<u8>| shards[shard_of(k, shards.len()) as int][k],
    )
}

/// The mapping held by a list of entries: later entries win.
pub open spec fn map_of(s: Seq<(FixedKey, u64)>) -> Map<Seq<u8>, u64>
    decreases s.len(),
{
    if s.len() == 0 {
        Map::empty()
    } else {
        map_of(s.drop_last()).insert(s.last().0@, s.last().1)
    }
}

/// No two entries share a key.
pub open spec fn keys_unique(s: Seq<(FixedKey, u64)>) -> bool {
    forall|i: int, j: int| 0 <= i < j < s.len() ==> s[i].0@ != s[j].0@
}

proof fn lemma_map_of_keys(s: Seq<(FixedKey, u64)>)
    ensures
        forall|k: Seq<u8>| #[trigger]
            map_of(s).contains_key(k) <==> exists|i: int| 0 <= i < s.len() && s[i].0@ == k,
        map_of(s).dom().finite(),
    decreases s.len(),
{
    if s.len() > 0 {
        lemma_map_of_keys(s.drop_last());
        assert forall|k: Seq<u8>| #[trigger]
            map_of(s).contains_key(k) <==> exists|i: int| 0 <= i < s.len() && s[i].0@ == k by {
            if map_of(s).contains_key(k) && k != s.last().0@ {
                let i = choose|i: int| 0 <= i < s.len() - 1 && s.drop_last()[i].0@ == k;
                assert(s[i].0@ == k);
            }
            if exists|i: int| 0 <= i < s.len() && s[i].0@ == k {
                let i = choose|i: int| 0 <= i < s.len() && s[i].0@ == k;
                if i < s.len() - 1 {
                    assert(s.drop_last()[i].0@ == k);
                }
            }
        }
    }
}

proof fn lemma_map_of_value(s: Seq<(FixedKey, u64)>, i: int)
    requires
        keys_unique(s),
        0 <= i < s.len(),
    ensures
        map_of(s).contains_key(s[i].0@),
        map_of(s)[s[i].0@] == s[i].1,
    decreases s.len(),
{
    if i < s.len() - 1 {
        lemma_map_of_value(s.drop_last(), i);
    }
}

proof fn lemma_map_of_update(s: Seq<(FixedKey, u64)>, i: int, v: u64)
    requires
        keys_unique(s),
        0 <= i < s.len(),
    ensures
        map_of(s.update(i, (s[i].0, v))) == map_of(s).insert(s[i].0@, v),
    decreases s.len(),
{
    let t = s.update(i, (s[i].0, v));
    if i == s.len() - 1 {
        assert(t.drop_last() =~= s.drop_last());
        lemma_map_of_keys(s.drop_last());
        assert(map_of(t) =~= map_of(s).insert(s[i].0@, v));
    } else {
        lemma_map_of_update(s.drop_last(), i, v);
        assert(t.drop_last() =~= s.drop_last().update(i, (s[i].0, v)));
        assert(map_of(t) =~= map_of(s).insert(s[i].0@, v));
    }
}

proof fn lemma_map_of_len(s: Seq<(FixedKey, u64)>)
    requires
        keys_unique(s),
    ensures
        map_of(s).dom().len() == s.len(),
    decreases s.len(),
{
    if s.len() > 0 {
        lemma_map_of_len(s.drop_last());
        lemma_map_of_keys(s.drop_last());
        assert(!map_of(s.drop_last()).contains_key(s.last().0@));
    }
}

/// The emissions that a list of (key, value) pairs stands for.
pub open spec fn emissions_of(s: Seq<(FixedKey, u64)>) -> Seq<Emission> {
    s.map_values(|e: (FixedKey, u64)| (e.0@, e.1))
}

proof fn lemma_add_commutes(m: Map<Seq<u8>, u64>, a: Emission, b: Emission)
    ensures
        add_emission(add_emission(m, a), b) == add_emission(add_emission(m, b), a),
{
    assert(add_emission(add_emission(m, a), b) =~= add_emission(add_emission(m, b), a));
}

proof fn lemma_fold_remove(m: Map<Seq<u8>, u64>, s: Seq<Emission>, i: int)
    requires
        0 <= i < s.len(),
    ensures
        fold_emissions(m, s) == add_emission(fold_emissions(m, s.remove(i)), s[i]),
    decreases s.len(),
{
    if i < s.len() - 1 {
        lemma_fold_remove(m, s.drop_last(), i);
        assert(s.remove(i).drop_last() =~= s.drop_last().remove(i));
        assert(s.remove(i).last() == s.last());
        lemma_add_commutes(fold_emissions(m, s.drop_last().remove(i)), s[i], s.last());
    } else {
        assert(s.remove(i) =~= s.drop_last());
    }
}

/// Feeding the same multiset of emissions in any order gives the same
/// mapping.
pub proof fn lemma_order_independent(m: Map<Seq<u8>, u64>, s1: Seq<Emission>, s2: Seq<Emission>)
    requires
        s1.to_multiset() == s2.to_multiset(),
    ensures
        fold_emissions(m, s1) == fold_emissions(m, s2),
    decreases s1.len(),
{
    broadcast use vstd::seq_lib::group_to_multiset_ensures;

    if s1.len() == 0 {
        assert(s2.to_multiset().len() == 0);
        assert(s2 =~= Seq::<Emission>::empty());
    } else {
        let e = s1.last();
        assert(s1.drop_last().push(e) =~= s1);
        assert(s1.to_multiset().count(e) > 0);
        assert(s2.to_multiset().count(e) > 0);
        assert(s2.contains(e));
        let i = choose|i: int| 0 <= i < s2.len() && s2[i] == e;
        assert(s1.drop_last().to_multiset() =~= s2.remove(i).to_multiset());
        lemma_order_independent(m, s1.drop_last(), s2.remove(i));
        lemma_fold_remove(m, s2, i);
    }
}

/// A sharded aggregator whose shards start from `shards` and receive
/// `es` ends, once combined, where one aggregator holding the combined
/// mapping ends after receiving `es`.
pub proof fn lemma_shards_match_single(shards: Seq<Map<Seq<u8>, u64>>, es: Seq<Emission>)
    requires
        shards.len() >= 1,
    ensures
        route_all(shards, es).len() == shards.len(),
        combined(route_all(shards, es)) == fold_emissions(combined(shards), es),
    decreases es.len(),
{
    if es.len() > 0 {
        lemma_shards_match_single(shards, es.drop_last());
        let before = route_all(shards, es.drop_last());
        let e = es.last();
        assert(combined(route(before, e)) =~= add_emission(combined(before), e));
    }
}

/// Feeding `a` then `b` is feeding `a + b`.
pub proof fn lemma_fold_concat(m: Map<Seq<u8>, u64>, a: Seq<Emission>, b: Seq<Emission>)
    ensures
        fold_emissions(m, a + b) == fold_emissions(fold_emissions(m, a), b),
    decreases b.len(),
{
    if b.len() == 0 {
        assert(a + b =~= a);
    } else {
        lemma_fold_concat(m, a, b.drop_last());
        assert((a + b).drop_last() =~= a + b.drop_last());
    }
}

/// Routing `a` then `b` is routing `a + b`.
pub proof fn lemma_route_concat(shards: Seq<Map<Seq<u8>, u64>>, a: Seq<Emission>, b: Seq<Emission>)
    ensures
        route_all(shards, a + b) == route_all(route_all(shards, a), b),
    decreases b.len(),
{
    if b.len() == 0 {
        assert(a + b =~= a);
    } else {
        lemma_route_concat(shards, a, b.drop_last());
        assert((a + b).drop_last() =~= a + b.drop_last());
    }
}

/// The emissions of `es` that shard `i` of `n` receives, in order.
pub open spec fn for_shard(es: Seq<Emission>, n: nat, i: int) -> Seq<Emission> {
    es.filter(routed_to(n, i))
}

/// Whether an emission goes to shard `i` of `n`.
pub open spec fn routed_to(n: nat, i: int) -> spec_fn(Emission) -> bool {
    |e: Emission| shard_of(e.0, n) == i
}

proof fn lemma_for_shard_push(es: Seq<Emission>, x: Emission, n: nat, i: int)
    ensures
        for_shard(es.push(x), n, i) == if shard_of(x.0, n) == i {
            for_shard(es, n, i).push(x)
        } else {
            for_shard(es, n, i)
        },
{
    es.lemma_filter_push(x, routed_to(n, i));
}

/// Routing emissions through the shards leaves each shard where feeding it
/// alone with its own share of the emissions would.
pub proof fn lemma_route_by_shard(shards: Seq<Map<Seq<u8>, u64>>, es: Seq<Emission>, i: int)
    requires
        shards.len() >= 1,
        0 <= i < shards.len(),
    ensures
        route_all(shards, es).len() == shards.len(),
        route_all(shards, es)[i] == fold_emissions(shards[i], for_shard(es, shards.len(), i)),
    decreases es.len(),
{
    lemma_shards_match_single(shards, es);
    if es.len() > 0 {
        lemma_route_by_shard(shards, es.drop_last(), i);
        lemma_shards_match_single(shards, es.drop_last());
        let part = for_shard(es.drop_last(), shards.len(), i);
        assert(es.drop_last().push(es.last()) =~= es);
        lemma_for_shard_push(es.drop_last(), es.last(), shards.len(), i);
        if shard_of(es.last().0, shards.len()) == i {
            assert(for_shard(es, shards.len(), i) == part.push(es.last()));
            assert(part.push(es.last()).drop_last() =~= part);
        } else {
            assert(for_shard(es, shards.len(), i) == part);
        }
    }
}

/// A single-owner aggregator: at most one entry per key.
pub struct Aggregator {
    entries: Vec<(FixedKey, u64)>,
}

impl View for Aggregator {
    type V = Map<Seq<u8>, u64>;

    closed spec fn view(&self) -> Map<Seq<u8>, u64> {
        map_of(self.entries@)
    }
}

impl Aggregator {
    /// The aggregator's entries have distinct keys.
    pub closed spec fn wf(&self) -> bool {
        keys_unique(self.entries@)
    }

    /// An empty aggregator.
    pub fn new() -> (r: Aggregator)
        ensures
            r.wf(),
            r@ == Map::<Seq<u8>, u64>::empty(),
    {
        Aggregator { entries: Vec::new() }
    }

    fn find(&self, key: &FixedKey) -> (r: Option<usize>)
        ensures
            match r {
                Some(i) => i < self.entries@.len() && self.entries@[i as int].0@ == key@,
                None => forall|i: int| 0 <= i < self.entries@.len() ==> self.entries@[i].0@ != key@,
            },
    {
        let mut i: usize = 0;
        while i < self.entries.len()
            invariant
                i <= self.entries@.len(),
                forall|j: int| 0 <= j < i ==> self.entries@[j].0@ != key@,
            decreases self.entries@.len() - i,
        {
            if self.entries[i].0 == *key {
                return Some(i);
            }
            i = i + 1;
        }
        None
    }

    /// Stores `value` for a new key; merges it into the stored value of a
    /// present one.
    pub fn insert_or_merge(&mut self, key: FixedKey, value: u64)
        requires
            old(self).wf(),
        ensures
            final(self).wf(),
            final(self)@ == add_emission(old(self)@, (key@, value)),
    {
        proof {
            lemma_map_of_keys(self.entries@);
        }
        match self.find(&key) {
            Some(i) => {
                let stored_key = self.entries[i].0;
                let stored = self.entries[i].1;
                let merged = stored.saturating_add(value);
                proof {
                    lemma_map_of_value(self.entries@, i as int);
                    lemma_map_of_update(self.entries@, i as int, merged);
                }
                self.entries.set(i, (stored_key, merged));
            },
            None => {
                self.entries.push((key, value));
                proof {
                    assert(self.entries@.drop_last() =~= old(self).entries@);
                }
            },
        }
    }

    /// The value stored for `key`, if any.
    pub fn get(&self, key: &FixedKey) -> (r: Option<u64>)
        requires
            self.wf(),
        ensures
            r == (if self@.contains_key(key@) {
                Some(self@[key@])
            } else {
                None::<u64>
            }),
    {
        proof {
            lemma_map_of_keys(self.entries@);
        }
        match self.find(key) {
            Some(i) => {
                proof {
                    lemma_map_of_value(self.entries@, i as int);
                }
                Some(self.entries[i].1)
            },
            None => None,
        }
    }

    /// The number of distinct keys.
    pub fn len(&self) -> (r: usize)
        requires
            self.wf(),
        ensures
            r == self@.dom().len(),
    {
        proof {
            lemma_map_of_len(self.entries@);
        }
        self.entries.len()
    }
}


impl Aggregator {
    /// Feeds every pair of `es`, in order.
    pub fn insert_all(&mut self, es: &Vec<(FixedKey, u64)>)
        requires
            old(self).wf(),
        ensures
            final(self).wf(),
            final(self)@ == fold_emissions(old(self)@, emissions_of(es@)),
    {
        let mut i: usize = 0;
        while i < es.len()
            invariant
                i <= es@.len(),
                self.wf(),
                self@ == fold_emissions(old(self)@, emissions_of(es@.subrange(0, i as int))),
            decreases es@.len() - i,
        {
            let (k, v) = es[i];
            self.insert_or_merge(k, v);
            proof {
                assert(emissions_of(es@.subrange(0, i + 1)).drop_last() =~= emissions_of(
                    es@.subrange(0, i as int),
                ));
            }
            i = i + 1;
        }
        proof {
            assert(es@.subrange(0, i as int) =~= es@);
        }
    }

    /// The entries, one per key, in no particular order.
    pub fn entries(&self) -> (r: Vec<(FixedKey, u64)>)
        requires
            self.wf(),
        ensures
            keys_unique(r@),
            map_of(r@) == self@,
    {
        let mut r: Vec<(FixedKey, u64)> = Vec::new();
        let mut i: usize = 0;
        while i < self.entries.len()
            invariant
                i <= self.entries@.len(),
                r@ == self.entries@.subrange(0, i as int),
            decreases self.entries@.len() - i,
        {
            r.push(self.entries[i]);
            i = i + 1;
        }
        assert(r@ =~= self.entries@);
        r
    }

    /// The final mapping: a single-owner aggregator is its own.
    pub fn converge(self) -> (r: Aggregator)
        requires
            self.wf(),
        ensures
            r.wf(),
            r@ == self@,
    {
        self
    }
}

/// An aggregator split into shards; a key is held only by the shard that
/// `shard_of` selects for it.
pub struct ShardedAggregator {
    shards: Vec<Aggregator>,
}

impl ShardedAggregator {
    /// The mapping held by each shard.
    pub closed spec fn shard_views(&self) -> Seq<Map<Seq<u8>, u64>> {
        self.shards@.map_values(|a: Aggregator| a@)
    }

    /// There is at least one shard, each well formed, each holding only the
    /// keys routed to it.
    pub closed spec fn wf(&self) -> bool {
        &&& self.shards@.len() >= 1
        &&& forall|i: int| 0 <= i < self.shards@.len() ==> #[trigger] self.shards@[i].wf()
        &&& forall|i: int, k: Seq<u8>|
            0 <= i < self.shards@.len() && #[trigger] self.shards@[i]@.contains_key(k) ==> shard_of(
                k,
                self.shards@.len() as nat,
            ) == i
    }

    /// A well-formed sharded aggregator has at least one shard.
    pub proof fn lemma_has_shards(&self)
        requires
            self.wf(),
        ensures
            self.shard_views().len() >= 1,
    {
    }

    /// `n` empty shards.
    pub fn new(n: usize) -> (r: ShardedAggregator)
        requires
            n >= 1,
        ensures
            r.wf(),
            r.shard_views() == Seq::new(n as nat, |i: int| Map::<Seq<u8>, u64>::empty()),
    {
        let mut shards: Vec<Aggregator> = Vec::new();
        while shards.len() < n
            invariant
                shards@.len() <= n,
                forall|i: int| 0 <= i < shards@.len() ==> #[trigger] shards@[i].wf(),
                forall|i: int| 0 <= i < shards@.len() ==> #[trigger] shards@[i]@ == Map::<Seq<u8>, u64>::empty(),
            decreases n - shards@.len(),
        {
            shards.push(Aggregator::new());
        }
        let r = ShardedAggregator { shards };
        assert(r.shard_views() =~= Seq::new(n as nat, |i: int| Map::<Seq<u8>, u64>::empty()));
        r
    }

    /// The number of shards.
    pub fn shard_count(&self) -> (r: usize)
        ensures
            r == self.shard_views().len(),
    {
        self.shards.len()
    }

    /// The index of the shard, out of `n`, that holds `key`.
    pub fn shard_index(key: &FixedKey, n: usize) -> (r: usize)
        requires
            n >= 1,
        ensures
            r == shard_of(key@, n as nat),
            r < n,
    {
        let mut sum: usize = 0;
        let mut i: usize = 0;
        while i < KEY_LEN
            invariant
                i <= KEY_LEN,
                key@.len() == KEY_LEN,
                sum <= 255 * i,
                sum == byte_sum(key@.subrange(0, i as int)),
            decreases KEY_LEN - i,
        {
            proof {
                assert(key@.subrange(0, i + 1).drop_last() =~= key@.subrange(0, i as int));
            }
            sum = sum + key.bytes[i] as usize;
            i = i + 1;
        }
        proof {
            assert(key@.subrange(0, KEY_LEN as int) =~= key@);
        }
        sum % n
    }

    /// Stores or merges `value` in the shard that `key` routes to; no other
    /// shard changes.
    pub fn insert_or_merge(&mut self, key: FixedKey, value: u64)
        requires
            old(self).wf(),
        ensures
            final(self).wf(),
            final(self).shard_views() == route(old(self).shard_views(), (key@, value)),
            final(self)@ == add_emission(old(self)@, (key@, value)),
    {
        let n = self.shards.len();
        let i = ShardedAggregator::shard_index(&key, n);
        let mut shard = self.shards.remove(i);
        assert(shard == old(self).shards@[i as int]);
        shard.insert_or_merge(key, value);
        self.shards.insert(i, shard);
        assert(self.shards@ =~= old(self).shards@.update(i as int, shard));
        assert(self.shard_views() =~= route(old(self).shard_views(), (key@, value)));
        assert(combined(self.shard_views()) =~= add_emission(
            combined(old(self).shard_views()),
            (key@, value),
        ));
    }

    /// Feeds every pair of `es`, in order.
    pub fn insert_all(&mut self, es: &Vec<(FixedKey, u64)>)
        requires
            old(self).wf(),
        ensures
            final(self).wf(),
            final(self).shard_views() == route_all(old(self).shard_views(), emissions_of(es@)),
            final(self)@ == fold_emissions(old(self)@, emissions_of(es@)),
    {
        let mut i: usize = 0;
        while i < es.len()
            invariant
                i <= es@.len(),
                self.wf(),
                self.shard_views() == route_all(
                    old(self).shard_views(),
                    emissions_of(es@.subrange(0, i as int)),
                ),
            decreases es@.len() - i,
        {
            let (k, v) = es[i];
            self.insert_or_merge(k, v);
            proof {
                assert(emissions_of(es@.subrange(0, i + 1)).drop_last() =~= emissions_of(
                    es@.subrange(0, i as int),
                ));
            }
            i = i + 1;
        }
        proof {
            assert(es@.subrange(0, i as int) =~= es@);
            lemma_shards_match_single(old(self).shard_views(), emissions_of(es@));
        }
    }

    /// Hands out the shards, so that each can be locked on its own.
    pub fn into_shards(self) -> (r: Vec<Aggregator>)
        requires
            self.wf(),
        ensures
            r@.len() == self.shard_views().len(),
            forall|i: int| 0 <= i < r@.len() ==> (#[trigger] r@[i]).wf() && r@[i]@ == self.shard_views()[i],
            forall|i: int, k: Seq<u8>|
                0 <= i < r@.len() && #[trigger] r@[i]@.contains_key(k) ==> shard_of(k, r@.len() as nat) == i,
    {
        self.shards
    }

    /// Takes back shards: `None` unless there is at least one and each holds
    /// only keys routed to it.
    pub fn from_shards(shards: Vec<Aggregator>) -> (r: Option<ShardedAggregator>)
        requires
            forall|i: int| 0 <= i < shards@.len() ==> (#[trigger] shards@[i]).wf(),
        ensures
            r is Some <==> shards@.len() >= 1 && forall|i: int, k: Seq<u8>|
                0 <= i < shards@.len() && #[trigger] shards@[i]@.contains_key(k) ==> shard_of(
                    k,
                    shards@.len() as nat,
                ) == i,
            r is Some ==> r->Some_0.wf() && r->Some_0.shard_views() == shards@.map_values(
                |a: Aggregator| a@,
            ),
    {
        let n = shards.len();
        if n == 0 {
            return None;
        }
        let mut i: usize = 0;
        while i < n
            invariant
                n == shards@.len(),
                i <= n,
                forall|x: int| 0 <= x < n ==> (#[trigger] shards@[x]).wf(),
                forall|x: int, k: Seq<u8>|
                    0 <= x < i && #[trigger] shards@[x]@.contains_key(k) ==> shard_of(k, n as nat) == x,
            decreases n - i,
        {
            let es = &shards[i].entries;
            proof {
                lemma_map_of_keys(es@);
            }
            let mut j: usize = 0;
            while j < es.len()
                invariant
                    n == shards@.len(),
                    i < n,
                    j <= es@.len(),
                    es@ == shards@[i as int].entries@,
                    forall|x: int| 0 <= x < j ==> shard_of(#[trigger] es@[x].0@, n as nat) == i,
                decreases es@.len() - j,
            {
                if ShardedAggregator::shard_index(&es[j].0, n) != i {
                    proof {
                        lemma_map_of_keys(es@);
                        assert(shards@[i as int]@.contains_key(es@[j as int].0@));
                    }
                    return None;
                }
                j = j + 1;
            }
            proof {
                assert forall|k: Seq<u8>| #[trigger]
                    shards@[i as int]@.contains_key(k) implies shard_of(k, n as nat) == i by {
                    let x = choose|x: int| 0 <= x < es@.len() && es@[x].0@ == k;
                    assert(shard_of(es@[x].0@, n as nat) == i);
                }
            }
            i = i + 1;
        }
        let r = ShardedAggregator { shards };
        assert(r.shard_views() =~= r.shards@.map_values(|a: Aggregator| a@));
        Some(r)
    }

    /// Merges all shards into one aggregator holding the combined mapping.
    pub fn converge(&self) -> (r: Aggregator)
        requires
            self.wf(),
        ensures
            r.wf(),
            r@ == combined(self.shard_views()),
            r@ == self@,
    {
        let n = self.shards.len();
        let ghost views = self.shard_views();
        let mut result = Aggregator::new();
        let mut i: usize = 0;
        while i < n
            invariant
                n == self.shards@.len(),
                views == self.shard_views(),
                self.wf(),
                i <= n,
                result.wf(),
                result@ == Map::new(
                    |k: Seq<u8>| shard_of(k, n as nat) < i && views[shard_of(k, n as nat) as int].contains_key(k),
                    |k: Seq<u8>| views[shard_of(k, n as nat) as int][k],
                ),
            decreases n - i,
        {
            let es = &self.shards[i].entries;
            assert(views[i as int] == map_of(es@));
            assert(self.shards@[i as int].wf());
            proof {
                lemma_map_of_keys(es@);
            }
            let mut j: usize = 0;
            while j < es.len()
                invariant
                    n == self.shards@.len(),
                    views == self.shard_views(),
                    self.wf(),
                    i < n,
                    j <= es@.len(),
                    es@ == self.shards@[i as int].entries@,
                    keys_unique(es@),
                    forall|k: Seq<u8>| #[trigger]
                        map_of(es@).contains_key(k) <==> exists|x: int| 0 <= x < es@.len() && es@[x].0@ == k,
                    result.wf(),
                    result@ == Map::new(
                        |k: Seq<u8>|
                            (shard_of(k, n as nat) < i && views[shard_of(k, n as nat) as int].contains_key(k))
                                || map_of(es@.subrange(0, j as int)).contains_key(k),
                        |k: Seq<u8>|
                            if shard_of(k, n as nat) < i {
                                views[shard_of(k, n as nat) as int][k]
                            } else {
                                map_of(es@.subrange(0, j as int))[k]
                            },
                    ),
                decreases es@.len() - j,
            {
                let (k, v) = es[j];
                proof {
                    let pre = es@.subrange(0, j as int);
                    assert(es@.subrange(0, j + 1).drop_last() =~= pre);
                    assert(map_of(es@).contains_key(k@));
                    assert(self.shards@[i as int]@.contains_key(k@));
                    assert(shard_of(k@, n as nat) == i);
                    lemma_map_of_keys(pre);
                    assert(!map_of(pre).contains_key(k@)) by {
                        if map_of(pre).contains_key(k@) {
                            let x = choose|x: int| 0 <= x < pre.len() && pre[x].0@ == k@;
                            assert(es@[x].0@ == es@[j as int].0@);
                        }
                    }
                }
                result.insert_or_merge(k, v);
                proof {
                    let pre = es@.subrange(0, j as int);
                    let post = es@.subrange(0, j + 1);
                    assert(map_of(post) == map_of(pre).insert(k@, v));
                    assert(result@ =~= Map::new(
                        |k: Seq<u8>|
                            (shard_of(k, n as nat) < i && views[shard_of(k, n as nat) as int].contains_key(k))
                                || map_of(post).contains_key(k),
                        |k: Seq<u8>|
                            if shard_of(k, n as nat) < i {
                                views[shard_of(k, n as nat) as int][k]
                            } else {
                                map_of(post)[k]
                            },
                    ));
                }
                j = j + 1;
            }
            proof {
                assert(es@.subrange(0, j as int) =~= es@);
                assert(self.shards@[i as int].wf());
                assert(result@ =~= Map::new(
                    |k: Seq<u8>| shard_of(k, n as nat) < i + 1 && views[shard_of(k, n as nat) as int].contains_key(k),
                    |k: Seq<u8>| views[shard_of(k, n as nat) as int][k],
                ));
            }
            i = i + 1;
        }
        proof {
            assert forall|k: Seq<u8>| shard_of(k, n as nat) < n by {}
            assert(result@ =~= combined(views));
        }
        result
    }
}

impl View for ShardedAggregator {
    type V = Map<Seq<u8>, u64>;

    /// The single mapping that the shards stand for.
    open spec fn view(&self) -> Map<Seq<u8>, u64> {
        combined(self.shard_views())
    }
}

} // verus!

verus! {

/// Splits a list of (key, value) pairs into `n` lists, one per shard, each
/// keeping the order of the pairs routed to it.
pub fn split_by_shard(es: &Vec<(FixedKey, u64)>, n: usize) -> (r: Vec<Vec<(FixedKey, u64)>>)
    requires
        n >= 1,
    ensures
        r@.len() == n,
        forall|i: int| 0 <= i < n ==> emissions_of(#[trigger] r@[i]@) == for_shard(emissions_of(es@), n as nat, i),
{
    let mut r: Vec<Vec<(FixedKey, u64)>> = Vec::new();
    while r.len() < n
        invariant
            r@.len() <= n,
            forall|i: int| 0 <= i < r@.len() ==> (#[trigger] r@[i])@.len() == 0,
        decreases n - r@.len(),
    {
        r.push(Vec::new());
    }
    let mut j: usize = 0;
    while j < es.len()
        invariant
            n >= 1,
            r@.len() == n,
            j <= es@.len(),
            forall|i: int| 0 <= i < n ==> emissions_of(#[trigger] r@[i]@) == for_shard(
                emissions_of(es@.subrange(0, j as int)),
                n as nat,
                i,
            ),
        decreases es@.len() - j,
    {
        let (k, v) = es[j];
        let s = ShardedAggregator::shard_index(&k, n);
        let ghost before = r@;
        let mut bucket = r.remove(s);
        bucket.push((k, v));
        r.insert(s, bucket);
        proof {
            let pre = emissions_of(es@.subrange(0, j as int));
            let post = emissions_of(es@.subrange(0, j + 1));
            assert(post =~= pre.push((k@, v)));
            assert(post.drop_last() =~= pre);
            assert(r@ =~= before.update(s as int, bucket));
            assert forall|i: int| 0 <= i < n implies for_shard(post, n as nat, i) == if i == s {
                for_shard(pre, n as nat, i).push((k@, v))
            } else {
                for_shard(pre, n as nat, i)
            } by {
                lemma_for_shard_push(pre, (k@, v), n as nat, i);
            }
            assert forall|i: int| 0 <= i < n implies emissions_of(#[trigger] r@[i]@) == for_shard(
                post,
                n as nat,
                i,
            ) by {
                if i == s {
                    assert(emissions_of(bucket@) =~= emissions_of(before[i]@).push((k@, v)));
                }
            }
        }
        j = j + 1;
    }
    proof {
        assert(es@.subrange(0, j as int) =~= es@);
    }
    r
}

} // verus!
