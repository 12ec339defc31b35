//! The in-memory answer cache: a map from (domain name, record type) to the
//! record lists captured at store time, with TTL decay and eviction applied
//! on lookup. The cache is an owned value handed to the resolver, so tests
//! can run isolated instances.

use vstd::prelude::*;

use crate::domain::clone_bytes;
use crate::qtype::QType;
use crate::resource::Resource;
use crate::resource::ResourceView;

verus! {

#[derive(Debug, PartialEq)]
pub struct CacheData {
    pub answer: Vec<Resource>,
    pub authority: Vec<Resource>,
    pub additional: Vec<Resource>,
}

/// The stored record lists of one cache entry.
#[verifier::ext_equal]
pub ghost struct CacheDataView {
    pub answer: Seq<ResourceView>,
    pub authority: Seq<ResourceView>,
    pub additional: Seq<ResourceView>,
}

impl View for CacheData {
    type V = CacheDataView;

    open spec fn view(&self) -> CacheDataView {
        CacheDataView {
            answer: self.answer.deep_view(),
            authority: self.authority.deep_view(),
            additional: self.additional.deep_view(),
        }
    }
}

#[derive(Debug, PartialEq)]
pub struct Record {
    cached_at: i64,
    pub data: CacheData,
}

/// A cache entry's value: when it was stored and what.
#[verifier::ext_equal]
pub ghost struct RecordView {
    pub cached_at: int,
    pub data: CacheDataView,
}

impl View for Record {
    type V = RecordView;

    closed spec fn view(&self) -> RecordView {
        RecordView { cached_at: self.cached_at as int, data: self.data@ }
    }
}

struct CacheEntry {
    domain: String,
    qtype: QType,
    record: Record,
}

/// The key a cache entry is filed under.
spec fn key_of(e: CacheEntry) -> (Seq<char>, QType) {
    (e.domain@, e.qtype)
}

/// The map an entry list denotes, later entries shadowing earlier ones.
spec fn entries_map(s: Seq<CacheEntry>) -> Map<(Seq<char>, QType), RecordView>
    decreases s.len(),
{
    if s.len() == 0 {
        Map::empty()
    } else {
        entries_map(s.drop_last()).insert(key_of(s.last()), s.last().record@)
    }
}

/// No two entries share a key.
spec fn unique_keys(s: Seq<CacheEntry>) -> bool {
    forall|i: int, j: int| 0 <= i < j < s.len() ==> key_of(s[i]) != key_of(s[j])
}

pub struct Cache {
    entries: Vec<CacheEntry>,
}

impl View for Cache {
    type V = Map<(Seq<char>, QType), RecordView>;

    closed spec fn view(&self) -> Map<(Seq<char>, QType), RecordView> {
        entries_map(self.entries@)
    }
}

/// The age in whole seconds a record has at time `now`.
pub open spec fn age_of(rec: RecordView, now: int) -> int {
    now - rec.cached_at
}

/// A record is expired once any resource of its answer list has lived at
/// least its TTL.
pub open spec fn expired(rec: RecordView, now: int) -> bool {
    exists|i: int|
        0 <= i < rec.data.answer.len() && (#[trigger] rec.data.answer[i]).ttl <= age_of(rec, now)
}

/// A TTL reduced by an age: never below zero, and never increased.
pub open spec fn ttl_sub(ttl: u32, age: int) -> u32 {
    if age <= 0 {
        ttl
    } else if ttl <= age {
        0
    } else {
        (ttl - age) as u32
    }
}

/// One resource with its TTL decayed.
pub open spec fn decayed_res(r: ResourceView, age: int) -> ResourceView {
    ResourceView {
        name: r.name,
        rtype: r.rtype,
        class: r.class,
        ttl: ttl_sub(r.ttl, age),
        rdlength: r.rdlength,
        rdata: r.rdata,
    }
}

/// All three record lists with their TTLs decayed.
pub open spec fn decayed(data: CacheDataView, age: int) -> CacheDataView {
    CacheDataView {
        answer: data.answer.map(|i: int, r: ResourceView| decayed_res(r, age)),
        authority: data.authority.map(|i: int, r: ResourceView| decayed_res(r, age)),
        additional: data.additional.map(|i: int, r: ResourceView| decayed_res(r, age)),
    }
}

/// What one store at time `t` does: the key now holds the given lists,
/// stamped `t`; every other key is untouched.
pub open spec fn store_post(
    pre: Map<(Seq<char>, QType), RecordView>,
    post: Map<(Seq<char>, QType), RecordView>,
    k: (Seq<char>, QType),
    data: CacheDataView,
    t: int,
) -> bool {
    post == pre.insert(k, RecordView { cached_at: t, data })
}

/// The view of an optional lookup result.
pub open spec fn data_view(r: Option<CacheData>) -> Option<CacheDataView> {
    match r {
        Some(d) => Some(d@),
        None => None,
    }
}

/// What one lookup at time `t` does: a miss leaves the map alone; a hit on
/// an expired entry evicts it and yields nothing; a live hit yields a
/// decayed copy and leaves the stored record untouched.
pub open spec fn lookup_post(
    pre: Map<(Seq<char>, QType), RecordView>,
    post: Map<(Seq<char>, QType), RecordView>,
    k: (Seq<char>, QType),
    t: int,
    r: Option<CacheDataView>,
) -> bool {
    if !pre.contains_key(k) {
        r is None && post == pre
    } else if expired(pre[k], t) {
        r is None && post == pre.remove(k)
    } else {
        r == Some(decayed(pre[k].data, age_of(pre[k], t))) && post == pre
    }
}

proof fn lemma_map_contains(s: Seq<CacheEntry>, k: (Seq<char>, QType))
    ensures
        entries_map(s).contains_key(k) <==> exists|i: int|
            0 <= i < s.len() && key_of(#[trigger] s[i]) == k,
    decreases s.len(),
{
    if s.len() == 0 {
    } else {
        lemma_map_contains(s.drop_last(), k);
        if key_of(s.last()) == k {
            assert(key_of(s[s.len() - 1]) == k);
        } else {
            if entries_map(s).contains_key(k) {
                let i = choose|i: int|
                    0 <= i < s.drop_last().len() && key_of(#[trigger] s.drop_last()[i]) == k;
                assert(s.drop_last()[i] == s[i]);
            }
            if exists|i: int| 0 <= i < s.len() && key_of(#[trigger] s[i]) == k {
                let i = choose|i: int| 0 <= i < s.len() && key_of(#[trigger] s[i]) == k;
                assert(i < s.len() - 1);
                assert(s.drop_last()[i] == s[i]);
            }
        }
    }
}

proof fn lemma_map_index(s: Seq<CacheEntry>, i: int)
    requires
        unique_keys(s),
        0 <= i < s.len(),
    ensures
        entries_map(s).contains_key(key_of(s[i])),
        entries_map(s)[key_of(s[i])] == s[i].record@,
    decreases s.len(),
{
    if i == s.len() - 1 {
    } else {
        assert(unique_keys(s.drop_last())) by {
            assert forall|a: int, b: int|
                0 <= a < b < s.drop_last().len() implies key_of(#[trigger] s.drop_last()[a])
                != key_of(#[trigger] s.drop_last()[b]) by {
                assert(s.drop_last()[a] == s[a]);
                assert(s.drop_last()[b] == s[b]);
            }
        }
        assert(s.drop_last()[i] == s[i]);
        lemma_map_index(s.drop_last(), i);
        assert(key_of(s[i]) != key_of(s.last()));
    }
}

proof fn lemma_map_remove(s: Seq<CacheEntry>, i: int)
    requires
        unique_keys(s),
        0 <= i < s.len(),
    ensures
        unique_keys(s.remove(i)),
        entries_map(s.remove(i)) == entries_map(s).remove(key_of(s[i])),
    decreases s.len(),
{
    assert(unique_keys(s.remove(i))) by {
        assert forall|a: int, b: int|
            0 <= a < b < s.remove(i).len() implies key_of(#[trigger] s.remove(i)[a]) != key_of(
            #[trigger] s.remove(i)[b]) by {
            assert(s.remove(i)[a] == (if a < i {
                s[a]
            } else {
                s[a + 1]
            }));
            assert(s.remove(i)[b] == (if b < i {
                s[b]
            } else {
                s[b + 1]
            }));
        }
    }
    assert(unique_keys(s.drop_last())) by {
        assert forall|a: int, b: int|
            0 <= a < b < s.drop_last().len() implies key_of(#[trigger] s.drop_last()[a]) != key_of(
            #[trigger] s.drop_last()[b]) by {
            assert(s.drop_last()[a] == s[a]);
            assert(s.drop_last()[b] == s[b]);
        }
    }
    if i == s.len() - 1 {
        assert(s.remove(i) =~= s.drop_last());
        lemma_map_contains(s.drop_last(), key_of(s[i]));
        assert(!entries_map(s.drop_last()).contains_key(key_of(s[i]))) by {
            if exists|j: int| 0 <= j < s.drop_last().len() && key_of(#[trigger] s.drop_last()[j])
                == key_of(s[i]) {
                let j = choose|j: int|
                    0 <= j < s.drop_last().len() && key_of(#[trigger] s.drop_last()[j]) == key_of(
                        s[i],
                    );
                assert(s.drop_last()[j] == s[j]);
            }
        }
        assert(entries_map(s).remove(key_of(s[i])) =~= entries_map(s.drop_last()));
    } else {
        assert(s.remove(i).drop_last() =~= s.drop_last().remove(i));
        assert(s.remove(i).last() == s.last());
        assert(s.drop_last()[i] == s[i]);
        lemma_map_remove(s.drop_last(), i);
        assert(key_of(s[i]) != key_of(s.last()));
        assert(entries_map(s.remove(i)) =~= entries_map(s).remove(key_of(s[i])));
    }
}

/// Copies a record list.
pub fn clone_resources(rs: &Vec<Resource>) -> (r: Vec<Resource>)
    ensures
        r.deep_view() == rs.deep_view(),
{
    let mut out: Vec<Resource> = Vec::new();
    let mut i: usize = 0;
    while i < rs.len()
        invariant
            i <= rs@.len(),
            out@.len() == i,
            forall|k: int| 0 <= k < i ==> (#[trigger] out@[k])@ == rs@[k]@,
        decreases rs@.len() - i,
    {
        let it = rs[i].clone();
        out.push(it);
        i = i + 1;
    }
    proof {
        assert forall|k: int| 0 <= k < out@.len() implies out.deep_view()[k] == rs.deep_view()[k] by {
            assert(out.deep_view()[k] == out@[k]@);
            assert(rs.deep_view()[k] == rs@[k]@);
        }
        assert(out.deep_view() =~= rs.deep_view());
    }
    out
}

/// Copies a record list with every TTL decayed by `age`.
fn decay_resources(rs: &Vec<Resource>, age: i128) -> (r: Vec<Resource>)
    ensures
        r.deep_view() == rs.deep_view().map(|i: int, rv: ResourceView| decayed_res(rv, age as int)),
{
    let mut out: Vec<Resource> = Vec::new();
    let mut i: usize = 0;
    while i < rs.len()
        invariant
            i <= rs@.len(),
            out@.len() == i,
            forall|k: int| 0 <= k < i ==> (#[trigger] out@[k])@ == decayed_res(rs@[k]@, age as int),
        decreases rs@.len() - i,
    {
        let src = &rs[i];
        let ttl: u32 = if age <= 0 {
            src.ttl
        } else if src.ttl as i128 <= age {
            0
        } else {
            (src.ttl as i128 - age) as u32
        };
        let it = Resource {
            name: src.name.clone(),
            _type: src._type,
            class: src.class,
            ttl,
            rdlength: src.rdlength,
            rdata: clone_bytes(&src.rdata),
        };
        proof {
            assert(it@ =~= decayed_res(rs@[i as int]@, age as int));
        }
        out.push(it);
        i = i + 1;
    }
    proof {
        let m = rs.deep_view().map(|i: int, rv: ResourceView| decayed_res(rv, age as int));
        assert forall|k: int| 0 <= k < out@.len() implies out.deep_view()[k] == m[k] by {
            assert(out.deep_view()[k] == out@[k]@);
            assert(rs.deep_view()[k] == rs@[k]@);
        }
        assert(out.deep_view() =~= m);
    }
    out
}

/// Relies on `chrono::Utc::now` (which itself demands a system clock at or
/// after the Unix epoch) and `chrono::DateTime::timestamp`: the clock's
/// current reading as whole seconds since the epoch. Nothing is promised of
/// the value; callers state what holds for every reading.
#[verifier::external_body]
fn now_seconds() -> (t: i64) {
    chrono::Utc::now().timestamp()
}

impl Cache {
    /// Whether the entry list carries no two entries for one key.
    pub closed spec fn wf(&self) -> bool {
        unique_keys(self.entries@)
    }

    /// An empty cache.
    pub fn new() -> (r: Cache)
        ensures
            r.wf(),
            r@ == Map::<(Seq<char>, QType), RecordView>::empty(),
    {
        Cache { entries: Vec::new() }
    }

    /// The position of the entry filed under the key, if any.
    fn find(&self, domain: &String, qtype: QType) -> (r: Option<usize>)
        ensures
            match r {
                Some(i) => i < self.entries@.len() && key_of(self.entries@[i as int]) == (
                    domain@,
                    qtype,
                ),
                None => forall|j: int|
                    0 <= j < self.entries@.len() ==> key_of(#[trigger] self.entries@[j]) != (
                        domain@,
                        qtype,
                    ),
            },
    {
        let mut i: usize = 0;
        while i < self.entries.len()
            invariant
                i <= self.entries@.len(),
                forall|j: int|
                    0 <= j < i ==> key_of(#[trigger] self.entries@[j]) != (domain@, qtype),
            decreases self.entries@.len() - i,
        {
            let e = &self.entries[i];
            if e.domain == *domain && e.qtype == qtype {
                return Some(i);
            }
            i = i + 1;
        }
        None
    }

    /// Looks the key up as of time `now`: a live entry yields a copy with
    /// every TTL reduced by the record's age, an expired entry is evicted,
    /// and the stored record is otherwise left untouched.
    pub fn resolve_at(&mut self, domain: &String, qtype: QType, now: i64) -> (r: Option<CacheData>)
        requires
            old(self).wf(),
        ensures
            final(self).wf(),
            lookup_post(old(self)@, final(self)@, (domain@, qtype), now as int, data_view(r)),
    {
        let ghost k = (domain@, qtype);
        let idx = match self.find(domain, qtype) {
            Some(i) => i,
            None => {
                proof {
                    lemma_map_contains(self.entries@, k);
                }
                return None;
            },
        };
        proof {
            lemma_map_index(self.entries@, idx as int);
        }
        let rec = &self.entries[idx].record;
        let age: i128 = now as i128 - rec.cached_at as i128;
        let ghost rv = rec@;
        let mut is_expired = false;
        let mut j: usize = 0;
        while j < rec.data.answer.len()
            invariant
                j <= rec.data.answer@.len(),
                rv == rec@,
                age == now as int - rv.cached_at,
                is_expired <==> exists|t: int|
                    0 <= t < j && (#[trigger] rv.data.answer[t]).ttl <= age_of(rv, now as int),
            decreases rec.data.answer@.len() - j,
        {
            if rec.data.answer[j].ttl as i128 <= age {
                proof {
                    assert(rv.data.answer[j as int] == rec.data.answer@[j as int]@);
                    assert(rv.data.answer[j as int].ttl <= age_of(rv, now as int));
                }
                is_expired = true;
            }
            proof {
                assert(rv.data.answer[j as int] == rec.data.answer@[j as int]@);
            }
            j = j + 1;
        }
        proof {
            assert(is_expired == expired(rv, now as int));
        }
        if is_expired {
            let ghost pre = self.entries@;
            proof {
                lemma_map_remove(self.entries@, idx as int);
            }
            self.entries.remove(idx);
            proof {
                assert(self.entries@ =~= pre.remove(idx as int));
            }
            return None;
        }
        let rec = &self.entries[idx].record;
        let out = CacheData {
            answer: decay_resources(&rec.data.answer, age),
            authority: decay_resources(&rec.data.authority, age),
            additional: decay_resources(&rec.data.additional, age),
        };
        proof {
            assert(out@ =~= decayed(rv.data, age_of(rv, now as int)));
        }
        Some(out)
    }

    /// Stores the three record lists under the key as of time `now`,
    /// overwriting whatever the key held.
    pub fn store_at(
        &mut self,
        domain: String,
        qtype: QType,
        answer: &Vec<Resource>,
        authority: &Vec<Resource>,
        additional: &Vec<Resource>,
        now: i64,
    ) -> (r: Result<(), ()>)
        requires
            old(self).wf(),
        ensures
            final(self).wf(),
            r is Ok,
            store_post(
                old(self)@,
                final(self)@,
                (domain@, qtype),
                CacheDataView {
                    answer: answer.deep_view(),
                    authority: authority.deep_view(),
                    additional: additional.deep_view(),
                },
                now as int,
            ),
    {
        let ghost k = (domain@, qtype);
        let ghost pre = self.entries@;
        match self.find(&domain, qtype) {
            Some(i) => {
                proof {
                    lemma_map_index(self.entries@, i as int);
                    lemma_map_remove(self.entries@, i as int);
                }
                self.entries.remove(i);
                proof {
                    assert(self.entries@ =~= pre.remove(i as int));
                    lemma_map_contains(self.entries@, k);
                }
            },
            None => {
                proof {
                    lemma_map_contains(self.entries@, k);
                }
            },
        }
        let ghost mid = self.entries@;
        let entry = CacheEntry {
            domain,
            qtype,
            record: Record {
                cached_at: now,
                data: CacheData {
                    answer: clone_resources(answer),
                    authority: clone_resources(authority),
                    additional: clone_resources(additional),
                },
            },
        };
        self.entries.push(entry);
        proof {
            assert(self.entries@.drop_last() =~= mid);
            assert(self.entries@.last().record@ =~= RecordView {
                cached_at: now as int,
                data: CacheDataView {
                    answer: answer.deep_view(),
                    authority: authority.deep_view(),
                    additional: additional.deep_view(),
                },
            });
            assert(unique_keys(self.entries@)) by {
                assert forall|a: int, b: int|
                    0 <= a < b < self.entries@.len() implies key_of(#[trigger] self.entries@[a])
                    != key_of(#[trigger] self.entries@[b]) by {
                    if b == self.entries@.len() - 1 {
                        assert(self.entries@[a] == mid[a]);
                        assert(!entries_map(mid).contains_key(k));
                        lemma_map_contains(mid, k);
                    } else {
                        assert(self.entries@[a] == mid[a]);
                        assert(self.entries@[b] == mid[b]);
                    }
                }
            }
            assert(final(self)@ =~= old(self)@.insert(
                k,
                RecordView {
                    cached_at: now as int,
                    data: CacheDataView {
                        answer: answer.deep_view(),
                        authority: authority.deep_view(),
                        additional: additional.deep_view(),
                    },
                },
            ));
        }
        Ok(())
    }

    /// Looks the key up as of the clock's current reading.
    pub fn resolve(&mut self, domain: String, qtype: QType) -> (r: Option<CacheData>)
        requires
            old(self).wf(),
        ensures
            final(self).wf(),
            exists|t: int|
                lookup_post(old(self)@, final(self)@, (domain@, qtype), t, data_view(r)),
    {
        let now = now_seconds();
        let r = self.resolve_at(&domain, qtype, now);
        proof {
            assert(lookup_post(
                old(self)@,
                final(self)@,
                (domain@, qtype),
                now as int,
                data_view(r),
            ));
        }
        r
    }

    /// Stores the three record lists under the key as of the clock's
    /// current reading.
    pub fn cache(
        &mut self,
        domain: String,
        qtype: QType,
        answer: &Vec<Resource>,
        authority: &Vec<Resource>,
        additional: &Vec<Resource>,
    ) -> (r: Result<(), ()>)
        requires
            old(self).wf(),
        ensures
            final(self).wf(),
            r is Ok,
            exists|t: int|
                store_post(
                    old(self)@,
                    final(self)@,
                    (domain@, qtype),
                    CacheDataView {
                        answer: answer.deep_view(),
                        authority: authority.deep_view(),
                        additional: additional.deep_view(),
                    },
                    t,
                ),
    {
        let now = now_seconds();
        let r = self.store_at(domain, qtype, answer, authority, additional, now);
        r
    }
}

/// A TTL a lookup exposes never exceeds the one stored, shrinks (weakly) as
/// time passes, and once a record expires it stays expired.
pub proof fn lemma_ttl_monotonic(rec: RecordView, t1: int, t2: int, i: int)
    requires
        t1 <= t2,
        0 <= i < rec.data.answer.len(),
    ensures
        decayed(rec.data, age_of(rec, t2)).answer[i].ttl <= decayed(
            rec.data,
            age_of(rec, t1),
        ).answer[i].ttl,
        decayed(rec.data, age_of(rec, t1)).answer[i].ttl <= rec.data.answer[i].ttl,
        expired(rec, t1) ==> expired(rec, t2),
{
}

/// Storing under one key leaves every other key exactly as it was, so
/// neither another record type of the same domain nor another domain can
/// see the new record.
pub proof fn lemma_store_isolation(
    m: Map<(Seq<char>, QType), RecordView>,
    k1: (Seq<char>, QType),
    k2: (Seq<char>, QType),
    rec: RecordView,
)
    requires
        k1 != k2,
    ensures
        m.insert(k1, rec).contains_key(k2) == m.contains_key(k2),
        m.contains_key(k2) ==> m.insert(k1, rec)[k2] == m[k2],
{
}

} // verus!
