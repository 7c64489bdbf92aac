use vstd::prelude::*;

use crate::errors::RedirectSourceError;
use crate::redirect::{CanonicalUrl, DefinitionView, RedirectDefinition};

verus! {

/// Where a resident definition stands in its freshness cycle. Times are
/// ticks of one monotonic clock chosen by the caller.
#[derive(Debug, Clone, Copy, PartialEq, Eq, Structural)]
pub enum ResidentLifecycle {
    /// Served as is until `expires_at`.
    Fresh { expires_at: u64 },
    /// Served as is while one refresh is in flight.
    Refreshing,
    /// A refresh failed; served as is, and refreshed again from `retry_after`.
    Stale { retry_after: u64 },
}

/// What the cache holds for one canonical URL.
pub struct EntryView {
    pub definition: DefinitionView,
    pub lifecycle: ResidentLifecycle,
    pub last_used: u64,
}

/// The cache as plain values: the resident entries by canonical URL, the
/// URLs whose cold load is in flight, how many lookups wait for each of
/// those loads (the one that started it included), and the recency
/// counter.
pub struct CacheView {
    pub entries: Map<Seq<char>, EntryView>,
    pub loads: Set<Seq<char>>,
    pub waiters: Map<Seq<char>, nat>,
    pub recency: u64,
}

/// Resident redirect definitions with their freshness and recency, and the
/// set of canonical URLs being loaded cold.
pub struct CacheState {
    keys: Vec<CanonicalUrl>,
    definitions: Vec<RedirectDefinition>,
    lifecycles: Vec<ResidentLifecycle>,
    last_used: Vec<u64>,
    loads: Vec<CanonicalUrl>,
    waiting: Vec<u64>,
    recency: u64,
}

/// `b` holds the same residents as `a`, each with the same definition and
/// lifecycle, and orders them by last use as `a` does.
pub open spec fn same_residents(a: Map<Seq<char>, EntryView>, b: Map<Seq<char>, EntryView>) -> bool {
    &&& a.dom() == b.dom()
    &&& forall|k: Seq<char>|
        #![trigger a[k], b[k]]
        a.contains_key(k) ==> b[k].definition == a[k].definition && b[k].lifecycle
            == a[k].lifecycle
    &&& forall|k1: Seq<char>, k2: Seq<char>|
        #![trigger a[k1], b[k2]]
        a.contains_key(k1) && a.contains_key(k2) ==> (a[k1].last_used < a[k2].last_used <==> b[k1].last_used
            < b[k2].last_used)
}

/// Every resident of `b` other than `key` was resident in `a` with the
/// same use counter.
pub open spec fn uses_kept(a: Map<Seq<char>, EntryView>, b: Map<Seq<char>, EntryView>, key: Seq<char>) -> bool {
    forall|k: Seq<char>|
        #[trigger] b.contains_key(k) && k != key ==> a.contains_key(k) && b[k].last_used == a[k].last_used
}

/// The entry for `k` was used after every other resident.
pub open spec fn most_recent(m: Map<Seq<char>, EntryView>, k: Seq<char>) -> bool {
    &&& m.contains_key(k)
    &&& forall|k2: Seq<char>| #[trigger] m.contains_key(k2) && k2 != k ==> m[k2].last_used < m[k].last_used
}

/// Every resident was used before `r`.
pub open spec fn all_used_before(m: Map<Seq<char>, EntryView>, r: u64) -> bool {
    forall|k: Seq<char>| #[trigger] m.contains_key(k) ==> m[k].last_used < r
}

/// What a redirect source answers for one canonical URL: a definition, an
/// authoritative miss, or a failure.
pub type Resolution = Result<Option<RedirectDefinition>, RedirectSourceError>;

/// A resolution as plain values; an error is its message.
pub open spec fn resolution_view(r: Resolution) -> Result<Option<DefinitionView>, Seq<char>> {
    match r {
        Ok(Some(d)) => Ok(Some(d@)),
        Ok(None) => Ok(None),
        Err(e) => Err(e.spec_message()),
    }
}

/// A found definition for another canonical URL than the one looked up is
/// a source error; anything else passes unchanged.
pub open spec fn validated_resolution(
    key: Seq<char>,
    r: Result<Option<DefinitionView>, Seq<char>>,
) -> Result<Option<DefinitionView>, Seq<char>> {
    match r {
        Ok(Some(d)) => if d.canonical_url != key {
            Err(
                "source returned canonical URL "@ + d.canonical_url + " for lookup "@ + key,
            )
        } else {
            r
        },
        _ => r,
    }
}

/// How many lookups wait for the cold load of `key`: none when no load is
/// in flight.
pub open spec fn waiting_on(v: CacheView, key: Seq<char>) -> nat {
    if v.waiters.contains_key(key) {
        v.waiters[key]
    } else {
        0
    }
}

/// A copy of a resolution with the same content.
pub fn copy_resolution(r: &Resolution) -> (copy: Resolution)
    ensures
        resolution_view(copy) == resolution_view(*r),
{
    match r {
        Ok(Some(d)) => Ok(Some(d.clone())),
        Ok(None) => Ok(None),
        Err(e) => Err(RedirectSourceError::new(crate::text::owned(e.message()))),
    }
}

/// Checks that a found definition belongs to the canonical URL looked up.
pub fn validate_resolution(canonical_url: &CanonicalUrl, result: Resolution) -> (validated: Resolution)
    ensures
        resolution_view(validated) == validated_resolution(canonical_url@, resolution_view(result)),
{
    match result {
        Ok(Some(definition)) => {
            if !definition.canonical_url.same_key(canonical_url) {
                let message = crate::text::join3(
                    "source returned canonical URL ",
                    definition.canonical_url.as_str(),
                    " for lookup ",
                );
                let mut message = message;
                message.append(canonical_url.as_str());
                Err(RedirectSourceError::new(message))
            } else {
                Ok(Some(definition))
            }
        },
        other => other,
    }
}

/// What a lookup hands back.
#[derive(Debug)]
pub enum LookupDecision {
    /// The resident definition, served as is.
    Return(RedirectDefinition),
    /// The resident definition, served while one refresh is started.
    Refresh(RedirectDefinition),
    /// Not resident and not being loaded: the caller loads it cold.
    Load,
    /// Not resident, and a cold load is in flight: the caller waits for it.
    Wait,
}

/// Whether `key` is resident and being refreshed.
pub open spec fn refreshing(m: Map<Seq<char>, EntryView>, key: Seq<char>) -> bool {
    m.contains_key(key) && m[key].lifecycle is Refreshing
}

/// Whether a lookup at `now` refreshes a resident in this lifecycle.
pub open spec fn needs_refresh(lifecycle: ResidentLifecycle, now: u64) -> bool {
    match lifecycle {
        ResidentLifecycle::Fresh { expires_at } => expires_at <= now,
        ResidentLifecycle::Stale { retry_after } => retry_after <= now,
        ResidentLifecycle::Refreshing => false,
    }
}

/// Whether a resident may be evicted: it is not being refreshed.
pub open spec fn evictable(e: EntryView) -> bool {
    !(e.lifecycle is Refreshing)
}

/// `k` is the least recently used evictable resident of `m`.
pub open spec fn lru_victim(m: Map<Seq<char>, EntryView>, k: Seq<char>) -> bool {
    &&& m.contains_key(k)
    &&& evictable(m[k])
    &&& forall|k2: Seq<char>| #[trigger] m.contains_key(k2) && evictable(m[k2]) ==> m[k].last_used <= m[k2].last_used
}

/// The number of residents a cache limit allows: the limit itself, except
/// that `usize::MAX` counts as one less.
pub open spec fn capacity(max_entries: nat) -> nat {
    if max_entries < usize::MAX {
        max_entries
    } else {
        (usize::MAX - 1) as nat
    }
}

/// Whether storing a key needs no eviction or finds an evictable resident.
pub open spec fn admits(old: Map<Seq<char>, EntryView>, old_count: nat, key: Seq<char>, max_entries: nat) -> bool {
    ||| old.contains_key(key)
    ||| old_count < max_entries
    ||| exists|v: Seq<char>| lru_victim(old, v)
}

/// What storing `definition` under `key` leaves, given the residents before:
/// the new entry is fresh and the most recently used; the other residents
/// keep their definitions, lifecycles and order of use, except one least
/// recently used evictable resident when the cache was full. When nothing
/// can be evicted, the residents are unchanged.
pub open spec fn insert_outcome(
    old: Map<Seq<char>, EntryView>,
    old_count: nat,
    new: Map<Seq<char>, EntryView>,
    key: Seq<char>,
    definition: DefinitionView,
    expires_at: u64,
    max_entries: nat,
) -> bool {
    let stored = {
        &&& most_recent(new, key)
        &&& new[key].definition == definition
        &&& new[key].lifecycle == ResidentLifecycle::Fresh { expires_at }
    };
    if old.contains_key(key) || old_count < max_entries {
        stored && same_residents(old.remove(key), new.remove(key))
    } else if exists|v: Seq<char>| lru_victim(old, v) {
        &&& stored
        &&& exists|v: Seq<char>| lru_victim(old, v) && same_residents(old.remove(v), new.remove(key))
    } else {
        new == old
    }
}

/// The number of values in `s` below `v`.
pub open spec fn count_below(s: Seq<u64>, v: u64) -> nat
    decreases s.len(),
{
    if s.len() == 0 {
        0
    } else {
        count_below(s.drop_last(), v) + if s.last() < v {
            1nat
        } else {
            0nat
        }
    }
}

proof fn lemma_count_below_bounds(s: Seq<u64>, v: u64, w: u64)
    ensures
        v <= w ==> count_below(s, v) <= count_below(s, w),
        count_below(s, v) <= s.len(),
        s.contains(v) ==> count_below(s, v) < s.len(),
        s.contains(v) && v < w ==> count_below(s, v) < count_below(s, w),
    decreases s.len(),
{
    if s.len() > 0 {
        let t = s.drop_last();
        lemma_count_below_bounds(t, v, w);
        if s.contains(v) && s.last() != v {
            let i = choose|i: int| 0 <= i < s.len() && s[i] == v;
            assert(t[i] == v);
            assert(t.contains(v));
        }
    }
}

impl CacheState {
    closed spec fn entry_at(&self, i: int) -> EntryView {
        EntryView {
            definition: self.definitions@[i]@,
            lifecycle: self.lifecycles@[i],
            last_used: self.last_used@[i],
        }
    }

    closed spec fn has(&self, k: Seq<char>) -> bool {
        exists|i: int| 0 <= i < self.keys@.len() && #[trigger] self.keys@[i]@ == k
    }

    closed spec fn index_of(&self, k: Seq<char>) -> int {
        choose|i: int| 0 <= i < self.keys@.len() && #[trigger] self.keys@[i]@ == k
    }

    closed spec fn entries(&self) -> Map<Seq<char>, EntryView> {
        Map::new(|k: Seq<char>| self.has(k), |k: Seq<char>| self.entry_at(self.index_of(k)))
    }

    closed spec fn loading(&self) -> Set<Seq<char>> {
        Set::new(|k: Seq<char>| exists|i: int| 0 <= i < self.loads@.len() && #[trigger] self.loads@[i]@ == k)
    }

    closed spec fn load_index(&self, k: Seq<char>) -> int {
        choose|i: int| 0 <= i < self.loads@.len() && #[trigger] self.loads@[i]@ == k
    }

    closed spec fn waiter_map(&self) -> Map<Seq<char>, nat> {
        Map::new(|k: Seq<char>| self.loading().contains(k), |k: Seq<char>| self.waiting@[self.load_index(k)] as nat)
    }

    /// The internal consistency that every operation keeps.
    pub closed spec fn wf(&self) -> bool {
        &&& self.definitions@.len() == self.keys@.len()
        &&& self.lifecycles@.len() == self.keys@.len()
        &&& self.last_used@.len() == self.keys@.len()
        &&& self.keys@.len() < u64::MAX
        &&& forall|i: int, j: int|
            0 <= i < self.keys@.len() && 0 <= j < self.keys@.len() && #[trigger] self.keys@[i]@
                == #[trigger] self.keys@[j]@ ==> i == j
        &&& forall|i: int, j: int|
            0 <= i < self.keys@.len() && 0 <= j < self.keys@.len() && i != j ==> #[trigger] self.last_used@[i]
                != #[trigger] self.last_used@[j]
        &&& forall|i: int| 0 <= i < self.keys@.len() ==> #[trigger] self.last_used@[i] <= self.recency
        &&& forall|i: int, j: int|
            0 <= i < self.loads@.len() && 0 <= j < self.loads@.len() && #[trigger] self.loads@[i]@
                == #[trigger] self.loads@[j]@ ==> i == j
        &&& self.waiting@.len() == self.loads@.len()
        &&& forall|i: int| 0 <= i < self.waiting@.len() ==> #[trigger] self.waiting@[i] >= 1
    }

    /// The number of resident entries.
    pub closed spec fn resident_count(&self) -> nat {
        self.keys@.len()
    }

    proof fn lemma_entry(&self, i: int)
        requires
            self.wf(),
            0 <= i < self.keys@.len(),
        ensures
            self.entries().contains_key(self.keys@[i]@),
            self.entries()[self.keys@[i]@] == self.entry_at(i),
            self.index_of(self.keys@[i]@) == i,
    {
        assert(self.has(self.keys@[i]@));
    }

    proof fn lemma_index(&self, k: Seq<char>)
        requires
            self.wf(),
            self.has(k),
        ensures
            0 <= self.index_of(k) < self.keys@.len(),
            self.keys@[self.index_of(k)]@ == k,
    {
    }

    /// The number of residents that `len` reports is the size of the entry
    /// map, which is finite.
    pub proof fn law_len_counts_entries(&self)
        requires
            self.wf(),
        ensures
            self@.entries.dom().finite(),
            self@.entries.len() == self.resident_count(),
    {
        let ks = self.keys@.map_values(|k: CanonicalUrl| k@);
        assert forall|i: int, j: int| 0 <= i < ks.len() && 0 <= j < ks.len() && i != j implies ks[i]
            != ks[j] by {
            if ks[i] == ks[j] {
                assert(self.keys@[i]@ == self.keys@[j]@);
            }
        }
        assert(ks.no_duplicates());
        ks.unique_seq_to_set();
        assert forall|k: Seq<char>| #[trigger] self.entries().dom().contains(k) <==> ks.to_set().contains(k) by {
            if self.has(k) {
                let i = self.index_of(k);
                assert(ks[i] == k);
                assert(ks.contains(k));
            }
            if ks.to_set().contains(k) {
                assert(ks.contains(k));
                let i = choose|i: int| 0 <= i < ks.len() && ks[i] == k;
                assert(self.keys@[i]@ == k);
            }
        }
        assert(self.entries().dom() =~= ks.to_set());
    }

    /// Each load in flight has its waiters counted, and at least one: the
    /// lookup that started it.
    pub proof fn law_waiters_count_loads(&self)
        requires
            self.wf(),
        ensures
            self@.waiters.dom() == self@.loads,
            forall|k: Seq<char>| #[trigger] self@.waiters.contains_key(k) ==> self@.waiters[k] >= 1,
    {
        assert(self.waiter_map().dom() =~= self.loading());
        assert forall|k: Seq<char>| #[trigger] self@.waiters.contains_key(k) implies self@.waiters[k] >= 1 by {
            self.lemma_load_index(k);
        }
    }

    /// An empty cache: no residents, no loads.
    pub fn new() -> (cache: Self)
        ensures
            cache.wf(),
            cache@.entries == Map::<Seq<char>, EntryView>::empty(),
            cache@.loads == Set::<Seq<char>>::empty(),
            cache@.waiters == Map::<Seq<char>, nat>::empty(),
            cache@.recency == 0,
    {
        let cache = CacheState {
            keys: Vec::new(),
            definitions: Vec::new(),
            lifecycles: Vec::new(),
            last_used: Vec::new(),
            loads: Vec::new(),
            waiting: Vec::new(),
            recency: 0,
        };
        assert(cache.entries() =~= Map::<Seq<char>, EntryView>::empty());
        assert(cache.loading() =~= Set::<Seq<char>>::empty());
        assert(cache.waiter_map() =~= Map::<Seq<char>, nat>::empty());
        cache
    }

    fn find(&self, key: &CanonicalUrl) -> (found: Option<usize>)
        requires
            self.wf(),
        ensures
            found matches Some(i) ==> i < self.keys@.len() && self.keys@[i as int]@ == key@,
            found is None ==> !self.has(key@),
    {
        for i in 0..self.keys.len()
            invariant
                self.wf(),
                forall|j: int| 0 <= j < i ==> self.keys@[j]@ != key@,
        {
            if self.keys[i].same_key(key) {
                return Some(i);
            }
        }
        None
    }


    proof fn lemma_same_keys_same_index(&self, other: &Self, k: Seq<char>)
        requires
            self.keys@ == other.keys@,
        ensures
            self.index_of(k) == other.index_of(k),
            self.has(k) == other.has(k),
    {
    }

    /// Rewrites the entry at index `i`.
    fn update_at(&mut self, i: usize, definition: Option<RedirectDefinition>, lifecycle: ResidentLifecycle, last_used: u64)
        requires
            old(self).wf(),
            i < old(self).keys@.len(),
            last_used <= old(self).recency,
            forall|j: int| 0 <= j < old(self).keys@.len() && j != i ==> #[trigger] old(self).last_used@[j] != last_used,
        ensures
            final(self).wf(),
            final(self).keys@ == old(self).keys@,
            final(self).recency == old(self).recency,
            final(self).loads@ == old(self).loads@,
            final(self).waiting@ == old(self).waiting@,
            final(self).entries() == old(self).entries().insert(
                old(self).keys@[i as int]@,
                EntryView {
                    definition: match definition {
                        Some(d) => d@,
                        None => old(self).definitions@[i as int]@,
                    },
                    lifecycle,
                    last_used,
                },
            ),
    {
        let ghost before = *self;
        match definition {
            Some(d) => {
                self.definitions.set(i, d);
            },
            None => {},
        }
        self.lifecycles.set(i, lifecycle);
        self.last_used.set(i, last_used);
        proof {
            let k = before.keys@[i as int]@;
            before.lemma_entry(i as int);
            self.lemma_entry(i as int);
            assert forall|k2: Seq<char>| #[trigger] self.entries().contains_key(k2) && k2 != k implies self.entries()[k2]
                == before.entries()[k2] by {
                self.lemma_index(k2);
                self.lemma_same_keys_same_index(&before, k2);
            }
            assert forall|k2: Seq<char>| self.entries().contains_key(k2) <==> #[trigger] before.entries().insert(k, self.entry_at(i as int)).contains_key(k2) by {
                self.lemma_same_keys_same_index(&before, k2);
            }
            assert(self.entries() =~= before.entries().insert(k, self.entry_at(i as int)));
        }
    }

    /// Removes the entry at index `i`.
    fn remove_at(&mut self, i: usize)
        requires
            old(self).wf(),
            i < old(self).keys@.len(),
        ensures
            final(self).wf(),
            final(self).recency == old(self).recency,
            final(self).loads@ == old(self).loads@,
            final(self).waiting@ == old(self).waiting@,
            final(self).resident_count() + 1 == old(self).resident_count(),
            final(self).entries() == old(self).entries().remove(old(self).keys@[i as int]@),
    {
        let ghost before = *self;
        self.keys.remove(i);
        self.definitions.remove(i);
        self.lifecycles.remove(i);
        self.last_used.remove(i);
        proof {
            let k = before.keys@[i as int]@;
            let n = before.keys@.len();
            assert forall|a: int, b: int|
                0 <= a < self.keys@.len() && 0 <= b < self.keys@.len() && #[trigger] self.keys@[a]@
                    == #[trigger] self.keys@[b]@ implies a == b by {
                let a0 = if a < i { a } else { a + 1 };
                let b0 = if b < i { b } else { b + 1 };
                assert(before.keys@[a0]@ == before.keys@[b0]@);
            }
            assert forall|a: int, b: int|
                0 <= a < self.keys@.len() && 0 <= b < self.keys@.len() && a != b implies #[trigger] self.last_used@[a]
                    != #[trigger] self.last_used@[b] by {
                let a0 = if a < i { a } else { a + 1 };
                let b0 = if b < i { b } else { b + 1 };
                assert(before.last_used@[a0] != before.last_used@[b0]);
            }
            assert forall|a: int| 0 <= a < self.keys@.len() implies #[trigger] self.last_used@[a] <= self.recency by {
                let a0 = if a < i { a } else { a + 1 };
                assert(before.last_used@[a0] <= before.recency);
            }
            assert forall|k2: Seq<char>| #[trigger] self.entries().contains_key(k2) <==> before.entries().remove(k).contains_key(k2) by {
                if self.has(k2) {
                    let a = self.index_of(k2);
                    let a0 = if a < i { a } else { a + 1 };
                    assert(before.keys@[a0]@ == k2);
                    if k2 == k {
                        assert(a0 == i);
                    }
                }
                if before.has(k2) && k2 != k {
                    let a0 = before.index_of(k2);
                    assert(a0 != i);
                    let a = if a0 < i { a0 } else { a0 - 1 };
                    assert(self.keys@[a]@ == k2);
                }
            }
            assert forall|k2: Seq<char>| #[trigger] self.entries().contains_key(k2) implies self.entries()[k2] == before.entries()[k2] by {
                let a = self.index_of(k2);
                let a0 = if a < i { a } else { a + 1 };
                assert(before.keys@[a0]@ == k2);
                before.lemma_entry(a0);
                self.lemma_entry(a);
            }
            assert(self.entries() =~= before.entries().remove(k));
        }
    }

    /// Appends an entry for a key that is not resident.
    fn push_entry(&mut self, key: CanonicalUrl, definition: RedirectDefinition, lifecycle: ResidentLifecycle, last_used: u64)
        requires
            old(self).wf(),
            !old(self).has(key@),
            old(self).keys@.len() + 1 < u64::MAX,
            last_used <= old(self).recency,
            forall|j: int| 0 <= j < old(self).keys@.len() ==> #[trigger] old(self).last_used@[j] != last_used,
        ensures
            final(self).wf(),
            final(self).recency == old(self).recency,
            final(self).loads@ == old(self).loads@,
            final(self).waiting@ == old(self).waiting@,
            final(self).resident_count() == old(self).resident_count() + 1,
            final(self).entries() == old(self).entries().insert(
                key@,
                EntryView { definition: definition@, lifecycle, last_used },
            ),
    {
        let ghost before = *self;
        let ghost k = key@;
        let ghost e = EntryView { definition: definition@, lifecycle, last_used };
        self.keys.push(key);
        self.definitions.push(definition);
        self.lifecycles.push(lifecycle);
        self.last_used.push(last_used);
        proof {
            let n = before.keys@.len() as int;
            assert forall|a: int, b: int|
                0 <= a < self.keys@.len() && 0 <= b < self.keys@.len() && #[trigger] self.keys@[a]@
                    == #[trigger] self.keys@[b]@ implies a == b by {
                if a < n && b < n {
                    assert(before.keys@[a]@ == before.keys@[b]@);
                } else if a < n {
                    assert(before.keys@[a]@ == k);
                } else if b < n {
                    assert(before.keys@[b]@ == k);
                }
            }
            self.lemma_entry(n);
            assert forall|k2: Seq<char>| #[trigger] self.entries().contains_key(k2) <==> before.entries().insert(k, e).contains_key(k2) by {
                if before.has(k2) {
                    let a = before.index_of(k2);
                    assert(self.keys@[a]@ == k2);
                }
                if self.has(k2) && k2 != k {
                    let a = self.index_of(k2);
                    assert(before.keys@[a]@ == k2);
                }
            }
            assert forall|k2: Seq<char>| #[trigger] self.entries().contains_key(k2) && k2 != k implies self.entries()[k2] == before.entries()[k2] by {
                let a = self.index_of(k2);
                assert(a != n);
                assert(before.keys@[a]@ == k2);
                before.lemma_entry(a);
                self.lemma_entry(a);
            }
            assert(self.entries() =~= before.entries().insert(k, e));
        }
    }

    /// The index of the least recently used resident that is not being
    /// refreshed, if there is one.
    fn least_recent_evictable(&self) -> (found: Option<usize>)
        requires
            self.wf(),
        ensures
            found matches Some(i) ==> i < self.keys@.len() && lru_victim(self.entries(), self.keys@[i as int]@),
            found is None ==> forall|k: Seq<char>| #[trigger] self.entries().contains_key(k) ==> !evictable(self.entries()[k]),
    {
        let mut best: Option<usize> = None;
        for i in 0..self.keys.len()
            invariant
                self.wf(),
                best matches Some(b) ==> b < i && !(self.lifecycles@[b as int] is Refreshing),
                forall|j: int|
                    #![trigger self.lifecycles@[j]]
                    0 <= j < i && !(self.lifecycles@[j] is Refreshing) ==> (best matches Some(b)
                        && self.last_used@[b as int] <= self.last_used@[j]),
        {
            let ghost prev = best;
            if self.lifecycles[i] != ResidentLifecycle::Refreshing {
                match best {
                    Some(b) => {
                        if self.last_used[i] < self.last_used[b] {
                            best = Some(i);
                        }
                    },
                    None => {
                        best = Some(i);
                    },
                }
            }
            assert forall|j: int|
                #![trigger self.lifecycles@[j]]
                0 <= j < i + 1 && !(self.lifecycles@[j] is Refreshing) implies (best matches Some(b)
                    && self.last_used@[b as int] <= self.last_used@[j]) by {
                if j < i {
                    assert(prev matches Some(b) && self.last_used@[b as int] <= self.last_used@[j]);
                }
            }
        }
        proof {
            match best {
                Some(b) => {
                    self.lemma_entry(b as int);
                    assert forall|k2: Seq<char>| #[trigger] self.entries().contains_key(k2) && evictable(self.entries()[k2]) implies self.entries()[self.keys@[b as int]@].last_used <= self.entries()[k2].last_used by {
                        self.lemma_entry(self.index_of(k2));
                    }
                },
                None => {
                    assert forall|k: Seq<char>| #[trigger] self.entries().contains_key(k) implies !evictable(self.entries()[k]) by {
                        self.lemma_entry(self.index_of(k));
                    }
                },
            }
        }
        best
    }

    proof fn lemma_same_residents_remove(a: Map<Seq<char>, EntryView>, b: Map<Seq<char>, EntryView>, k: Seq<char>)
        requires
            same_residents(a, b),
        ensures
            same_residents(a.remove(k), b.remove(k)),
    {
        assert(a.remove(k).dom() =~= b.remove(k).dom());
    }

    /// Stores `definition` as a fresh resident under `key`. A key that is not
    /// resident while `max_entries` residents are held first evicts the least
    /// recently used resident that is not being refreshed; when every
    /// resident is being refreshed nothing is stored and nothing changes.
    /// A limit of `usize::MAX` counts as one less, a size that no machine
    /// reaches.
    pub fn insert(&mut self, key: CanonicalUrl, definition: RedirectDefinition, expires_at: u64, max_entries: usize)
        requires
            old(self).wf(),
        ensures
            final(self).wf(),
            insert_outcome(
                old(self)@.entries,
                old(self).resident_count(),
                final(self)@.entries,
                key@,
                definition@,
                expires_at,
                capacity(max_entries as nat),
            ),
            final(self)@.loads == old(self)@.loads,
            final(self)@.waiters == old(self)@.waiters,
            !admits(old(self)@.entries, old(self).resident_count(), key@, capacity(max_entries as nat)) ==> final(self)@ == old(self)@,
            final(self).resident_count() == if !old(self)@.entries.contains_key(key@)
                && old(self).resident_count() < capacity(max_entries as nat) {
                old(self).resident_count() + 1
            } else {
                old(self).resident_count()
            },
            old(self).resident_count() <= max_entries ==> final(self).resident_count() <= max_entries,
            forall|k: Seq<char>|
                #[trigger] old(self)@.entries.contains_key(k) && old(self)@.entries[k].lifecycle is Refreshing
                    && k != key@ ==> final(self)@.entries.contains_key(k) && final(self)@.entries[k].lifecycle
                    is Refreshing,
            admits(old(self)@.entries, old(self).resident_count(), key@, capacity(max_entries as nat)) && old(self)@.recency
                < u64::MAX ==> {
                &&& final(self)@.recency == old(self)@.recency + 1
                &&& final(self)@.entries[key@].last_used == final(self)@.recency
                &&& uses_kept(old(self)@.entries, final(self)@.entries, key@)
            },
    {
        let ghost start = *self;
        let ghost k = key@;
        let ghost d = definition@;
        let found = self.find(&key);
        let cap = if max_entries < usize::MAX {
            max_entries
        } else {
            usize::MAX - 1
        };
        if found.is_none() && self.keys.len() >= cap {
            match self.least_recent_evictable() {
                None => {
                    return;
                },
                Some(v) => {
                    self.remove_at(v);
                },
            }
        }
        let ghost base = self.entries();
        let r = self.advance_recency();
        let ghost mid = self.entries();
        let lifecycle = ResidentLifecycle::Fresh { expires_at };
        match found {
            Some(i) => {
                self.update_at(i, Some(definition), lifecycle, r);
            },
            None => {
                self.push_entry(key, definition, lifecycle, r);
            },
        }
        proof {
            let e = EntryView { definition: d, lifecycle, last_used: r };
            assert(self.entries() == mid.insert(k, e));
            Self::lemma_same_residents_remove(base, mid, k);
            assert(mid.insert(k, e).remove(k) =~= mid.remove(k));
            assert(most_recent(self.entries(), k));
            if !(start.entries().contains_key(k) || start.resident_count() < cap) {
                let v = choose|v: Seq<char>| lru_victim(start.entries(), v);
                assert(base.remove(k) =~= base);
            }
            assert forall|k2: Seq<char>|
                #[trigger] start.entries().contains_key(k2) && start.entries()[k2].lifecycle is Refreshing
                    && k2 != k implies self.entries().contains_key(k2) && self.entries()[k2].lifecycle is Refreshing by {
                assert(base.contains_key(k2));
                assert(mid.contains_key(k2));
            }
        }
    }

    /// Looks a canonical URL up and records its use. A resident whose
    /// freshness ran out, or whose retry time came after a failed refresh,
    /// is handed out and marked as being refreshed; any other resident is
    /// handed out as is. A URL that is not resident starts a cold load, or
    /// waits for the one in flight.
    pub fn lookup(&mut self, key: &CanonicalUrl, now: u64) -> (decision: LookupDecision)
        requires
            old(self).wf(),
            old(self)@.loads.contains(key@) ==> old(self)@.waiters[key@] < u64::MAX,
        ensures
            final(self).wf(),
            final(self).resident_count() == old(self).resident_count(),
            old(self)@.recency < u64::MAX ==> {
                &&& final(self)@.recency == old(self)@.recency + 1
                &&& uses_kept(old(self)@.entries, final(self)@.entries, key@)
                &&& old(self)@.entries.contains_key(key@) ==> final(self)@.entries[key@].last_used == final(self)@.recency
            },
            old(self)@.entries.contains_key(key@) ==> {
                let e = old(self)@.entries[key@];
                let refresh = needs_refresh(e.lifecycle, now);
                &&& most_recent(final(self)@.entries, key@)
                &&& final(self)@.entries[key@].definition == e.definition
                &&& final(self)@.entries[key@].lifecycle == if refresh {
                    ResidentLifecycle::Refreshing
                } else {
                    e.lifecycle
                }
                &&& same_residents(old(self)@.entries.remove(key@), final(self)@.entries.remove(key@))
                &&& final(self)@.loads == old(self)@.loads
                &&& final(self)@.waiters == old(self)@.waiters
                &&& if refresh {
                    decision matches LookupDecision::Refresh(d) && d@ == e.definition
                } else {
                    decision matches LookupDecision::Return(d) && d@ == e.definition
                }
            },
            !old(self)@.entries.contains_key(key@) ==> {
                &&& same_residents(old(self)@.entries, final(self)@.entries)
                &&& if old(self)@.loads.contains(key@) {
                    &&& decision is Wait
                    &&& final(self)@.loads == old(self)@.loads
                    &&& final(self)@.waiters == old(self)@.waiters.insert(key@, old(self)@.waiters[key@] + 1)
                } else {
                    &&& decision is Load
                    &&& final(self)@.loads == old(self)@.loads.insert(key@)
                    &&& final(self)@.waiters == old(self)@.waiters.insert(key@, 1)
                }
            },
    {
        let ghost start = *self;
        let r = self.advance_recency();
        let ghost mid = self.entries();
        match self.find(key) {
            Some(i) => {
                proof {
                    start.lemma_entry(i as int);
                    self.lemma_entry(i as int);
                }
                let lifecycle = self.lifecycles[i];
                let refresh = match lifecycle {
                    ResidentLifecycle::Fresh { expires_at } => expires_at <= now,
                    ResidentLifecycle::Stale { retry_after } => retry_after <= now,
                    ResidentLifecycle::Refreshing => false,
                };
                let next = if refresh {
                    ResidentLifecycle::Refreshing
                } else {
                    lifecycle
                };
                self.update_at(i, None, next, r);
                let definition = self.definitions[i].clone();
                proof {
                    let e = EntryView { definition: mid[key@].definition, lifecycle: next, last_used: r };
                    assert(self.entries() == mid.insert(key@, e));
                    Self::lemma_same_residents_remove(start.entries(), mid, key@);
                    assert(mid.insert(key@, e).remove(key@) =~= mid.remove(key@));
                    self.lemma_entry(i as int);
                }
                if refresh {
                    LookupDecision::Refresh(definition)
                } else {
                    LookupDecision::Return(definition)
                }
            },
            None => {
                if let Some(j) = self.find_load(key) {
                    let ghost before = *self;
                    proof {
                        before.lemma_load_index(key@);
                    }
                    let count = self.waiting[j];
                    self.waiting.set(j, count + 1);
                    proof {
                        assert(self.loading() =~= before.loading());
                        assert forall|k2: Seq<char>| #[trigger] self.loading().contains(k2) implies self.load_index(k2)
                            == before.load_index(k2) by {
                            before.lemma_load_index(k2);
                            self.lemma_load_index(k2);
                        }
                        assert(self.waiter_map() =~= before.waiter_map().insert(key@, before.waiter_map()[key@] + 1));
                        assert forall|k2: Seq<char>| #[trigger] self.entries().contains_key(k2) <==> before.entries().contains_key(k2) by {
                            self.lemma_same_keys_same_index(&before, k2);
                        }
                        assert forall|k2: Seq<char>| #[trigger] self.entries().contains_key(k2) implies self.entries()[k2] == before.entries()[k2] by {
                            self.lemma_same_keys_same_index(&before, k2);
                        }
                        assert(self.entries() =~= before.entries());
                    }
                    LookupDecision::Wait
                } else {
                    let ghost before = *self;
                    self.loads.push(key.clone());
                    self.waiting.push(1);
                    proof {
                        let n = before.loads@.len() as int;
                        assert forall|a: int, b: int|
                            0 <= a < self.loads@.len() && 0 <= b < self.loads@.len() && #[trigger] self.loads@[a]@
                                == #[trigger] self.loads@[b]@ implies a == b by {
                            if a < n && b < n {
                                assert(before.loads@[a]@ == before.loads@[b]@);
                            } else if a < n {
                                assert(before.loads@[a]@ == key@);
                            } else if b < n {
                                assert(before.loads@[b]@ == key@);
                            }
                        }
                        assert forall|k2: Seq<char>| #[trigger] self.loading().contains(k2) <==> before.loading().insert(key@).contains(k2) by {
                            if before.loading().contains(k2) {
                                let a = choose|a: int| 0 <= a < before.loads@.len() && #[trigger] before.loads@[a]@ == k2;
                                assert(self.loads@[a]@ == k2);
                            }
                            if k2 == key@ {
                                assert(self.loads@[n]@ == k2);
                            }
                            if self.loading().contains(k2) && k2 != key@ {
                                let a = choose|a: int| 0 <= a < self.loads@.len() && #[trigger] self.loads@[a]@ == k2;
                                assert(before.loads@[a]@ == k2);
                            }
                        }
                        assert(self.loading() =~= before.loading().insert(key@));
                        assert forall|k2: Seq<char>| #[trigger] self.loading().contains(k2) implies self.waiting@[self.load_index(k2)]
                            == (if k2 == key@ { 1 } else { before.waiting@[before.load_index(k2)] }) by {
                            self.lemma_load_index(k2);
                            if k2 == key@ {
                                assert(self.loads@[n]@ == k2);
                            } else {
                                before.lemma_load_index(k2);
                                assert(self.loads@[before.load_index(k2)]@ == k2);
                            }
                        }
                        assert(self.waiter_map() =~= before.waiter_map().insert(key@, 1));
                        assert forall|k2: Seq<char>| #[trigger] self.entries().contains_key(k2) <==> before.entries().contains_key(k2) by {
                            self.lemma_same_keys_same_index(&before, k2);
                        }
                        assert forall|k2: Seq<char>| #[trigger] self.entries().contains_key(k2) implies self.entries()[k2] == before.entries()[k2] by {
                            self.lemma_same_keys_same_index(&before, k2);
                        }
                        assert(self.entries() =~= before.entries());
                    }
                    LookupDecision::Load
                }
            },
        }
    }

    /// Completes a cold load: the source's result is validated once, a
    /// found definition becomes a fresh resident, and the URL is no longer
    /// being loaded. Every lookup that waited for the load, the one that
    /// started it included, gets one answer, and each answer is that one
    /// validated result.
    pub fn finish_cold_load(
        &mut self,
        key: &CanonicalUrl,
        result: Resolution,
        expires_at: u64,
        max_entries: usize,
    ) -> (answers: Vec<Resolution>)
        requires
            old(self).wf(),
        ensures
            final(self).wf(),
            final(self)@.loads == old(self)@.loads.remove(key@),
            final(self)@.waiters == old(self)@.waiters.remove(key@),
            answers@.len() == waiting_on(old(self)@, key@),
            forall|i: int|
                0 <= i < answers@.len() ==> resolution_view(#[trigger] answers@[i]) == validated_resolution(
                    key@,
                    resolution_view(result),
                ),
            match validated_resolution(key@, resolution_view(result)) {
                Ok(Some(d)) => {
                    &&& insert_outcome(
                        old(self)@.entries,
                        old(self).resident_count(),
                        final(self)@.entries,
                        key@,
                        d,
                        expires_at,
                        capacity(max_entries as nat),
                    )
                    &&& admits(old(self)@.entries, old(self).resident_count(), key@, capacity(max_entries as nat))
                        && old(self)@.recency < u64::MAX ==> {
                        &&& final(self)@.recency == old(self)@.recency + 1
                        &&& final(self)@.entries[key@].last_used == final(self)@.recency
                        &&& uses_kept(old(self)@.entries, final(self)@.entries, key@)
                    }
                },
                _ => final(self)@.entries == old(self)@.entries && final(self)@.recency == old(self)@.recency,
            },
            old(self).resident_count() <= max_entries ==> final(self).resident_count() <= max_entries,
    {
        let validated = validate_resolution(key, result);
        match &validated {
            Ok(Some(definition)) => {
                self.insert(key.clone(), definition.clone(), expires_at, max_entries);
            },
            _ => {},
        }
        let count = self.remove_load(key);
        let mut answers: Vec<Resolution> = Vec::new();
        let mut n: u64 = 0;
        while n < count
            invariant
                n <= count,
                answers@.len() == n,
                forall|i: int| 0 <= i < n ==> resolution_view(#[trigger] answers@[i]) == resolution_view(validated),
            decreases count - n,
        {
            answers.push(copy_resolution(&validated));
            n = n + 1;
        }
        answers
    }

    /// Completes a background refresh. Only a resident that is still being
    /// refreshed changes: a found definition replaces it as fresh, a miss
    /// removes it, and a failure keeps it as stale until `retry_after`. The
    /// failure, if any, is returned for the caller to report.
    pub fn finish_refresh(
        &mut self,
        key: &CanonicalUrl,
        result: Resolution,
        expires_at: u64,
        retry_after: u64,
    ) -> (failure: Option<RedirectSourceError>)
        requires
            old(self).wf(),
        ensures
            final(self).wf(),
            final(self)@.loads == old(self)@.loads,
            final(self)@.waiters == old(self)@.waiters,
            final(self).resident_count() <= old(self).resident_count(),
            old(self)@.recency < u64::MAX ==> {
                &&& final(self)@.recency == old(self)@.recency + 1
                &&& uses_kept(old(self)@.entries, final(self)@.entries, key@)
                &&& refreshing(old(self)@.entries, key@) && final(self)@.entries.contains_key(key@)
                    ==> final(self)@.entries[key@].last_used == final(self)@.recency
            },
            match validated_resolution(key@, resolution_view(result)) {
                Err(m) => failure matches Some(e) && e.spec_message() == m,
                Ok(_) => failure is None,
            },
            !refreshing(old(self)@.entries, key@) ==> same_residents(old(self)@.entries, final(self)@.entries),
            refreshing(old(self)@.entries, key@) ==> match validated_resolution(key@, resolution_view(result)) {
                Ok(Some(d)) => {
                    &&& most_recent(final(self)@.entries, key@)
                    &&& final(self)@.entries[key@].definition == d
                    &&& final(self)@.entries[key@].lifecycle == ResidentLifecycle::Fresh { expires_at }
                    &&& same_residents(old(self)@.entries.remove(key@), final(self)@.entries.remove(key@))
                },
                Ok(None) => same_residents(old(self)@.entries.remove(key@), final(self)@.entries),
                Err(_) => {
                    &&& most_recent(final(self)@.entries, key@)
                    &&& final(self)@.entries[key@].definition == old(self)@.entries[key@].definition
                    &&& final(self)@.entries[key@].lifecycle == ResidentLifecycle::Stale { retry_after }
                    &&& same_residents(old(self)@.entries.remove(key@), final(self)@.entries.remove(key@))
                },
            },
    {
        let ghost start = *self;
        let validated = validate_resolution(key, result);
        let r = self.advance_recency();
        let ghost mid = self.entries();
        proof {
            Self::lemma_same_residents_remove(start.entries(), mid, key@);
        }
        let found = self.find(key);
        match found {
            Some(i) => {
                proof {
                    self.lemma_entry(i as int);
                    start.lemma_entry(i as int);
                }
                if self.lifecycles[i] == ResidentLifecycle::Refreshing {
                    match validated {
                        Ok(Some(definition)) => {
                            let ghost d = definition@;
                            self.update_at(i, Some(definition), ResidentLifecycle::Fresh { expires_at }, r);
                            proof {
                                let e = EntryView { definition: d, lifecycle: ResidentLifecycle::Fresh { expires_at }, last_used: r };
                                assert(mid.insert(key@, e).remove(key@) =~= mid.remove(key@));
                            }
                            None
                        },
                        Ok(None) => {
                            self.remove_at(i);
                            None
                        },
                        Err(error) => {
                            self.update_at(i, None, ResidentLifecycle::Stale { retry_after }, r);
                            proof {
                                let e = EntryView { definition: mid[key@].definition, lifecycle: ResidentLifecycle::Stale { retry_after }, last_used: r };
                                assert(mid.insert(key@, e).remove(key@) =~= mid.remove(key@));
                            }
                            Some(error)
                        },
                    }
                } else {
                    match validated {
                        Err(error) => Some(error),
                        Ok(_) => None,
                    }
                }
            },
            None => {
                match validated {
                    Err(error) => Some(error),
                    Ok(_) => None,
                }
            },
        }
    }

    /// Whether a canonical URL is resident.
    pub fn contains(&self, key: &CanonicalUrl) -> (resident: bool)
        requires
            self.wf(),
        ensures
            resident == self@.entries.contains_key(key@),
    {
        self.find(key).is_some()
    }

    /// The lifecycle of a resident canonical URL.
    pub fn lifecycle_of(&self, key: &CanonicalUrl) -> (lifecycle: Option<ResidentLifecycle>)
        requires
            self.wf(),
        ensures
            lifecycle == if self@.entries.contains_key(key@) {
                Some(self@.entries[key@].lifecycle)
            } else {
                None::<ResidentLifecycle>
            },
    {
        match self.find(key) {
            Some(i) => {
                proof {
                    self.lemma_entry(i as int);
                }
                Some(self.lifecycles[i])
            },
            None => None,
        }
    }

    /// The number of resident definitions.
    pub fn len(&self) -> (count: usize)
        requires
            self.wf(),
        ensures
            count == self.resident_count(),
    {
        self.keys.len()
    }

    /// Whether a cold load of a canonical URL is in flight.
    pub fn is_load_in_flight(&self, key: &CanonicalUrl) -> (loading: bool)
        requires
            self.wf(),
        ensures
            loading == self@.loads.contains(key@),
    {
        self.is_loading(key)
    }

    fn remove_load(&mut self, key: &CanonicalUrl) -> (count: u64)
        requires
            old(self).wf(),
        ensures
            final(self).wf(),
            final(self).entries() == old(self).entries(),
            final(self).keys@ == old(self).keys@,
            final(self).recency == old(self).recency,
            final(self).loading() == old(self).loading().remove(key@),
            final(self).waiter_map() == old(self).waiter_map().remove(key@),
            count == if old(self).loading().contains(key@) {
                old(self).waiter_map()[key@]
            } else {
                0
            },
    {
        let ghost before = *self;
        match self.find_load(key) {
            None => {
                proof {
                    assert(self.loading() =~= before.loading().remove(key@));
                    assert(self.waiter_map() =~= before.waiter_map().remove(key@));
                }
                0
            },
            Some(i) => {
                proof {
                    before.lemma_load_index(key@);
                }
                let count = self.waiting[i];
                self.loads.remove(i);
                self.waiting.remove(i);
                proof {
                    let prev = before;
                    assert forall|a: int, b: int|
                        0 <= a < self.loads@.len() && 0 <= b < self.loads@.len() && #[trigger] self.loads@[a]@
                            == #[trigger] self.loads@[b]@ implies a == b by {
                        let a0 = if a < i { a } else { a + 1 };
                        let b0 = if b < i { b } else { b + 1 };
                        assert(prev.loads@[a0]@ == prev.loads@[b0]@);
                    }
                    assert forall|a: int| 0 <= a < self.waiting@.len() implies #[trigger] self.waiting@[a] >= 1 by {
                        let a0 = if a < i { a } else { a + 1 };
                        assert(prev.waiting@[a0] >= 1);
                    }
                    assert forall|k2: Seq<char>| #[trigger] self.loading().contains(k2) <==> before.loading().remove(key@).contains(k2) by {
                        if self.loading().contains(k2) {
                            let a = choose|a: int| 0 <= a < self.loads@.len() && #[trigger] self.loads@[a]@ == k2;
                            let a0 = if a < i { a } else { a + 1 };
                            assert(prev.loads@[a0]@ == k2);
                            assert(a0 != i);
                        }
                        if before.loading().remove(key@).contains(k2) {
                            let a0 = choose|a: int| 0 <= a < prev.loads@.len() && #[trigger] prev.loads@[a]@ == k2;
                            let a = if a0 < i { a0 } else { a0 - 1 };
                            assert(self.loads@[a]@ == k2);
                        }
                    }
                    assert(self.loading() =~= before.loading().remove(key@));
                    assert forall|k2: Seq<char>| #[trigger] self.loading().contains(k2) implies self.waiting@[self.load_index(k2)]
                        == before.waiting@[before.load_index(k2)] by {
                        self.lemma_load_index(k2);
                        let a = self.load_index(k2);
                        let a0 = if a < i { a } else { a + 1 };
                        assert(prev.loads@[a0]@ == k2);
                        before.lemma_load_index(k2);
                    }
                    assert(self.waiter_map() =~= before.waiter_map().remove(key@));
                    assert(self.entries() =~= before.entries());
                }
                count
            },
        }
    }

    proof fn lemma_load_index(&self, k: Seq<char>)
        requires
            self.wf(),
            self.loading().contains(k),
        ensures
            0 <= self.load_index(k) < self.loads@.len(),
            self.loads@[self.load_index(k)]@ == k,
            forall|i: int| 0 <= i < self.loads@.len() && #[trigger] self.loads@[i]@ == k ==> i == self.load_index(k),
    {
    }

    fn find_load(&self, key: &CanonicalUrl) -> (found: Option<usize>)
        requires
            self.wf(),
        ensures
            found matches Some(j) ==> j < self.loads@.len() && self.loads@[j as int]@ == key@,
            found is None ==> !self.loading().contains(key@),
    {
        for i in 0..self.loads.len()
            invariant
                forall|j: int| 0 <= j < i ==> #[trigger] self.loads@[j]@ != key@,
        {
            if self.loads[i].same_key(key) {
                return Some(i);
            }
        }
        None
    }

    fn is_loading(&self, key: &CanonicalUrl) -> (loading: bool)
        requires
            self.wf(),
        ensures
            loading == self.loading().contains(key@),
    {
        for i in 0..self.loads.len()
            invariant
                forall|j: int| 0 <= j < i ==> #[trigger] self.loads@[j]@ != key@,
        {
            if self.loads[i].same_key(key) {
                return true;
            }
        }
        false
    }

    fn count_below_exec(values: &Vec<u64>, v: u64) -> (n: u64)
        requires
            values@.len() < u64::MAX,
        ensures
            n == count_below(values@, v),
    {
        let mut n: u64 = 0;
        for i in 0..values.len()
            invariant
                values@.len() < u64::MAX,
                n == count_below(values@.subrange(0, i as int), v),
                n <= i,
        {
            assert(values@.subrange(0, i + 1).drop_last() =~= values@.subrange(0, i as int));
            if values[i] < v {
                n = n + 1;
            }
        }
        assert(values@.subrange(0, values@.len() as int) =~= values@);
        n
    }

    /// Hands out the next recency value. Once the counter has reached its
    /// maximum, residents are first renumbered `0..n` in their order of use
    /// and the counter restarts at `n`.
    pub fn next_recency(&mut self) -> (r: u64)
        requires
            old(self).wf(),
        ensures
            final(self).wf(),
            r == final(self)@.recency,
            all_used_before(final(self)@.entries, r),
            same_residents(old(self)@.entries, final(self)@.entries),
            final(self)@.loads == old(self)@.loads,
            final(self)@.waiters == old(self)@.waiters,
            old(self)@.recency < u64::MAX ==> r == old(self)@.recency + 1 && final(self)@.entries
                == old(self)@.entries,
            final(self).resident_count() == old(self).resident_count(),
    {
        self.advance_recency()
    }

    fn advance_recency(&mut self) -> (r: u64)
        requires
            old(self).wf(),
        ensures
            final(self).wf(),
            r == final(self).recency,
            final(self).keys@ == old(self).keys@,
            final(self).definitions@ == old(self).definitions@,
            final(self).lifecycles@ == old(self).lifecycles@,
            final(self).loads@ == old(self).loads@,
            final(self).waiting@ == old(self).waiting@,
            forall|i: int| 0 <= i < final(self).keys@.len() ==> #[trigger] final(self).last_used@[i] < r,
            all_used_before(final(self).entries(), r),
            same_residents(old(self).entries(), final(self).entries()),
            old(self).recency < u64::MAX ==> r == old(self).recency + 1 && final(self).last_used@
                == old(self).last_used@,
    {
        let ghost start = *self;
        if self.recency == u64::MAX {
            let ghost old_self = *self;
            let n = self.keys.len();
            let mut ranks: Vec<u64> = Vec::new();
            for i in 0..n
                invariant
                    n == self.keys@.len(),
                    *self == old_self,
                    self.wf(),
                    ranks@.len() == i,
                    forall|j: int| 0 <= j < i ==> #[trigger] ranks@[j] == count_below(self.last_used@, self.last_used@[j]),
            {
                let c = Self::count_below_exec(&self.last_used, self.last_used[i]);
                ranks.push(c);
            }
            let ghost lu = self.last_used@;
            proof {
                assert forall|i: int, j: int| 0 <= i < n && 0 <= j < n && lu[i] < lu[j] implies ranks@[i] < ranks@[j] by {
                    assert(lu.contains(lu[i]));
                    lemma_count_below_bounds(lu, lu[i], lu[j]);
                }
                assert forall|i: int| 0 <= i < n implies #[trigger] ranks@[i] < n by {
                    assert(lu.contains(lu[i]));
                    lemma_count_below_bounds(lu, lu[i], lu[i]);
                }
            }
            self.last_used = ranks;
            self.recency = n as u64;
            proof {
                assert forall|i: int, j: int| 0 <= i < n && 0 <= j < n && i != j implies self.last_used@[i]
                    != self.last_used@[j] by {
                    if lu[i] < lu[j] {
                    } else {
                        assert(lu[j] < lu[i]);
                    }
                }
                assert(self.entries().dom() =~= old_self.entries().dom());
                assert forall|k: Seq<char>| #[trigger] old_self.entries().contains_key(k) implies self.entries()[k].definition
                    == old_self.entries()[k].definition && self.entries()[k].lifecycle
                    == old_self.entries()[k].lifecycle by {
                    old_self.lemma_index(k);
                }
                assert forall|k1: Seq<char>, k2: Seq<char>|
                    old_self.entries().contains_key(k1) && old_self.entries().contains_key(k2) implies (
                    old_self.entries()[k1].last_used < old_self.entries()[k2].last_used
                        <==> self.entries()[k1].last_used < self.entries()[k2].last_used) by {
                    old_self.lemma_index(k1);
                    old_self.lemma_index(k2);
                    let i = old_self.index_of(k1);
                    let j = old_self.index_of(k2);
                    if i != j {
                        if lu[i] < lu[j] {
                        } else {
                            assert(lu[j] < lu[i]);
                        }
                    }
                }
            }
        }
        self.recency = self.recency + 1;
        proof {
            assert(self.entries().dom() =~= start.entries().dom());
            if start.recency < u64::MAX {
                assert(self.entries() =~= start.entries());
            }
            assert forall|k: Seq<char>| #[trigger] self.entries().contains_key(k) implies self.entries()[k].last_used
                < self.recency by {
                self.lemma_index(k);
            }
        }
        self.recency
    }
}

impl View for CacheState {
    type V = CacheView;

    closed spec fn view(&self) -> CacheView {
        CacheView { entries: self.entries(), loads: self.loading(), waiters: self.waiter_map(), recency: self.recency }
    }
}

/// How long a resident stays fresh and how many residents the cache holds.
#[derive(Debug, Clone, Copy)]
pub struct RedirectCachePolicy {
    /// Freshness, in ticks of the caller's clock (milliseconds in the
    /// service).
    pub freshness_ttl_ms: u64,
    /// The most residents held; never zero.
    pub max_entries: usize,
}

/// How long a resident stays stale after a failed refresh before the next
/// refresh, in milliseconds.
pub const REFRESH_RETRY_DELAY_MS: u64 = 30_000;

/// A time plus a delay, held at the clock's end.
pub open spec fn later(now: u64, delay: u64) -> u64 {
    if now + delay > u64::MAX {
        u64::MAX
    } else {
        (now + delay) as u64
    }
}

impl RedirectCachePolicy {
    /// A policy whose freshness is given in seconds (as configured).
    pub fn from_seconds(freshness_ttl_seconds: u64, max_entries: usize) -> (policy: RedirectCachePolicy)
        requires
            max_entries > 0,
        ensures
            policy.freshness_ttl_ms == if freshness_ttl_seconds * 1000 > u64::MAX {
                u64::MAX
            } else {
                (freshness_ttl_seconds * 1000) as u64
            },
            policy.max_entries == max_entries,
    {
        let ms = freshness_ttl_seconds.checked_mul(1000).unwrap_or(u64::MAX);
        RedirectCachePolicy::new(ms, max_entries)
    }

    /// When a definition stored at `now` stops being fresh.
    pub fn expires_at(&self, now: u64) -> (at: u64)
        ensures
            at == later(now, self.freshness_ttl_ms),
    {
        now.checked_add(self.freshness_ttl_ms).unwrap_or(u64::MAX)
    }

    /// When a resident whose refresh failed at `now` is refreshed again.
    pub fn retry_after(&self, now: u64) -> (at: u64)
        ensures
            at == later(now, REFRESH_RETRY_DELAY_MS),
    {
        now.checked_add(REFRESH_RETRY_DELAY_MS).unwrap_or(u64::MAX)
    }

    /// A policy with a freshness period and a positive capacity.
    pub fn new(freshness_ttl_ms: u64, max_entries: usize) -> (policy: RedirectCachePolicy)
        requires
            max_entries > 0,
        ensures
            policy.freshness_ttl_ms == freshness_ttl_ms,
            policy.max_entries == max_entries,
    {
        RedirectCachePolicy { freshness_ttl_ms, max_entries }
    }
}

/// A stored definition is what the next lookups serve: once a definition
/// has been stored under a key (with room for it, or a resident to evict),
/// the key is resident with that definition, and a lookup before its
/// freshness runs out hands it out as is.
pub proof fn law_stored_definition_is_served(
    old: Map<Seq<char>, EntryView>,
    old_count: nat,
    new: Map<Seq<char>, EntryView>,
    key: Seq<char>,
    definition: DefinitionView,
    expires_at: u64,
    max_entries: nat,
    now: u64,
)
    requires
        insert_outcome(old, old_count, new, key, definition, expires_at, max_entries),
        admits(old, old_count, key, max_entries),
        now < expires_at,
    ensures
        new.contains_key(key),
        new[key].definition == definition,
        new[key].lifecycle == (ResidentLifecycle::Fresh { expires_at }),
        !needs_refresh(new[key].lifecycle, now),
{
}

/// At most one refresh per canonical URL is in flight: a lookup of a
/// resident that is being refreshed hands it out as is and starts no
/// other refresh, whatever the time.
pub proof fn law_refresh_in_flight_is_not_repeated(entries: Map<Seq<char>, EntryView>, key: Seq<char>, now: u64)
    requires
        refreshing(entries, key),
    ensures
        !needs_refresh(entries[key].lifecycle, now),
{
}

/// Cold lookups of one canonical URL share one load: once a lookup of a
/// URL that is neither resident nor loading has started its load (the
/// residents unchanged, the URL added to the loads with that one lookup
/// waiting), the URL is loading and still not resident, so the next lookup
/// waits for that load (loads unchanged, one more waiter) and becomes its
/// second waiter.
pub proof fn law_cold_lookups_share_one_load(before: CacheView, after: CacheView, next: CacheView, key: Seq<char>)
    requires
        !before.entries.contains_key(key),
        same_residents(before.entries, after.entries),
        after.loads == before.loads.insert(key),
        after.waiters == before.waiters.insert(key, 1),
        next.loads == after.loads,
        next.waiters == after.waiters.insert(key, after.waiters[key] + 1),
    ensures
        !after.entries.contains_key(key),
        after.loads.contains(key),
        waiting_on(after, key) == 1,
        next.loads.contains(key),
        waiting_on(next, key) == 2,
{
}

/// A definition that a source returns for another canonical URL than the
/// one being loaded is not kept: the load ends in a source error, the URL
/// stays out of the cache and is no longer being loaded, so the next
/// lookup of it starts a new load.
pub proof fn law_definition_for_another_key_is_not_cached(
    before: CacheView,
    after: CacheView,
    key: Seq<char>,
    definition: DefinitionView,
    resident_count: nat,
    expires_at: u64,
    max_entries: nat,
)
    requires
        definition.canonical_url != key,
        !before.entries.contains_key(key),
        after.loads == before.loads.remove(key),
        match validated_resolution(key, Ok(Some(definition))) {
            Ok(Some(d)) => insert_outcome(before.entries, resident_count, after.entries, key, d, expires_at, max_entries),
            _ => after.entries == before.entries,
        },
    ensures
        validated_resolution(key, Ok(Some(definition))) is Err,
        !after.entries.contains_key(key),
        !after.loads.contains(key),
{
}

/// A stale hit is served at once: the lookup of a resident whose freshness
/// ran out hands out the resident definition and starts one refresh,
/// marking it as being refreshed.
pub proof fn law_expired_resident_is_served_while_refreshing(expires_at: u64, now: u64)
    requires
        expires_at <= now,
    ensures
        needs_refresh(ResidentLifecycle::Fresh { expires_at }, now),
{
}

/// After a failed refresh the resident keeps being served without another
/// refresh until its retry time, and is refreshed again from then on.
pub proof fn law_failed_refresh_waits_for_retry(retry_after: u64, now: u64)
    ensures
        needs_refresh(ResidentLifecycle::Stale { retry_after }, now) <==> retry_after <= now,
{
}

} // verus!
