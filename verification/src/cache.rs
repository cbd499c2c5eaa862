//! A bounded cache of strings with expiry and least-frequently-used eviction,
//! kept in a `DashMap`.
use vstd::prelude::*;
use dashmap::DashMap;
use crate::clock::now_epoch_seconds;
use crate::text::opt_view;

verus! {

/// How long, in seconds, an inserted entry stays fresh.
pub const ENTRY_LIFETIME_SECS: u64 = 100;

/// Once the cache holds this many entries, an insertion first evicts one.
pub const CAPACITY: usize = 100;

/// `dashmap::DashMap`, opaque to Verus; what it holds is named by [`map_contents`].
#[verifier::external_type_specification]
#[verifier::external_body]
#[verifier::reject_recursive_types(K)]
#[verifier::reject_recursive_types(V)]
#[verifier::reject_recursive_types(S)]
pub struct ExDashMap<K, V, S>(DashMap<K, V, S>);

/// The mathematical value of a [`CacheEntry`].
pub struct EntryView {
    pub value: Seq<char>,
    pub expires_at: u64,
    pub frequency: u32,
}

/// What a cache holds: each key's entry.
pub type CacheMap = Map<Seq<char>, EntryView>;

/// A cached value with the second at which it expires and how often it was read.
#[derive(Clone, Debug)]
pub struct CacheEntry {
    pub value: String,
    pub expires_at: u64,
    pub frequency: u32,
}

impl View for CacheEntry {
    type V = EntryView;

    open spec fn view(&self) -> EntryView {
        EntryView { value: self.value@, expires_at: self.expires_at, frequency: self.frequency }
    }
}

impl CacheEntry {
    pub fn new(value: String, expires_at: u64, frequency: u32) -> (entry: Self)
        ensures
            entry.value == value,
            entry.expires_at == expires_at,
            entry.frequency == frequency,
    {
        CacheEntry { value, expires_at, frequency }
    }
}

/// `m` holds finitely many entries, `n` of them.
pub open spec fn holds_count(m: CacheMap, n: nat) -> bool {
    m.dom().finite() && m.len() == n
}

/// The entries that a `DashMap` of the cache holds, by key.
pub uninterp spec fn map_contents(m: DashMap<String, CacheEntry>) -> CacheMap;

/// `DashMap::new`: a map with no entries.
#[verifier::external_body]
fn map_new() -> (fresh: DashMap<String, CacheEntry>)
    ensures
        map_contents(fresh) == CacheMap::empty(),
{
    DashMap::new()
}

/// `DashMap::len`: the number of entries, of which there are finitely many.
#[verifier::external_body]
fn map_len(m: &DashMap<String, CacheEntry>) -> (n: usize)
    ensures
        holds_count(map_contents(*m), n as nat),
{
    m.len()
}

/// `DashMap::insert`: the key now maps to the entry, the other keys are untouched.
#[verifier::external_body]
fn map_insert(m: &mut DashMap<String, CacheEntry>, key: String, entry: CacheEntry)
    ensures
        map_contents(*final(m)) == map_contents(*old(m)).insert(key@, entry@),
{
    m.insert(key, entry);
}

/// `DashMap::remove`: the key no longer maps to anything, the other keys are untouched.
#[verifier::external_body]
fn map_remove(m: &mut DashMap<String, CacheEntry>, key: &String)
    ensures
        map_contents(*final(m)) == map_contents(*old(m)).remove(key@),
{
    m.remove(key);
}

/// `DashMap::get`, with the entry found cloned out of the map.
#[verifier::external_body]
fn map_get(m: &DashMap<String, CacheEntry>, key: &String) -> (found: Option<CacheEntry>)
    ensures
        found is Some <==> map_contents(*m).contains_key(key@),
        found matches Some(e) ==> e@ == map_contents(*m)[key@],
{
    m.get(key).map(|r| r.value().clone())
}

/// `DashMap::iter`, each key and entry cloned out, in the map's own order, which
/// is left unsaid: every entry once.
#[verifier::external_body]
fn map_entries(m: &DashMap<String, CacheEntry>) -> (items: Vec<(String, CacheEntry)>)
    ensures
        holds_count(map_contents(*m), items.len() as nat),
        forall|i: int|
            0 <= i < items.len() ==> map_contents(*m).contains_key(#[trigger] items@[i].0@)
                && map_contents(*m)[items@[i].0@] == items@[i].1@,
        forall|i: int, j: int|
            0 <= i < j < items.len() ==> #[trigger] items@[i].0@ != #[trigger] items@[j].0@,
        forall|k: Seq<char>|
            #[trigger] map_contents(*m).contains_key(k) ==> exists|i: int|
                0 <= i < items.len() && #[trigger] items@[i].0@ == k,
{
    m.iter().map(|kv| (kv.key().clone(), kv.value().clone())).collect()
}

/// The second at which an entry stored at second `now` expires: [`ENTRY_LIFETIME_SECS`]
/// later, or `u64::MAX` where that does not fit.
pub open spec fn expiry_of(now: u64) -> u64 {
    if now + ENTRY_LIFETIME_SECS > u64::MAX {
        u64::MAX
    } else {
        (now + ENTRY_LIFETIME_SECS) as u64
    }
}

/// The entry that an insertion at second `now` stores.
pub open spec fn fresh_entry(value: Seq<char>, now: u64) -> EntryView {
    EntryView { value, expires_at: expiry_of(now), frequency: 0 }
}

/// No entry of `m` was read less often than the one under `k`.
pub open spec fn is_least_used(m: CacheMap, k: Seq<char>) -> bool {
    forall|j: Seq<char>| #[trigger] m.contains_key(j) ==> m[k].frequency <= m[j].frequency
}

/// Some entry of `m` can still be counted up, so eviction has a candidate.
pub open spec fn has_evictable(m: CacheMap) -> bool {
    exists|k: Seq<char>| #[trigger] m.contains_key(k) && m[k].frequency < u32::MAX
}

/// `after` is `before` less one least-used entry; where every entry's count is
/// `u32::MAX`, nothing is evicted.
pub open spec fn evicts_least_used(before: CacheMap, after: CacheMap) -> bool {
    if has_evictable(before) {
        exists|k: Seq<char>|
            #[trigger] before.contains_key(k) && is_least_used(before, k) && after
                == before.remove(k)
    } else {
        after == before
    }
}

/// `after` is what an insertion of `key` and `value` at second `now` makes of `before`:
/// a full cache first evicts a least-used entry.
pub open spec fn inserted(
    before: CacheMap,
    after: CacheMap,
    key: Seq<char>,
    value: Seq<char>,
    now: u64,
) -> bool {
    if before.len() >= CAPACITY {
        exists|mid: CacheMap|
            evicts_least_used(before, mid) && after == #[trigger] mid.insert(
                key,
                fresh_entry(value, now),
            )
    } else {
        after == before.insert(key, fresh_entry(value, now))
    }
}

/// The outcome of reading a key.
pub enum Lookup {
    /// The entry was fresh; here is its value.
    Hit(String),
    /// The entry had expired and was removed.
    Expired,
    /// No entry under that key.
    Missing,
}

pub enum LookupView {
    Hit(Seq<char>),
    Expired,
    Missing,
}

impl View for Lookup {
    type V = LookupView;

    open spec fn view(&self) -> LookupView {
        match self {
            Lookup::Hit(v) => LookupView::Hit(v@),
            Lookup::Expired => LookupView::Expired,
            Lookup::Missing => LookupView::Missing,
        }
    }
}

/// The cache after reading `key` at second `now`, and the outcome: an entry whose
/// expiry has come is removed, a fresh one counts the read.
pub open spec fn looked_up(before: CacheMap, key: Seq<char>, now: u64) -> (CacheMap, LookupView) {
    if !before.contains_key(key) {
        (before, LookupView::Missing)
    } else if now >= before[key].expires_at {
        (before.remove(key), LookupView::Expired)
    } else {
        let e = before[key];
        (
            before.insert(
                key,
                EntryView {
                    value: e.value,
                    expires_at: e.expires_at,
                    frequency: (e.frequency + 1) as u32,
                },
            ),
            LookupView::Hit(e.value),
        )
    }
}

/// The value that a read hands back: only a hit has one.
pub open spec fn hit_value(outcome: LookupView) -> Option<Seq<char>> {
    match outcome {
        LookupView::Hit(v) => Some(v),
        _ => None,
    }
}

/// A read at second `now` cannot overflow the counter of the entry it finds fresh.
pub open spec fn read_in_range(m: CacheMap, key: Seq<char>, now: u64) -> bool {
    m.contains_key(key) && now < m[key].expires_at ==> m[key].frequency < u32::MAX
}

/// `before` with each of `items` inserted in turn.
pub open spec fn loaded(before: CacheMap, items: Seq<(String, CacheEntry)>) -> CacheMap
    decreases items.len(),
{
    if items.len() == 0 {
        before
    } else {
        loaded(before, items.drop_last()).insert(items.last().0@, items.last().1@)
    }
}

/// A value inserted at second `now` reads back, unchanged, at every second before
/// its expiry ([`ENTRY_LIFETIME_SECS`] later, saturating), and reads as expired from
/// the expiry second on.
pub proof fn lemma_read_after_insert(
    before: CacheMap,
    after: CacheMap,
    key: Seq<char>,
    value: Seq<char>,
    now: u64,
    later: u64,
)
    requires
        inserted(before, after, key, value, now),
    ensures
        looked_up(after, key, later).1 == (if later < expiry_of(now) {
            LookupView::Hit(value)
        } else {
            LookupView::Expired
        }),
{
    if before.len() >= CAPACITY {
        let mid = choose|mid: CacheMap|
            evicts_least_used(before, mid) && after == #[trigger] mid.insert(
                key,
                fresh_entry(value, now),
            );
        assert(after.contains_key(key) && after[key] == fresh_entry(value, now));
    }
}

/// An insertion never lets a cache grow past [`CAPACITY`] entries, so long as a full
/// cache holds an entry whose read count is below `u32::MAX` (one that eviction can take).
pub proof fn lemma_insert_respects_capacity(
    before: CacheMap,
    after: CacheMap,
    key: Seq<char>,
    value: Seq<char>,
    now: u64,
)
    requires
        before.dom().finite(),
        before.len() <= CAPACITY,
        before.len() == CAPACITY ==> has_evictable(before),
        inserted(before, after, key, value, now),
    ensures
        after.dom().finite(),
        after.len() <= CAPACITY,
{
    if before.len() >= CAPACITY {
        let mid = choose|mid: CacheMap|
            evicts_least_used(before, mid) && after == #[trigger] mid.insert(
                key,
                fresh_entry(value, now),
            );
        let k = choose|k: Seq<char>|
            #[trigger] before.contains_key(k) && is_least_used(before, k) && mid == before.remove(
                k,
            );
        assert(mid.len() == before.len() - 1);
        assert(after.len() <= mid.len() + 1);
    } else {
        assert(after.len() <= before.len() + 1);
    }
}

/// A read never moves an entry's expiry nor changes its value: a fresh read only
/// raises the read count by one, an expired read removes the entry, and every other
/// key is left alone.
pub proof fn lemma_read_keeps_expiry(before: CacheMap, key: Seq<char>, now: u64)
    ensures
        looked_up(before, key, now).0.contains_key(key) ==> {
            &&& before.contains_key(key)
            &&& now < before[key].expires_at
            &&& looked_up(before, key, now).0[key].expires_at == before[key].expires_at
            &&& looked_up(before, key, now).0[key].value == before[key].value
            &&& before[key].frequency < u32::MAX ==> looked_up(before, key, now).0[key].frequency
                == before[key].frequency + 1
        },
        before.contains_key(key) && now >= before[key].expires_at ==> !looked_up(
            before,
            key,
            now,
        ).0.contains_key(key),
{
}

/// Reads do not keep an entry alive: an entry inserted at second `t` and read at
/// any second `t1` reads as expired at every second from `t + 100` on.
pub proof fn lemma_reads_do_not_extend_life(
    before: CacheMap,
    after: CacheMap,
    key: Seq<char>,
    value: Seq<char>,
    t: u64,
    t1: u64,
    t2: u64,
)
    requires
        inserted(before, after, key, value, t),
        t2 >= t + ENTRY_LIFETIME_SECS,
    ensures
        looked_up(looked_up(after, key, t1).0, key, t2).1 == LookupView::Expired
            || looked_up(looked_up(after, key, t1).0, key, t2).1 == LookupView::Missing,
        t1 < t + ENTRY_LIFETIME_SECS ==> looked_up(looked_up(after, key, t1).0, key, t2).1
            == LookupView::Expired,
{
    lemma_read_after_insert(before, after, key, value, t, t1);
    if before.len() >= CAPACITY {
        let mid = choose|mid: CacheMap|
            evicts_least_used(before, mid) && after == #[trigger] mid.insert(
                key,
                fresh_entry(value, t),
            );
        assert(after.contains_key(key) && after[key].expires_at == t + ENTRY_LIFETIME_SECS);
    } else {
        assert(after.contains_key(key) && after[key].expires_at == t + ENTRY_LIFETIME_SECS);
    }
    lemma_read_keeps_expiry(after, key, t1);
}

/// A read that finds its entry expired removes it: every later read of that key misses.
pub proof fn lemma_expired_read_forgets(before: CacheMap, key: Seq<char>, now: u64, later: u64)
    requires
        looked_up(before, key, now).1 == LookupView::Expired,
    ensures
        looked_up(looked_up(before, key, now).0, key, later).1 == LookupView::Missing,
{
}

/// A read changes no key but the one it reads, and of that one only drops an expired
/// entry or counts a fresh read.
pub proof fn lemma_read_touches_one_key(before: CacheMap, key: Seq<char>, now: u64, other: Seq<char>)
    requires
        other != key,
    ensures
        looked_up(before, key, now).0.contains_key(other) == before.contains_key(other),
        before.contains_key(other) ==> looked_up(before, key, now).0[other] == before[other],
{
}

/// `items` lists every key of `m` once, each with its entry.
pub open spec fn lists_entries(m: CacheMap, items: Seq<(String, CacheEntry)>) -> bool {
    &&& holds_count(m, items.len())
    &&& forall|i: int|
        0 <= i < items.len() ==> m.contains_key(#[trigger] items[i].0@) && m[items[i].0@]
            == items[i].1@
    &&& forall|i: int, j: int|
        0 <= i < j < items.len() ==> #[trigger] items[i].0@ != #[trigger] items[j].0@
    &&& forall|k: Seq<char>|
        #[trigger] m.contains_key(k) ==> exists|i: int|
            0 <= i < items.len() && #[trigger] items[i].0@ == k
}

/// Loading, in order, entries with distinct keys gives each key its listed entry.
proof fn lemma_loaded_distinct(before: CacheMap, items: Seq<(String, CacheEntry)>)
    requires
        forall|i: int, j: int|
            0 <= i < j < items.len() ==> #[trigger] items[i].0@ != #[trigger] items[j].0@,
    ensures
        forall|k: Seq<char>|
            #[trigger] loaded(before, items).contains_key(k) <==> (before.contains_key(k) || exists|i: int|
                0 <= i < items.len() && #[trigger] items[i].0@ == k),
        forall|i: int|
            0 <= i < items.len() ==> loaded(before, items)[#[trigger] items[i].0@] == items[i].1@,
    decreases items.len(),
{
    if items.len() > 0 {
        let rest = items.drop_last();
        lemma_loaded_distinct(before, rest);
        let n = items.len() - 1;
        assert forall|k: Seq<char>| #[trigger] loaded(before, items).contains_key(k) <==> (
        before.contains_key(k) || exists|i: int| 0 <= i < items.len() && #[trigger] items[i].0@ == k) by {
            assert(loaded(before, items) == loaded(before, rest).insert(items[n].0@, items[n].1@));
            if loaded(before, items).contains_key(k) && !before.contains_key(k) {
                if k == items[n].0@ {
                    assert(items[n].0@ == k);
                } else {
                    let i = choose|i: int| 0 <= i < rest.len() && #[trigger] rest[i].0@ == k;
                    assert(rest[i] == items[i]);
                    assert(items[i].0@ == k);
                }
            }
            if exists|i: int| 0 <= i < items.len() && #[trigger] items[i].0@ == k {
                let i = choose|i: int| 0 <= i < items.len() && #[trigger] items[i].0@ == k;
                if i < n {
                    assert(rest[i] == items[i]);
                    assert(rest[i].0@ == k);
                }
            }
        }
        assert forall|i: int| 0 <= i < items.len() implies loaded(before, items)[
            #[trigger] items[i].0@] == items[i].1@ by {
            if i < n {
                assert(rest[i] == items[i]);
                assert(items[i].0@ != items[n].0@);
            }
        }
    }
}

/// Loading the entries that [`Cache::entries`] lists into an empty cache gives back
/// the cache they were listed from.
pub proof fn lemma_entries_reload(m: CacheMap, items: Seq<(String, CacheEntry)>)
    requires
        lists_entries(m, items),
    ensures
        loaded(CacheMap::empty(), items) == m,
{
    lemma_loaded_distinct(CacheMap::empty(), items);
    let l = loaded(CacheMap::empty(), items);
    assert forall|k: Seq<char>| #[trigger] l.contains_key(k) <==> m.contains_key(k) by {
        if l.contains_key(k) {
            let i = choose|i: int| 0 <= i < items.len() && #[trigger] items[i].0@ == k;
        }
    }
    assert forall|k: Seq<char>| #[trigger] l.contains_key(k) implies l[k] == m[k] by {
        let i = choose|i: int| 0 <= i < items.len() && #[trigger] items[i].0@ == k;
    }
    assert(l =~= m);
}

/// A cache of string values keyed by strings.
pub struct Cache {
    map: DashMap<String, CacheEntry>,
}

impl View for Cache {
    type V = CacheMap;

    closed spec fn view(&self) -> CacheMap {
        map_contents(self.map)
    }
}

impl Cache {
    pub fn new() -> (c: Self)
        ensures
            c@ == CacheMap::empty(),
    {
        Cache { map: map_new() }
    }

    /// The number of entries.
    pub fn len(&self) -> (n: usize)
        ensures
            n == self@.len(),
            self@.dom().finite(),
    {
        map_len(&self.map)
    }

    /// Stores `value` under `key` as fresh at second `now`, with a read count of 0;
    /// a cache that already holds [`CAPACITY`] entries first evicts a least-used one.
    pub fn insert_at(&mut self, key: String, value: String, now: u64)
        ensures
            inserted(old(self)@, final(self)@, key@, value@, now),
    {
        let ghost key_view = key@;
        let ghost value_view = value@;
        let entry = CacheEntry {
            value,
            expires_at: now.saturating_add(ENTRY_LIFETIME_SECS),
            frequency: 0,
        };
        if map_len(&self.map) >= CAPACITY {
            self.lfu();
            let ghost mid = self@;
            map_insert(&mut self.map, key, entry);
            assert(self@ == mid.insert(key_view, fresh_entry(value_view, now)));
        } else {
            map_insert(&mut self.map, key, entry);
        }
    }

    /// Stores `value` under `key`, fresh as of the clock's current reading; a reading
    /// before the epoch counts as second 0.
    pub fn insert(&mut self, key: String, value: String)
        ensures
            exists|now: u64| #[trigger] inserted(old(self)@, final(self)@, key@, value@, now),
    {
        let now = match now_epoch_seconds() {
            Some(s) => s,
            None => 0,
        };
        self.insert_at(key, value, now);
        assert(inserted(old(self)@, self@, key@, value@, now));
    }

    /// Reads `key` at second `now`: an expired entry is removed, a fresh one has its
    /// read count raised by one and its value handed back.
    pub fn lookup_at(&mut self, key: &String, now: u64) -> (outcome: Lookup)
        requires
            read_in_range(old(self)@, key@, now),
        ensures
            (final(self)@, outcome@) == looked_up(old(self)@, key@, now),
            final(self)@.contains_key(key@) ==> final(self)@[key@].expires_at == old(
                self,
            )@[key@].expires_at && final(self)@[key@].value == old(self)@[key@].value,
    {
        match map_get(&self.map, key) {
            None => Lookup::Missing,
            Some(e) => {
                if now >= e.expires_at {
                    map_remove(&mut self.map, key);
                    Lookup::Expired
                } else {
                    let v = e.value.clone();
                    let bumped = CacheEntry {
                        value: e.value,
                        expires_at: e.expires_at,
                        frequency: e.frequency + 1,
                    };
                    map_insert(&mut self.map, key.clone(), bumped);
                    Lookup::Hit(v)
                }
            },
        }
    }

    /// [`Cache::lookup_at`] at the clock's current reading; a reading before the
    /// epoch counts as second 0.
    pub fn lookup(&mut self, key: &String) -> (outcome: Lookup)
        requires
            old(self)@.contains_key(key@) ==> old(self)@[key@].frequency < u32::MAX,
        ensures
            exists|now: u64| (final(self)@, outcome@) == looked_up(old(self)@, key@, now),
    {
        let now = match now_epoch_seconds() {
            Some(s) => s,
            None => 0,
        };
        let outcome = self.lookup_at(key, now);
        assert((self@, outcome@) == looked_up(old(self)@, key@, now));
        outcome
    }

    /// The value under `key` if it is fresh at second `now`; see [`Cache::lookup_at`].
    pub fn get_value_at(&mut self, key: &String, now: u64) -> (found: Option<String>)
        requires
            read_in_range(old(self)@, key@, now),
        ensures
            final(self)@ == looked_up(old(self)@, key@, now).0,
            opt_view(found) == hit_value(looked_up(old(self)@, key@, now).1),
    {
        match self.lookup_at(key, now) {
            Lookup::Hit(v) => Some(v),
            _ => None,
        }
    }

    /// The value under `key` if it is fresh at the clock's current reading; a reading
    /// before the epoch counts as second 0.
    pub fn get_value(&mut self, key: &String) -> (found: Option<String>)
        requires
            old(self)@.contains_key(key@) ==> old(self)@[key@].frequency < u32::MAX,
        ensures
            exists|now: u64|
                final(self)@ == looked_up(old(self)@, key@, now).0 && opt_view(found)
                    == hit_value(looked_up(old(self)@, key@, now).1),
    {
        let now = match now_epoch_seconds() {
            Some(s) => s,
            None => 0,
        };
        let found = self.get_value_at(key, now);
        assert(self@ == looked_up(old(self)@, key@, now).0);
        found
    }

    /// Whether a read of `key` at second `now` keeps its read count within `u32`:
    /// see [`read_in_range`].
    pub fn can_read_at(&self, key: &String, now: u64) -> (ok: bool)
        ensures
            ok == read_in_range(self@, key@, now),
    {
        match map_get(&self.map, key) {
            Some(e) => !(now < e.expires_at) || e.frequency < u32::MAX,
            None => true,
        }
    }

    /// The read count of the entry under `key`, if there is one.
    pub fn read_count(&self, key: &String) -> (count: Option<u32>)
        ensures
            count is Some <==> self@.contains_key(key@),
            count matches Some(c) ==> c == self@[key@].frequency,
    {
        match map_get(&self.map, key) {
            Some(e) => Some(e.frequency),
            None => None,
        }
    }

    /// Every key with its entry, each once, in the map's own order.
    pub fn entries(&self) -> (items: Vec<(String, CacheEntry)>)
        ensures
            lists_entries(self@, items@),
    {
        map_entries(&self.map)
    }

    /// Stores each of `items` as it is, in order, without eviction.
    pub fn load_entries(&mut self, items: Vec<(String, CacheEntry)>)
        ensures
            final(self)@ == loaded(old(self)@, items@),
    {
        let ghost all = items@;
        let total = items.len();
        let mut rest = items;
        let mut done: usize = 0;
        while rest.len() > 0
            invariant
                done + rest@.len() == all.len(),
                all.len() == total,
                rest@ == all.skip(done as int),
                self@ == loaded(old(self)@, all.take(done as int)),
            decreases rest@.len(),
        {
            let (k, e) = rest.remove(0);
            proof {
                assert(all.take(done + 1).drop_last() == all.take(done as int));
                assert(all.take(done + 1).last() == all[done as int]);
            }
            map_insert(&mut self.map, k, e);
            done = done + 1;
            assert(rest@ == all.skip(done as int));
        }
        assert(all.take(done as int) == all);
    }

    /// Removes an entry of least read count, if any entry's count is below `u32::MAX`.
    pub fn lfu(&mut self)
        ensures
            evicts_least_used(old(self)@, final(self)@),
    {
        let items = map_entries(&self.map);
        let n = items.len();
        let mut min_freq: u32 = u32::MAX;
        let mut min_idx: usize = n;
        for i in 0..n
            invariant
                n == items.len(),
                min_idx == n || min_idx < i,
                min_idx == n ==> min_freq == u32::MAX,
                min_idx < n ==> min_freq == items@[min_idx as int].1.frequency && min_freq
                    < u32::MAX,
                forall|j: int| 0 <= j < i ==> min_freq <= #[trigger] items@[j].1.frequency,
        {
            if items[i].1.frequency < min_freq {
                min_freq = items[i].1.frequency;
                min_idx = i;
            }
        }
        let ghost before = self@;
        if min_idx < n {
            map_remove(&mut self.map, &items[min_idx].0);
            proof {
                let k = items@[min_idx as int].0@;
                assert forall|j: Seq<char>| #[trigger] before.contains_key(j) implies before[k].frequency
                    <= before[j].frequency by {
                    let i = choose|i: int| 0 <= i < items.len() && #[trigger] items@[i].0@ == j;
                }
                assert(before.contains_key(k) && before[k].frequency < u32::MAX);
            }
        } else {
            proof {
                if has_evictable(before) {
                    let k = choose|k: Seq<char>|
                        #[trigger] before.contains_key(k) && before[k].frequency < u32::MAX;
                    let i = choose|i: int| 0 <= i < items.len() && #[trigger] items@[i].0@ == k;
                    assert(min_freq <= items@[i].1.frequency);
                }
            }
        }
    }
}

} // verus!
