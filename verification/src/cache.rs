use crate::clock::{elapsed, elapsed_between, Clock};
use vstd::prelude::*;
use vstd::string::*;

verus! {

/// A cached shadow value with associated metadata.
///
/// `inserted_at` is a reading of `clock` in nanoseconds; `ttl` is the
/// time to live in nanoseconds (as `Duration::as_nanos` counts it).
#[derive(Debug, Clone)]
pub struct CachedShadow {
    pub shadow: String,
    pub inserted_at: u128,
    pub ttl: u128,
    /// The clock on which `inserted_at` was read.
    pub clock: Clock,
}

/// The abstract value of a cache entry.
pub struct ShadowView {
    pub shadow: Seq<char>,
    pub inserted_at: u128,
    pub ttl: u128,
}

impl View for CachedShadow {
    type V = ShadowView;

    open spec fn view(&self) -> ShadowView {
        ShadowView { shadow: self.shadow@, inserted_at: self.inserted_at, ttl: self.ttl }
    }
}

/// The entry that `put` stores.
pub open spec fn stamped(shadow: Seq<char>, inserted_at: u128, ttl: u128) -> ShadowView {
    ShadowView { shadow, inserted_at, ttl }
}

/// An entry has expired at `now` when more than its time to live has passed
/// since it was inserted.
pub open spec fn expired_at(entry: ShadowView, now: u128) -> bool {
    elapsed(now, entry.inserted_at) > entry.ttl
}

/// A cache key: `(sense_module, resource_id)`.
pub type CacheKey = (Seq<char>, Seq<char>);

/// What a lookup of `key` at `now` gives: the entry, if present and not expired.
pub open spec fn lookup(entries: Map<CacheKey, ShadowView>, key: CacheKey, now: u128) -> Option<ShadowView> {
    if entries.contains_key(key) && !expired_at(entries[key], now) {
        Some(entries[key])
    } else {
        None
    }
}

/// The entries that have not expired at `now`.
pub open spec fn live_at(entries: Map<CacheKey, ShadowView>, now: u128) -> Map<CacheKey, ShadowView> {
    Map::new(
        |k: CacheKey| entries.contains_key(k) && !expired_at(entries[k], now),
        |k: CacheKey| entries[k],
    )
}

/// The abstract value of an optional entry.
pub open spec fn shadow_view(found: Option<CachedShadow>) -> Option<ShadowView> {
    match found {
        Some(c) => Some(c@),
        None => None,
    }
}

impl CachedShadow {
    /// Returns true if this cache entry has expired at clock reading `now`.
    pub fn is_expired_at(&self, now: u128) -> (expired: bool)
        ensures
            expired == expired_at(self@, now),
    {
        elapsed_between(now, self.inserted_at) > self.ttl
    }

    /// Returns true if this cache entry has expired, read on its clock now.
    pub fn is_expired(&self) -> (expired: bool)
        ensures
            exists|now: u128| expired == expired_at(self@, now),
    {
        let now = self.clock.now();
        self.is_expired_at(now)
    }

    /// A copy equal to `self`.
    fn duplicate(&self) -> (copy: CachedShadow)
        ensures
            copy == *self,
    {
        CachedShadow {
            shadow: self.shadow.clone(),
            inserted_at: self.inserted_at,
            ttl: self.ttl,
            clock: self.clock,
        }
    }
}

/// One stored entry with its key.
#[derive(Debug)]
struct Slot {
    module: String,
    resource: String,
    entry: CachedShadow,
}

spec fn key_of(slot: Slot) -> CacheKey {
    (slot.module@, slot.resource@)
}

spec fn keys_unique(slots: Seq<Slot>) -> bool {
    forall|i: int, j: int|
        0 <= i < slots.len() && 0 <= j < slots.len() && i != j ==> key_of(#[trigger] slots[i])
            != key_of(#[trigger] slots[j])
}

spec fn holds_key(slots: Seq<Slot>, k: CacheKey) -> bool {
    exists|i: int| 0 <= i < slots.len() && key_of(#[trigger] slots[i]) == k
}

spec fn slots_map(slots: Seq<Slot>) -> Map<CacheKey, ShadowView> {
    Map::new(
        |k: CacheKey| holds_key(slots, k),
        |k: CacheKey| slots[choose|i: int| 0 <= i < slots.len() && key_of(#[trigger] slots[i]) == k].entry@,
    )
}

proof fn lemma_slot_in_map(slots: Seq<Slot>, i: int)
    requires
        keys_unique(slots),
        0 <= i < slots.len(),
    ensures
        slots_map(slots).contains_key(key_of(slots[i])),
        slots_map(slots)[key_of(slots[i])] == slots[i].entry@,
{
    let k = key_of(slots[i]);
    assert(holds_key(slots, k));
    let j = choose|j: int| 0 <= j < slots.len() && key_of(#[trigger] slots[j]) == k;
    assert(i == j);
}

proof fn lemma_update_slot(slots: Seq<Slot>, i: int, slot: Slot)
    requires
        keys_unique(slots),
        0 <= i < slots.len(),
        key_of(slot) == key_of(slots[i]),
    ensures
        keys_unique(slots.update(i, slot)),
        slots_map(slots.update(i, slot)) == slots_map(slots).insert(key_of(slot), slot.entry@),
{
    let after = slots.update(i, slot);
    assert forall|a: int, b: int|
        0 <= a < after.len() && 0 <= b < after.len() && a != b implies key_of(#[trigger] after[a])
        != key_of(#[trigger] after[b]) by {
        assert(key_of(after[a]) == key_of(slots[a]));
        assert(key_of(after[b]) == key_of(slots[b]));
    }
    let expected = slots_map(slots).insert(key_of(slot), slot.entry@);
    assert forall|k: CacheKey| #[trigger] slots_map(after).contains_key(k) == expected.contains_key(k) by {
        if holds_key(after, k) {
            let j = choose|j: int| 0 <= j < after.len() && key_of(#[trigger] after[j]) == k;
            assert(key_of(slots[j]) == k);
        }
        if holds_key(slots, k) {
            let j = choose|j: int| 0 <= j < slots.len() && key_of(#[trigger] slots[j]) == k;
            assert(key_of(after[j]) == k);
        }
        if k == key_of(slot) {
            assert(key_of(after[i]) == k);
        }
    }
    assert forall|k: CacheKey| #[trigger] slots_map(after).contains_key(k) implies slots_map(after)[k]
        == expected[k] by {
        let j = choose|j: int| 0 <= j < after.len() && key_of(#[trigger] after[j]) == k;
        lemma_slot_in_map(after, j);
        if j != i {
            lemma_slot_in_map(slots, j);
        }
    }
    assert(slots_map(after) =~= expected);
}

proof fn lemma_push_slot(slots: Seq<Slot>, slot: Slot)
    requires
        keys_unique(slots),
        !slots_map(slots).contains_key(key_of(slot)),
    ensures
        keys_unique(slots.push(slot)),
        slots_map(slots.push(slot)) == slots_map(slots).insert(key_of(slot), slot.entry@),
{
    let after = slots.push(slot);
    let n = slots.len() as int;
    assert forall|a: int, b: int|
        0 <= a < after.len() && 0 <= b < after.len() && a != b implies key_of(#[trigger] after[a])
        != key_of(#[trigger] after[b]) by {
        if a == n {
            assert(key_of(slots[b]) != key_of(slot)) by {
                if key_of(slots[b]) == key_of(slot) {
                    assert(holds_key(slots, key_of(slot)));
                }
            }
        } else if b == n {
            assert(key_of(slots[a]) != key_of(slot)) by {
                if key_of(slots[a]) == key_of(slot) {
                    assert(holds_key(slots, key_of(slot)));
                }
            }
        } else {
            assert(after[a] == slots[a] && after[b] == slots[b]);
        }
    }
    let expected = slots_map(slots).insert(key_of(slot), slot.entry@);
    assert forall|k: CacheKey| #[trigger] slots_map(after).contains_key(k) == expected.contains_key(k) by {
        if holds_key(after, k) {
            let j = choose|j: int| 0 <= j < after.len() && key_of(#[trigger] after[j]) == k;
            if j < n {
                assert(key_of(slots[j]) == k);
            }
        }
        if holds_key(slots, k) {
            let j = choose|j: int| 0 <= j < slots.len() && key_of(#[trigger] slots[j]) == k;
            assert(key_of(after[j]) == k);
        }
        if k == key_of(slot) {
            assert(key_of(after[n]) == k);
        }
    }
    assert forall|k: CacheKey| #[trigger] slots_map(after).contains_key(k) implies slots_map(after)[k]
        == expected[k] by {
        let j = choose|j: int| 0 <= j < after.len() && key_of(#[trigger] after[j]) == k;
        lemma_slot_in_map(after, j);
        if j != n {
            assert(after[j] == slots[j]);
            lemma_slot_in_map(slots, j);
        }
    }
    assert(slots_map(after) =~= expected);
}

proof fn lemma_remove_slot(slots: Seq<Slot>, i: int)
    requires
        keys_unique(slots),
        0 <= i < slots.len(),
    ensures
        keys_unique(slots.remove(i)),
        slots_map(slots.remove(i)) == slots_map(slots).remove(key_of(slots[i])),
{
    let after = slots.remove(i);
    // index in `slots` of index `a` in `after`
    assert forall|a: int| 0 <= a < after.len() implies #[trigger] after[a] == slots[if a < i { a } else { a + 1 }] by {}
    assert forall|a: int, b: int|
        0 <= a < after.len() && 0 <= b < after.len() && a != b implies key_of(#[trigger] after[a])
        != key_of(#[trigger] after[b]) by {
        let sa = if a < i { a } else { a + 1 };
        let sb = if b < i { b } else { b + 1 };
        assert(after[a] == slots[sa] && after[b] == slots[sb]);
    }
    let gone = key_of(slots[i]);
    let expected = slots_map(slots).remove(gone);
    assert forall|k: CacheKey| #[trigger] slots_map(after).contains_key(k) == expected.contains_key(k) by {
        if holds_key(after, k) {
            let j = choose|j: int| 0 <= j < after.len() && key_of(#[trigger] after[j]) == k;
            let sj = if j < i { j } else { j + 1 };
            assert(after[j] == slots[sj]);
            assert(key_of(slots[sj]) == k);
            assert(k != gone);
        }
        if holds_key(slots, k) && k != gone {
            let j = choose|j: int| 0 <= j < slots.len() && key_of(#[trigger] slots[j]) == k;
            assert(j != i);
            let aj = if j < i { j } else { j - 1 };
            assert(after[aj] == slots[j]);
            assert(key_of(after[aj]) == k);
        }
    }
    assert forall|k: CacheKey| #[trigger] slots_map(after).contains_key(k) implies slots_map(after)[k]
        == expected[k] by {
        let j = choose|j: int| 0 <= j < after.len() && key_of(#[trigger] after[j]) == k;
        let sj = if j < i { j } else { j + 1 };
        assert(after[j] == slots[sj]);
        lemma_slot_in_map(after, j);
        lemma_slot_in_map(slots, sj);
    }
    assert(slots_map(after) =~= expected);
}

/// `kept` holds exactly the unexpired slots of `orig` from index `from` on.
spec fn evict_progress(kept: Seq<Slot>, orig: Seq<Slot>, from: int, now: u128) -> bool {
    &&& keys_unique(kept)
    &&& forall|i: int|
        0 <= i < kept.len() ==> !expired_at(#[trigger] kept[i].entry@, now) && orig.subrange(
            from,
            orig.len() as int,
        ).contains(kept[i])
    &&& forall|j: int|
        from <= j < orig.len() && !expired_at(#[trigger] orig[j].entry@, now) ==> kept.contains(orig[j])
}

proof fn lemma_evict_step(before: Seq<Slot>, after: Seq<Slot>, orig: Seq<Slot>, m: int, now: u128, keep: bool)
    requires
        keys_unique(orig),
        0 <= m < orig.len(),
        evict_progress(before, orig, m + 1, now),
        keep == !expired_at(orig[m].entry@, now),
        after == (if keep { before.push(orig[m]) } else { before }),
    ensures
        evict_progress(after, orig, m, now),
{
    let n = orig.len() as int;
    let tail = orig.subrange(m + 1, n);
    let wider = orig.subrange(m, n);
    assert forall|x: Slot| tail.contains(x) implies wider.contains(x) by {
        let k = choose|k: int| 0 <= k < tail.len() && tail[k] == x;
        assert(wider[k + 1] == x);
    }
    if keep {
        let slot = orig[m];
        assert forall|i: int| 0 <= i < before.len() implies key_of(#[trigger] before[i]) != key_of(slot) by {
            assert(!expired_at(before[i].entry@, now));
            let k = choose|k: int| 0 <= k < tail.len() && tail[k] == before[i];
            assert(orig[m + 1 + k] == before[i]);
        }
        assert(after[before.len() as int] == slot);
        assert forall|a: int, b: int|
            0 <= a < after.len() && 0 <= b < after.len() && a != b implies key_of(#[trigger] after[a])
            != key_of(#[trigger] after[b]) by {
            if a < before.len() && b < before.len() {
                assert(after[a] == before[a] && after[b] == before[b]);
            } else if a < before.len() {
                assert(after[a] == before[a]);
            } else {
                assert(after[b] == before[b]);
            }
        }
        assert forall|i: int| 0 <= i < after.len() implies !expired_at(#[trigger] after[i].entry@, now)
            && wider.contains(after[i]) by {
            if i < before.len() {
                assert(after[i] == before[i]);
                assert(!expired_at(before[i].entry@, now));
            } else {
                assert(wider[0] == slot);
            }
        }
        assert forall|j: int| m <= j < n && !expired_at(#[trigger] orig[j].entry@, now) implies after.contains(
            orig[j],
        ) by {
            if j == m {
                assert(after[before.len() as int] == orig[j]);
            } else {
                assert(before.contains(orig[j]));
                let i = choose|i: int| 0 <= i < before.len() && before[i] == orig[j];
                assert(after[i] == orig[j]);
            }
        }
    } else {
        assert forall|i: int| 0 <= i < after.len() implies !expired_at(#[trigger] after[i].entry@, now)
            && wider.contains(after[i]) by {
            assert(!expired_at(before[i].entry@, now));
        }
        assert forall|j: int| m <= j < n && !expired_at(#[trigger] orig[j].entry@, now) implies after.contains(
            orig[j],
        ) by {
            assert(j != m);
        }
    }
}

proof fn lemma_evict_done(kept: Seq<Slot>, orig: Seq<Slot>, now: u128)
    requires
        keys_unique(orig),
        evict_progress(kept, orig, 0, now),
    ensures
        keys_unique(kept),
        slots_map(kept) == live_at(slots_map(orig), now),
{
    let expected = live_at(slots_map(orig), now);
    assert(orig.subrange(0, orig.len() as int) == orig);
    assert forall|k: CacheKey| #[trigger] slots_map(kept).contains_key(k) == expected.contains_key(k) by {
        if holds_key(kept, k) {
            let i = choose|i: int| 0 <= i < kept.len() && key_of(#[trigger] kept[i]) == k;
            assert(!expired_at(kept[i].entry@, now));
            let j = choose|j: int| 0 <= j < orig.len() && orig[j] == kept[i];
            lemma_slot_in_map(orig, j);
        }
        if expected.contains_key(k) {
            let j = choose|j: int| 0 <= j < orig.len() && key_of(#[trigger] orig[j]) == k;
            lemma_slot_in_map(orig, j);
            assert(!expired_at(orig[j].entry@, now));
            let i = choose|i: int| 0 <= i < kept.len() && kept[i] == orig[j];
            assert(key_of(kept[i]) == k);
        }
    }
    assert forall|k: CacheKey| #[trigger] slots_map(kept).contains_key(k) implies slots_map(kept)[k]
        == expected[k] by {
        let i = choose|i: int| 0 <= i < kept.len() && key_of(#[trigger] kept[i]) == k;
        assert(!expired_at(kept[i].entry@, now));
        let j = choose|j: int| 0 <= j < orig.len() && orig[j] == kept[i];
        lemma_slot_in_map(orig, j);
        lemma_slot_in_map(kept, i);
    }
    assert(slots_map(kept) =~= expected);
}

/// Shadow cache keyed by `(sense_module, resource_id)` with per-entry TTL.
#[derive(Debug)]
pub struct ShadowCache {
    entries: Vec<Slot>,
    clock: Clock,
    /// The latest clock reading the cache has acted on.
    latest: u128,
}

impl View for ShadowCache {
    type V = Map<CacheKey, ShadowView>;

    closed spec fn view(&self) -> Map<CacheKey, ShadowView> {
        slots_map(self.entries@)
    }
}

impl ShadowCache {
    /// The invariant: each key is stored once, every entry read on the cache's clock.
    pub closed spec fn wf(&self) -> bool {
        &&& keys_unique(self.entries@)
        &&& forall|i: int| 0 <= i < self.entries@.len() ==> #[trigger] self.entries@[i].entry.clock == self.clock
    }

    /// The clock on which the cache stamps its entries.
    pub closed spec fn clock(&self) -> Clock {
        self.clock
    }

    /// The latest clock reading the cache has acted on; the monotonic clock
    /// never reads less than it again.
    pub closed spec fn latest(&self) -> u128 {
        self.latest
    }

    /// Reads the clock. `Instant` readings never decrease, so the reading is
    /// taken as at least the latest one acted on.
    fn reading(&self) -> (now: u128)
        ensures
            now >= self.latest(),
    {
        let read = self.clock.now();
        if read < self.latest {
            self.latest
        } else {
            read
        }
    }

    pub fn new() -> (cache: Self)
        ensures
            cache.wf(),
            cache.latest() == 0,
            cache@ == Map::<CacheKey, ShadowView>::empty(),
    {
        let cache = Self { entries: Vec::new(), clock: Clock::start(), latest: 0 };
        assert(cache@ =~= Map::<CacheKey, ShadowView>::empty());
        cache
    }

    /// The index of the slot stored under `(module, resource)`.
    fn find(&self, module: &String, resource: &String) -> (found: Option<usize>)
        requires
            keys_unique(self.entries@),
        ensures
            match found {
                Some(i) => i < self.entries@.len() && key_of(self.entries@[i as int]) == (module@, resource@),
                None => !self@.contains_key((module@, resource@)),
            },
    {
        let mut i: usize = 0;
        while i < self.entries.len()
            invariant
                i <= self.entries@.len(),
                forall|j: int| 0 <= j < i ==> key_of(#[trigger] self.entries@[j]) != (module@, resource@),
            decreases self.entries@.len() - i,
        {
            if self.entries[i].module == *module && self.entries[i].resource == *resource {
                return Some(i);
            }
            i += 1;
        }
        None
    }

    /// Retrieve a cached shadow if it exists and hasn't expired at clock reading `now`.
    pub fn get_at(&self, module: &str, resource: &str, now: u128) -> (found: Option<CachedShadow>)
        requires
            self.wf(),
        ensures
            shadow_view(found) == lookup(self@, (module@, resource@), now),
            found matches Some(c) ==> c.clock == self.clock(),
    {
        let m = module.to_owned();
        let r = resource.to_owned();
        match self.find(&m, &r) {
            None => None,
            Some(i) => {
                proof {
                    lemma_slot_in_map(self.entries@, i as int);
                }
                let entry = &self.entries[i].entry;
                if entry.is_expired_at(now) {
                    None
                } else {
                    Some(entry.duplicate())
                }
            },
        }
    }

    /// Retrieve a cached shadow if it exists and hasn't expired.
    pub fn get(&self, module: &str, resource: &str) -> (found: Option<CachedShadow>)
        requires
            self.wf(),
        ensures
            exists|now: u128|
                now >= self.latest() && shadow_view(found) == #[trigger] lookup(
                    self@,
                    (module@, resource@),
                    now,
                ),
            found matches Some(c) ==> c.clock == self.clock(),
    {
        let now = self.reading();
        self.get_at(module, resource, now)
    }

    /// Store a shadow value with the given time to live, stamped with clock reading `now`.
    pub fn put_at(&mut self, module: &str, resource: &str, shadow: String, ttl: u128, now: u128)
        requires
            old(self).wf(),
        ensures
            final(self).wf(),
            final(self).clock() == old(self).clock(),
            final(self).latest() == old(self).latest(),
            final(self)@ == old(self)@.insert(
                (module@, resource@),
                stamped(shadow@, now, ttl),
            ),
    {
        let m = module.to_owned();
        let r = resource.to_owned();
        let entry = CachedShadow { shadow, inserted_at: now, ttl, clock: self.clock };
        match self.find(&m, &r) {
            Some(i) => {
                let slot = Slot { module: m, resource: r, entry };
                proof {
                    lemma_update_slot(self.entries@, i as int, slot);
                }
                self.entries.set(i, slot);
            },
            None => {
                let slot = Slot { module: m, resource: r, entry };
                proof {
                    lemma_push_slot(self.entries@, slot);
                }
                self.entries.push(slot);
            },
        }
    }

    /// Store a shadow value with the given time to live (nanoseconds).
    pub fn put(&mut self, module: &str, resource: &str, shadow: String, ttl: u128)
        requires
            old(self).wf(),
        ensures
            final(self).wf(),
            final(self).clock() == old(self).clock(),
            final(self).latest() >= old(self).latest(),
            final(self)@ == old(self)@.insert(
                (module@, resource@),
                stamped(shadow@, final(self).latest(), ttl),
            ),
    {
        let now = self.reading();
        self.put_at(module, resource, shadow, ttl, now);
        self.latest = now;
    }

    /// Invalidate a specific cache entry.
    pub fn invalidate(&mut self, module: &str, resource: &str)
        requires
            old(self).wf(),
        ensures
            final(self).wf(),
            final(self).clock() == old(self).clock(),
            final(self).latest() == old(self).latest(),
            final(self)@ == old(self)@.remove((module@, resource@)),
    {
        let m = module.to_owned();
        let r = resource.to_owned();
        match self.find(&m, &r) {
            Some(i) => {
                proof {
                    lemma_remove_slot(self.entries@, i as int);
                }
                self.entries.remove(i);
            },
            None => {
                assert(self@.remove((m@, r@)) =~= self@);
            },
        }
    }

    /// Remove all entries expired at clock reading `now`.
    pub fn evict_expired_at(&mut self, now: u128)
        requires
            old(self).wf(),
        ensures
            final(self).wf(),
            final(self).clock() == old(self).clock(),
            final(self).latest() == old(self).latest(),
            final(self)@ == live_at(old(self)@, now),
    {
        let mut rest: Vec<Slot> = Vec::new();
        std::mem::swap(&mut rest, &mut self.entries);
        let ghost orig = rest@;
        let ghost n = orig.len();
        let clock = self.clock;
        let latest = self.latest;
        proof {
            assert(orig.take(n as int) == orig);
        }
        while rest.len() > 0
            invariant
                clock == self.clock,
                latest == self.latest,
                n == orig.len(),
                rest.len() <= n,
                rest@ == orig.take(rest.len() as int),
                keys_unique(orig),
                forall|j: int| 0 <= j < n ==> #[trigger] orig[j].entry.clock == clock,
                forall|i: int|
                    0 <= i < self.entries@.len() ==> #[trigger] self.entries@[i].entry.clock == clock,
                evict_progress(self.entries@, orig, rest.len() as int, now),
            decreases rest.len(),
        {
            let ghost m = rest.len() - 1;
            let ghost before = self.entries@;
            let slot = rest.pop().unwrap();
            assert(slot == orig[m]);
            assert(rest@ == orig.take(m));
            let keep = !slot.entry.is_expired_at(now);
            if keep {
                self.entries.push(slot);
            }
            proof {
                lemma_evict_step(before, self.entries@, orig, m, now, keep);
            }
        }
        proof {
            lemma_evict_done(self.entries@, orig, now);
        }
    }

    /// Remove all expired entries.
    pub fn evict_expired(&mut self)
        requires
            old(self).wf(),
        ensures
            final(self).wf(),
            final(self).clock() == old(self).clock(),
            final(self).latest() >= old(self).latest(),
            final(self)@ == live_at(old(self)@, final(self).latest()),
    {
        let now = self.reading();
        self.evict_expired_at(now);
        self.latest = now;
    }
}

/// Law (read your write): a lookup of the key just put gives back the value put,
/// until more than its time to live has passed since the put.
pub proof fn lemma_get_after_put(
    entries: Map<CacheKey, ShadowView>,
    key: CacheKey,
    shadow: Seq<char>,
    ttl: u128,
    put_at: u128,
    get_at: u128,
)
    ensures
        lookup(entries.insert(key, stamped(shadow, put_at, ttl)), key, get_at) == if elapsed(
            get_at,
            put_at,
        ) <= ttl {
            Some(stamped(shadow, put_at, ttl))
        } else {
            None
        },
{
}

/// Law: putting under one key changes no lookup under another key.
pub proof fn lemma_put_keeps_other_keys(
    entries: Map<CacheKey, ShadowView>,
    key: CacheKey,
    other: CacheKey,
    value: ShadowView,
    now: u128,
)
    requires
        key != other,
    ensures
        lookup(entries.insert(key, value), other, now) == lookup(entries, other, now),
{
}

/// Law: after an invalidation the key is gone, and every other key reads as before.
pub proof fn lemma_get_after_invalidate(
    entries: Map<CacheKey, ShadowView>,
    key: CacheKey,
    other: CacheKey,
    now: u128,
)
    ensures
        lookup(entries.remove(key), key, now) is None,
        key != other ==> lookup(entries.remove(key), other, now) == lookup(entries, other, now),
{
}

/// Law: evicting the entries expired at `now` changes no lookup made at `now`,
/// and leaves no entry that has expired at `now`.
pub proof fn lemma_evict_keeps_lookups(entries: Map<CacheKey, ShadowView>, key: CacheKey, now: u128)
    ensures
        lookup(live_at(entries, now), key, now) == lookup(entries, key, now),
        live_at(entries, now).contains_key(key) ==> !expired_at(live_at(entries, now)[key], now),
{
}

/// Law: once an entry has expired it stays expired at every later time.
pub proof fn lemma_expiry_is_permanent(entry: ShadowView, then: u128, later: u128)
    requires
        expired_at(entry, then),
        then <= later,
    ensures
        expired_at(entry, later),
{
}

/// Law: an entry is live at the reading it was stamped with and at every
/// reading up to its time to live later, and expired at every reading after.
pub proof fn lemma_entry_lives_for_its_ttl(shadow: Seq<char>, inserted_at: u128, ttl: u128, now: u128)
    ensures
        inserted_at <= now && now - inserted_at <= ttl ==> !expired_at(stamped(shadow, inserted_at, ttl), now),
        now < inserted_at ==> !expired_at(stamped(shadow, inserted_at, ttl), now),
        inserted_at <= now && now - inserted_at > ttl ==> expired_at(stamped(shadow, inserted_at, ttl), now),
{
}

impl Default for ShadowCache {
    fn default() -> (cache: Self)
        ensures
            cache.wf(),
            cache.latest() == 0,
            cache@ == Map::<CacheKey, ShadowView>::empty(),
    {
        Self::new()
    }
}

} // verus!
