//! Geolocation cache policy: time-to-live and capacity-bounded cache with
//! least-recently-accessed eviction, batch selection, and failure backoff.
use vstd::prelude::*;
use vstd::arithmetic::power2::*;
use crate::address::{chars_of, is_private_ip, is_private_spec};
use crate::scan::{string_of, string_views, trim, trim_chars, words, words_in};
use vstd::string::*;
use crate::vecs::reversed;

verus! {

/// Lifetime of a cached lookup, in milliseconds (thirty minutes).
pub const GEO_CACHE_TTL_MS: u64 = 1_800_000;
/// Largest number of entries kept after pruning.
pub const GEO_CACHE_MAX_SIZE: usize = 5000;
/// Largest number of addresses submitted in one batch.
pub const GEO_BATCH_LIMIT: usize = 100;
/// Shortest backoff after a failed batch, in seconds.
pub const GEO_BACKOFF_MIN_SECS: u64 = 3;
/// Longest backoff after failed batches, in seconds.
pub const GEO_BACKOFF_MAX_SECS: u64 = 30;

// ---------------------------------------------------------------- backoff

/// Backoff after `failures` consecutive failed batches:
/// `min(MAX, MIN * 2^(failures - 1))` seconds.
pub open spec fn backoff_delay_spec(failures: nat) -> nat
    recommends
        failures >= 1,
{
    let d = GEO_BACKOFF_MIN_SECS as nat * pow2((failures - 1) as nat);
    if d < GEO_BACKOFF_MAX_SECS as nat {
        d
    } else {
        GEO_BACKOFF_MAX_SECS as nat
    }
}

/// Seconds to wait before the next batch after `failures` consecutive failures.
pub fn backoff_delay_secs(failures: u32) -> (r: u64)
    requires
        failures >= 1,
    ensures
        r == backoff_delay_spec(failures as nat),
{
    let e: u32 = if failures - 1 < 4 {
        failures - 1
    } else {
        4
    };
    proof {
        lemma2_to64();
        if failures - 1 > 4 {
            lemma_pow2_strictly_increases(4, (failures - 1) as nat);
        }
    }
    let p: u64 = 1u64 << e;
    proof {
        assert(p == pow2(e as nat)) by {
            assert(e <= 4);
            assert((1u64 << 0u32) == 1) by (bit_vector);
            assert((1u64 << 1u32) == 2) by (bit_vector);
            assert((1u64 << 2u32) == 4) by (bit_vector);
            assert((1u64 << 3u32) == 8) by (bit_vector);
            assert((1u64 << 4u32) == 16) by (bit_vector);
        }
    }
    let d: u64 = GEO_BACKOFF_MIN_SECS * p;
    if d < GEO_BACKOFF_MAX_SECS {
        d
    } else {
        GEO_BACKOFF_MAX_SECS
    }
}

/// Dispatch state of the single background lookup: whether one is in
/// flight, the run of consecutive failures, and the end of the current
/// backoff window (milliseconds on the loop's monotonic clock).
pub struct GeoScheduler {
    pub in_flight: bool,
    pub failures: u32,
    pub backoff_until: Option<u64>,
}

impl GeoScheduler {
    pub fn new() -> (r: GeoScheduler)
        ensures
            !r.in_flight,
            r.failures == 0,
            r.backoff_until is None,
    {
        GeoScheduler { in_flight: false, failures: 0, backoff_until: None }
    }

    pub open spec fn backoff_active(&self, now: u64) -> bool {
        match self.backoff_until {
            Some(until) => now < until,
            None => false,
        }
    }

    /// Whether a new batch may start at `now`: none is in flight and no
    /// backoff window is open.
    pub fn may_dispatch(&self, now: u64) -> (r: bool)
        ensures
            r == (!self.in_flight && !self.backoff_active(now)),
    {
        let active = match self.backoff_until {
            Some(until) => now < until,
            None => false,
        };
        !self.in_flight && !active
    }

    /// Records that a batch was started.
    pub fn dispatched(&mut self)
        ensures
            final(self).in_flight,
            final(self).failures == old(self).failures,
            final(self).backoff_until == old(self).backoff_until,
    {
        self.in_flight = true;
    }

    /// Records the outcome of the batch in flight, completed at `now`.
    /// Success clears the failure run and the backoff; failure extends the
    /// run and opens a backoff window of `backoff_delay_spec` seconds.
    pub fn completed(&mut self, success: bool, now: u64)
        ensures
            !final(self).in_flight,
            success ==> final(self).failures == 0 && final(self).backoff_until is None,
            !success ==> final(self).failures as int == if old(self).failures == u32::MAX {
                u32::MAX as int
            } else {
                old(self).failures + 1
            },
            !success ==> final(self).backoff_until == Some(
                if now as int + backoff_delay_spec(final(self).failures as nat) * 1000 > u64::MAX {
                    u64::MAX
                } else {
                    (now + backoff_delay_spec(final(self).failures as nat) * 1000) as u64
                },
            ),
    {
        self.in_flight = false;
        if success {
            self.failures = 0;
            self.backoff_until = None;
        } else {
            self.failures = if self.failures == u32::MAX {
                u32::MAX
            } else {
                self.failures + 1
            };
            let delay_ms = backoff_delay_secs(self.failures) * 1000;
            self.backoff_until = Some(now.saturating_add(delay_ms));
        }
    }
}


// ---------------------------------------------------------------- cache

/// A resolved location. Coordinates are in hundredths of a degree.
pub struct GeoInfo {
    pub lat_e2: i32,
    pub lng_e2: i32,
    pub city: String,
    pub country: String,
    pub asn: String,
    pub org: String,
}

impl GeoInfo {
    /// A field-for-field copy.
    pub fn duplicate(&self) -> (r: GeoInfo)
        ensures
            r == *self,
    {
        GeoInfo {
            lat_e2: self.lat_e2,
            lng_e2: self.lng_e2,
            city: self.city.clone(),
            country: self.country.clone(),
            asn: self.asn.clone(),
            org: self.org.clone(),
        }
    }
}

pub fn duplicate_outcome(v: &Option<GeoInfo>) -> (r: Option<GeoInfo>)
    ensures
        r == *v,
{
    match v {
        Some(g) => Some(g.duplicate()),
        None => None,
    }
}

/// One cached lookup. `value` is `None` for an address the service could not
/// resolve. Times are milliseconds on the loop's monotonic clock.
pub struct GeoCacheEntry {
    pub ip: String,
    pub value: Option<GeoInfo>,
    pub expires_at: u64,
    pub last_access: u64,
}

/// Index of the entry for `ip`, or -1.
pub open spec fn index_of(entries: Seq<GeoCacheEntry>, ip: Seq<char>) -> int
    decreases entries.len(),
{
    if entries.len() == 0 {
        -1
    } else if entries.last().ip@ == ip {
        entries.len() - 1
    } else {
        index_of(entries.drop_last(), ip)
    }
}

pub open spec fn unique_ips(entries: Seq<GeoCacheEntry>) -> bool {
    forall|i: int, j: int|
        0 <= i < entries.len() && 0 <= j < entries.len() && i != j ==> entries[i].ip@
            != entries[j].ip@
}

/// Whether `e` is still valid at `now`.
pub open spec fn is_fresh(e: GeoCacheEntry, now: u64) -> bool {
    now < e.expires_at
}

/// Cache of geolocation outcomes keyed by address, at most one entry each.
pub struct GeoCache {
    pub entries: Vec<GeoCacheEntry>,
}

proof fn lemma_index_of(entries: Seq<GeoCacheEntry>, ip: Seq<char>)
    ensures
        -1 <= index_of(entries, ip) < entries.len(),
        index_of(entries, ip) >= 0 ==> entries[index_of(entries, ip)].ip@ == ip,
        index_of(entries, ip) == -1 ==> forall|k: int|
            0 <= k < entries.len() ==> #[trigger] entries[k].ip@ != ip,
    decreases entries.len(),
{
    if entries.len() > 0 {
        lemma_index_of(entries.drop_last(), ip);
        if index_of(entries, ip) == -1 {
            assert forall|k: int| 0 <= k < entries.len() implies #[trigger] entries[k].ip@ != ip by {
                if k < entries.len() - 1 {
                    assert(entries.drop_last()[k] == entries[k]);
                }
            }
        }
    }
}

proof fn lemma_index_of_unique(entries: Seq<GeoCacheEntry>, ip: Seq<char>, k: int)
    requires
        0 <= k < entries.len(),
        entries[k].ip@ == ip,
        unique_ips(entries),
    ensures
        index_of(entries, ip) == k,
    decreases entries.len(),
{
    if k < entries.len() - 1 {
        lemma_index_of_unique(entries.drop_last(), ip, k);
    }
}

impl GeoCache {
    pub open spec fn wf(&self) -> bool {
        unique_ips(self.entries@)
    }

    /// The outcome the cache holds for `ip` at `now`, if a fresh entry exists.
    pub open spec fn fresh_lookup(&self, ip: Seq<char>, now: u64) -> Option<Option<GeoInfo>> {
        let k = index_of(self.entries@, ip);
        if k >= 0 && is_fresh(self.entries@[k], now) {
            Some(self.entries@[k].value)
        } else {
            None
        }
    }

    pub fn new() -> (r: GeoCache)
        ensures
            r.wf(),
            r.entries@.len() == 0,
    {
        GeoCache { entries: Vec::new() }
    }

    pub fn len(&self) -> (r: usize)
        ensures
            r == self.entries@.len(),
    {
        self.entries.len()
    }

    fn find(&self, ip: &String) -> (r: Option<usize>)
        ensures
            match r {
                Some(k) => k as int == index_of(self.entries@, ip@),
                None => index_of(self.entries@, ip@) == -1,
            },
    {
        proof {
            lemma_index_of(self.entries@, ip@);
        }
        let mut k = self.entries.len();
        while k > 0
            invariant
                k <= self.entries@.len(),
                forall|j: int| k <= j < self.entries@.len() ==> #[trigger] self.entries@[j].ip@ != ip@,
            decreases k,
        {
            if self.entries[k - 1].ip == *ip {
                proof {
                    lemma_index_of_prefix(self.entries@, ip@, k as int);
                }
                return Some(k - 1);
            }
            k = k - 1;
        }
        proof {
            lemma_index_of_prefix(self.entries@, ip@, 0);
        }
        None
    }

    /// The outcome held for `ip` at `now`, if fresh, leaving the cache as is.
    pub fn lookup(&self, ip: &String, now: u64) -> (r: Option<Option<GeoInfo>>)
        ensures
            r == self.fresh_lookup(ip@, now),
    {
        proof {
            lemma_index_of(self.entries@, ip@);
        }
        match self.find(ip) {
            Some(k) => {
                if now < self.entries[k].expires_at {
                    Some(duplicate_outcome(&self.entries[k].value))
                } else {
                    None
                }
            },
            None => None,
        }
    }

    /// Looks `ip` up at `now`. An expired entry is removed and reported as a
    /// miss; a fresh one has its access time set to `now` and its outcome
    /// returned.
    pub fn get(&mut self, ip: &String, now: u64) -> (r: Option<Option<GeoInfo>>)
        requires
            old(self).wf(),
        ensures
            final(self).wf(),
            r == old(self).fresh_lookup(ip@, now),
            final(self).entries@ == after_get(old(self).entries@, ip@, now),
    {
        proof {
            lemma_index_of(self.entries@, ip@);
        }
        match self.find(ip) {
            None => None,
            Some(k) => {
                let ghost before = self.entries@;
                if self.entries[k].expires_at <= now {
                    self.entries.remove(k);
                    proof {
                        assert forall|i: int, j: int|
                            0 <= i < self.entries@.len() && 0 <= j < self.entries@.len() && i
                                != j implies self.entries@[i].ip@ != self.entries@[j].ip@ by {
                            let oi = if i < k { i } else { i + 1 };
                            let oj = if j < k { j } else { j + 1 };
                            assert(self.entries@[i] == before[oi]);
                            assert(self.entries@[j] == before[oj]);
                        }
                    }
                    None
                } else {
                    let v = duplicate_outcome(&self.entries[k].value);
                    let mut e = self.entries.remove(k);
                    e.last_access = now;
                    self.entries.insert(k, e);
                    proof {
                        assert(self.entries@ =~= before.update(k as int, touched(before[k as int], now)));
                    }
                    Some(v)
                }
            },
        }
    }
}

/// The entries after looking `ip` up at `now`: an expired entry for it is
/// dropped, a fresh one is touched, nothing else changes.
pub open spec fn after_get(entries: Seq<GeoCacheEntry>, ip: Seq<char>, now: u64) -> Seq<GeoCacheEntry> {
    let k = index_of(entries, ip);
    if k < 0 {
        entries
    } else if !is_fresh(entries[k], now) {
        entries.remove(k)
    } else {
        entries.update(k, touched(entries[k], now))
    }
}

/// `e` with its access time set to `now`.
pub open spec fn touched(e: GeoCacheEntry, now: u64) -> GeoCacheEntry {
    GeoCacheEntry { last_access: now, ..e }
}

proof fn lemma_index_of_prefix(entries: Seq<GeoCacheEntry>, ip: Seq<char>, k: int)
    requires
        0 <= k <= entries.len(),
        forall|j: int| k <= j < entries.len() ==> #[trigger] entries[j].ip@ != ip,
    ensures
        k > 0 && entries[k - 1].ip@ == ip ==> index_of(entries, ip) == k - 1,
        k == 0 ==> index_of(entries, ip) == -1,
    decreases entries.len(),
{
    if entries.len() > k {
        lemma_index_of_prefix(entries.drop_last(), ip, k);
    } else if k == 0 {
        lemma_index_of(entries, ip);
    }
}


// ---------------------------------------------------------------- pruning

/// Number of `false` (kept) positions of a removal mask.
pub open spec fn kept_count(m: Seq<bool>) -> nat
    decreases m.len(),
{
    if m.len() == 0 {
        0
    } else {
        kept_count(m.drop_last()) + if m.last() {
            0nat
        } else {
            1nat
        }
    }
}

/// The entries of `s` whose mask position is `false`, in order.
pub open spec fn select(s: Seq<GeoCacheEntry>, m: Seq<bool>) -> Seq<GeoCacheEntry>
    decreases s.len(),
{
    if s.len() == 0 || m.len() != s.len() {
        Seq::empty()
    } else {
        let rest = select(s.drop_last(), m.drop_last());
        if m.last() {
            rest
        } else {
            rest.push(s.last())
        }
    }
}

/// Number of entries of `s` fresh at `now`.
pub open spec fn fresh_count(s: Seq<GeoCacheEntry>, now: u64) -> nat
    decreases s.len(),
{
    if s.len() == 0 {
        0
    } else {
        fresh_count(s.drop_last(), now) + if is_fresh(s.last(), now) {
            1nat
        } else {
            0nat
        }
    }
}

/// A removal mask that prunes `s` at `now`: every expired entry goes, then,
/// among the fresh ones, only the overflow beyond the capacity goes, and no
/// removed fresh entry was accessed later than any kept entry.
pub open spec fn prune_mask(s: Seq<GeoCacheEntry>, m: Seq<bool>, now: u64) -> bool {
    &&& m.len() == s.len()
    &&& forall|i: int| 0 <= i < s.len() && !is_fresh(s[i], now) ==> #[trigger] m[i]
    &&& kept_count(m) == if fresh_count(s, now) <= GEO_CACHE_MAX_SIZE {
        fresh_count(s, now)
    } else {
        GEO_CACHE_MAX_SIZE as nat
    }
    &&& forall|i: int, j: int|
        0 <= i < s.len() && 0 <= j < s.len() && is_fresh(s[i], now) && m[i] && !m[j]
            ==> s[i].last_access <= s[j].last_access
}

proof fn lemma_kept_count_update(m: Seq<bool>, i: int)
    requires
        0 <= i < m.len(),
        !m[i],
    ensures
        kept_count(m.update(i, true)) + 1 == kept_count(m),
    decreases m.len(),
{
    let u = m.update(i, true);
    if i < m.len() - 1 {
        assert(u.drop_last() =~= m.drop_last().update(i, true));
        lemma_kept_count_update(m.drop_last(), i);
    } else {
        assert(u.drop_last() =~= m.drop_last());
    }
}

proof fn lemma_kept_exists(m: Seq<bool>)
    requires
        kept_count(m) > 0,
    ensures
        exists|i: int| 0 <= i < m.len() && !m[i],
    decreases m.len(),
{
    if m.last() {
        lemma_kept_exists(m.drop_last());
        let i = choose|i: int| 0 <= i < m.drop_last().len() && !m.drop_last()[i];
        assert(!m[i]);
    } else {
        assert(!m[m.len() - 1]);
    }
}

proof fn lemma_select_props(s: Seq<GeoCacheEntry>, m: Seq<bool>)
    requires
        m.len() == s.len(),
    ensures
        select(s, m).len() == kept_count(m),
        forall|k: int|
            0 <= k < select(s, m).len() ==> exists|j: int|
                0 <= j < s.len() && !m[j] && #[trigger] select(s, m)[k] == s[j],
        unique_ips(s) ==> unique_ips(select(s, m)),
    decreases s.len(),
{
    if s.len() > 0 {
        let rest = select(s.drop_last(), m.drop_last());
        lemma_select_props(s.drop_last(), m.drop_last());
        let out = select(s, m);
        assert forall|k: int| 0 <= k < out.len() implies exists|j: int|
            0 <= j < s.len() && !m[j] && #[trigger] out[k] == s[j] by {
            if k < rest.len() {
                assert(out[k] == rest[k]);
                let j = choose|j: int|
                    0 <= j < s.drop_last().len() && !m.drop_last()[j] && #[trigger] rest[k]
                        == s.drop_last()[j];
                assert(out[k] == s[j]);
            } else {
                assert(out[k] == s[s.len() - 1]);
            }
        }
        if unique_ips(s) {
            assert(unique_ips(s.drop_last()));
            if !m.last() {
                assert forall|i: int, j: int|
                    0 <= i < out.len() && 0 <= j < out.len() && i != j implies out[i].ip@
                    != out[j].ip@ by {
                    if i < rest.len() && j < rest.len() {
                        assert(out[i] == rest[i] && out[j] == rest[j]);
                    } else if i < rest.len() {
                        assert(out[i] == rest[i]);
                        let a = choose|a: int|
                            0 <= a < s.drop_last().len() && !m.drop_last()[a] && #[trigger] rest[i]
                                == s.drop_last()[a];
                        assert(out[i] == s[a]);
                    } else {
                        assert(out[j] == rest[j]);
                        let a = choose|a: int|
                            0 <= a < s.drop_last().len() && !m.drop_last()[a] && #[trigger] rest[j]
                                == s.drop_last()[a];
                        assert(out[j] == s[a]);
                    }
                }
            }
        }
    }
}

/// Removal mask for pruning `s` at `now`.
fn prune_plan(s: &Vec<GeoCacheEntry>, now: u64) -> (m: Vec<bool>)
    ensures
        prune_mask(s@, m@, now),
{
    let n = s.len();
    let mut m: Vec<bool> = Vec::new();
    let mut kept: usize = 0;
    let mut i: usize = 0;
    while i < n
        invariant
            n == s@.len(),
            i <= n,
            m@.len() == i,
            forall|k: int| 0 <= k < i ==> m@[k] == !is_fresh(s@[k], now),
            kept == kept_count(m@),
            kept == fresh_count(s@.take(i as int), now),
            kept <= i,
        decreases n - i,
    {
        let ghost before = m@;
        let gone = s[i].expires_at <= now;
        m.push(gone);
        assert(m@.drop_last() =~= before);
        assert(s@.take(i as int + 1).drop_last() =~= s@.take(i as int));
        if !gone {
            kept = kept + 1;
        }
        i = i + 1;
    }
    assert(s@.take(n as int) =~= s@);
    while kept > GEO_CACHE_MAX_SIZE
        invariant
            n == s@.len(),
            m@.len() == n,
            forall|k: int| 0 <= k < n && !is_fresh(s@[k], now) ==> #[trigger] m@[k],
            kept == kept_count(m@),
            kept == fresh_count(s@, now) || (fresh_count(s@, now) > GEO_CACHE_MAX_SIZE && kept
                >= GEO_CACHE_MAX_SIZE),
            forall|a: int, b: int|
                0 <= a < n && 0 <= b < n && is_fresh(s@[a], now) && m@[a] && !m@[b]
                    ==> s@[a].last_access <= s@[b].last_access,
        decreases kept,
    {
        proof {
            lemma_kept_exists(m@);
        }
        let mut best: usize = 0;
        let mut found = false;
        let mut j: usize = 0;
        while j < n
            invariant
                n == s@.len(),
                m@.len() == n,
                j <= n,
                found ==> best < n && !m@[best as int],
                found ==> forall|b: int|
                    0 <= b < j && !m@[b] ==> s@[best as int].last_access <= s@[b].last_access,
                !found ==> forall|b: int| 0 <= b < j ==> m@[b],
            decreases n - j,
        {
            if !m[j] && (!found || s[j].last_access < s[best].last_access) {
                best = j;
                found = true;
            }
            j = j + 1;
        }
        let ghost before = m@;
        proof {
            lemma_kept_count_update(before, best as int);
        }
        m.set(best, true);
        kept = kept - 1;
        proof {
            assert(m@ == before.update(best as int, true));
            assert forall|a: int, b: int|
                0 <= a < n && 0 <= b < n && is_fresh(s@[a], now) && m@[a] && !m@[b] implies s@[a].last_access
                <= s@[b].last_access by {
                if a != best {
                    assert(before[a] && !before[b]);
                }
            }
        }
    }
    m
}

/// The entries of `s` whose mask position is `false`.
fn select_kept(s: Vec<GeoCacheEntry>, m: &Vec<bool>) -> (r: Vec<GeoCacheEntry>)
    requires
        m@.len() == s@.len(),
    ensures
        r@ == select(s@, m@),
{
    let ghost orig = s@;
    let mut rest = s;
    let mut out_rev: Vec<GeoCacheEntry> = Vec::new();
    let mut i = rest.len();
    assert(orig.take(i as int) =~= orig);
    assert(m@.take(i as int) =~= m@);
    assert(out_rev@.reverse() =~= Seq::<GeoCacheEntry>::empty());
    assert(select(orig, m@) + out_rev@.reverse() =~= select(orig, m@));
    while i > 0
        invariant
            i == rest@.len(),
            rest@ == orig.take(i as int),
            m@.len() == orig.len(),
            i <= orig.len(),
            select(orig, m@) == select(orig.take(i as int), m@.take(i as int)) + out_rev@.reverse(),
        decreases i,
    {
        let e = rest.pop().unwrap();
        let ghost t = orig.take(i as int);
        let ghost mt = m@.take(i as int);
        assert(t.drop_last() =~= orig.take(i as int - 1));
        assert(mt.drop_last() =~= m@.take(i as int - 1));
        let ghost prev_rev = out_rev@;
        if !m[i - 1] {
            out_rev.push(e);
            assert(out_rev@.reverse() =~= seq![t.last()] + prev_rev.reverse());
            assert(select(t, mt) =~= select(t.drop_last(), mt.drop_last()).push(t.last()));
            assert(select(t.drop_last(), mt.drop_last()).push(t.last()) + prev_rev.reverse() =~= select(t.drop_last(), mt.drop_last()) + (seq![t.last()] + prev_rev.reverse()));
        }
        i = i - 1;
    }
    assert(orig.take(0) =~= Seq::<GeoCacheEntry>::empty());
    assert(select(orig.take(0), m@.take(0)) =~= Seq::<GeoCacheEntry>::empty());
    let out = reversed(out_rev);
    assert(orig.take(orig.len() as int) =~= orig);
    out
}


/// Expiry of an entry stored at `now`.
pub open spec fn expiry_after(now: u64) -> u64 {
    if now as int + GEO_CACHE_TTL_MS as int > u64::MAX as int {
        u64::MAX
    } else {
        (now + GEO_CACHE_TTL_MS) as u64
    }
}

/// The entry stored for `ip` when its outcome arrives at `now`.
pub open spec fn new_entry(ip: String, value: Option<GeoInfo>, now: u64) -> GeoCacheEntry {
    GeoCacheEntry { ip, value, expires_at: expiry_after(now), last_access: now }
}

/// `entries` after storing `e`: it replaces the entry for the same address,
/// or is appended.
pub open spec fn with_entry(entries: Seq<GeoCacheEntry>, e: GeoCacheEntry) -> Seq<GeoCacheEntry> {
    let k = index_of(entries, e.ip@);
    if k >= 0 {
        entries.update(k, e)
    } else {
        entries.push(e)
    }
}

impl GeoCache {
    /// Drops every expired entry, then, while over capacity, the entries
    /// accessed longest ago.
    pub fn prune(&mut self, now: u64)
        requires
            old(self).wf(),
        ensures
            final(self).wf(),
            final(self).entries@.len() <= GEO_CACHE_MAX_SIZE,
            final(self).entries@.len() == if fresh_count(old(self).entries@, now) <= GEO_CACHE_MAX_SIZE {
                fresh_count(old(self).entries@, now)
            } else {
                GEO_CACHE_MAX_SIZE as nat
            },
            exists|m: Seq<bool>|
                prune_mask(old(self).entries@, m, now) && final(self).entries@ == select(
                    old(self).entries@,
                    m,
                ),
    {
        let m = prune_plan(&self.entries, now);
        let mut all: Vec<GeoCacheEntry> = Vec::new();
        std::mem::swap(&mut all, &mut self.entries);
        self.entries = select_kept(all, &m);
        proof {
            lemma_select_props(old(self).entries@, m@);
        }
    }

    /// Stores the outcome of a lookup of `ip` completed at `now`.
    pub fn insert(&mut self, ip: String, value: Option<GeoInfo>, now: u64)
        requires
            old(self).wf(),
        ensures
            final(self).wf(),
            final(self).entries@ == with_entry(old(self).entries@, new_entry(ip, value, now)),
    {
        let ghost e = new_entry(ip, value, now);
        let found = self.find(&ip);
        let entry = GeoCacheEntry {
            ip,
            value,
            expires_at: now.saturating_add(GEO_CACHE_TTL_MS),
            last_access: now,
        };
        assert(entry == e);
        proof {
            lemma_index_of(self.entries@, e.ip@);
        }
        match found {
            Some(k) => {
                self.entries.set(k, entry);
            },
            None => {
                self.entries.push(entry);
            },
        }
    }

    /// Whether a fresh entry for `ip` exists at `now`.
    pub fn has_fresh(&self, ip: &String, now: u64) -> (r: bool)
        ensures
            r == (self.fresh_lookup(ip@, now) is Some),
    {
        proof {
            lemma_index_of(self.entries@, ip@);
        }
        match self.find(ip) {
            Some(k) => now < self.entries[k].expires_at,
            None => false,
        }
    }
}

/// Whether `ip` needs a lookup at `now`: it is routable and not freshly cached.
pub open spec fn needs_lookup(cache: GeoCache, ip: Seq<char>, now: u64) -> bool {
    !is_private_spec(ip) && cache.fresh_lookup(ip, now) is None
}

pub open spec fn distinct_views(s: Seq<String>) -> bool {
    forall|i: int, j: int| 0 <= i < s.len() && 0 <= j < s.len() && i != j ==> s[i]@ != s[j]@
}

fn contains_view(v: &Vec<String>, x: &String) -> (r: bool)
    ensures
        r == exists|k: int| 0 <= k < v@.len() && #[trigger] v@[k]@ == x@,
{
    let mut i: usize = 0;
    while i < v.len()
        invariant
            i <= v@.len(),
            forall|k: int| 0 <= k < i ==> #[trigger] v@[k]@ != x@,
        decreases v@.len() - i,
    {
        if v[i] == *x {
            return true;
        }
        i = i + 1;
    }
    false
}

/// The next batch: the distinct addresses of `remote_ips` that need a
/// lookup at `now`, in order of first appearance, at most `GEO_BATCH_LIMIT`.
pub fn pending_lookups(cache: &GeoCache, remote_ips: &Vec<String>, now: u64) -> (r: Vec<String>)
    ensures
        r@.len() <= GEO_BATCH_LIMIT,
        distinct_views(r@),
        forall|k: int|
            0 <= k < r@.len() ==> needs_lookup(*cache, #[trigger] r@[k]@, now) && exists|j: int|
                0 <= j < remote_ips@.len() && remote_ips@[j]@ == r@[k]@,
        r@.len() < GEO_BATCH_LIMIT ==> forall|j: int|
            0 <= j < remote_ips@.len() && needs_lookup(*cache, #[trigger] remote_ips@[j]@, now)
                ==> exists|k: int| 0 <= k < r@.len() && r@[k]@ == remote_ips@[j]@,
{
    let mut r: Vec<String> = Vec::new();
    let mut i: usize = 0;
    while i < remote_ips.len() && r.len() < GEO_BATCH_LIMIT
        invariant
            i <= remote_ips@.len(),
            r@.len() <= GEO_BATCH_LIMIT,
            distinct_views(r@),
            forall|k: int|
                0 <= k < r@.len() ==> needs_lookup(*cache, #[trigger] r@[k]@, now) && exists|j: int|
                    0 <= j < remote_ips@.len() && remote_ips@[j]@ == r@[k]@,
            forall|j: int|
                0 <= j < i && needs_lookup(*cache, #[trigger] remote_ips@[j]@, now) ==> exists|k: int|
                    0 <= k < r@.len() && r@[k]@ == remote_ips@[j]@,
        decreases remote_ips@.len() - i,
    {
        let ip = &remote_ips[i];
        if !is_private_ip(ip.as_str()) && !cache.has_fresh(ip, now) && !contains_view(&r, ip) {
            let ghost before = r@;
            r.push(ip.clone());
            assert(r@[before.len() as int]@ == remote_ips@[i as int]@);
            assert forall|j: int|
                0 <= j <= i && needs_lookup(*cache, #[trigger] remote_ips@[j]@, now) implies exists|k: int|
                0 <= k < r@.len() && r@[k]@ == remote_ips@[j]@ by {
                if j < i {
                    let k = choose|k: int| 0 <= k < before.len() && before[k]@ == remote_ips@[j]@;
                    assert(r@[k] == before[k]);
                }
            }
            assert forall|k: int| 0 <= k < r@.len() implies needs_lookup(*cache, #[trigger] r@[k]@, now) && exists|j: int|
                0 <= j < remote_ips@.len() && remote_ips@[j]@ == r@[k]@ by {
                if k < before.len() {
                    assert(r@[k] == before[k]);
                }
            }
        }
        i = i + 1;
    }
    r
}


/// Once a lookup of `ip` is stored at `t`, the cache answers for it with
/// the stored outcome, and the address needs no new lookup, until the entry
/// expires; from the expiry on it needs a lookup again (if routable).
pub proof fn lemma_stored_outcome_until_expiry(
    c: GeoCache,
    d: GeoCache,
    ip: String,
    value: Option<GeoInfo>,
    t: u64,
    later: u64,
)
    requires
        c.wf(),
        d.entries@ == with_entry(c.entries@, new_entry(ip, value, t)),
    ensures
        later < expiry_after(t) ==> d.fresh_lookup(ip@, later) == Some(value),
        later < expiry_after(t) ==> !needs_lookup(d, ip@, later),
        later >= expiry_after(t) ==> d.fresh_lookup(ip@, later) is None,
        later >= expiry_after(t) ==> (needs_lookup(d, ip@, later) <==> !is_private_spec(ip@)),
{
    let e = new_entry(ip, value, t);
    let after = with_entry(c.entries@, e);
    lemma_index_of(c.entries@, ip@);
    let k0 = index_of(c.entries@, ip@);
    let k = if k0 >= 0 { k0 } else { c.entries@.len() as int };
    assert(after[k] == e);
    assert(unique_ips(after)) by {
        assert forall|i: int, j: int|
            0 <= i < after.len() && 0 <= j < after.len() && i != j implies after[i].ip@ != after[j].ip@ by {
            if i != k && j != k {
                assert(after[i] == c.entries@[i] && after[j] == c.entries@[j]);
            } else if i == k {
                assert(after[j] == c.entries@[j]);
            } else {
                assert(after[i] == c.entries@[i]);
            }
        }
    }
    lemma_index_of_unique(after, ip@, k);
}


// ---------------------------------------------------------------- batch replies

/// One entry of the geolocation service's batch reply. Coordinates are in
/// hundredths of a degree, 0 when absent.
pub struct GeoReply {
    pub status: String,
    pub lat_e2: i32,
    pub lng_e2: i32,
    pub city: Option<String>,
    pub country_code: Option<String>,
    pub as_field: Option<String>,
    pub org: Option<String>,
    pub isp: Option<String>,
}

/// The autonomous-system number at the head of the service's `as` text
/// ("AS15169 Google LLC"), empty when there is none.
pub open spec fn asn_of(as_field: Option<String>) -> Seq<char> {
    match as_field {
        Some(a) => if words(a@).len() > 0 {
            words(a@)[0]
        } else {
            Seq::empty()
        },
        None => Seq::empty(),
    }
}

/// The organisation (else the provider), trimmed; empty when neither is given.
pub open spec fn org_of(org: Option<String>, isp: Option<String>) -> Seq<char> {
    match org {
        Some(o) => trim(o@),
        None => match isp {
            Some(i) => trim(i@),
            None => Seq::empty(),
        },
    }
}

/// Whether a reply resolves its address, and to what.
pub open spec fn reply_resolves(r: GeoReply, g: GeoInfo) -> bool {
    &&& g.lat_e2 == r.lat_e2
    &&& g.lng_e2 == r.lng_e2
    &&& g.city@ == match r.city {
        Some(c) => c@,
        None => "Unknown"@,
    }
    &&& g.country@ == match r.country_code {
        Some(c) => c@,
        None => "??"@,
    }
    &&& g.asn@ == asn_of(r.as_field)
    &&& g.org@ == org_of(r.org, r.isp)
}

fn text_or(o: &Option<String>, fallback: &str) -> (r: String)
    ensures
        r@ == match o {
            Some(s) => s@,
            None => fallback@,
        },
{
    match o {
        Some(s) => s.clone(),
        None => String::from_str(fallback),
    }
}

fn trimmed_text(s: &String) -> (r: String)
    ensures
        r@ == trim(s@),
{
    let cs = chars_of(s.as_str());
    let t = trim_chars(&cs);
    string_of(&t)
}

/// The outcome a reply gives: a location when its status is "success",
/// a confirmed miss otherwise.
pub fn reply_outcome(r: &GeoReply) -> (g: Option<GeoInfo>)
    ensures
        (r.status@ == "success"@) == (g is Some),
        g is Some ==> reply_resolves(*r, g->0),
{
    if !crate::frame::str_eq(&r.status, "success") {
        return None;
    }
    let asn = match &r.as_field {
        Some(a) => {
            let cs = chars_of(a.as_str());
            assert(cs@.subrange(0, cs@.len() as int) =~= cs@);
            let w = words_in(a.as_str(), &cs, 0, cs.len());
            if w.len() > 0 {
                assert(string_views(w@)[0] == w@[0]@);
                w[0].clone()
            } else {
                String::new()
            }
        },
        None => String::new(),
    };
    let org = match &r.org {
        Some(o) => trimmed_text(o),
        None => match &r.isp {
            Some(i) => trimmed_text(i),
            None => String::new(),
        },
    };
    Some(
        GeoInfo {
            lat_e2: r.lat_e2,
            lng_e2: r.lng_e2,
            city: text_or(&r.city, "Unknown"),
            country: text_or(&r.country_code, "??"),
            asn,
            org,
        },
    )
}

/// Pairs the submitted addresses with the service's replies, position by
/// position, as far as both go.
pub fn batch_updates(batch: &Vec<String>, replies: &Vec<GeoReply>) -> (r: Vec<(String, Option<GeoInfo>)>)
    ensures
        r@.len() == if batch@.len() <= replies@.len() {
            batch@.len()
        } else {
            replies@.len()
        },
        forall|i: int|
            0 <= i < r@.len() ==> #[trigger] r@[i].0 == batch@[i] && ((replies@[i].status@
                == "success"@) == (r@[i].1 is Some)) && (r@[i].1 is Some ==> reply_resolves(
                replies@[i],
                r@[i].1->0,
            )),
{
    let mut out: Vec<(String, Option<GeoInfo>)> = Vec::new();
    let mut i: usize = 0;
    while i < batch.len() && i < replies.len()
        invariant
            i <= batch@.len(),
            i <= replies@.len(),
            out@.len() == i,
            forall|j: int|
                0 <= j < i ==> #[trigger] out@[j].0 == batch@[j] && ((replies@[j].status@
                    == "success"@) == (out@[j].1 is Some)) && (out@[j].1 is Some ==> reply_resolves(
                    replies@[j],
                    out@[j].1->0,
                )),
        decreases batch@.len() - i,
    {
        let g = reply_outcome(&replies[i]);
        out.push((batch[i].clone(), g));
        i = i + 1;
    }
    out
}

/// The first `GEO_BATCH_LIMIT` addresses of `ips`.
pub fn limit_batch(ips: &Vec<String>) -> (r: Vec<String>)
    ensures
        r@ == if ips@.len() <= GEO_BATCH_LIMIT {
            ips@
        } else {
            ips@.take(GEO_BATCH_LIMIT as int)
        },
{
    let mut out: Vec<String> = Vec::new();
    let mut i: usize = 0;
    while i < ips.len() && i < GEO_BATCH_LIMIT
        invariant
            i <= ips@.len(),
            i <= GEO_BATCH_LIMIT,
            out@ == ips@.take(i as int),
        decreases ips@.len() - i,
    {
        out.push(ips[i].clone());
        assert(out@ =~= ips@.take(i as int + 1));
        i = i + 1;
    }
    assert(ips@.len() <= GEO_BATCH_LIMIT ==> ips@.take(i as int) =~= ips@);
    out
}

/// `entries` after storing each update, completed at `now`, in order.
pub open spec fn with_updates(entries: Seq<GeoCacheEntry>, us: Seq<(String, Option<GeoInfo>)>, now: u64) -> Seq<GeoCacheEntry>
    decreases us.len(),
{
    if us.len() == 0 {
        entries
    } else {
        with_entry(with_updates(entries, us.drop_last(), now), new_entry(us.last().0, us.last().1, now))
    }
}

impl GeoCache {
    /// Stores the outcomes of a successful batch completed at `now`.
    pub fn apply_updates(&mut self, updates: Vec<(String, Option<GeoInfo>)>, now: u64)
        requires
            old(self).wf(),
        ensures
            final(self).wf(),
            final(self).entries@ == with_updates(old(self).entries@, updates@, now),
    {
        let ghost all = updates@;
        let mut rev = reversed(updates);
        assert(rev@.reverse() =~= all);
        let mut k: usize = 0;
        let n = rev.len();
        assert(all.take(0) =~= Seq::<(String, Option<GeoInfo>)>::empty());
        while rev.len() > 0
            invariant
                n == all.len(),
                k + rev@.len() == n,
                rev@.reverse() == all.skip(k as int),
                self.wf(),
                self.entries@ == with_updates(old(self).entries@, all.take(k as int), now),
            decreases rev@.len(),
        {
            let ghost before = rev@;
            let u = rev.pop().unwrap();
            assert(before.reverse() =~= seq![u] + rev@.reverse());
            assert(all.skip(k as int)[0] == u);
            assert(all.take(k as int + 1).drop_last() =~= all.take(k as int));
            assert(all.take(k as int + 1).last() == all[k as int]);
            self.insert(u.0, u.1, now);
            assert(all.skip(k as int + 1) =~= all.skip(k as int).drop_first());
            assert(rev@.reverse() =~= (seq![u] + rev@.reverse()).drop_first());
            k = k + 1;
        }
        assert(all.take(n as int) =~= all);
    }
}


proof fn lemma_with_entry(es: Seq<GeoCacheEntry>, e: GeoCacheEntry)
    requires
        unique_ips(es),
    ensures
        unique_ips(with_entry(es, e)),
        index_of(with_entry(es, e), e.ip@) >= 0,
        with_entry(es, e)[index_of(with_entry(es, e), e.ip@)] == e,
        forall|ip: Seq<char>|
            ip != e.ip@ ==> (#[trigger] index_of(with_entry(es, e), ip) >= 0) == (index_of(es, ip) >= 0)
                && (index_of(es, ip) >= 0 ==> with_entry(es, e)[index_of(with_entry(es, e), ip)]
                == es[index_of(es, ip)]),
{
    let r = with_entry(es, e);
    lemma_index_of(es, e.ip@);
    let k0 = index_of(es, e.ip@);
    let k = if k0 >= 0 { k0 } else { es.len() as int };
    assert(r[k] == e);
    assert(forall|j: int| 0 <= j < r.len() && j != k ==> r[j] == es[j]);
    assert(unique_ips(r)) by {
        assert forall|i: int, j: int|
            0 <= i < r.len() && 0 <= j < r.len() && i != j implies r[i].ip@ != r[j].ip@ by {
            if i != k && j != k {
            } else if i == k {
                assert(r[j] == es[j]);
            } else {
                assert(r[i] == es[i]);
            }
        }
    }
    lemma_index_of_unique(r, e.ip@, k);
    assert forall|ip: Seq<char>| ip != e.ip@ implies (#[trigger] index_of(r, ip) >= 0) == (index_of(es, ip) >= 0)
        && (index_of(es, ip) >= 0 ==> r[index_of(r, ip)] == es[index_of(es, ip)]) by {
        lemma_index_of(es, ip);
        lemma_index_of(r, ip);
        if index_of(es, ip) >= 0 {
            let j = index_of(es, ip);
            assert(j != k);
            assert(r[j] == es[j]);
            lemma_index_of_unique(r, ip, j);
        } else if index_of(r, ip) >= 0 {
            let j = index_of(r, ip);
            assert(j != k);
            assert(r[j] == es[j]);
            assert(es[j].ip@ != ip);
        }
    }
}

proof fn lemma_with_updates(es: Seq<GeoCacheEntry>, us: Seq<(String, Option<GeoInfo>)>, now: u64, ip: Seq<char>, k: int)
    requires
        unique_ips(es),
        0 <= k < us.len(),
        us[k].0@ == ip,
        forall|j: int| k < j < us.len() ==> (#[trigger] us[j]).0@ != ip,
    ensures
        unique_ips(with_updates(es, us, now)),
        index_of(with_updates(es, us, now), ip) >= 0,
        with_updates(es, us, now)[index_of(with_updates(es, us, now), ip)] == new_entry(us[k].0, us[k].1, now),
    decreases us.len(),
{
    let prev = us.drop_last();
    lemma_with_updates_wf(es, prev, now);
    let e = new_entry(us.last().0, us.last().1, now);
    lemma_with_entry(with_updates(es, prev, now), e);
    if k < us.len() - 1 {
        assert forall|j: int| k < j < prev.len() implies (#[trigger] prev[j]).0@ != ip by {
            assert(prev[j] == us[j]);
        }
        lemma_with_updates(es, prev, now, ip, k);
        assert(us.last().0@ != ip);
    }
}

proof fn lemma_with_updates_wf(es: Seq<GeoCacheEntry>, us: Seq<(String, Option<GeoInfo>)>, now: u64)
    requires
        unique_ips(es),
    ensures
        unique_ips(with_updates(es, us, now)),
    decreases us.len(),
{
    if us.len() > 0 {
        lemma_with_updates_wf(es, us.drop_last(), now);
        lemma_with_entry(with_updates(es, us.drop_last(), now), new_entry(us.last().0, us.last().1, now));
    }
}

/// Once a batch completed at `t` stores an outcome for `ip` (its last one
/// in the batch), the cache answers for `ip` with that outcome, and the
/// address needs no new lookup, until the entry expires; from then on it
/// needs one again (if routable).
pub proof fn lemma_batch_outcome_until_expiry(
    c: GeoCache,
    d: GeoCache,
    us: Seq<(String, Option<GeoInfo>)>,
    ip: Seq<char>,
    k: int,
    t: u64,
    later: u64,
)
    requires
        c.wf(),
        d.entries@ == with_updates(c.entries@, us, t),
        0 <= k < us.len(),
        us[k].0@ == ip,
        forall|j: int| k < j < us.len() ==> (#[trigger] us[j]).0@ != ip,
    ensures
        later < expiry_after(t) ==> d.fresh_lookup(ip, later) == Some(us[k].1),
        later < expiry_after(t) ==> !needs_lookup(d, ip, later),
        later >= expiry_after(t) ==> d.fresh_lookup(ip, later) is None,
        later >= expiry_after(t) ==> (needs_lookup(d, ip, later) <==> !is_private_spec(ip)),
{
    lemma_with_updates(c.entries@, us, t, ip, k);
}

} // verus!
