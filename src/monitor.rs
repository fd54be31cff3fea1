//! Decisions of the once-per-tick collection loop: when to rescan the
//! connection table, when to start a geolocation batch, when to refresh
//! process names, which flows stay visible through scan jitter, and what a
//! heartbeat carries. The loop itself, which sleeps, spawns and emits,
//! performs these decisions.
use vstd::prelude::*;
use crate::frame::{conn_key, flow_key, name_of, ParsedConnection, TelemetryFrame};
use crate::geo::GeoScheduler;
use crate::vecs::reversed;

verus! {

/// Interval of the collection loop.
pub const TICK_MS: u64 = 1000;
/// Interval between connection-table scans.
pub const NETSTAT_POLL_MS: u64 = 2000;
/// Minimum spacing between geolocation batches (exclusive).
pub const GEO_LOOKUP_SPACING_MS: u64 = 3000;
/// How long a flow stays visible after it was last scanned.
pub const FLOW_GRACE_MS: u64 = 8000;
/// Interval between checks for process-name refreshes.
pub const PROCESS_CACHE_TTL_MS: u64 = 10_000;
/// Longest time between process-name refreshes.
pub const PROCESS_FORCE_REFRESH_MS: u64 = 60_000;

/// Whether at least `interval` has passed since `last` (always, if never).
pub open spec fn elapsed_at_least(last: Option<u64>, now: u64, interval: u64) -> bool {
    match last {
        None => true,
        Some(t) => now as int - t as int >= interval as int,
    }
}

fn since_at_least(last: Option<u64>, now: u64, interval: u64) -> (r: bool)
    ensures
        r == elapsed_at_least(last, now, interval),
{
    match last {
        None => true,
        Some(t) => now >= t && now - t >= interval,
    }
}

/// Whether the connection table is due for a fresh scan.
pub fn scan_due(last_scan: Option<u64>, now: u64) -> (r: bool)
    ensures
        r == elapsed_at_least(last_scan, now, NETSTAT_POLL_MS),
{
    since_at_least(last_scan, now, NETSTAT_POLL_MS)
}

/// Whether a geolocation batch may start now: none in flight, no backoff
/// window open, and more than the spacing since the last batch.
pub fn geo_dispatch_due(sched: &GeoScheduler, last_lookup: Option<u64>, now: u64) -> (r: bool)
    ensures
        r == (!sched.in_flight && !sched.backoff_active(now) && elapsed_at_least(
            last_lookup,
            now,
            (GEO_LOOKUP_SPACING_MS + 1) as u64,
        )),
{
    sched.may_dispatch(now) && since_at_least(last_lookup, now, GEO_LOOKUP_SPACING_MS + 1)
}

/// Whether some connection has an owning process whose name is unknown.
pub open spec fn has_unnamed_pid(conns: Seq<ParsedConnection>, names: Seq<(u32, String)>) -> bool {
    exists|i: int| 0 <= i < conns.len() && #[trigger] conns[i].pid > 0 && name_of(names, conns[i].pid) is None
}

fn name_known(names: &Vec<(u32, String)>, pid: u32) -> (r: bool)
    ensures
        r == (name_of(names@, pid) is Some),
{
    let mut i = names.len();
    assert(names@.take(i as int) =~= names@);
    while i > 0
        invariant
            i <= names@.len(),
            name_of(names@.take(i as int), pid) == name_of(names@, pid),
        decreases i,
    {
        assert(names@.take(i as int).drop_last() =~= names@.take(i as int - 1));
        if names[i - 1].0 == pid {
            return true;
        }
        i = i - 1;
    }
    false
}

/// The process-name decision of one tick.
#[derive(Clone, Copy, Debug, PartialEq, Eq, Structural)]
pub struct ProcessRefresh {
    /// The check interval elapsed: the check time restarts.
    pub checked: bool,
    /// The names are reloaded (and the forced-refresh time restarts).
    pub refresh: bool,
}

/// Decides whether to reload process names: at most once per check
/// interval, and then only when a connection has an unnamed owner or the
/// forced-refresh interval has elapsed.
pub fn process_refresh(
    last_check: Option<u64>,
    last_forced: u64,
    now: u64,
    conns: &Vec<ParsedConnection>,
    names: &Vec<(u32, String)>,
) -> (r: ProcessRefresh)
    ensures
        r.checked == elapsed_at_least(last_check, now, PROCESS_CACHE_TTL_MS),
        r.refresh == (r.checked && (has_unnamed_pid(conns@, names@) || elapsed_at_least(
            Some(last_forced),
            now,
            PROCESS_FORCE_REFRESH_MS,
        ))),
{
    let checked = since_at_least(last_check, now, PROCESS_CACHE_TTL_MS);
    if !checked {
        return ProcessRefresh { checked: false, refresh: false };
    }
    let mut unnamed = false;
    let mut i: usize = 0;
    while i < conns.len()
        invariant
            i <= conns@.len(),
            unnamed == exists|j: int|
                0 <= j < i && #[trigger] conns@[j].pid > 0 && name_of(names@, conns@[j].pid) is None,
        decreases conns@.len() - i,
    {
        if conns[i].pid > 0 && !name_known(names, conns[i].pid) {
            unnamed = true;
        }
        i = i + 1;
    }
    let forced = since_at_least(Some(last_forced), now, PROCESS_FORCE_REFRESH_MS);
    ProcessRefresh { checked: true, refresh: unnamed || forced }
}

/// The heartbeat sent for a frame that is not material: the same metrics
/// and counters, no flows, marked light.
pub fn heartbeat_of(frame: &TelemetryFrame) -> (r: TelemetryFrame)
    ensures
        r.schema == frame.schema,
        r.t_ms == frame.t_ms,
        r.light == Some(true),
        r.net == frame.net,
        r.proto == frame.proto,
        r.flows@.len() == 0,
{
    TelemetryFrame {
        schema: frame.schema,
        t_ms: frame.t_ms,
        light: Some(true),
        net: frame.net,
        proto: frame.proto,
        flows: Vec::new(),
    }
}

// ---------------------------------------------------------------- presence

impl ParsedConnection {
    /// A field-for-field copy.
    pub fn duplicate(&self) -> (r: ParsedConnection)
        ensures
            r == *self,
    {
        ParsedConnection {
            proto: self.proto.clone(),
            local_ip: self.local_ip.clone(),
            remote_ip: self.remote_ip.clone(),
            remote_port: self.remote_port,
            state: self.state.clone(),
            pid: self.pid,
        }
    }
}

/// A flow recently seen by a scan.
pub struct PresenceEntry {
    pub key: String,
    pub conn: ParsedConnection,
    pub last_seen: u64,
}

/// Index of the entry with key `k`, or -1.
pub open spec fn presence_index(es: Seq<PresenceEntry>, k: Seq<char>) -> int
    decreases es.len(),
{
    if es.len() == 0 {
        -1
    } else if es.last().key@ == k {
        es.len() - 1
    } else {
        presence_index(es.drop_last(), k)
    }
}

proof fn lemma_presence_index(es: Seq<PresenceEntry>, k: Seq<char>)
    ensures
        -1 <= presence_index(es, k) < es.len(),
    decreases es.len(),
{
    if es.len() > 0 {
        lemma_presence_index(es.drop_last(), k);
    }
}

/// `es` after seeing `c` at `now`: its flow's entry takes `c` and `now`,
/// or a new entry is appended.
pub open spec fn seen_once(es: Seq<PresenceEntry>, key: String, c: ParsedConnection, now: u64) -> Seq<PresenceEntry> {
    let k = presence_index(es, key@);
    if k >= 0 {
        es.update(k, PresenceEntry { key: es[k].key, conn: c, last_seen: now })
    } else {
        es.push(PresenceEntry { key, conn: c, last_seen: now })
    }
}

/// `es` after seeing each of `keys`/`cs` in turn at `now`.
pub open spec fn seen_all(es: Seq<PresenceEntry>, keys: Seq<String>, cs: Seq<ParsedConnection>, now: u64) -> Seq<PresenceEntry>
    decreases cs.len(),
{
    if cs.len() == 0 || keys.len() != cs.len() {
        es
    } else {
        seen_once(seen_all(es, keys.drop_last(), cs.drop_last(), now), keys.last(), cs.last(), now)
    }
}

/// Whether an entry is still within the grace period at `now`.
pub open spec fn within_grace(e: PresenceEntry, now: u64) -> bool {
    (now as int) < e.last_seen as int + FLOW_GRACE_MS as int
}

/// Flows recently seen by a scan, one entry per flow key.
pub struct FlowPresence {
    pub entries: Vec<PresenceEntry>,
}

impl FlowPresence {
    pub fn new() -> (r: FlowPresence)
        ensures
            r.entries@.len() == 0,
    {
        FlowPresence { entries: Vec::new() }
    }

    fn index(&self, k: &String) -> (r: Option<usize>)
        ensures
            match r {
                Some(i) => i as int == presence_index(self.entries@, k@) && i < self.entries@.len(),
                None => presence_index(self.entries@, k@) == -1,
            },
    {
        proof {
            lemma_presence_index(self.entries@, k@);
        }
        let mut i = self.entries.len();
        assert(self.entries@.take(i as int) =~= self.entries@);
        while i > 0
            invariant
                i <= self.entries@.len(),
                presence_index(self.entries@.take(i as int), k@) == presence_index(self.entries@, k@),
            decreases i,
        {
            assert(self.entries@.take(i as int).drop_last() =~= self.entries@.take(i as int - 1));
            if self.entries[i - 1].key == *k {
                return Some(i - 1);
            }
            i = i - 1;
        }
        None
    }

    /// Records a scan made at `now` and drops flows not seen within the
    /// grace period. Returns the keys of the scanned connections.
    pub fn observe(&mut self, conns: &Vec<ParsedConnection>, now: u64) -> (keys: Vec<String>)
        ensures
            keys@.len() == conns@.len(),
            forall|i: int| 0 <= i < keys@.len() ==> #[trigger] keys@[i]@ == conn_key(conns@[i]),
            final(self).entries@ == seen_all(old(self).entries@, keys@, conns@, now).filter(
                |e: PresenceEntry| within_grace(e, now),
            ),
    {
        let mut keys: Vec<String> = Vec::new();
        let mut i: usize = 0;
        while i < conns.len()
            invariant
                i <= conns@.len(),
                keys@.len() == i,
                forall|j: int| 0 <= j < i ==> #[trigger] keys@[j]@ == conn_key(conns@[j]),
                self.entries@ == seen_all(old(self).entries@, keys@, conns@.take(i as int), now),
            decreases conns@.len() - i,
        {
            let key = flow_key(&conns[i]);
            let c = conns[i].duplicate();
            let ghost before = self.entries@;
            let ghost kb = keys@;
            match self.index(&key) {
                Some(k) => {
                    let old_key = self.entries[k].key.clone();
                    self.entries.set(k, PresenceEntry { key: old_key, conn: c, last_seen: now });
                },
                None => {
                    self.entries.push(PresenceEntry { key: key.clone(), conn: c, last_seen: now });
                },
            }
            keys.push(key);
            proof {
                assert(keys@.drop_last() =~= kb);
                assert(conns@.take(i as int + 1).drop_last() =~= conns@.take(i as int));
                assert(self.entries@ =~= seen_once(before, keys@.last(), conns@[i as int], now));
            }
            i = i + 1;
        }
        assert(conns@.take(conns@.len() as int) =~= conns@);
        let ghost all = self.entries@;
        let ghost pred = |e: PresenceEntry| within_grace(e, now);
        let mut rest: Vec<PresenceEntry> = Vec::new();
        std::mem::swap(&mut rest, &mut self.entries);
        let mut kept_rev: Vec<PresenceEntry> = Vec::new();
        let mut n = rest.len();
        assert(all.take(n as int) =~= all);
        while n > 0
            invariant
                n == rest@.len(),
                rest@ == all.take(n as int),
                n <= all.len(),
                pred == (|e: PresenceEntry| within_grace(e, now)),
                all.filter(pred) == all.take(n as int).filter(pred) + kept_rev@.reverse(),
            decreases n,
        {
            let e = rest.pop().unwrap();
            let ghost t = all.take(n as int);
            let ghost prev_rev = kept_rev@;
            proof {
                reveal(Seq::filter);
                assert(t.drop_last() =~= all.take(n as int - 1));
            }
            if now < e.last_seen || now - e.last_seen < FLOW_GRACE_MS {
                kept_rev.push(e);
                assert(kept_rev@.reverse() =~= seq![t.last()] + prev_rev.reverse());
                assert(t.filter(pred) == t.drop_last().filter(pred).push(t.last()));
                assert(t.drop_last().filter(pred).push(t.last()) + prev_rev.reverse() =~= t.drop_last().filter(pred) + (seq![t.last()] + prev_rev.reverse()));
            }
            n = n - 1;
        }
        assert(all.take(0).filter(pred) =~= Seq::<PresenceEntry>::empty()) by {
            reveal(Seq::filter);
        }
        assert(all.filter(pred) =~= kept_rev@.reverse());
        let kept = reversed(kept_rev);
        self.entries = kept;
        keys
    }

    /// The connections of the flows currently visible.
    pub fn stable_connections(&self) -> (r: Vec<ParsedConnection>)
        ensures
            r@.len() == self.entries@.len(),
            forall|i: int| 0 <= i < r@.len() ==> #[trigger] r@[i] == self.entries@[i].conn,
    {
        let mut r: Vec<ParsedConnection> = Vec::new();
        let mut i: usize = 0;
        while i < self.entries.len()
            invariant
                i <= self.entries@.len(),
                r@.len() == i,
                forall|j: int| 0 <= j < i ==> #[trigger] r@[j] == self.entries@[j].conn,
            decreases self.entries@.len() - i,
        {
            r.push(self.entries[i].conn.duplicate());
            i = i + 1;
        }
        r
    }
}

} // verus!
