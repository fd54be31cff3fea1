//! Decisions of the persistence writer: which of the five per-frame writes
//! are due on each tick, how session totals accumulate, how destination
//! rows merge, how per-process usage is aggregated, and how sessions left
//! open by an unclean shutdown are closed.
use vstd::prelude::*;
use vstd::string::*;
use crate::frame::{Direction, GeoFlow};

verus! {

/// Ticks between persisted frame rows.
pub const FRAME_SAMPLE_INTERVAL: u32 = 5;
/// Ticks between persisted flow snapshots.
pub const FLOW_SAMPLE_INTERVAL: u32 = 10;
/// Ticks between per-process usage rows.
pub const PROCESS_AGG_INTERVAL: u32 = 30;
/// Ticks between session totals updates.
pub const TOTALS_UPDATE_INTERVAL: u32 = 5;
/// Ticks between destination upserts.
pub const DEST_UPDATE_INTERVAL: u32 = 10;

/// Independent write intervals, in ticks.
#[derive(Clone, Copy, Debug, PartialEq, Eq, Structural)]
pub struct Schedule {
    pub frame: u32,
    pub flows: u32,
    pub totals: u32,
    pub destinations: u32,
    pub processes: u32,
}

impl Schedule {
    pub open spec fn wf(&self) -> bool {
        self.frame > 0 && self.flows > 0 && self.totals > 0 && self.destinations > 0
            && self.processes > 0
    }

    /// The standard intervals.
    pub fn standard() -> (r: Schedule)
        ensures
            r.wf(),
            r.frame == FRAME_SAMPLE_INTERVAL,
            r.flows == FLOW_SAMPLE_INTERVAL,
            r.totals == TOTALS_UPDATE_INTERVAL,
            r.destinations == DEST_UPDATE_INTERVAL,
            r.processes == PROCESS_AGG_INTERVAL,
    {
        Schedule {
            frame: FRAME_SAMPLE_INTERVAL,
            flows: FLOW_SAMPLE_INTERVAL,
            totals: TOTALS_UPDATE_INTERVAL,
            destinations: DEST_UPDATE_INTERVAL,
            processes: PROCESS_AGG_INTERVAL,
        }
    }
}

/// Whether a write with the given interval is due on `tick`.
pub open spec fn due(tick: u32, interval: u32) -> bool {
    interval > 0 && tick % interval == 0
}

/// The writes due for one frame of the open session.
pub struct FramePlan {
    pub session_id: String,
    pub tick: u32,
    pub write_frame: bool,
    pub write_flows: bool,
    pub update_totals: bool,
    pub upsert_destinations: bool,
    pub aggregate_processes: bool,
}

/// Per-session write-side state, reset on session start and end.
pub struct WriterState {
    pub current_session_id: Option<String>,
    pub tick_counter: u32,
    pub seen_dest_ips: Vec<String>,
    pub schedule: Schedule,
}

/// The plan for tick `tick` of session `id` under `s`.
pub open spec fn plan_spec(id: String, tick: u32, s: Schedule) -> FramePlan {
    FramePlan {
        session_id: id,
        tick,
        write_frame: due(tick, s.frame),
        write_flows: due(tick, s.flows),
        update_totals: due(tick, s.totals),
        upsert_destinations: due(tick, s.destinations),
        aggregate_processes: due(tick, s.processes),
    }
}

/// One frame step of the writer from `a` to `b`, with the plan it yields.
pub open spec fn frame_step(a: WriterState, b: WriterState, plan: Option<FramePlan>) -> bool {
    match a.current_session_id {
        None => plan is None && b == a,
        Some(id) => {
            let t = if a.tick_counter == u32::MAX {
                u32::MAX
            } else {
                (a.tick_counter + 1) as u32
            };
            &&& b.current_session_id == a.current_session_id
            &&& b.tick_counter == t
            &&& b.seen_dest_ips == a.seen_dest_ips
            &&& b.schedule == a.schedule
            &&& plan == Some(plan_spec(id, t, a.schedule))
        },
    }
}

impl WriterState {
    pub open spec fn wf(&self) -> bool {
        self.schedule.wf()
    }

    pub fn new() -> (r: WriterState)
        ensures
            r.wf(),
            r.current_session_id is None,
            r.tick_counter == 0,
            r.seen_dest_ips@.len() == 0,
            r.schedule.frame == FRAME_SAMPLE_INTERVAL,
            r.schedule.flows == FLOW_SAMPLE_INTERVAL,
            r.schedule.totals == TOTALS_UPDATE_INTERVAL,
            r.schedule.destinations == DEST_UPDATE_INTERVAL,
            r.schedule.processes == PROCESS_AGG_INTERVAL,
    {
        WriterState::with_schedule(Schedule::standard())
    }

    pub fn with_schedule(schedule: Schedule) -> (r: WriterState)
        requires
            schedule.wf(),
        ensures
            r.wf(),
            r.current_session_id is None,
            r.tick_counter == 0,
            r.seen_dest_ips@.len() == 0,
            r.schedule == schedule,
    {
        WriterState {
            current_session_id: None,
            tick_counter: 0,
            seen_dest_ips: Vec::new(),
            schedule,
        }
    }

    /// Makes `id` the open session once its row exists, resetting the
    /// per-session counters.
    pub fn start_session(&mut self, id: String)
        ensures
            final(self).current_session_id == Some(id),
            final(self).tick_counter == 0,
            final(self).seen_dest_ips@.len() == 0,
            final(self).schedule == old(self).schedule,
    {
        self.current_session_id = Some(id);
        self.tick_counter = 0;
        self.seen_dest_ips = Vec::new();
    }

    /// Closes the open session once its row is finalized, resetting the
    /// per-session counters.
    pub fn end_session(&mut self)
        ensures
            final(self).current_session_id is None,
            final(self).tick_counter == 0,
            final(self).seen_dest_ips@.len() == 0,
            final(self).schedule == old(self).schedule,
    {
        self.current_session_id = None;
        self.tick_counter = 0;
        self.seen_dest_ips = Vec::new();
    }

    /// Advances the tick counter for a frame of the open session and says
    /// which writes are due; with no open session the frame is skipped.
    pub fn plan_frame(&mut self) -> (r: Option<FramePlan>)
        ensures
            frame_step(*old(self), *final(self), r),
    {
        match &self.current_session_id {
            None => None,
            Some(id) => {
                let id = id.clone();
                self.tick_counter = if self.tick_counter == u32::MAX {
                    u32::MAX
                } else {
                    self.tick_counter + 1
                };
                let t = self.tick_counter;
                let s = self.schedule;
                Some(
                    FramePlan {
                        session_id: id,
                        tick: t,
                        write_frame: s.frame > 0 && t % s.frame == 0,
                        write_flows: s.flows > 0 && t % s.flows == 0,
                        update_totals: s.totals > 0 && t % s.totals == 0,
                        upsert_destinations: s.destinations > 0 && t % s.destinations == 0,
                        aggregate_processes: s.processes > 0 && t % s.processes == 0,
                    },
                )
            },
        }
    }

    /// Records that destination `ip` was written in this session.
    pub fn note_destination(&mut self, ip: String)
        ensures
            final(self).current_session_id == old(self).current_session_id,
            final(self).tick_counter == old(self).tick_counter,
            final(self).schedule == old(self).schedule,
            final(self).seen_dest_ips@ == old(self).seen_dest_ips@.push(ip),
    {
        self.seen_dest_ips.push(ip);
    }

    /// The session to finalize on shutdown, if one is open.
    pub fn session_to_finalize(&self) -> (r: Option<String>)
        ensures
            r == self.current_session_id,
    {
        match &self.current_session_id {
            Some(id) => Some(id.clone()),
            None => None,
        }
    }
}

/// Flow snapshots reference a frame row, so they are written only on a tick
/// that also wrote one.
pub fn should_persist_flows(plan: &FramePlan, frame_row: Option<i64>) -> (r: bool)
    ensures
        r == (plan.write_flows && frame_row is Some),
{
    plan.write_flows && frame_row.is_some()
}

/// Frames handed to the writer between the start of session `a` and its end
/// are all planned against `a`, and the session stays open through them.
pub proof fn lemma_frames_follow_started_session(
    s0: WriterState,
    s1: WriterState,
    s2: WriterState,
    first: Option<FramePlan>,
    second: Option<FramePlan>,
    a: String,
)
    requires
        s0.current_session_id == Some(a),
        frame_step(s0, s1, first),
        frame_step(s1, s2, second),
    ensures
        first is Some && first->0.session_id == a,
        second is Some && second->0.session_id == a,
        s2.current_session_id == Some(a),
{
}


/// The recording in progress, as seen by the start and stop commands.
pub struct SessionSlot {
    pub current: Option<String>,
}

impl SessionSlot {
    pub fn new() -> (r: SessionSlot)
        ensures
            r.current is None,
    {
        SessionSlot { current: None }
    }

    /// Makes `id` the recording in progress; returns the one it replaces,
    /// which must be ended first.
    pub fn start(&mut self, id: String) -> (ended: Option<String>)
        ensures
            ended == old(self).current,
            final(self).current == Some(id),
    {
        let mut ended = Some(id);
        std::mem::swap(&mut ended, &mut self.current);
        ended
    }

    /// Stops the recording in progress, if any, and returns it.
    pub fn stop(&mut self) -> (ended: Option<String>)
        ensures
            ended == old(self).current,
            final(self).current is None,
    {
        let mut ended = None;
        std::mem::swap(&mut ended, &mut self.current);
        ended
    }
}

// ---------------------------------------------------------------- totals

pub open spec fn sat_add(a: u64, b: u64) -> u64 {
    if a as int + b as int > u64::MAX as int {
        u64::MAX
    } else {
        (a + b) as u64
    }
}

pub open spec fn max_u64(a: u64, b: u64) -> u64 {
    if a >= b {
        a
    } else {
        b
    }
}

/// Running average after one more sample: the sample itself when there was
/// none, else `(avg * n + x) / (n + 1)`, rounded down.
pub open spec fn next_average(avg: u64, n: u64, x: u64) -> u64 {
    if n == 0 {
        x
    } else {
        ((avg as int * n as int + x as int) / (n as int + 1)) as u64
    }
}

/// Running aggregates of a session row.
#[derive(Clone, Copy, Debug, PartialEq, Eq, Structural)]
pub struct SessionTotals {
    pub total_bytes_up: u64,
    pub total_bytes_down: u64,
    pub peak_bps: u64,
    pub peak_flows: u32,
    pub avg_latency_cms: u64,
    pub latency_samples: u64,
    pub total_flows: u64,
}

/// Bytes moved in `secs` seconds at `bps` bits per second, rounded down.
pub open spec fn interval_bytes_spec(bps: u64, secs: u32) -> u64 {
    let b = bps as int * secs as int / 8;
    if b > u64::MAX as int {
        u64::MAX
    } else {
        b as u64
    }
}

pub fn interval_bytes(bps: u64, secs: u32) -> (r: u64)
    ensures
        r == interval_bytes_spec(bps, secs),
{
    proof {
        assert(bps as int * secs as int <= u64::MAX as int * u32::MAX as int) by (nonlinear_arith)
            requires
                bps <= u64::MAX,
                secs <= u32::MAX,
        ;
    }
    let b: u128 = (bps as u128) * (secs as u128) / 8;
    if b > u64::MAX as u128 {
        u64::MAX
    } else {
        b as u64
    }
}

fn average_step(avg: u64, n: u64, x: u64) -> (r: u64)
    ensures
        r == next_average(avg, n, x),
{
    if n == 0 {
        return x;
    }
    let m: u64 = if avg >= x {
        avg
    } else {
        x
    };
    proof {
        assert(avg as int * n as int + x as int <= m as int * (n as int + 1)) by (nonlinear_arith)
            requires
                avg <= m,
                x <= m,
                n >= 0,
        ;
        assert((avg as int * n as int + x as int) / (n as int + 1) <= m as int) by (nonlinear_arith)
            requires
                avg as int * n as int + x as int <= m as int * (n as int + 1),
                n >= 0,
                avg >= 0,
                x >= 0,
        ;
        assert(avg as int * n as int <= u64::MAX as int * u64::MAX as int) by (nonlinear_arith)
            requires
                avg <= u64::MAX,
                n <= u64::MAX,
        ;
    }
    let total: u128 = (avg as u128) * (n as u128) + (x as u128);
    (total / ((n as u128) + 1)) as u64
}

impl SessionTotals {
    pub fn zero() -> (r: SessionTotals)
        ensures
            r == (SessionTotals {
                total_bytes_up: 0,
                total_bytes_down: 0,
                peak_bps: 0,
                peak_flows: 0,
                avg_latency_cms: 0,
                latency_samples: 0,
                total_flows: 0,
            }),
    {
        SessionTotals {
            total_bytes_up: 0,
            total_bytes_down: 0,
            peak_bps: 0,
            peak_flows: 0,
            avg_latency_cms: 0,
            latency_samples: 0,
            total_flows: 0,
        }
    }

    /// Folds one totals update into the session: byte counters add, peaks
    /// take the maximum, the latency average takes one more sample.
    pub fn accumulate(
        &mut self,
        bytes_up: u64,
        bytes_down: u64,
        bps: u64,
        flows: u32,
        latency_cms: u64,
        new_unique_flows: u64,
    )
        ensures
            final(self).total_bytes_up == sat_add(old(self).total_bytes_up, bytes_up),
            final(self).total_bytes_down == sat_add(old(self).total_bytes_down, bytes_down),
            final(self).peak_bps == max_u64(old(self).peak_bps, bps),
            final(self).peak_flows == if old(self).peak_flows >= flows {
                old(self).peak_flows
            } else {
                flows
            },
            final(self).avg_latency_cms == next_average(
                old(self).avg_latency_cms,
                old(self).latency_samples,
                latency_cms,
            ),
            final(self).latency_samples == sat_add(old(self).latency_samples, 1),
            final(self).total_flows == sat_add(old(self).total_flows, new_unique_flows),
    {
        self.total_bytes_up = self.total_bytes_up.saturating_add(bytes_up);
        self.total_bytes_down = self.total_bytes_down.saturating_add(bytes_down);
        if bps > self.peak_bps {
            self.peak_bps = bps;
        }
        if flows > self.peak_flows {
            self.peak_flows = flows;
        }
        self.avg_latency_cms = average_step(self.avg_latency_cms, self.latency_samples, latency_cms);
        self.latency_samples = self.latency_samples.saturating_add(1);
        self.total_flows = self.total_flows.saturating_add(new_unique_flows);
    }
}

// ---------------------------------------------------------------- destinations

/// One destination row of a session.
pub struct DestinationRow {
    pub ip: String,
    pub first_seen_ms: u64,
    pub last_seen_ms: u64,
    pub total_bytes: u64,
    pub connection_count: u32,
    pub service: Option<String>,
    pub process: Option<String>,
}

/// The first label observed wins; a later one only fills an empty slot.
pub open spec fn first_label(old_label: Option<String>, new_label: Option<String>) -> Option<String> {
    match old_label {
        Some(l) => Some(l),
        None => new_label,
    }
}

fn keep_first_label(old_label: &Option<String>, new_label: Option<String>) -> (r: Option<String>)
    ensures
        r == first_label(*old_label, new_label),
{
    match old_label {
        Some(l) => Some(l.clone()),
        None => new_label,
    }
}

/// Upserts an observation of destination `ip` at `t_ms` carrying `bytes`:
/// a new row starts with one connection; an existing row keeps the later
/// last-seen time, accumulates bytes, counts one more connection and keeps
/// the labels it already had.
pub fn merge_destination(
    existing: &Option<DestinationRow>,
    ip: String,
    t_ms: u64,
    bytes: u64,
    service: Option<String>,
    process: Option<String>,
) -> (r: DestinationRow)
    ensures
        r.ip == ip,
        match existing {
            None => r.first_seen_ms == t_ms && r.last_seen_ms == t_ms && r.total_bytes == bytes
                && r.connection_count == 1 && r.service == service && r.process == process,
            Some(row) => r.first_seen_ms == row.first_seen_ms && r.last_seen_ms == max_u64(
                row.last_seen_ms,
                t_ms,
            ) && r.total_bytes == sat_add(row.total_bytes, bytes) && r.connection_count == (
            if row.connection_count == u32::MAX {
                u32::MAX
            } else {
                (row.connection_count + 1) as u32
            }) && r.service == first_label(row.service, service) && r.process == first_label(
                row.process,
                process,
            ),
        },
{
    match existing {
        None => DestinationRow {
            ip,
            first_seen_ms: t_ms,
            last_seen_ms: t_ms,
            total_bytes: bytes,
            connection_count: 1,
            service,
            process,
        },
        Some(row) => DestinationRow {
            ip,
            first_seen_ms: row.first_seen_ms,
            last_seen_ms: if row.last_seen_ms >= t_ms {
                row.last_seen_ms
            } else {
                t_ms
            },
            total_bytes: row.total_bytes.saturating_add(bytes),
            connection_count: row.connection_count.saturating_add(1),
            service: keep_first_label(&row.service, service),
            process: keep_first_label(&row.process, process),
        },
    }
}

// ---------------------------------------------------------------- recovery

/// End time given to a session left open: its latest frame time, or its
/// own start time when it has no frames.
pub open spec fn recovery_end_spec(started_at: Seq<char>, last_frame: Option<Seq<char>>) -> Seq<char> {
    match last_frame {
        Some(t) => t,
        None => started_at,
    }
}

/// A session closed by the recovery sweep.
pub struct RecoveredSession {
    pub id: String,
    pub ended_at: String,
    pub crash_recovered: bool,
}

/// Closes a session found open at startup, flagged as recovered.
pub fn recover_session(id: String, started_at: String, last_frame_at: Option<String>) -> (r: RecoveredSession)
    ensures
        r.id == id,
        r.crash_recovered,
        r.ended_at@ == recovery_end_spec(
            started_at@,
            match last_frame_at {
                Some(t) => Some(t@),
                None => None,
            },
        ),
{
    let ended_at = match last_frame_at {
        Some(t) => t,
        None => started_at,
    };
    RecoveredSession { id, ended_at, crash_recovered: true }
}


// ---------------------------------------------------------------- labels

/// Stored name of a protocol code.
pub open spec fn protocol_label_spec(code: u8) -> Seq<char> {
    if code == 1 {
        "tcp"@
    } else if code == 2 {
        "udp"@
    } else if code == 3 {
        "icmp"@
    } else {
        "other"@
    }
}

pub fn protocol_label(code: u8) -> (r: String)
    ensures
        r@ == protocol_label_spec(code),
{
    let t = match code {
        1 => "tcp",
        2 => "udp",
        3 => "icmp",
        _ => "other",
    };
    String::from_str(t)
}

/// Stored name of a service code.
pub open spec fn service_label_spec(code: u8) -> Seq<char> {
    if code == 1 {
        "FTP"@
    } else if code == 2 {
        "SSH"@
    } else if code == 3 || code == 10 {
        "SMTP"@
    } else if code == 4 {
        "DNS"@
    } else if code == 5 {
        "HTTP"@
    } else if code == 6 {
        "POP3"@
    } else if code == 7 {
        "IMAP"@
    } else if code == 8 {
        "HTTPS"@
    } else if code == 9 {
        "SMTPS"@
    } else if code == 11 {
        "IMAPS"@
    } else if code == 12 {
        "POP3S"@
    } else if code == 13 {
        "MSSQL"@
    } else if code == 14 {
        "MySQL"@
    } else if code == 15 {
        "RDP"@
    } else if code == 16 {
        "Postgres"@
    } else if code == 17 {
        "VNC"@
    } else if code == 18 {
        "Redis"@
    } else if code == 19 {
        "HTTP-Alt"@
    } else if code == 20 {
        "HTTPS-Alt"@
    } else if code == 21 {
        "MongoDB"@
    } else if code == 22 {
        "Prometheus"@
    } else {
        "Unknown"@
    }
}

pub fn service_label(code: u8) -> (r: String)
    ensures
        r@ == service_label_spec(code),
{
    let t = match code {
        1 => "FTP",
        2 => "SSH",
        3 => "SMTP",
        4 => "DNS",
        5 => "HTTP",
        6 => "POP3",
        7 => "IMAP",
        8 => "HTTPS",
        9 => "SMTPS",
        10 => "SMTP",
        11 => "IMAPS",
        12 => "POP3S",
        13 => "MSSQL",
        14 => "MySQL",
        15 => "RDP",
        16 => "Postgres",
        17 => "VNC",
        18 => "Redis",
        19 => "HTTP-Alt",
        20 => "HTTPS-Alt",
        21 => "MongoDB",
        22 => "Prometheus",
        _ => "Unknown",
    };
    String::from_str(t)
}

/// Coarse service class kept on destination rows.
pub open spec fn destination_service_spec(code: u8) -> Seq<char> {
    if code == 4 {
        "DNS"@
    } else if code == 5 {
        "HTTP"@
    } else if code == 8 {
        "HTTPS"@
    } else {
        "Other"@
    }
}

pub fn destination_service(code: u8) -> (r: String)
    ensures
        r@ == destination_service_spec(code),
{
    let t = match code {
        4 => "DNS",
        5 => "HTTP",
        8 => "HTTPS",
        _ => "Other",
    };
    String::from_str(t)
}

// ---------------------------------------------------------------- process usage

/// Usage of one process over an aggregation interval.
pub struct ProcessUsage {
    pub name: String,
    pub bytes_up: u64,
    pub bytes_down: u64,
    pub flow_count: u32,
    pub rtt_sum_cms: u64,
    pub rtt_samples: u32,
}

pub struct UsageView {
    pub name: Seq<char>,
    pub bytes_up: int,
    pub bytes_down: int,
    pub flow_count: int,
    pub rtt_sum_cms: int,
    pub rtt_samples: int,
}

pub open spec fn usage_view(u: ProcessUsage) -> UsageView {
    UsageView {
        name: u.name@,
        bytes_up: u.bytes_up as int,
        bytes_down: u.bytes_down as int,
        flow_count: u.flow_count as int,
        rtt_sum_cms: u.rtt_sum_cms as int,
        rtt_samples: u.rtt_samples as int,
    }
}

/// `x` saturated at the largest `u64`.
pub open spec fn cap64(x: int) -> int {
    if x > u64::MAX as int {
        u64::MAX as int
    } else {
        x
    }
}

/// `x` saturated at the largest `u32`.
pub open spec fn cap32(x: int) -> int {
    if x > u32::MAX as int {
        u32::MAX as int
    } else {
        x
    }
}

/// Name under which a flow's usage is recorded.
pub open spec fn usage_name(f: GeoFlow) -> Seq<char> {
    match f.process {
        Some(p) => p@,
        None => "System"@,
    }
}

/// Bytes a flow moves over `secs` seconds: `bps * secs / 8`, rounded down.
pub open spec fn flow_bytes(f: GeoFlow, secs: u32) -> int {
    f.bps as int * secs as int / 8
}

/// Upload share of a flow's bytes: all when up, none when down, half
/// (rounded down) when bidirectional.
pub open spec fn up_share(f: GeoFlow, secs: u32) -> int {
    match f.dir {
        Direction::Up => flow_bytes(f, secs),
        Direction::Down => 0,
        Direction::Bidi => f.bps as int * secs as int / 16,
    }
}

pub open spec fn down_share(f: GeoFlow, secs: u32) -> int {
    match f.dir {
        Direction::Up => 0,
        Direction::Down => flow_bytes(f, secs),
        Direction::Bidi => f.bps as int * secs as int / 16,
    }
}

pub open spec fn usage_index(us: Seq<UsageView>, name: Seq<char>) -> int
    decreases us.len(),
{
    if us.len() == 0 {
        -1
    } else if us.last().name == name {
        us.len() - 1
    } else {
        usage_index(us.drop_last(), name)
    }
}

/// `us` after adding flow `f`: its process's record grows (every sum
/// saturating), or a new one is appended.
pub open spec fn add_usage(us: Seq<UsageView>, f: GeoFlow, secs: u32) -> Seq<UsageView> {
    let k = usage_index(us, usage_name(f));
    if k >= 0 {
        us.update(
            k,
            UsageView {
                name: us[k].name,
                bytes_up: cap64(us[k].bytes_up + up_share(f, secs)),
                bytes_down: cap64(us[k].bytes_down + down_share(f, secs)),
                flow_count: cap32(us[k].flow_count + 1),
                rtt_sum_cms: cap64(us[k].rtt_sum_cms + f.rtt_cms),
                rtt_samples: cap32(us[k].rtt_samples + 1),
            },
        )
    } else {
        us.push(
            UsageView {
                name: usage_name(f),
                bytes_up: cap64(up_share(f, secs)),
                bytes_down: cap64(down_share(f, secs)),
                flow_count: 1,
                rtt_sum_cms: f.rtt_cms as int,
                rtt_samples: 1,
            },
        )
    }
}

/// Usage per process name over `fs`, in order of first appearance.
pub open spec fn usage_of(fs: Seq<GeoFlow>, secs: u32) -> Seq<UsageView>
    decreases fs.len(),
{
    if fs.len() == 0 {
        Seq::empty()
    } else {
        add_usage(usage_of(fs.drop_last(), secs), fs.last(), secs)
    }
}

proof fn lemma_usage_index(us: Seq<UsageView>, name: Seq<char>)
    ensures
        -1 <= usage_index(us, name) < us.len(),
    decreases us.len(),
{
    if us.len() > 0 {
        lemma_usage_index(us.drop_last(), name);
    }
}

/// Every usage record counts one round-trip sample per flow.
pub proof fn lemma_samples_match_flows(fs: Seq<GeoFlow>, secs: u32)
    ensures
        forall|k: int| 0 <= k < usage_of(fs, secs).len() ==> (#[trigger] usage_of(fs, secs)[k]).rtt_samples
            == usage_of(fs, secs)[k].flow_count,
    decreases fs.len(),
{
    if fs.len() > 0 {
        lemma_samples_match_flows(fs.drop_last(), secs);
        lemma_usage_index(usage_of(fs.drop_last(), secs), usage_name(fs.last()));
    }
}

pub open spec fn usage_views(v: Seq<ProcessUsage>) -> Seq<UsageView> {
    v.map_values(|u: ProcessUsage| usage_view(u))
}

/// `a + b` saturated at the largest `u64`.
fn add_capped(a: u64, b: u128) -> (r: u64)
    requires
        b <= 0x1_0000_0000_0000_0000_0000_0000,
    ensures
        r == cap64(a + b),
{
    let t = (a as u128) + b;
    if t > u64::MAX as u128 {
        u64::MAX
    } else {
        t as u64
    }
}

/// Aggregates one interval's flows by process: bytes split by direction,
/// flow count, round-trip sum and sample count per process name ("System"
/// when unknown); every sum saturates.
pub fn aggregate_process_usage(flows: &Vec<GeoFlow>, interval_secs: u32) -> (r: Vec<ProcessUsage>)
    ensures
        usage_views(r@) == usage_of(flows@, interval_secs),
        forall|k: int| 0 <= k < r@.len() ==> (#[trigger] r@[k]).rtt_samples == r@[k].flow_count,
{
    proof {
        reveal_strlit("System");
    }
    let mut out: Vec<ProcessUsage> = Vec::new();
    let mut i: usize = 0;
    assert(flows@.take(0) =~= Seq::<GeoFlow>::empty());
    while i < flows.len()
        invariant
            i <= flows@.len(),
            usage_views(out@) == usage_of(flows@.take(i as int), interval_secs),
        decreases flows@.len() - i,
    {
        let f = &flows[i];
        assert(flows@.take(i as int + 1).drop_last() =~= flows@.take(i as int));
        assert(flows@.take(i as int + 1).last() == *f);
        let name = match &f.process {
            Some(p) => p.clone(),
            None => String::from_str("System"),
        };
        let bps = f.bps as u128;
        let secs = interval_secs as u128;
        proof {
            assert(bps * secs <= 0xFFFF_FFFF_FFFF_FFFF * 0xFFFF_FFFF) by (nonlinear_arith)
                requires
                    bps <= 0xFFFF_FFFF_FFFF_FFFF,
                    secs <= 0xFFFF_FFFF,
            ;
        }
        let whole: u128 = bps * secs / 8;
        let half: u128 = bps * secs / 16;
        let (up, down): (u128, u128) = match f.dir {
            Direction::Up => (whole, 0),
            Direction::Down => (0, whole),
            Direction::Bidi => (half, half),
        };
        let ghost before = usage_views(out@);
        proof {
            lemma_usage_index(before, name@);
        }
        let mut k = out.len();
        assert(before.take(k as int) =~= before);
        while k > 0 && out[k - 1].name != name
            invariant
                k <= out@.len(),
                before == usage_views(out@),
                usage_index(before.take(k as int), name@) == usage_index(before, name@),
            decreases k,
        {
            assert(before.take(k as int).drop_last() =~= before.take(k as int - 1));
            k = k - 1;
        }
        if k > 0 {
            assert(before.take(k as int).drop_last() =~= before.take(k as int - 1));
            assert(usage_index(before, name@) == k - 1);
            let idx = k - 1;
            let old_u = out.remove(idx);
            let nu = ProcessUsage {
                name: old_u.name,
                bytes_up: add_capped(old_u.bytes_up, up),
                bytes_down: add_capped(old_u.bytes_down, down),
                flow_count: old_u.flow_count.saturating_add(1),
                rtt_sum_cms: add_capped(old_u.rtt_sum_cms, f.rtt_cms as u128),
                rtt_samples: old_u.rtt_samples.saturating_add(1),
            };
            out.insert(idx, nu);
            assert(usage_views(out@) =~= add_usage(before, *f, interval_secs));
        } else {
            assert(before.take(0) =~= Seq::<UsageView>::empty());
            out.push(
                ProcessUsage {
                    name,
                    bytes_up: add_capped(0, up),
                    bytes_down: add_capped(0, down),
                    flow_count: 1,
                    rtt_sum_cms: f.rtt_cms,
                    rtt_samples: 1,
                },
            );
            assert(usage_views(out@) =~= add_usage(before, *f, interval_secs));
        }
        i = i + 1;
    }
    assert(flows@.take(flows@.len() as int) =~= flows@);
    proof {
        lemma_samples_match_flows(flows@, interval_secs);
        assert forall|k: int| 0 <= k < out@.len() implies (#[trigger] out@[k]).rtt_samples == out@[k].flow_count by {
            assert(usage_views(out@)[k] == usage_view(out@[k]));
        }
    }
    out
}

} // verus!
