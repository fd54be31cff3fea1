//! Change gate: whether a frame differs enough from the last emitted one to
//! be sent in full rather than as a heartbeat.
use vstd::prelude::*;
use crate::frame::NetMetrics;

verus! {

/// Change in active flow count that is always material.
pub const MATERIAL_FLOW_DELTA: u64 = 2;
/// Relative throughput change, in percent, that is material together with
/// the absolute floor below.
pub const MATERIAL_THROUGHPUT_DELTA_PCT: u64 = 7;
/// Smallest absolute throughput change, in bits per second, that is material.
pub const MATERIAL_MIN_BPS_DELTA: u64 = 900_000;
/// Latency change that is material: 10 ms, in hundredths of a millisecond.
pub const MATERIAL_LATENCY_DELTA_CMS: u64 = 1000;

/// Metrics of the last frame emitted in full.
#[derive(Clone, Copy, Debug, PartialEq, Eq, Structural)]
pub struct FrameSnapshot {
    pub active_flows: u32,
    pub bps: u64,
    pub latency_cms: u64,
}

pub open spec fn abs_diff(a: int, b: int) -> int {
    if a >= b {
        a - b
    } else {
        b - a
    }
}

/// Material change: no previous frame, or the flow count moved by at least
/// the flow threshold, or throughput moved by at least the absolute floor
/// and at least the percentage of the previous throughput (taken as at
/// least 1), or latency moved by at least the latency threshold.
pub open spec fn material_spec(prev: Option<FrameSnapshot>, next: NetMetrics) -> bool {
    match prev {
        None => true,
        Some(p) => {
            let db = abs_diff(next.bps as int, p.bps as int);
            let base = if p.bps >= 1 {
                p.bps as int
            } else {
                1
            };
            abs_diff(p.active_flows as int, next.active_flows as int) >= MATERIAL_FLOW_DELTA
                || (db >= MATERIAL_MIN_BPS_DELTA && db * 100 >= MATERIAL_THROUGHPUT_DELTA_PCT
                * base) || abs_diff(next.latency_cms as int, p.latency_cms as int)
                >= MATERIAL_LATENCY_DELTA_CMS
        },
    }
}

fn diff(a: u64, b: u64) -> (r: u64)
    ensures
        r == abs_diff(a as int, b as int),
{
    if a >= b {
        a - b
    } else {
        b - a
    }
}

/// Whether `next` must be emitted in full after `prev`.
pub fn is_material_change(prev: Option<FrameSnapshot>, next: &NetMetrics) -> (r: bool)
    ensures
        r == material_spec(prev, *next),
{
    let p = match prev {
        None => {
            return true;
        },
        Some(p) => p,
    };
    if diff(p.active_flows as u64, next.active_flows as u64) >= MATERIAL_FLOW_DELTA {
        return true;
    }
    let base: u64 = if p.bps >= 1 {
        p.bps
    } else {
        1
    };
    let db = diff(next.bps, p.bps);
    let scaled_delta: u128 = (db as u128) * 100;
    let scaled_base: u128 = (base as u128) * 7;
    assert(MATERIAL_THROUGHPUT_DELTA_PCT == 7);
    if db >= MATERIAL_MIN_BPS_DELTA && scaled_delta >= scaled_base {
        return true;
    }
    diff(next.latency_cms, p.latency_cms) >= MATERIAL_LATENCY_DELTA_CMS
}

/// Snapshot of `m` for comparison with the next frame.
pub fn snapshot_of(m: &NetMetrics) -> (r: FrameSnapshot)
    ensures
        r.active_flows == m.active_flows,
        r.bps == m.bps,
        r.latency_cms == m.latency_cms,
{
    FrameSnapshot { active_flows: m.active_flows, bps: m.bps, latency_cms: m.latency_cms }
}

/// A frame equal to the previous one in flow count, throughput and latency
/// is never material.
pub proof fn lemma_unchanged_not_material(prev: FrameSnapshot, next: NetMetrics)
    requires
        next.active_flows == prev.active_flows,
        next.bps == prev.bps,
        next.latency_cms == prev.latency_cms,
    ensures
        !material_spec(Some(prev), next),
{
}

/// A flow-count change of at least the threshold is always material,
/// whatever the other fields hold.
pub proof fn lemma_flow_jump_material(prev: FrameSnapshot, next: NetMetrics)
    requires
        abs_diff(prev.active_flows as int, next.active_flows as int) >= MATERIAL_FLOW_DELTA,
    ensures
        material_spec(Some(prev), next),
{
}

} // verus!
