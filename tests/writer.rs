use abyss::frame::{Direction, GeoEndpoint, GeoFlow};
use abyss::writer::{
    aggregate_process_usage, destination_service, interval_bytes, merge_destination,
    protocol_label, recover_session, service_label, should_persist_flows, DestinationRow,
    Schedule, SessionTotals, WriterState,
};

#[test]
fn frames_without_session_are_skipped() {
    let mut w = WriterState::new();
    assert!(w.plan_frame().is_none());
    assert_eq!(w.tick_counter, 0);
}

#[test]
fn schedules_fire_on_their_own_ticks() {
    let mut w = WriterState::new();
    w.start_session("A".to_string());
    let mut plans = Vec::new();
    for _ in 0..30 {
        plans.push(w.plan_frame().unwrap());
    }
    assert!(plans.iter().all(|p| p.session_id == "A"));
    let ticks = |f: fn(&abyss::writer::FramePlan) -> bool| -> Vec<u32> {
        plans.iter().filter(|p| f(p)).map(|p| p.tick).collect()
    };
    assert_eq!(ticks(|p| p.write_frame), vec![5, 10, 15, 20, 25, 30]);
    assert_eq!(ticks(|p| p.write_flows), vec![10, 20, 30]);
    assert_eq!(ticks(|p| p.update_totals), vec![5, 10, 15, 20, 25, 30]);
    assert_eq!(ticks(|p| p.upsert_destinations), vec![10, 20, 30]);
    assert_eq!(ticks(|p| p.aggregate_processes), vec![30]);
    assert!(should_persist_flows(&plans[9], Some(7)));
    assert!(!should_persist_flows(&plans[9], None));
    assert!(!should_persist_flows(&plans[4], Some(7)));
}

#[test]
fn start_end_sequence_keeps_frames_on_the_session() {
    let mut w = WriterState::with_schedule(Schedule { frame: 1, flows: 2, totals: 1, destinations: 3, processes: 4 });
    w.start_session("A".to_string());
    let first = w.plan_frame().unwrap();
    let second = w.plan_frame().unwrap();
    assert_eq!((first.session_id.as_str(), first.tick), ("A", 1));
    assert_eq!((second.session_id.as_str(), second.tick), ("A", 2));
    assert!(second.write_flows && !first.write_flows);
    assert_eq!(w.session_to_finalize().as_deref(), Some("A"));
    w.end_session();
    assert_eq!(w.tick_counter, 0);
    assert!(w.plan_frame().is_none());
    assert_eq!(w.session_to_finalize(), None);
}

#[test]
fn restart_resets_counters() {
    let mut w = WriterState::new();
    w.start_session("A".to_string());
    w.plan_frame();
    w.note_destination("1.1.1.1".to_string());
    w.start_session("B".to_string());
    assert_eq!(w.tick_counter, 0);
    assert!(w.seen_dest_ips.is_empty());
    assert_eq!(w.plan_frame().unwrap().session_id, "B");
}

#[test]
fn totals_accumulate() {
    let mut t = SessionTotals::zero();
    t.accumulate(100, 200, 5_000, 3, 1_000, 0);
    assert_eq!(t.avg_latency_cms, 1_000);
    t.accumulate(50, 0, 2_000, 7, 2_000, 2);
    assert_eq!((t.total_bytes_up, t.total_bytes_down), (150, 200));
    assert_eq!((t.peak_bps, t.peak_flows), (5_000, 7));
    assert_eq!(t.avg_latency_cms, 1_500);
    t.accumulate(0, 0, 0, 0, 3_000, 0);
    assert_eq!(t.avg_latency_cms, 2_000);
    assert_eq!(t.latency_samples, 3);
    assert_eq!(t.total_flows, 2);
    t.accumulate(u64::MAX, 0, 0, 0, 0, 0);
    assert_eq!(t.total_bytes_up, u64::MAX);
}

#[test]
fn interval_byte_estimate() {
    assert_eq!(interval_bytes(8_000, 5), 5_000);
    assert_eq!(interval_bytes(100_001, 5), 62_500);
    assert_eq!(interval_bytes(u64::MAX, 30), u64::MAX);
}

#[test]
fn destination_upsert_keeps_first_labels() {
    let first = merge_destination(&None, "1.1.1.1".to_string(), 10, 500, None, Some("a.exe".to_string()));
    assert_eq!((first.first_seen_ms, first.last_seen_ms, first.total_bytes, first.connection_count), (10, 10, 500, 1));
    let second = merge_destination(&Some(first), "1.1.1.1".to_string(), 5, 250, Some("HTTPS".to_string()), Some("b.exe".to_string()));
    assert_eq!(second.last_seen_ms, 10);
    assert_eq!(second.total_bytes, 750);
    assert_eq!(second.connection_count, 2);
    assert_eq!(second.service.as_deref(), Some("HTTPS"));
    assert_eq!(second.process.as_deref(), Some("a.exe"));
    let third = merge_destination(&Some(second), "1.1.1.1".to_string(), 40, 0, Some("DNS".to_string()), None);
    assert_eq!(third.last_seen_ms, 40);
    assert_eq!(third.service.as_deref(), Some("HTTPS"));
    let _: DestinationRow = third;
}

#[test]
fn crash_recovery_end_time() {
    let with_frames = recover_session("s1".to_string(), "2024-01-01T10:00:00Z".to_string(), Some("2024-01-01T11:30:00Z".to_string()));
    assert_eq!(with_frames.ended_at, "2024-01-01T11:30:00Z");
    assert!(with_frames.crash_recovered);
    let empty = recover_session("s2".to_string(), "2024-01-02T08:00:00Z".to_string(), None);
    assert_eq!(empty.ended_at, "2024-01-02T08:00:00Z");
    assert_eq!(empty.id, "s2");
}

#[test]
fn labels() {
    assert_eq!(protocol_label(1), "tcp");
    assert_eq!(protocol_label(3), "icmp");
    assert_eq!(protocol_label(9), "other");
    assert_eq!(service_label(10), "SMTP");
    assert_eq!(service_label(22), "Prometheus");
    assert_eq!(service_label(0), "Unknown");
    assert_eq!(destination_service(8), "HTTPS");
    assert_eq!(destination_service(2), "Other");
}

fn flow(process: Option<&str>, bps: u64, dir: Direction, rtt: u64) -> GeoFlow {
    let end = || GeoEndpoint {
        ip: "1.1.1.1".to_string(),
        lat_e2: 0,
        lng_e2: 0,
        city: String::new(),
        country: String::new(),
        asn: None,
        org: None,
    };
    GeoFlow {
        id: "live-x".to_string(),
        src: end(),
        dst: end(),
        bps,
        pps: 1,
        rtt_cms: rtt,
        protocol: 1,
        dir,
        port: 443,
        service: Some(8),
        started_at_ms: 0,
        process: process.map(|p| p.to_string()),
        pid: None,
        state: None,
    }
}

#[test]
fn process_usage_splits_by_direction() {
    let flows = vec![
        flow(Some("a.exe"), 8_000, Direction::Up, 100),
        flow(None, 16_000, Direction::Down, 200),
        flow(Some("a.exe"), 8_000, Direction::Bidi, 300),
    ];
    let usage = aggregate_process_usage(&flows, 30);
    assert_eq!(usage.len(), 2);
    assert_eq!(usage[0].name, "a.exe");
    assert_eq!((usage[0].bytes_up, usage[0].bytes_down), (30_000 + 15_000, 15_000));
    assert_eq!((usage[0].flow_count, usage[0].rtt_sum_cms, usage[0].rtt_samples), (2, 400, 2));
    assert_eq!(usage[1].name, "System");
    assert_eq!((usage[1].bytes_up, usage[1].bytes_down), (0, 60_000));
}

use abyss::writer::SessionSlot;

#[test]
fn starting_a_session_ends_the_previous_one() {
    let mut slot = SessionSlot::new();
    assert_eq!(slot.stop(), None);
    assert_eq!(slot.start("a".to_string()), None);
    assert_eq!(slot.start("b".to_string()).as_deref(), Some("a"));
    assert_eq!(slot.current.as_deref(), Some("b"));
    assert_eq!(slot.stop().as_deref(), Some("b"));
    assert_eq!(slot.current, None);
}

#[test]
fn process_usage_saturates_instead_of_overflowing() {
    let flows = vec![
        flow(Some("big.exe"), u64::MAX, Direction::Up, u64::MAX),
        flow(Some("big.exe"), u64::MAX, Direction::Down, 5),
    ];
    let usage = aggregate_process_usage(&flows, 30);
    assert_eq!(usage.len(), 1);
    assert_eq!(usage[0].bytes_up, u64::MAX);
    assert_eq!(usage[0].bytes_down, u64::MAX);
    assert_eq!(usage[0].rtt_sum_cms, u64::MAX);
    assert_eq!((usage[0].flow_count, usage[0].rtt_samples), (2, 2));
}
