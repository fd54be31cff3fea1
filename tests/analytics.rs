use abyss::analytics::{
    compute_health_score, detect_anomalies, AnomalyKind, BaselineBucket, MetricStats, ProtoTotals,
    SessionPeaks, Severity,
};

fn stats(xs: &[u64]) -> MetricStats {
    let mut s = MetricStats::empty();
    for &x in xs {
        assert!(s.add(x));
    }
    s
}

fn bucket(bps: &[u64], flows: &[u64], latency: &[u64]) -> BaselineBucket {
    BaselineBucket {
        hour_of_day: 14,
        day_of_week: 3,
        bps: stats(bps),
        flows: stats(flows),
        latency: stats(latency),
        common_processes: vec!["chrome.exe".to_string(), "svchost.exe".to_string()],
        common_countries: vec!["US".to_string(), "DE".to_string()],
    }
}

#[test]
fn variance_of_samples() {
    assert_eq!(stats(&[7]).scaled_variance(), 0);
    assert_eq!(stats(&[]).scaled_variance(), 0);
    // mean 5, population variance 4: n^2 * 4 = 64 * 4
    assert_eq!(stats(&[2, 4, 4, 4, 5, 5, 7, 9]).scaled_variance(), 256);
    let mut s = MetricStats::empty();
    assert!(!s.add(1 << 40));
    assert_eq!(s.count, 0);
}

// mean 10, standard deviation 2 (n = 4)
const TEN_TWO: [u64; 4] = [8, 8, 12, 12];

#[test]
fn boundary_peak_is_excluded_and_one_more_included() {
    let b = bucket(&[8, 8, 12, 12, 10], &[1, 1, 1, 1, 1], &[5, 5, 5, 5, 5]);
    // bps: n = 5, sum 50, squares 516: variance 0.64*... use exact threshold search instead
    let none = Vec::new();
    let ports: Vec<u16> = Vec::new();
    let at = |peak: u64| {
        detect_anomalies(&b, SessionPeaks { bps: peak, flows: 1, latency_cms: 5 }, &none, &none, &ports)
    };
    // scaled variance V = 5*516 - 2500 = 80; spike when (5x - 50)^2 > 4 * 80
    // 5x - 50 = 17.9 -> x = 13.58; x = 13 gives 15^2 = 225 (no), x = 14 gives 400 (yes)
    assert!(at(13).is_empty());
    assert_eq!(at(14).len(), 1);
    let _ = TEN_TWO;
}

#[test]
fn exact_boundary_with_integer_sigma() {
    // samples 8, 12 (n = 2): mean 10, sigma 2; V = 2*208 - 400 = 16, sqrt(V) = 4
    let mut b = bucket(&[8, 12, 8, 12, 8, 12], &[1; 6], &[1; 6]);
    b.bps = stats(&[8, 12, 8, 12, 8, 12]);
    let none = Vec::new();
    let ports: Vec<u16> = Vec::new();
    // mean 10, sigma 2: 2 sigma above is 14, exactly on the boundary
    let exactly = detect_anomalies(&b, SessionPeaks { bps: 14, flows: 1, latency_cms: 1 }, &none, &none, &ports);
    assert!(exactly.is_empty());
    let above = detect_anomalies(&b, SessionPeaks { bps: 15, flows: 1, latency_cms: 1 }, &none, &none, &ports);
    assert_eq!(above.len(), 1);
    assert_eq!(above[0].kind, AnomalyKind::ThroughputSpike);
    assert_eq!(above[0].severity, Severity::Low);
    assert_eq!(above[0].current_value, 15);
    assert_eq!(above[0].baseline, Some(b.bps));
    // 3 sigma = 16 (boundary, still low), 17 medium, 4 sigma = 18 boundary, 19 high
    let sev = |x: u64| detect_anomalies(&b, SessionPeaks { bps: x, flows: 1, latency_cms: 1 }, &none, &none, &ports)[0].severity;
    assert_eq!(sev(16), Severity::Low);
    assert_eq!(sev(17), Severity::Medium);
    assert_eq!(sev(18), Severity::Medium);
    assert_eq!(sev(19), Severity::High);
}

#[test]
fn flow_threshold_is_three_sigma() {
    let b = bucket(&[1; 6], &[8, 12, 8, 12, 8, 12], &[1; 6]);
    let none = Vec::new();
    let ports: Vec<u16> = Vec::new();
    let at = |x: u64| detect_anomalies(&b, SessionPeaks { bps: 1, flows: x, latency_cms: 1 }, &none, &none, &ports);
    assert!(at(15).is_empty());
    assert!(at(16).is_empty());
    assert_eq!(at(17)[0].kind, AnomalyKind::ExcessiveFlows);
    assert_eq!(at(17)[0].severity, Severity::Low);
    assert_eq!(at(19)[0].severity, Severity::Medium);
    assert_eq!(at(21)[0].severity, Severity::High);
}

#[test]
fn names_countries_and_ports() {
    let b = bucket(&[1; 6], &[1; 6], &[1; 6]);
    let procs = vec!["chrome.exe".to_string(), "miner.exe".to_string()];
    let countries = vec!["US".to_string(), "KP".to_string()];
    let ports = vec![443u16, 6667, 31337, 50000, 0, 23];
    let r = detect_anomalies(&b, SessionPeaks { bps: 1, flows: 1, latency_cms: 1 }, &procs, &countries, &ports);
    assert_eq!(r.len(), 5);
    assert_eq!(r[0].kind, AnomalyKind::UnusualProcess);
    assert_eq!(r[0].subject.as_deref(), Some("miner.exe"));
    assert_eq!(r[0].baseline, None);
    assert_eq!(r[1].kind, AnomalyKind::NewCountry);
    assert_eq!(r[1].subject.as_deref(), Some("KP"));
    assert_eq!((r[2].kind, r[2].severity, r[2].current_value), (AnomalyKind::UnusualPort, Severity::Low, 6667));
    assert_eq!((r[3].severity, r[3].current_value), (Severity::Low, 31337));
    assert_eq!((r[4].severity, r[4].current_value), (Severity::Medium, 23));
}

#[test]
fn small_bucket_yields_nothing_and_cap_applies() {
    let small = bucket(&[1; 4], &[1; 4], &[1; 4]);
    let procs: Vec<String> = (0..30).map(|i| format!("p{i}.exe")).collect();
    let none = Vec::new();
    let ports: Vec<u16> = Vec::new();
    let peaks = SessionPeaks { bps: 1, flows: 1, latency_cms: 1 };
    assert!(detect_anomalies(&small, peaks, &procs, &none, &ports).is_empty());
    let b = bucket(&[1; 5], &[1; 5], &[1; 5]);
    assert_eq!(detect_anomalies(&b, peaks, &procs, &none, &ports).len(), 20);
}

#[test]
fn no_data_health_score() {
    let h = compute_health_score(&MetricStats::empty(), &MetricStats::empty(), &ProtoTotals { tcp: 0, udp: 0, dns: 0, https: 0, http: 0, other: 0 }, 0);
    assert_eq!(h.score, 0);
    assert!(h.details.starts_with("No data available"));
}

#[test]
fn health_score_parts() {
    // mean latency 100 ms: 25 * (1 - 0.2) = 20
    let lat = stats(&[10_000, 10_000]);
    // flat throughput: coefficient of variation 0
    let bps = stats(&[5_000, 5_000]);
    let protos = ProtoTotals { tcp: 3, udp: 1, dns: 1, https: 0, http: 0, other: 0 };
    let h = compute_health_score(&lat, &bps, &protos, 2);
    assert_eq!(h.latency_score, 20);
    assert_eq!(h.stability_score, 25);
    assert_eq!(h.diversity_score, 13);
    assert_eq!(h.anomaly_score, 15);
    assert_eq!(h.score, 73);
    assert_eq!(h.details, "Good network health");
}

#[test]
fn health_score_variation_and_saturation() {
    // mean latency 600 ms saturates at 0
    let lat = stats(&[60_000]);
    // samples 0 and 200: mean 100, sigma 100, cv 1: 25 * (1 - 0.5) = 12.5 -> 13
    let bps = stats(&[0, 200]);
    let protos = ProtoTotals { tcp: 1, udp: 1, dns: 1, https: 1, http: 1, other: 1 };
    let h = compute_health_score(&lat, &bps, &protos, 9);
    assert_eq!(h.latency_score, 0);
    assert_eq!(h.stability_score, 13);
    assert_eq!(h.diversity_score, 25);
    assert_eq!(h.anomaly_score, 0);
    assert_eq!(h.score, 38);
    assert_eq!(h.details, "Poor network health — significant issues");
    // samples 0, 0, 0, 400: mean 100, sigma 173.2, cv 1.732: 25 * (1 - 0.866) = 3.35 -> 3
    let h2 = compute_health_score(&stats(&[0]), &stats(&[0, 0, 0, 400]), &protos, 0);
    assert_eq!(h2.latency_score, 25);
    assert_eq!(h2.stability_score, 3);
    assert_eq!(h2.score, 78);
    assert_eq!(h2.details, "Good network health");
}

use abyss::analytics::{most_common, BaselineAccumulator};

fn strings(xs: &[&str]) -> Vec<String> {
    xs.iter().map(|s| s.to_string()).collect()
}

#[test]
fn most_common_names_by_frequency() {
    let names = strings(&["a", "b", "a", "c", "b", "a", "d"]);
    assert_eq!(most_common(&names, 2), strings(&["a", "b"]));
    assert_eq!(most_common(&names, 10), strings(&["a", "b", "c", "d"]));
    assert_eq!(most_common(&strings(&["y", "x", "x", "y"]), 1), strings(&["y"]));
    assert!(most_common(&Vec::new(), 10).is_empty());
    let many: Vec<String> = (0..12).map(|i| format!("p{i}")).collect();
    assert_eq!(most_common(&many, 10).len(), 10);
}

#[test]
fn baseline_slots_group_samples() {
    let mut acc = BaselineAccumulator::new();
    assert!(acc.add_frame(14, 3, 100, 5, 2_000));
    assert!(acc.add_frame(14, 3, 300, 7, 4_000));
    assert!(acc.add_frame(15, 3, 999, 1, 1));
    assert!(!acc.add_frame(14, 3, 1 << 40, 1, 1));
    let b = acc.bucket(14, 3, &strings(&["x.exe", "y.exe", "y.exe"]), &strings(&["US"]));
    assert_eq!((b.bps.count, b.bps.sum), (2, 400));
    assert_eq!(b.flows.square_sum, 74);
    assert_eq!(b.latency.scaled_variance(), 2 * (4_000_000 + 16_000_000) - 36_000_000);
    assert_eq!(b.common_processes, strings(&["y.exe", "x.exe"]));
    assert_eq!(b.common_countries, strings(&["US"]));
    let empty = acc.bucket(0, 0, &Vec::new(), &Vec::new());
    assert_eq!(empty.bps.count, 0);
}

use abyss::analytics::{count_non_low, slot_time, Anomaly};

#[test]
fn slot_of_timestamps() {
    assert_eq!(slot_time(0), (0, 4));
    assert_eq!(slot_time(1_700_000_000), (22, 2));
    assert_eq!(slot_time(86_400 * 3 + 3_600 * 5), (5, 0));
}

#[test]
fn counting_serious_findings() {
    let f = |severity| Anomaly { kind: AnomalyKind::UnusualPort, severity, subject: None, current_value: 1, baseline: None };
    let v = vec![f(Severity::Low), f(Severity::High), f(Severity::Medium), f(Severity::Low)];
    assert_eq!(count_non_low(&v), 2);
    assert_eq!(count_non_low(&Vec::new()), 0);
}
