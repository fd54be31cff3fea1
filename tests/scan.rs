use abyss::geo::{batch_updates, limit_batch, reply_outcome, GeoCache, GeoReply};
use abyss::monitor::{geo_dispatch_due, heartbeat_of, process_refresh, scan_due, FlowPresence};
use abyss::frame::{NetMetrics, ParsedConnection, ProtoCounters, TelemetryFrame};
use abyss::geo::GeoScheduler;
use abyss::scan::{parse_connection_table, parse_process_list};

const TABLE: &str = "
Active Connections

  Proto  Local Address          Foreign Address        State           PID
  TCP    192.168.1.10:52100     93.184.216.34:443      ESTABLISHED     4242
  TCP    192.168.1.10:52101     10.0.0.5:445           ESTABLISHED     4
  TCP    0.0.0.0:135            0.0.0.0:0              LISTENING       1000
  TCP    [fe80::1]:5000         [2606:4700::1111]:443  TIME_WAIT       0
  UDP    0.0.0.0:5353           *:*                                    2000
  UDP    192.168.1.10:60000     8.8.8.8:53                             3100
  tcp    192.168.1.10:1         1.1.1.1:80             SYN_SENT
  ICMP   1.2.3.4:1              5.6.7.8:1              X               1
";

fn c(remote: &str, port: u16, proto: &str, state: &str, pid: u32) -> (String, u16, String, String, u32) {
    (remote.to_string(), port, proto.to_string(), state.to_string(), pid)
}

#[test]
fn connection_table_rows() {
    let rows = parse_connection_table(TABLE);
    let got: Vec<_> = rows
        .iter()
        .map(|r| (r.remote_ip.clone(), r.remote_port, r.proto.clone(), r.state.clone(), r.pid))
        .collect();
    assert_eq!(
        got,
        vec![
            c("93.184.216.34", 443, "tcp", "ESTABLISHED", 4242),
            c("2606:4700::1111", 443, "tcp", "TIME_WAIT", 0),
            c("8.8.8.8", 53, "udp", "STATELESS", 3100),
            c("1.1.1.1", 80, "tcp", "SYN_SENT", 0),
        ]
    );
    assert_eq!(rows[0].local_ip, "192.168.1.10");
    assert_eq!(rows[1].local_ip, "fe80::1");
}

#[test]
fn connection_table_crlf_and_empty() {
    assert!(parse_connection_table("").is_empty());
    let rows = parse_connection_table("TCP 1.2.3.4:1 9.9.9.9:853 ESTABLISHED 77\r\n");
    assert_eq!(rows.len(), 1);
    assert_eq!(rows[0].pid, 77);
    assert_eq!(rows[0].state, "ESTABLISHED");
}

#[test]
fn process_list_rows() {
    let text = "\"System Idle Process\",\"0\",\"Services\",\"0\",\"8 K\"\r\n\"chrome.exe\",\"1234\",\"Console\",\"1\",\"12,345 K\"\r\n\"  spaced.exe \",\" 77 \",\"x\"\r\n\r\n\"broken\",\"x1\"\r\n\"a,b.exe\",\"5\"\r\n\"lonely\"\r\n";
    let got = parse_process_list(text);
    assert_eq!(
        got,
        vec![
            (1234, "chrome.exe".to_string()),
            (77, "spaced.exe".to_string()),
            (5, "a,b.exe".to_string()),
        ]
    );
}

fn reply(status: &str) -> GeoReply {
    GeoReply {
        status: status.to_string(),
        lat_e2: 3742,
        lng_e2: -12208,
        city: Some("Mountain View".to_string()),
        country_code: None,
        as_field: Some("AS15169 Google LLC".to_string()),
        org: None,
        isp: Some("  Google  ".to_string()),
    }
}

#[test]
fn geolocation_replies() {
    let g = reply_outcome(&reply("success")).unwrap();
    assert_eq!(g.city, "Mountain View");
    assert_eq!(g.country, "??");
    assert_eq!(g.asn, "AS15169");
    assert_eq!(g.org, "Google");
    assert!(reply_outcome(&reply("fail")).is_none());
    let mut r = reply("success");
    r.as_field = None;
    r.city = None;
    r.org = Some(" Org ".to_string());
    let g = reply_outcome(&r).unwrap();
    assert_eq!((g.asn.as_str(), g.city.as_str(), g.org.as_str()), ("", "Unknown", "Org"));
}

#[test]
fn batch_pairs_and_caches() {
    let batch = vec!["8.8.8.8".to_string(), "9.9.9.9".to_string(), "1.1.1.1".to_string()];
    let updates = batch_updates(&batch, &vec![reply("success"), reply("fail")]);
    assert_eq!(updates.len(), 2);
    assert_eq!(updates[0].0, "8.8.8.8");
    assert!(updates[0].1.is_some());
    assert!(updates[1].1.is_none());
    let mut cache = GeoCache::new();
    cache.apply_updates(updates, 100);
    assert_eq!(cache.len(), 2);
    assert!(cache.has_fresh(&"9.9.9.9".to_string(), 200));
    assert!(!cache.has_fresh(&"1.1.1.1".to_string(), 200));
    let many: Vec<String> = (0..150).map(|i| format!("ip{i}")).collect();
    assert_eq!(limit_batch(&many).len(), 100);
    assert_eq!(limit_batch(&batch), batch);
}

#[test]
fn loop_timing_decisions() {
    assert!(scan_due(None, 0));
    assert!(!scan_due(Some(1_000), 2_999));
    assert!(scan_due(Some(1_000), 3_000));
    let s = GeoScheduler::new();
    assert!(geo_dispatch_due(&s, None, 0));
    assert!(!geo_dispatch_due(&s, Some(1_000), 4_000));
    assert!(geo_dispatch_due(&s, Some(1_000), 4_001));
}

fn pc(remote: &str, pid: u32) -> ParsedConnection {
    ParsedConnection {
        proto: "tcp".to_string(),
        local_ip: "192.168.1.2".to_string(),
        remote_ip: remote.to_string(),
        remote_port: 443,
        state: "ESTABLISHED".to_string(),
        pid,
    }
}

#[test]
fn process_refresh_policy() {
    let names = vec![(10u32, "a.exe".to_string())];
    let known = vec![pc("1.1.1.1", 10), pc("1.1.1.2", 0)];
    let unknown = vec![pc("1.1.1.1", 11)];
    let r = process_refresh(Some(0), 0, 5_000, &unknown, &names);
    assert!(!r.checked && !r.refresh);
    let r = process_refresh(Some(0), 0, 10_000, &known, &names);
    assert!(r.checked && !r.refresh);
    let r = process_refresh(Some(0), 0, 10_000, &unknown, &names);
    assert!(r.checked && r.refresh);
    let r = process_refresh(None, 0, 60_000, &known, &names);
    assert!(r.checked && r.refresh);
}

#[test]
fn presence_grace_period() {
    let mut p = FlowPresence::new();
    let keys = p.observe(&vec![pc("1.1.1.1", 1), pc("2.2.2.2", 2)], 0);
    assert_eq!(keys, vec!["1.1.1.1:443:tcp", "2.2.2.2:443:tcp"]);
    p.observe(&vec![pc("1.1.1.1", 3)], 5_000);
    assert_eq!(p.stable_connections().len(), 2);
    p.observe(&vec![pc("1.1.1.1", 3)], 7_999);
    assert_eq!(p.stable_connections().len(), 2);
    p.observe(&vec![pc("1.1.1.1", 4)], 8_000);
    let stable = p.stable_connections();
    assert_eq!(stable.len(), 1);
    assert_eq!(stable[0].pid, 4);
}

#[test]
fn heartbeat_drops_flows() {
    let frame = TelemetryFrame {
        schema: 2,
        t_ms: 5_000,
        light: None,
        net: NetMetrics { bps: 1, pps: 1, active_flows: 1, latency_cms: 1, upload_bps: 1, download_bps: 0 },
        proto: ProtoCounters::zero(),
        flows: Vec::new(),
    };
    let hb = heartbeat_of(&frame);
    assert_eq!(hb.light, Some(true));
    assert_eq!(hb.t_ms, 5_000);
    assert_eq!(hb.net, frame.net);
    assert!(hb.flows.is_empty());
}
