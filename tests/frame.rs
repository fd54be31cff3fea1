use abyss::frame::{
    build_frame, flow_key, fnv1a, raw_bps, Direction, LocalGeo, ParsedConnection,
    MAX_FLOWS_PER_FRAME, SCHEMA_VERSION,
};
use abyss::geo::{GeoCache, GeoInfo};

fn conn(remote: &str, port: u16, proto: &str, state: &str, pid: u32) -> ParsedConnection {
    ParsedConnection {
        proto: proto.to_string(),
        local_ip: "192.168.1.10".to_string(),
        remote_ip: remote.to_string(),
        remote_port: port,
        state: state.to_string(),
        pid,
    }
}

fn place(city: &str, asn: &str) -> GeoInfo {
    GeoInfo {
        lat_e2: 4071,
        lng_e2: -7401,
        city: city.to_string(),
        country: "US".to_string(),
        asn: asn.to_string(),
        org: String::new(),
    }
}

fn local() -> LocalGeo {
    LocalGeo { lat_e2: 5151, lng_e2: -13, city: "London".to_string(), country: "GB".to_string() }
}

#[test]
fn fnv1a_known_values() {
    assert_eq!(fnv1a(""), 2_166_136_261);
    assert_eq!(fnv1a("a"), 0xe40c_292c);
    assert_eq!(fnv1a("foobar"), 0xbf9c_f968);
}

#[test]
fn flow_key_format() {
    assert_eq!(flow_key(&conn("8.8.8.8", 53, "udp", "STATELESS", 0)), "8.8.8.8:53:udp");
    assert_eq!(flow_key(&conn("2001:db8::1", 443, "tcp", "ESTABLISHED", 1)), "2001:db8::1:443:tcp");
}

#[test]
fn estimates_scale_with_port_and_history() {
    assert_eq!(raw_bps(443, 0, false), 100_000);
    assert_eq!(raw_bps(53, 7, false), 1_000);
    assert_eq!(raw_bps(443, 0, true), 35_000);
    assert_eq!(raw_bps(443, 59, true), 64_500);
    assert_eq!(raw_bps(22, 60, true), 3_500);
    assert_eq!(raw_bps(8080, 10, true), 8_000);
}

#[test]
fn frame_from_resolved_connections() {
    let mut cache = GeoCache::new();
    cache.insert("93.184.216.34".to_string(), Some(place("Norwell", "AS15133")), 0);
    cache.insert("203.0.113.5".to_string(), None, 0);
    let conns = vec![
        conn("93.184.216.34", 443, "tcp", "ESTABLISHED", 42),
        conn("93.184.216.34", 443, "tcp", "TIME_WAIT", 7),
        conn("203.0.113.5", 80, "tcp", "ESTABLISHED", 0),
        conn("198.51.100.1", 22, "tcp", "ESTABLISHED", 0),
    ];
    let mut prev: Vec<String> = Vec::new();
    let mut first_seen: Vec<(String, u64)> = vec![("gone:1:tcp".to_string(), 5)];
    let names = vec![(42u32, "browser.exe".to_string())];
    let frame = build_frame(&conns, &mut cache, &mut prev, &local(), 12_000, 100, &names, &mut first_seen);
    assert_eq!(frame.schema, SCHEMA_VERSION);
    assert_eq!(frame.t_ms, 12_000);
    assert_eq!(frame.light, None);
    assert_eq!(frame.flows.len(), 1);
    let f = &frame.flows[0];
    assert_eq!(f.id, "live-93.184.216.34:443:tcp");
    assert_eq!(f.src.ip, "192.168.1.10");
    assert_eq!(f.src.city, "London");
    assert_eq!(f.dst.city, "Norwell");
    assert_eq!(f.dst.asn.as_deref(), Some("AS15133"));
    assert_eq!(f.dst.org, None);
    assert_eq!(f.bps, 100_000);
    assert_eq!(f.pps, 100);
    assert_eq!(f.protocol, 1);
    assert_eq!(f.service, Some(8));
    assert_eq!(f.started_at_ms, 12_000);
    assert_eq!(f.process.as_deref(), Some("browser.exe"));
    assert_eq!(f.pid, Some(42));
    assert_eq!(f.state.as_deref(), Some("ESTABLISHED"));
    let h = fnv1a("93.184.216.34:443:tcp");
    assert_eq!(f.rtt_cms, 1000 + 10 * (h % 600) as u64);
    assert_eq!(f.dir, if h % 2 == 0 { Direction::Up } else { Direction::Down });
    assert_eq!(frame.net.active_flows, 1);
    assert_eq!(frame.net.bps, 100_000);
    assert_eq!(frame.net.pps, 100);
    assert_eq!(frame.net.latency_cms, f.rtt_cms);
    assert_eq!(frame.net.upload_bps + frame.net.download_bps, 100_000);
    assert_eq!(frame.proto.tcp, 1);
    assert_eq!(frame.proto.https, 1);
    assert_eq!(prev, vec!["93.184.216.34:443:tcp", "203.0.113.5:80:tcp", "198.51.100.1:22:tcp"]);
    assert_eq!(first_seen, vec![("93.184.216.34:443:tcp".to_string(), 12_000)]);
}

#[test]
fn continuing_flow_keeps_first_seen_and_slows() {
    let mut cache = GeoCache::new();
    cache.insert("93.184.216.34".to_string(), Some(place("Norwell", "")), 0);
    let conns = vec![conn("93.184.216.34", 443, "tcp", "SYN_SENT", 0)];
    let mut prev: Vec<String> = Vec::new();
    let mut first_seen: Vec<(String, u64)> = Vec::new();
    let names: Vec<(u32, String)> = Vec::new();
    build_frame(&conns, &mut cache, &mut prev, &local(), 1_000, 10, &names, &mut first_seen);
    let second = build_frame(&conns, &mut cache, &mut prev, &local(), 2_000, 20, &names, &mut first_seen);
    let f = &second.flows[0];
    assert_eq!(f.started_at_ms, 1_000);
    let h = fnv1a("93.184.216.34:443:tcp");
    let raw = 500 * (70 + (h % 60) as u64);
    assert_eq!(f.bps, (raw + 5) / 10 * 10);
    assert_eq!(f.dir, Direction::Bidi);
    assert_eq!(f.dst.asn, None);
    assert_eq!(second.net.download_bps, raw);
    assert_eq!(second.net.upload_bps, 0);
}

#[test]
fn build_is_repeatable() {
    let conns: Vec<ParsedConnection> =
        (0..10).map(|i| conn(&format!("8.8.{i}.1"), 443 + i as u16, "tcp", "ESTABLISHED", 0)).collect();
    let run = || {
        let mut cache = GeoCache::new();
        for i in 0..10 {
            cache.insert(format!("8.8.{i}.1"), Some(place("Somewhere", "AS1")), 0);
        }
        let mut prev = vec!["8.8.3.1:446:tcp".to_string()];
        let mut seen = vec![("8.8.3.1:446:tcp".to_string(), 400)];
        let frame = build_frame(&conns, &mut cache, &mut prev, &local(), 9_000, 50, &Vec::new(), &mut seen);
        let flows: Vec<(String, u64, u32, u64, u64)> =
            frame.flows.iter().map(|f| (f.id.clone(), f.bps, f.pps, f.rtt_cms, f.started_at_ms)).collect();
        (flows, frame.net, frame.proto, prev, seen)
    };
    assert_eq!(run(), run());
}

#[test]
fn truncation_keeps_the_fastest_flows_in_descending_order() {
    let mut cache = GeoCache::new();
    let mut conns = Vec::new();
    for i in 0..40u16 {
        let ip = format!("9.9.{i}.9");
        cache.insert(ip.clone(), Some(place("X", "")), 0);
        // port 443 flows are estimated faster than port 53 flows
        let port = if i % 8 == 0 { 443 } else { 53 };
        conns.push(conn(&ip, port, "udp", "STATELESS", 0));
    }
    let mut prev = Vec::new();
    let mut seen = Vec::new();
    let frame = build_frame(&conns, &mut cache, &mut prev, &local(), 0, 0, &Vec::new(), &mut seen);
    assert_eq!(frame.net.active_flows, 40);
    assert_eq!(frame.flows.len(), MAX_FLOWS_PER_FRAME);
    for w in frame.flows.windows(2) {
        assert!(w[0].bps >= w[1].bps);
    }
    assert_eq!(frame.flows.iter().filter(|f| f.port == 443).count(), 5);
    assert_eq!(frame.proto.udp, 40);
    assert_eq!(frame.proto.dns, 35);
    assert_eq!(frame.net.bps, 5 * 100_000 + 35 * 1_000);
}
