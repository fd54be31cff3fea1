//! Telemetry frame data model and the per-tick frame builder.
//!
//! Rates are whole bits per second, latencies are in hundredths of a
//! millisecond, coordinates in hundredths of a degree and times in
//! milliseconds since the recording started.
use vstd::prelude::*;
use vstd::string::*;
use vstd::utf8::encode_utf8;
use crate::address::{decimal, decimal_spec, protocol_code, protocol_code_spec, service_code, service_code_spec};
use crate::geo::{after_get, GeoCache, GeoCacheEntry, GeoInfo};

verus! {

/// Version of the frame layout.
pub const SCHEMA_VERSION: u32 = 2;

/// Per-protocol and per-service flow counts of one frame.
#[derive(Clone, Copy, Debug, PartialEq, Eq, Structural)]
pub struct ProtoCounters {
    pub tcp: u32,
    pub udp: u32,
    pub icmp: u32,
    pub dns: u32,
    pub https: u32,
    pub http: u32,
    pub other: u32,
}

impl ProtoCounters {
    pub fn zero() -> (r: ProtoCounters)
        ensures
            r == (ProtoCounters { tcp: 0, udp: 0, icmp: 0, dns: 0, https: 0, http: 0, other: 0 }),
    {
        ProtoCounters { tcp: 0, udp: 0, icmp: 0, dns: 0, https: 0, http: 0, other: 0 }
    }
}

/// Aggregate metrics of one frame.
#[derive(Clone, Copy, Debug, PartialEq, Eq, Structural)]
pub struct NetMetrics {
    pub bps: u64,
    pub pps: u32,
    pub active_flows: u32,
    pub latency_cms: u64,
    pub upload_bps: u64,
    pub download_bps: u64,
}


/// Most flows carried by one frame.
pub const MAX_FLOWS_PER_FRAME: usize = 35;

/// One row of the connection table, reduced to what the frame needs.
pub struct ParsedConnection {
    pub proto: String,
    pub local_ip: String,
    pub remote_ip: String,
    pub remote_port: u16,
    pub state: String,
    pub pid: u32,
}

/// Where this host is.
pub struct LocalGeo {
    pub lat_e2: i32,
    pub lng_e2: i32,
    pub city: String,
    pub country: String,
}

/// One end of a flow.
pub struct GeoEndpoint {
    pub ip: String,
    pub lat_e2: i32,
    pub lng_e2: i32,
    pub city: String,
    pub country: String,
    pub asn: Option<String>,
    pub org: Option<String>,
}

#[derive(Clone, Copy, Debug, PartialEq, Eq, Structural)]
pub enum Direction {
    Up,
    Down,
    Bidi,
}

/// One enriched flow of a frame.
pub struct GeoFlow {
    pub id: String,
    pub src: GeoEndpoint,
    pub dst: GeoEndpoint,
    pub bps: u64,
    pub pps: u32,
    pub rtt_cms: u64,
    pub protocol: u8,
    pub dir: Direction,
    pub port: u16,
    pub service: Option<u8>,
    pub started_at_ms: u64,
    pub process: Option<String>,
    pub pid: Option<u32>,
    pub state: Option<String>,
}

/// One tick's snapshot; `light` marks a heartbeat that carries no flows.
pub struct TelemetryFrame {
    pub schema: u32,
    pub t_ms: u64,
    pub light: Option<bool>,
    pub net: NetMetrics,
    pub proto: ProtoCounters,
    pub flows: Vec<GeoFlow>,
}

// ---------------------------------------------------------------- flow identity

/// Flow identity: `remote_ip:port:proto`.
pub open spec fn flow_key_spec(remote_ip: Seq<char>, port: u16, proto: Seq<char>) -> Seq<char> {
    remote_ip + seq![':'] + decimal_spec(port as nat) + seq![':'] + proto
}

/// The identity of the flow a connection belongs to.
pub fn flow_key(conn: &ParsedConnection) -> (r: String)
    ensures
        r@ == flow_key_spec(conn.remote_ip@, conn.remote_port, conn.proto@),
{
    proof {
        reveal_strlit(":");
    }
    let mut k = conn.remote_ip.clone();
    k.append(":");
    let port = decimal(conn.remote_port as u64);
    k.append(port.as_str());
    k.append(":");
    k.append(conn.proto.as_str());
    assert(k@ =~= flow_key_spec(conn.remote_ip@, conn.remote_port, conn.proto@));
    k
}

/// FNV-1a offset basis.
pub const FNV_OFFSET: u32 = 2_166_136_261;
/// FNV-1a prime.
pub const FNV_PRIME: u32 = 16_777_619;

/// 32-bit FNV-1a hash of `bytes`.
pub open spec fn fnv1a_spec(bytes: Seq<u8>) -> u32
    decreases bytes.len(),
{
    if bytes.len() == 0 {
        FNV_OFFSET
    } else {
        (fnv1a_spec(bytes.drop_last()) ^ (bytes.last() as u32)).wrapping_mul(FNV_PRIME)
    }
}

/// 32-bit FNV-1a hash of the UTF-8 bytes of `s`.
pub fn fnv1a(s: &str) -> (r: u32)
    ensures
        r == fnv1a_spec(s.spec_bytes()),
{
    let b = s.as_bytes();
    let mut h: u32 = FNV_OFFSET;
    let mut i: usize = 0;
    while i < b.len()
        invariant
            i <= b@.len(),
            b@ == s.spec_bytes(),
            h == fnv1a_spec(b@.take(i as int)),
        decreases b@.len() - i,
    {
        assert(b@.take(i as int + 1).drop_last() =~= b@.take(i as int));
        h = (h ^ (b[i] as u32)).wrapping_mul(FNV_PRIME);
        i = i + 1;
    }
    assert(b@.take(b@.len() as int) =~= b@);
    h
}

// ---------------------------------------------------------------- estimation

/// Base rate of a destination port, in bits per second.
pub open spec fn base_bps_spec(port: u16) -> u64 {
    if port == 443 {
        50_000
    } else if port == 80 {
        30_000
    } else if port == 53 {
        500
    } else if port == 22 {
        5_000
    } else {
        10_000
    }
}

fn base_bps(port: u16) -> (r: u64)
    ensures
        r == base_bps_spec(port),
        r <= 50_000,
        r % 100 == 0,
{
    match port {
        443 => 50_000,
        80 => 30_000,
        53 => 500,
        22 => 5_000,
        _ => 10_000,
    }
}

/// Estimated throughput before rounding: twice the base rate for a new
/// flow, `base * (0.70 + (h mod 60) / 100)` for a continuing one.
pub open spec fn raw_bps_spec(port: u16, h: u32, existed: bool) -> u64 {
    if existed {
        (base_bps_spec(port) / 100 * (70 + (h % 60) as u64)) as u64
    } else {
        (base_bps_spec(port) * 2) as u64
    }
}

pub fn raw_bps(port: u16, h: u32, existed: bool) -> (r: u64)
    ensures
        r == raw_bps_spec(port, h, existed),
        r <= 100_000,
{
    let b = base_bps(port);
    if existed {
        let unit = b / 100;
        let f = 70 + (h % 60) as u64;
        assert(unit * f <= 500 * 129) by (nonlinear_arith)
            requires
                unit <= 500,
                f <= 129,
        ;
        unit * f
    } else {
        b * 2
    }
}

/// Throughput shown for a flow: the estimate rounded to tens (halves up).
pub open spec fn shown_bps_spec(raw: u64) -> u64 {
    ((raw + 5) / 10 * 10) as u64
}

/// Packets per second shown for a flow: a thousandth of the estimate, at least 1.
pub open spec fn pps_spec(raw: u64) -> u32 {
    if raw / 1000 >= 1 {
        (raw / 1000) as u32
    } else {
        1
    }
}

/// Round-trip time of a flow, in hundredths of a millisecond:
/// `10 + (h mod 600) / 10` ms.
pub open spec fn rtt_spec(h: u32) -> u64 {
    (1000 + 10 * (h % 600)) as u64
}

/// Direction of a flow: connections in an established or stateless state
/// are up or down by the parity of the hash, others bidirectional.
pub open spec fn direction_spec(state: Seq<char>, h: u32) -> Direction {
    if state == "ESTABLISHED"@ || state == "STATELESS"@ {
        if h % 2 == 0 {
            Direction::Up
        } else {
            Direction::Down
        }
    } else {
        Direction::Bidi
    }
}

pub(crate) fn str_eq(a: &String, b: &str) -> (r: bool)
    ensures
        r == (a@ == b@),
{
    let n = b.unicode_len();
    if a.as_str().unicode_len() != n {
        return false;
    }
    let mut i: usize = 0;
    while i < n
        invariant
            n == b@.len(),
            n == a@.len(),
            i <= n,
            forall|j: int| 0 <= j < i ==> a@[j] == b@[j],
        decreases n - i,
    {
        if a.as_str().get_char(i) != b.get_char(i) {
            return false;
        }
        i = i + 1;
    }
    assert(a@ =~= b@);
    true
}

pub fn direction(state: &String, h: u32) -> (r: Direction)
    ensures
        r == direction_spec(state@, h),
{
    if str_eq(state, "ESTABLISHED") || str_eq(state, "STATELESS") {
        if h % 2 == 0 {
            Direction::Up
        } else {
            Direction::Down
        }
    } else {
        Direction::Bidi
    }
}


// ---------------------------------------------------------------- flow views

/// The content of a flow as mathematical values.
pub struct FlowView {
    pub id: Seq<char>,
    pub src_ip: Seq<char>,
    pub src_lat_e2: i32,
    pub src_lng_e2: i32,
    pub src_city: Seq<char>,
    pub src_country: Seq<char>,
    pub src_asn: Option<Seq<char>>,
    pub src_org: Option<Seq<char>>,
    pub dst_ip: Seq<char>,
    pub dst_lat_e2: i32,
    pub dst_lng_e2: i32,
    pub dst_city: Seq<char>,
    pub dst_country: Seq<char>,
    pub dst_asn: Option<Seq<char>>,
    pub dst_org: Option<Seq<char>>,
    pub bps: u64,
    pub pps: u32,
    pub rtt_cms: u64,
    pub protocol: u8,
    pub dir: Direction,
    pub port: u16,
    pub service: Option<u8>,
    pub started_at_ms: u64,
    pub process: Option<Seq<char>>,
    pub pid: Option<u32>,
    pub state: Option<Seq<char>>,
}

pub open spec fn opt_view(o: Option<String>) -> Option<Seq<char>> {
    match o {
        Some(s) => Some(s@),
        None => None,
    }
}

pub open spec fn flow_view(f: GeoFlow) -> FlowView {
    FlowView {
        id: f.id@,
        src_ip: f.src.ip@,
        src_lat_e2: f.src.lat_e2,
        src_lng_e2: f.src.lng_e2,
        src_city: f.src.city@,
        src_country: f.src.country@,
        src_asn: opt_view(f.src.asn),
        src_org: opt_view(f.src.org),
        dst_ip: f.dst.ip@,
        dst_lat_e2: f.dst.lat_e2,
        dst_lng_e2: f.dst.lng_e2,
        dst_city: f.dst.city@,
        dst_country: f.dst.country@,
        dst_asn: opt_view(f.dst.asn),
        dst_org: opt_view(f.dst.org),
        bps: f.bps,
        pps: f.pps,
        rtt_cms: f.rtt_cms,
        protocol: f.protocol,
        dir: f.dir,
        port: f.port,
        service: f.service,
        started_at_ms: f.started_at_ms,
        process: opt_view(f.process),
        pid: f.pid,
        state: opt_view(f.state),
    }
}

pub open spec fn non_empty(s: Seq<char>) -> Option<Seq<char>> {
    if s.len() > 0 {
        Some(s)
    } else {
        None
    }
}

/// Hash of a flow key, over its UTF-8 bytes.
pub open spec fn key_hash(key: Seq<char>) -> u32 {
    fnv1a_spec(encode_utf8(key))
}

/// The flow that connection `c` with key `key` becomes, given its resolved
/// location `g`, whether the key was present last tick, when it was first
/// seen, where this host is, and the name of its owning process.
pub open spec fn expected_flow(
    c: ParsedConnection,
    key: Seq<char>,
    g: GeoInfo,
    existed: bool,
    first_seen: u64,
    local: LocalGeo,
    process: Option<Seq<char>>,
) -> FlowView {
    let h = key_hash(key);
    let raw = raw_bps_spec(c.remote_port, h, existed);
    FlowView {
        id: "live-"@ + key,
        src_ip: c.local_ip@,
        src_lat_e2: local.lat_e2,
        src_lng_e2: local.lng_e2,
        src_city: local.city@,
        src_country: local.country@,
        src_asn: None,
        src_org: None,
        dst_ip: c.remote_ip@,
        dst_lat_e2: g.lat_e2,
        dst_lng_e2: g.lng_e2,
        dst_city: g.city@,
        dst_country: g.country@,
        dst_asn: non_empty(g.asn@),
        dst_org: non_empty(g.org@),
        bps: shown_bps_spec(raw),
        pps: pps_spec(raw),
        rtt_cms: rtt_spec(h),
        protocol: protocol_code_spec(c.proto@),
        dir: direction_spec(c.state@, h),
        port: c.remote_port,
        service: service_code_spec(c.remote_port),
        started_at_ms: first_seen,
        process: if c.pid > 0 {
            process
        } else {
            None
        },
        pid: if c.pid > 0 {
            Some(c.pid)
        } else {
            None
        },
        state: if c.state@.len() > 0 && c.state@ != "STATELESS"@ {
            Some(c.state@)
        } else {
            None
        },
    }
}

fn some_if_non_empty(s: &String) -> (r: Option<String>)
    ensures
        opt_view(r) == non_empty(s@),
{
    if s.as_str().unicode_len() > 0 {
        Some(s.clone())
    } else {
        None
    }
}

fn clone_opt(o: &Option<String>) -> (r: Option<String>)
    ensures
        r == *o,
{
    match o {
        Some(s) => Some(s.clone()),
        None => None,
    }
}

/// Builds the flow of connection `c` (see `expected_flow`); also returns
/// the unrounded throughput estimate.
fn make_flow(
    c: &ParsedConnection,
    key: &String,
    g: &GeoInfo,
    existed: bool,
    first_seen: u64,
    local: &LocalGeo,
    process: &Option<String>,
) -> (r: (GeoFlow, u64))
    ensures
        flow_view(r.0) == expected_flow(*c, key@, *g, existed, first_seen, *local, opt_view(*process)),
        r.1 == raw_bps_spec(c.remote_port, key_hash(key@), existed),
        r.1 <= 100_000,
        r.0.rtt_cms <= 7000,
        r.0.pps <= 100,
{
    proof {
        reveal_strlit("live-");
    }
    let h = fnv1a(key.as_str());
    let raw = raw_bps(c.remote_port, h, existed);
    let mut id = String::from_str("live-");
    id.append(key.as_str());
    let state = if c.state.as_str().unicode_len() > 0 && !str_eq(&c.state, "STATELESS") {
        Some(c.state.clone())
    } else {
        None
    };
    let f = GeoFlow {
        id,
        src: GeoEndpoint {
            ip: c.local_ip.clone(),
            lat_e2: local.lat_e2,
            lng_e2: local.lng_e2,
            city: local.city.clone(),
            country: local.country.clone(),
            asn: None,
            org: None,
        },
        dst: GeoEndpoint {
            ip: c.remote_ip.clone(),
            lat_e2: g.lat_e2,
            lng_e2: g.lng_e2,
            city: g.city.clone(),
            country: g.country.clone(),
            asn: some_if_non_empty(&g.asn),
            org: some_if_non_empty(&g.org),
        },
        bps: (raw + 5) / 10 * 10,
        pps: if raw / 1000 >= 1 {
            (raw / 1000) as u32
        } else {
            1
        },
        rtt_cms: 1000 + 10 * ((h % 600) as u64),
        protocol: protocol_code(c.proto.as_str()),
        dir: direction(&c.state, h),
        port: c.remote_port,
        service: service_code(c.remote_port),
        started_at_ms: first_seen,
        process: if c.pid > 0 {
            clone_opt(process)
        } else {
            None
        },
        pid: if c.pid > 0 {
            Some(c.pid)
        } else {
            None
        },
        state,
    };
    assert(f.id@ =~= "live-"@ + key@);
    assert(flow_view(f) =~= expected_flow(*c, key@, *g, existed, first_seen, *local, opt_view(*process)));
    (f, raw)
}


// ---------------------------------------------------------------- dedup

/// Key of connection `c`.
pub open spec fn conn_key(c: ParsedConnection) -> Seq<char> {
    flow_key_spec(c.remote_ip@, c.remote_port, c.proto@)
}

/// Whether some connection of `cs` before position `i` has key `k`.
pub open spec fn key_before(cs: Seq<ParsedConnection>, i: int, k: Seq<char>) -> bool {
    exists|j: int| 0 <= j < i && #[trigger] conn_key(cs[j]) == k
}

/// Positions of the first connection of each flow, in order: on a key
/// collision the first connection wins.
pub open spec fn first_positions(cs: Seq<ParsedConnection>) -> Seq<int>
    decreases cs.len(),
{
    if cs.len() == 0 {
        Seq::empty()
    } else {
        let rest = first_positions(cs.drop_last());
        if key_before(cs, cs.len() - 1, conn_key(cs.last())) {
            rest
        } else {
            rest.push(cs.len() - 1)
        }
    }
}

proof fn lemma_first_positions_prefix(cs: Seq<ParsedConnection>, i: int)
    requires
        0 <= i < cs.len(),
    ensures
        first_positions(cs.take(i + 1)) == if key_before(cs, i, conn_key(cs[i])) {
            first_positions(cs.take(i))
        } else {
            first_positions(cs.take(i)).push(i)
        },
{
    let t = cs.take(i + 1);
    assert(t.drop_last() =~= cs.take(i));
    assert(key_before(t, i, conn_key(t.last())) == key_before(cs, i, conn_key(cs[i]))) by {
        if key_before(cs, i, conn_key(cs[i])) {
            let j = choose|j: int| 0 <= j < i && #[trigger] conn_key(cs[j]) == conn_key(cs[i]);
            assert(conn_key(t[j]) == conn_key(t.last()));
        }
        if key_before(t, i, conn_key(t.last())) {
            let j = choose|j: int| 0 <= j < i && #[trigger] conn_key(t[j]) == conn_key(t.last());
            assert(conn_key(cs[j]) == conn_key(cs[i]));
        }
    }
}

fn index_of_view(v: &Vec<String>, x: &String) -> (r: Option<usize>)
    ensures
        match r {
            Some(k) => k < v@.len() && v@[k as int]@ == x@,
            None => forall|k: int| 0 <= k < v@.len() ==> #[trigger] v@[k]@ != x@,
        },
{
    let mut i: usize = 0;
    while i < v.len()
        invariant
            i <= v@.len(),
            forall|k: int| 0 <= k < i ==> #[trigger] v@[k]@ != x@,
        decreases v@.len() - i,
    {
        if v[i] == *x {
            return Some(i);
        }
        i = i + 1;
    }
    None
}

/// Keys of the distinct flows of `conns`, with the position of the
/// connection that stands for each.
fn unique_flows(conns: &Vec<ParsedConnection>) -> (r: (Vec<String>, Vec<usize>))
    ensures
        r.0@.len() == r.1@.len(),
        r.1@.map_values(|p: usize| p as int) == first_positions(conns@),
        forall|k: int| 0 <= k < r.1@.len() ==> r.1@[k] < conns@.len(),
        forall|k: int| 0 <= k < r.0@.len() ==> #[trigger] r.0@[k]@ == conn_key(conns@[r.1@[k] as int]),
{
    let mut keys: Vec<String> = Vec::new();
    let mut pos: Vec<usize> = Vec::new();
    let ghost mut wit: Seq<int> = Seq::empty();
    let mut i: usize = 0;
    while i < conns.len()
        invariant
            i <= conns@.len(),
            keys@.len() == pos@.len(),
            wit.len() == i,
            pos@.map_values(|p: usize| p as int) == first_positions(conns@.take(i as int)),
            forall|k: int| 0 <= k < pos@.len() ==> pos@[k] < i,
            forall|k: int| 0 <= k < keys@.len() ==> #[trigger] keys@[k]@ == conn_key(conns@[pos@[k] as int]),
            forall|j: int| 0 <= j < i ==> 0 <= #[trigger] wit[j] < keys@.len() && keys@[wit[j]]@ == conn_key(conns@[j]),
        decreases conns@.len() - i,
    {
        let key = flow_key(&conns[i]);
        proof {
            lemma_first_positions_prefix(conns@, i as int);
        }
        let found = index_of_view(&keys, &key);
        match found {
            Some(k) => {
                proof {
                    let j = pos@[k as int] as int;
                    assert(conn_key(conns@[j]) == conn_key(conns@[i as int]));
                    assert(key_before(conns@, i as int, conn_key(conns@[i as int])));
                    wit = wit.push(k as int);
                }
            },
            None => {
                proof {
                    if key_before(conns@, i as int, conn_key(conns@[i as int])) {
                        let j = choose|j: int| 0 <= j < i && #[trigger] conn_key(conns@[j]) == conn_key(conns@[i as int]);
                        assert(wit[j] >= 0);
                        assert(keys@[wit[j]]@ == key@);
                    }
                    wit = wit.push(keys@.len() as int);
                }
                let ghost pb = pos@;
                keys.push(key);
                pos.push(i);
                assert(pos@.map_values(|p: usize| p as int) =~= pb.map_values(|p: usize| p as int).push(i as int));
            },
        }
        i = i + 1;
    }
    assert(conns@.take(conns@.len() as int) =~= conns@);
    (keys, pos)
}


// ---------------------------------------------------------------- lookups

/// Whether `k` is among `keys`.
pub open spec fn key_listed(keys: Seq<String>, k: Seq<char>) -> bool {
    exists|j: int| 0 <= j < keys.len() && #[trigger] keys[j]@ == k
}

/// First-seen time recorded for key `k` (the latest record wins).
pub open spec fn seen_at(m: Seq<(String, u64)>, k: Seq<char>) -> Option<u64>
    decreases m.len(),
{
    if m.len() == 0 {
        None
    } else if m.last().0@ == k {
        Some(m.last().1)
    } else {
        seen_at(m.drop_last(), k)
    }
}

/// Process name recorded for `pid` (the latest record wins).
pub open spec fn name_of(m: Seq<(u32, String)>, pid: u32) -> Option<Seq<char>>
    decreases m.len(),
{
    if m.len() == 0 {
        None
    } else if m.last().0 == pid {
        Some(m.last().1@)
    } else {
        name_of(m.drop_last(), pid)
    }
}

fn lookup_seen(m: &Vec<(String, u64)>, k: &String) -> (r: Option<u64>)
    ensures
        r == seen_at(m@, k@),
{
    let mut i = m.len();
    assert(m@.take(i as int) =~= m@);
    while i > 0
        invariant
            i <= m@.len(),
            seen_at(m@.take(i as int), k@) == seen_at(m@, k@),
        decreases i,
    {
        assert(m@.take(i as int).drop_last() =~= m@.take(i as int - 1));
        if m[i - 1].0 == *k {
            return Some(m[i - 1].1);
        }
        i = i - 1;
    }
    None
}

fn lookup_name(m: &Vec<(u32, String)>, pid: u32) -> (r: Option<String>)
    ensures
        opt_view(r) == name_of(m@, pid),
{
    let mut i = m.len();
    assert(m@.take(i as int) =~= m@);
    while i > 0
        invariant
            i <= m@.len(),
            name_of(m@.take(i as int), pid) == name_of(m@, pid),
        decreases i,
    {
        assert(m@.take(i as int).drop_last() =~= m@.take(i as int - 1));
        if m[i - 1].0 == pid {
            return Some(m[i - 1].1.clone());
        }
        i = i - 1;
    }
    None
}

fn listed_key(keys: &Vec<String>, k: &String) -> (r: bool)
    ensures
        r == key_listed(keys@, k@),
{
    match index_of_view(keys, k) {
        Some(_) => true,
        None => false,
    }
}

// ---------------------------------------------------------------- assembly

/// The location resolved for `ip` at `now`, if the cache holds a fresh,
/// positive outcome.
pub open spec fn resolved(cache: GeoCache, ip: Seq<char>, now: u64) -> Option<GeoInfo> {
    match cache.fresh_lookup(ip, now) {
        Some(Some(g)) => Some(g),
        _ => None,
    }
}

/// The flows of a frame (with their unrounded estimates), one for each
/// distinct flow whose destination is resolved, in order of first
/// appearance.
pub open spec fn flow_entries(
    cs: Seq<ParsedConnection>,
    order: Seq<int>,
    cache: GeoCache,
    now: u64,
    prev: Seq<String>,
    seen: Seq<(String, u64)>,
    names: Seq<(u32, String)>,
    local: LocalGeo,
    elapsed_ms: u64,
) -> Seq<(FlowView, u64)>
    decreases order.len(),
{
    if order.len() == 0 {
        Seq::empty()
    } else {
        let rest = flow_entries(cs, order.drop_last(), cache, now, prev, seen, names, local, elapsed_ms);
        let c = cs[order.last()];
        let k = conn_key(c);
        match resolved(cache, c.remote_ip@, now) {
            Some(g) => {
                let existed = key_listed(prev, k);
                let first = match seen_at(seen, k) {
                    Some(t) => t,
                    None => elapsed_ms,
                };
                rest.push(
                    (
                        expected_flow(c, k, g, existed, first, local, name_of(names, c.pid)),
                        raw_bps_spec(c.remote_port, key_hash(k), existed),
                    ),
                )
            },
            None => rest,
        }
    }
}

/// Running sums over the flows of a frame.
pub struct Tally {
    pub up: int,
    pub down: int,
    pub pps: int,
    pub rtt: int,
    pub tcp: int,
    pub udp: int,
    pub other: int,
    pub dns: int,
    pub https: int,
    pub http: int,
}

pub open spec fn tally(es: Seq<(FlowView, u64)>) -> Tally
    decreases es.len(),
{
    if es.len() == 0 {
        Tally { up: 0, down: 0, pps: 0, rtt: 0, tcp: 0, udp: 0, other: 0, dns: 0, https: 0, http: 0 }
    } else {
        let t = tally(es.drop_last());
        let f = es.last().0;
        let raw = es.last().1 as int;
        Tally {
            up: t.up + if f.dir == Direction::Up {
                raw
            } else {
                0
            },
            down: t.down + if f.dir == Direction::Up {
                0
            } else {
                raw
            },
            pps: t.pps + f.pps,
            rtt: t.rtt + f.rtt_cms,
            tcp: t.tcp + if f.protocol == 1 {
                1int
            } else {
                0
            },
            udp: t.udp + if f.protocol == 2 {
                1int
            } else {
                0
            },
            other: t.other + if f.protocol != 1 && f.protocol != 2 {
                1int
            } else {
                0
            },
            dns: t.dns + if f.port == 53 {
                1int
            } else {
                0
            },
            https: t.https + if f.port == 443 {
                1int
            } else {
                0
            },
            http: t.http + if f.port == 80 {
                1int
            } else {
                0
            },
        }
    }
}

pub open spec fn entry_views(es: Seq<(FlowView, u64)>) -> Seq<FlowView> {
    es.map_values(|e: (FlowView, u64)| e.0)
}

pub open spec fn views_of(fs: Seq<GeoFlow>) -> Seq<FlowView> {
    fs.map_values(|f: GeoFlow| flow_view(f))
}

// ---------------------------------------------------------------- truncation

/// Position of the first flow of greatest throughput in `s[i..]`, starting
/// from the candidate `best`.
pub open spec fn best_from(s: Seq<FlowView>, i: int, best: int) -> int
    decreases s.len() - i,
{
    if i < 0 || i >= s.len() {
        best
    } else if s[i].bps > s[best].bps {
        best_from(s, i + 1, i)
    } else {
        best_from(s, i + 1, best)
    }
}

proof fn lemma_best_from_bounds(s: Seq<FlowView>, i: int, best: int)
    requires
        0 <= best < s.len(),
        0 <= i,
    ensures
        0 <= best_from(s, i, best) < s.len(),
    decreases s.len() - i,
{
    if i < s.len() {
        if s[i].bps > s[best].bps {
            lemma_best_from_bounds(s, i + 1, i);
        } else {
            lemma_best_from_bounds(s, i + 1, best);
        }
    }
}

/// The `k` flows of greatest throughput, in descending order of throughput
/// (earlier flows first among equals).
pub open spec fn top_by_bps(s: Seq<FlowView>, k: nat) -> Seq<FlowView>
    decreases k,
{
    if k == 0 || s.len() == 0 {
        Seq::empty()
    } else {
        let m = best_from(s, 1, 0);
        seq![s[m]] + top_by_bps(s.remove(m), (k - 1) as nat)
    }
}

/// The flows a frame carries: all of them when within the limit, else the
/// top of them by throughput.
pub open spec fn carried(s: Seq<FlowView>) -> Seq<FlowView> {
    if s.len() > MAX_FLOWS_PER_FRAME {
        top_by_bps(s, MAX_FLOWS_PER_FRAME as nat)
    } else {
        s
    }
}

/// The flows left out by `top_by_bps(s, k)`.
pub open spec fn left_out(s: Seq<FlowView>, k: nat) -> Seq<FlowView>
    decreases k,
{
    if k == 0 || s.len() == 0 {
        s
    } else {
        left_out(s.remove(best_from(s, 1, 0)), (k - 1) as nat)
    }
}

proof fn lemma_best_from_max(s: Seq<FlowView>, i: int, best: int)
    requires
        0 <= best < s.len(),
        1 <= i,
        forall|j: int| 0 <= j < i && j < s.len() ==> (#[trigger] s[j]).bps <= s[best].bps,
    ensures
        forall|j: int| 0 <= j < s.len() ==> (#[trigger] s[j]).bps <= s[best_from(s, i, best)].bps,
    decreases s.len() - i,
{
    if i < s.len() {
        if s[i].bps > s[best].bps {
            lemma_best_from_max(s, i + 1, i);
        } else {
            lemma_best_from_max(s, i + 1, best);
        }
    }
}

proof fn lemma_remove_bounded(s: Seq<FlowView>, m: int, bound: u64)
    requires
        0 <= m < s.len(),
        forall|q: int| 0 <= q < s.len() ==> (#[trigger] s[q]).bps <= bound,
    ensures
        forall|q: int| 0 <= q < s.remove(m).len() ==> (#[trigger] s.remove(m)[q]).bps <= bound,
{
    assert forall|q: int| 0 <= q < s.remove(m).len() implies (#[trigger] s.remove(m)[q]).bps <= bound by {
        if q < m {
            assert(s.remove(m)[q] == s[q]);
        } else {
            assert(s.remove(m)[q] == s[q + 1]);
        }
    }
}

proof fn lemma_parts_bounded(s: Seq<FlowView>, k: nat, bound: u64)
    requires
        forall|q: int| 0 <= q < s.len() ==> (#[trigger] s[q]).bps <= bound,
    ensures
        forall|q: int| 0 <= q < left_out(s, k).len() ==> (#[trigger] left_out(s, k)[q]).bps <= bound,
        forall|q: int| 0 <= q < top_by_bps(s, k).len() ==> (#[trigger] top_by_bps(s, k)[q]).bps <= bound,
    decreases k,
{
    if k > 0 && s.len() > 0 {
        let m = best_from(s, 1, 0);
        lemma_best_from_bounds(s, 1, 0);
        let t = s.remove(m);
        lemma_remove_bounded(s, m, bound);
        lemma_parts_bounded(t, (k - 1) as nat, bound);
        assert(left_out(s, k) == left_out(t, (k - 1) as nat));
        let top = top_by_bps(s, k);
        assert(top == seq![s[m]] + top_by_bps(t, (k - 1) as nat));
        assert forall|q: int| 0 <= q < top.len() implies (#[trigger] top[q]).bps <= bound by {
            if q > 0 {
                assert(top[q] == top_by_bps(t, (k - 1) as nat)[q - 1]);
            }
        }
    }
}

proof fn lemma_split_len(s: Seq<FlowView>, k: nat)
    ensures
        top_by_bps(s, k).len() + left_out(s, k).len() == s.len(),
    decreases k,
{
    if k > 0 && s.len() > 0 {
        let m = best_from(s, 1, 0);
        lemma_best_from_bounds(s, 1, 0);
        lemma_split_len(s.remove(m), (k - 1) as nat);
    }
}

proof fn lemma_kept_beat_left_out(s: Seq<FlowView>, k: nat)
    ensures
        forall|a: int, b: int|
            0 <= a < top_by_bps(s, k).len() && 0 <= b < left_out(s, k).len() ==> (#[trigger] top_by_bps(s, k)[a]).bps
                >= (#[trigger] left_out(s, k)[b]).bps,
    decreases k,
{
    if k > 0 && s.len() > 0 {
        let m = best_from(s, 1, 0);
        lemma_best_from_bounds(s, 1, 0);
        lemma_best_from_max(s, 1, 0);
        let t = s.remove(m);
        lemma_remove_bounded(s, m, s[m].bps);
        lemma_kept_beat_left_out(t, (k - 1) as nat);
        lemma_parts_bounded(t, (k - 1) as nat, s[m].bps);
        let top = top_by_bps(s, k);
        let rest = top_by_bps(t, (k - 1) as nat);
        let out = left_out(t, (k - 1) as nat);
        assert(top == seq![s[m]] + rest);
        assert(left_out(s, k) == out);
        assert forall|a: int, b: int|
            0 <= a < top.len() && 0 <= b < out.len() implies (#[trigger] top[a]).bps >= (#[trigger] out[b]).bps by {
            if a > 0 {
                assert(top[a] == rest[a - 1]);
            } else {
                assert(top[0] == s[m]);
            }
        }
    }
}

proof fn lemma_kept_descending(s: Seq<FlowView>, k: nat)
    ensures
        forall|a: int, b: int|
            0 <= a < b < top_by_bps(s, k).len() ==> (#[trigger] top_by_bps(s, k)[a]).bps >= (
            #[trigger] top_by_bps(s, k)[b]).bps,
    decreases k,
{
    if k > 0 && s.len() > 0 {
        let m = best_from(s, 1, 0);
        lemma_best_from_bounds(s, 1, 0);
        lemma_best_from_max(s, 1, 0);
        let t = s.remove(m);
        lemma_remove_bounded(s, m, s[m].bps);
        lemma_kept_descending(t, (k - 1) as nat);
        lemma_parts_bounded(t, (k - 1) as nat, s[m].bps);
        let top = top_by_bps(s, k);
        let rest = top_by_bps(t, (k - 1) as nat);
        assert(top == seq![s[m]] + rest);
        assert forall|a: int, b: int| 0 <= a < b < top.len() implies (#[trigger] top[a]).bps >= (#[trigger] top[b]).bps by {
            assert(top[b] == rest[b - 1]);
            if a > 0 {
                assert(top[a] == rest[a - 1]);
            } else {
                assert(top[0] == s[m]);
            }
        }
    }
}

/// Truncation keeps the fastest flows: every carried flow is at least as
/// fast as every flow left out, the carried flows come in descending order
/// of throughput, and together with those left out they are all the flows.
pub proof fn lemma_carried_flows_are_fastest(s: Seq<FlowView>, k: nat)
    ensures
        forall|a: int, b: int|
            0 <= a < top_by_bps(s, k).len() && 0 <= b < left_out(s, k).len() ==> (#[trigger] top_by_bps(s, k)[a]).bps
                >= (#[trigger] left_out(s, k)[b]).bps,
        forall|a: int, b: int|
            0 <= a < b < top_by_bps(s, k).len() ==> (#[trigger] top_by_bps(s, k)[a]).bps >= (
            #[trigger] top_by_bps(s, k)[b]).bps,
        top_by_bps(s, k).len() + left_out(s, k).len() == s.len(),
{
    lemma_split_len(s, k);
    lemma_kept_beat_left_out(s, k);
    lemma_kept_descending(s, k);
}

fn best_flow(v: &Vec<GeoFlow>) -> (r: usize)
    requires
        v@.len() > 0,
    ensures
        r as int == best_from(views_of(v@), 1, 0),
        r < v@.len(),
{
    let ghost s = views_of(v@);
    proof {
        lemma_best_from_bounds(s, 1, 0);
    }
    let mut best: usize = 0;
    let mut i: usize = 1;
    while i < v.len()
        invariant
            s == views_of(v@),
            1 <= i <= v@.len(),
            best < i,
            best_from(s, i as int, best as int) == best_from(s, 1, 0),
        decreases v@.len() - i,
    {
        assert(s[i as int].bps == v@[i as int].bps && s[best as int].bps == v@[best as int].bps);
        if v[i].bps > v[best].bps {
            best = i;
        }
        i = i + 1;
    }
    best
}

fn truncate_flows(v: Vec<GeoFlow>) -> (r: Vec<GeoFlow>)
    ensures
        views_of(r@) == carried(views_of(v@)),
{
    if v.len() <= MAX_FLOWS_PER_FRAME {
        return v;
    }
    let ghost orig = views_of(v@);
    let mut rem = v;
    let mut out: Vec<GeoFlow> = Vec::new();
    assert(views_of(out@) + top_by_bps(views_of(rem@), MAX_FLOWS_PER_FRAME as nat) =~= orig.take(0) + top_by_bps(orig, MAX_FLOWS_PER_FRAME as nat));
    while out.len() < MAX_FLOWS_PER_FRAME
        invariant
            out@.len() <= MAX_FLOWS_PER_FRAME,
            out@.len() + rem@.len() == orig.len(),
            orig.len() > MAX_FLOWS_PER_FRAME,
            views_of(out@) + top_by_bps(views_of(rem@), (MAX_FLOWS_PER_FRAME - out@.len()) as nat)
                == top_by_bps(orig, MAX_FLOWS_PER_FRAME as nat),
        decreases MAX_FLOWS_PER_FRAME - out@.len(),
    {
        let ghost rv = views_of(rem@);
        let ghost ov = views_of(out@);
        let ghost k = (MAX_FLOWS_PER_FRAME - out@.len()) as nat;
        let m = best_flow(&rem);
        let f = rem.remove(m);
        out.push(f);
        assert(views_of(rem@) =~= rv.remove(m as int));
        assert(views_of(out@) =~= ov.push(rv[m as int]));
        assert(top_by_bps(rv, k) == seq![rv[m as int]] + top_by_bps(rv.remove(m as int), (k - 1) as nat));
        assert(views_of(out@) + top_by_bps(views_of(rem@), (k - 1) as nat) =~= ov + (seq![rv[m as int]] + top_by_bps(rv.remove(m as int), (k - 1) as nat)));
    }
    assert(views_of(out@) + top_by_bps(views_of(rem@), 0) =~= views_of(out@));
    out
}


// ---------------------------------------------------------------- frame

/// The content of a frame as mathematical values.
pub struct FrameView {
    pub schema: u32,
    pub t_ms: u64,
    pub light: Option<bool>,
    pub net: NetMetrics,
    pub proto: ProtoCounters,
    pub flows: Seq<FlowView>,
}

pub open spec fn frame_view(f: TelemetryFrame) -> FrameView {
    FrameView {
        schema: f.schema,
        t_ms: f.t_ms,
        light: f.light,
        net: f.net,
        proto: f.proto,
        flows: views_of(f.flows@),
    }
}

/// The frame built from `cs` and the other inputs: aggregate metrics over
/// every included flow (throughput from the unrounded estimates, latency as
/// the mean round-trip time rounded down), and the carried flows.
pub open spec fn expected_frame(
    cs: Seq<ParsedConnection>,
    cache: GeoCache,
    now: u64,
    prev: Seq<String>,
    seen: Seq<(String, u64)>,
    names: Seq<(u32, String)>,
    local: LocalGeo,
    elapsed_ms: u64,
) -> FrameView {
    let es = flow_entries(cs, first_positions(cs), cache, now, prev, seen, names, local, elapsed_ms);
    let t = tally(es);
    FrameView {
        schema: SCHEMA_VERSION,
        t_ms: elapsed_ms,
        light: None,
        net: NetMetrics {
            bps: (t.up + t.down) as u64,
            pps: t.pps as u32,
            active_flows: es.len() as u32,
            latency_cms: if es.len() == 0 {
                0
            } else {
                (t.rtt / (es.len() as int)) as u64
            },
            upload_bps: t.up as u64,
            download_bps: t.down as u64,
        },
        proto: ProtoCounters {
            tcp: t.tcp as u32,
            udp: t.udp as u32,
            icmp: 0,
            dns: t.dns as u32,
            https: t.https as u32,
            http: t.http as u32,
            other: t.other as u32,
        },
        flows: carried(entry_views(es)),
    }
}

/// Most connections one frame is built from (the packet-rate total must fit
/// its 32-bit field).
pub const MAX_CONNECTIONS: usize = 40_000_000;

fn assemble(
    conns: &Vec<ParsedConnection>,
    keys: &Vec<String>,
    pos: &Vec<usize>,
    cache: &GeoCache,
    now: u64,
    prev: &Vec<String>,
    seen: &Vec<(String, u64)>,
    names: &Vec<(u32, String)>,
    local: &LocalGeo,
    elapsed_ms: u64,
) -> (r: TelemetryFrame)
    requires
        conns@.len() <= MAX_CONNECTIONS,
        keys@.len() == pos@.len(),
        pos@.map_values(|p: usize| p as int) == first_positions(conns@),
        forall|k: int| 0 <= k < pos@.len() ==> pos@[k] < conns@.len(),
        forall|k: int| 0 <= k < keys@.len() ==> #[trigger] keys@[k]@ == conn_key(conns@[pos@[k] as int]),
    ensures
        frame_view(r) == expected_frame(conns@, *cache, now, prev@, seen@, names@, *local, elapsed_ms),
{
    let ghost order = first_positions(conns@);
    proof {
        lemma_first_positions_len(conns@);
    }
    let mut flows: Vec<GeoFlow> = Vec::new();
    let ghost mut es: Seq<(FlowView, u64)> = Seq::empty();
    let mut up: u64 = 0;
    let mut down: u64 = 0;
    let mut pps: u64 = 0;
    let mut rtt: u64 = 0;
    let mut proto = ProtoCounters::zero();
    let mut i: usize = 0;
    assert(order.take(0) =~= Seq::<int>::empty());
    while i < pos.len()
        invariant
            order == first_positions(conns@),
            order.len() == pos@.len(),
            pos@.len() <= conns@.len(),
            conns@.len() <= MAX_CONNECTIONS,
            pos@.map_values(|p: usize| p as int) == order,
            forall|k: int| 0 <= k < pos@.len() ==> pos@[k] < conns@.len(),
            forall|k: int| 0 <= k < keys@.len() ==> #[trigger] keys@[k]@ == conn_key(conns@[pos@[k] as int]),
            keys@.len() == pos@.len(),
            i <= pos@.len(),
            es == flow_entries(conns@, order.take(i as int), *cache, now, prev@, seen@, names@, *local, elapsed_ms),
            views_of(flows@) == entry_views(es),
            es.len() <= i,
            up == tally(es).up,
            down == tally(es).down,
            pps == tally(es).pps,
            rtt == tally(es).rtt,
            proto.tcp == tally(es).tcp,
            proto.udp == tally(es).udp,
            proto.other == tally(es).other,
            proto.dns == tally(es).dns,
            proto.https == tally(es).https,
            proto.http == tally(es).http,
            proto.icmp == 0,
            up + down <= 100_000 * es.len(),
            pps <= 100 * es.len(),
            rtt <= 7000 * es.len(),
            proto.tcp <= es.len(),
            proto.udp <= es.len(),
            proto.other <= es.len(),
            proto.dns <= es.len(),
            proto.https <= es.len(),
            proto.http <= es.len(),
        decreases pos@.len() - i,
    {
        let p = pos[i];
        let c = &conns[p];
        assert(order[i as int] == p as int);
        assert(order.take(i as int + 1).drop_last() =~= order.take(i as int));
        assert(order.take(i as int + 1).last() == p as int);
        let outcome = cache.lookup(&c.remote_ip, now);
        match outcome {
            Some(Some(g)) => {
                let key = &keys[i];
                let existed = listed_key(prev, key);
                let first = match lookup_seen(seen, key) {
                    Some(t) => t,
                    None => elapsed_ms,
                };
                let process = if c.pid > 0 {
                    lookup_name(names, c.pid)
                } else {
                    None
                };
                let (f, raw) = make_flow(c, key, &g, existed, first, local, &process);
                let ghost fv = flow_view(f);
                let ghost before = es;
                let ghost bf = flows@;
                proof {
                    es = es.push((fv, raw));
                    assert(es.drop_last() =~= before);
                    assert(es.last() == (fv, raw));
                    assert(es == flow_entries(conns@, order.take(i as int + 1), *cache, now, prev@, seen@, names@, *local, elapsed_ms));
                }
                if f.dir == Direction::Up {
                    up = up + raw;
                } else {
                    down = down + raw;
                }
                pps = pps + f.pps as u64;
                rtt = rtt + f.rtt_cms;
                if f.protocol == 1 {
                    proto.tcp = proto.tcp + 1;
                } else if f.protocol == 2 {
                    proto.udp = proto.udp + 1;
                } else {
                    proto.other = proto.other + 1;
                }
                if f.port == 53 {
                    proto.dns = proto.dns + 1;
                } else if f.port == 443 {
                    proto.https = proto.https + 1;
                } else if f.port == 80 {
                    proto.http = proto.http + 1;
                }
                flows.push(f);
                proof {
                    assert(views_of(flows@) =~= views_of(bf).push(fv));
                    assert(entry_views(es) =~= entry_views(before).push(fv));
                }
            },
            _ => {},
        }
        i = i + 1;
    }
    assert(order.take(pos@.len() as int) =~= order);
    let n = flows.len();
    let latency: u64 = if n == 0 {
        0
    } else {
        rtt / (n as u64)
    };
    let net = NetMetrics {
        bps: up + down,
        pps: pps as u32,
        active_flows: n as u32,
        latency_cms: latency,
        upload_bps: up,
        download_bps: down,
    };
    let carried_flows = truncate_flows(flows);
    TelemetryFrame { schema: SCHEMA_VERSION, t_ms: elapsed_ms, light: None, net, proto, flows: carried_flows }
}

proof fn lemma_first_positions_len(cs: Seq<ParsedConnection>)
    ensures
        first_positions(cs).len() <= cs.len(),
    decreases cs.len(),
{
    if cs.len() > 0 {
        lemma_first_positions_len(cs.drop_last());
    }
}


// ---------------------------------------------------------------- per-tick state

/// Destination addresses of the distinct flows, in order.
pub open spec fn flow_ips(cs: Seq<ParsedConnection>, order: Seq<int>) -> Seq<Seq<char>> {
    order.map_values(|p: int| cs[p].remote_ip@)
}

/// The cache after looking up each of `ips` in turn at `now`.
pub open spec fn after_gets(entries: Seq<GeoCacheEntry>, ips: Seq<Seq<char>>, now: u64) -> Seq<GeoCacheEntry>
    decreases ips.len(),
{
    if ips.len() == 0 {
        entries
    } else {
        after_get(after_gets(entries, ips.drop_last(), now), ips.last(), now)
    }
}

/// First-seen records added this tick: one for each included flow (resolved
/// destination) that had none, stamped with the elapsed time.
pub open spec fn added_records(
    keys: Seq<String>,
    cs: Seq<ParsedConnection>,
    order: Seq<int>,
    cache: GeoCache,
    now: u64,
    seen: Seq<(String, u64)>,
    elapsed_ms: u64,
) -> Seq<(String, u64)>
    decreases order.len(),
{
    if order.len() == 0 || keys.len() < order.len() {
        Seq::empty()
    } else {
        let n = order.len() - 1;
        let rest = added_records(keys, cs, order.drop_last(), cache, now, seen, elapsed_ms);
        if resolved(cache, cs[order.last()].remote_ip@, now) is Some && seen_at(seen, keys[n]@)
            is None {
            rest.push((keys[n], elapsed_ms))
        } else {
            rest
        }
    }
}

/// First-seen records after a tick: those of flows still present, then the
/// new ones.
pub open spec fn next_first_seen(
    keys: Seq<String>,
    cs: Seq<ParsedConnection>,
    cache: GeoCache,
    now: u64,
    seen: Seq<(String, u64)>,
    elapsed_ms: u64,
) -> Seq<(String, u64)> {
    seen.filter(|e: (String, u64)| key_listed(keys, e.0@)) + added_records(
        keys,
        cs,
        first_positions(cs),
        cache,
        now,
        seen,
        elapsed_ms,
    )
}

fn clone_record(e: &(String, u64)) -> (r: (String, u64))
    ensures
        r == *e,
{
    (e.0.clone(), e.1)
}

fn rebuild_first_seen(
    keys: &Vec<String>,
    pos: &Vec<usize>,
    conns: &Vec<ParsedConnection>,
    cache: &GeoCache,
    now: u64,
    seen: &Vec<(String, u64)>,
    elapsed_ms: u64,
) -> (r: Vec<(String, u64)>)
    requires
        keys@.len() == pos@.len(),
        pos@.map_values(|p: usize| p as int) == first_positions(conns@),
        forall|k: int| 0 <= k < pos@.len() ==> pos@[k] < conns@.len(),
    ensures
        r@ == next_first_seen(keys@, conns@, *cache, now, seen@, elapsed_ms),
{
    let ghost pred = |e: (String, u64)| key_listed(keys@, e.0@);
    let mut out: Vec<(String, u64)> = Vec::new();
    let mut i: usize = 0;
    while i < seen.len()
        invariant
            i <= seen@.len(),
            pred == (|e: (String, u64)| key_listed(keys@, e.0@)),
            out@ == seen@.take(i as int).filter(pred),
        decreases seen@.len() - i,
    {
        proof {
            reveal(Seq::filter);
            assert(seen@.take(i as int + 1).drop_last() =~= seen@.take(i as int));
        }
        if listed_key(keys, &seen[i].0) {
            out.push(clone_record(&seen[i]));
        }
        i = i + 1;
    }
    assert(seen@.take(seen@.len() as int) =~= seen@);
    let ghost kept = out@;
    let ghost order = first_positions(conns@);
    let mut k: usize = 0;
    assert(order.take(0) =~= Seq::<int>::empty());
    while k < pos.len()
        invariant
            k <= pos@.len(),
            keys@.len() == pos@.len(),
            order == first_positions(conns@),
            pos@.map_values(|p: usize| p as int) == order,
            forall|j: int| 0 <= j < pos@.len() ==> pos@[j] < conns@.len(),
            out@ == kept + added_records(keys@, conns@, order.take(k as int), *cache, now, seen@, elapsed_ms),
        decreases pos@.len() - k,
    {
        assert(order.take(k as int + 1).drop_last() =~= order.take(k as int));
        assert(order[k as int] == pos@[k as int] as int);
        let c = &conns[pos[k]];
        let resolved_here = match cache.lookup(&c.remote_ip, now) {
            Some(Some(_)) => true,
            _ => false,
        };
        if resolved_here && lookup_seen(seen, &keys[k]).is_none() {
            out.push((keys[k].clone(), elapsed_ms));
        }
        proof {
            let a = added_records(keys@, conns@, order.take(k as int + 1), *cache, now, seen@, elapsed_ms);
            let b = added_records(keys@, conns@, order.take(k as int), *cache, now, seen@, elapsed_ms);
            assert(out@ =~= kept + a);
        }
        k = k + 1;
    }
    assert(order.take(pos@.len() as int) =~= order);
    out
}

fn touch_all(cache: &mut GeoCache, conns: &Vec<ParsedConnection>, pos: &Vec<usize>, now: u64)
    requires
        old(cache).wf(),
        forall|k: int| 0 <= k < pos@.len() ==> pos@[k] < conns@.len(),
    ensures
        final(cache).wf(),
        final(cache).entries@ == after_gets(
            old(cache).entries@,
            flow_ips(conns@, pos@.map_values(|p: usize| p as int)),
            now,
        ),
{
    let ghost order = pos@.map_values(|p: usize| p as int);
    let ghost ips = flow_ips(conns@, order);
    let mut k: usize = 0;
    assert(ips.take(0) =~= Seq::<Seq<char>>::empty());
    while k < pos.len()
        invariant
            k <= pos@.len(),
            order == pos@.map_values(|p: usize| p as int),
            ips == flow_ips(conns@, order),
            forall|j: int| 0 <= j < pos@.len() ==> pos@[j] < conns@.len(),
            cache.wf(),
            cache.entries@ == after_gets(old(cache).entries@, ips.take(k as int), now),
        decreases pos@.len() - k,
    {
        assert(ips.take(k as int + 1).drop_last() =~= ips.take(k as int));
        assert(ips[k as int] == conns@[pos@[k as int] as int].remote_ip@);
        let _ = cache.get(&conns[pos[k]].remote_ip, now);
        k = k + 1;
    }
    assert(ips.take(pos@.len() as int) =~= ips);
}

/// Builds one tick's frame from the current connections: one flow per
/// distinct flow key (first connection wins), dropped while its destination
/// is unresolved, estimated deterministically from the key, at most
/// `MAX_FLOWS_PER_FRAME` carried. Every distinct destination is looked up in
/// the cache at `now` (refreshing or expiring its entry); the previous keys
/// become this tick's keys and the first-seen records are pruned to them.
pub fn build_frame(
    conns: &Vec<ParsedConnection>,
    geo_cache: &mut GeoCache,
    prev_keys: &mut Vec<String>,
    local: &LocalGeo,
    elapsed_ms: u64,
    now: u64,
    process_names: &Vec<(u32, String)>,
    flow_first_seen: &mut Vec<(String, u64)>,
) -> (r: TelemetryFrame)
    requires
        conns@.len() <= MAX_CONNECTIONS,
        old(geo_cache).wf(),
    ensures
        frame_view(r) == expected_frame(
            conns@,
            *old(geo_cache),
            now,
            old(prev_keys)@,
            old(flow_first_seen)@,
            process_names@,
            *local,
            elapsed_ms,
        ),
        final(geo_cache).wf(),
        final(geo_cache).entries@ == after_gets(
            old(geo_cache).entries@,
            flow_ips(conns@, first_positions(conns@)),
            now,
        ),
        final(prev_keys)@.len() == first_positions(conns@).len(),
        forall|k: int|
            0 <= k < final(prev_keys)@.len() ==> #[trigger] final(prev_keys)@[k]@ == conn_key(
                conns@[first_positions(conns@)[k]],
            ),
        final(flow_first_seen)@ == next_first_seen(
            final(prev_keys)@,
            conns@,
            *old(geo_cache),
            now,
            old(flow_first_seen)@,
            elapsed_ms,
        ),
{
    let (keys, pos) = unique_flows(conns);
    let frame = assemble(
        conns,
        &keys,
        &pos,
        geo_cache,
        now,
        prev_keys,
        flow_first_seen,
        process_names,
        local,
        elapsed_ms,
    );
    let seen = rebuild_first_seen(&keys, &pos, conns, geo_cache, now, flow_first_seen, elapsed_ms);
    touch_all(geo_cache, conns, &pos, now);
    proof {
        assert forall|k: int| 0 <= k < keys@.len() implies #[trigger] keys@[k]@ == conn_key(
            conns@[first_positions(conns@)[k]],
        ) by {
            assert(first_positions(conns@)[k] == pos@[k] as int);
        }
    }
    *prev_keys = keys;
    *flow_first_seen = seen;
    frame
}

/// Building is a function of its inputs: two frames that meet the
/// contract of `build_frame` for the same inputs are the same frame.
pub proof fn lemma_build_is_deterministic(
    a: TelemetryFrame,
    b: TelemetryFrame,
    cs: Seq<ParsedConnection>,
    cache: GeoCache,
    now: u64,
    prev: Seq<String>,
    seen: Seq<(String, u64)>,
    names: Seq<(u32, String)>,
    local: LocalGeo,
    elapsed_ms: u64,
)
    requires
        frame_view(a) == expected_frame(cs, cache, now, prev, seen, names, local, elapsed_ms),
        frame_view(b) == expected_frame(cs, cache, now, prev, seen, names, local, elapsed_ms),
    ensures
        frame_view(a) == frame_view(b),
{
}

} // verus!
