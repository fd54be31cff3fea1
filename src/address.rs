//! Address classification: private-range detection, `host:port` splitting,
//! and protocol / service code mapping.
use vstd::prelude::*;
use vstd::string::*;

verus! {

pub open spec fn is_digit(c: char) -> bool {
    '0' <= c && c <= '9'
}

/// Decimal value of a run of digits (most significant first).
pub open spec fn digits_value(s: Seq<char>) -> nat
    decreases s.len(),
{
    if s.len() == 0 {
        0
    } else {
        digits_value(s.drop_last()) * 10 + ((s.last() as nat) - ('0' as nat)) as nat
    }
}

/// The digits of an unsigned integer text, after an optional leading `+`.
pub open spec fn unsigned_body(s: Seq<char>) -> Seq<char> {
    if s.len() > 0 && s[0] == '+' {
        s.skip(1)
    } else {
        s
    }
}

/// What parsing `s` as an unsigned integer no greater than `max` yields.
pub open spec fn parse_unsigned(s: Seq<char>, max: nat) -> Option<nat> {
    let d = unsigned_body(s);
    if d.len() > 0 && (forall|i: int| 0 <= i < d.len() ==> is_digit(#[trigger] d[i]))
        && digits_value(d) <= max {
        Some(digits_value(d))
    } else {
        None
    }
}

proof fn lemma_digits_value_take(s: Seq<char>, i: int)
    requires
        0 <= i < s.len(),
    ensures
        digits_value(s.take(i + 1)) == digits_value(s.take(i)) * 10 + ((s[i] as nat) - ('0' as nat)) as nat,
{
    assert(s.take(i + 1).drop_last() =~= s.take(i));
}

/// The characters of `s`, one per element.
pub fn chars_of(s: &str) -> (r: Vec<char>)
    ensures
        r@ == s@,
{
    let n = s.unicode_len();
    let mut r: Vec<char> = Vec::new();
    let mut i: usize = 0;
    while i < n
        invariant
            n == s@.len(),
            i <= n,
            r@ == s@.take(i as int),
        decreases n - i,
    {
        r.push(s.get_char(i));
        assert(s@.take(i as int).push(s@[i as int]) =~= s@.take(i as int + 1));
        i = i + 1;
    }
    assert(s@.take(n as int) =~= s@);
    r
}

/// Parses `cs[from..to]` as an unsigned integer no greater than `max`.
pub fn parse_unsigned_in(cs: &Vec<char>, from: usize, to: usize, max: u64) -> (r: Option<u64>)
    requires
        from <= to <= cs@.len(),
        max <= 0xFFFF_FFFF,
    ensures
        r == (match parse_unsigned(cs@.subrange(from as int, to as int), max as nat) {
            Some(v) => Some(v as u64),
            None => None::<u64>,
        }),
{
    let ghost t = cs@.subrange(from as int, to as int);
    let mut start = from;
    if start < to && cs[start] == '+' {
        start = start + 1;
    }
    let ghost d = cs@.subrange(start as int, to as int);
    assert(d =~= unsigned_body(t));
    if start >= to {
        assert(unsigned_body(t).len() == 0);
        assert(parse_unsigned(t, max as nat) is None);
        return None;
    }
    let mut value: u64 = 0;
    let mut over = false;
    let mut i: usize = start;
    while i < to
        invariant
            start <= i <= to,
            start < to <= cs@.len(),
            d == cs@.subrange(start as int, to as int),
            d == unsigned_body(t),
            t == cs@.subrange(from as int, to as int),
            max <= 0xFFFF_FFFF,
            forall|j: int| 0 <= j < i - start ==> is_digit(#[trigger] d[j]),
            !over ==> value as nat == digits_value(d.take(i - start)) && value <= max,
            over ==> digits_value(d.take(i - start)) > max,
        decreases to - i,
    {
        let c = cs[i];
        if !('0' <= c && c <= '9') {
            assert(!is_digit(d[i - start]));
            return None;
        }
        proof {
            lemma_digits_value_take(d, i - start);
        }
        if !over {
            let v = value * 10 + (c as u64 - '0' as u64);
            if v > max {
                over = true;
            } else {
                value = v;
            }
        }
        i = i + 1;
    }
    assert(d.take(d.len() as int) =~= d);
    if over {
        None
    } else {
        Some(value)
    }
}


pub open spec fn starts_with(s: Seq<char>, p: Seq<char>) -> bool {
    p.len() <= s.len() && s.take(p.len() as int) == p
}

/// First index at or after `i` holding `c`, or `s.len()` when there is none.
pub open spec fn find_from(s: Seq<char>, c: char, i: int) -> int
    decreases s.len() - i,
{
    if i < 0 || i >= s.len() {
        s.len() as int
    } else if s[i] == c {
        i
    } else {
        find_from(s, c, i + 1)
    }
}

proof fn lemma_find_from_bounds(s: Seq<char>, c: char, i: int)
    requires
        0 <= i <= s.len(),
    ensures
        i <= find_from(s, c, i) <= s.len(),
    decreases s.len() - i,
{
    if i < s.len() && s[i] != c {
        lemma_find_from_bounds(s, c, i + 1);
    }
}

/// Last index before `i` holding `c`, or -1 when there is none.
pub open spec fn rfind_before(s: Seq<char>, c: char, i: int) -> int
    decreases i,
{
    if i <= 0 || i > s.len() {
        -1
    } else if s[i - 1] == c {
        i - 1
    } else {
        rfind_before(s, c, i - 1)
    }
}

/// Second dot-separated field of `s` read as a `u8`, 0 when absent or invalid.
pub open spec fn second_octet(s: Seq<char>) -> nat {
    let start = find_from(s, '.', 0) + 1;
    if start > s.len() {
        0
    } else {
        match parse_unsigned(s.subrange(start, find_from(s, '.', start)), 255) {
            Some(v) => v,
            None => 0,
        }
    }
}

/// IPv6 link-local text (fe80::/10): `fe8`, `fe9`, `fea` or `feb`, one more
/// hex digit, then a colon.
pub open spec fn is_link_local_v6(s: Seq<char>) -> bool {
    s.len() >= 5 && s[0] == 'f' && s[1] == 'e' && (s[2] == '8' || s[2] == '9' || s[2] == 'a' || s[2]
        == 'b') && is_hex_digit(s[3]) && s[4] == ':'
}

pub open spec fn is_hex_digit(c: char) -> bool {
    ('0' <= c && c <= '9') || ('a' <= c && c <= 'f') || ('A' <= c && c <= 'F')
}

fn link_local_v6(cs: &Vec<char>) -> (r: bool)
    ensures
        r == is_link_local_v6(cs@),
{
    if cs.len() < 5 {
        return false;
    }
    let c3 = cs[3];
    cs[0] == 'f' && cs[1] == 'e' && (cs[2] == '8' || cs[2] == '9' || cs[2] == 'a' || cs[2] == 'b')
        && (('0' <= c3 && c3 <= '9') || ('a' <= c3 && c3 <= 'f') || ('A' <= c3 && c3 <= 'F'))
        && cs[4] == ':'
}

/// Private, loopback, link-local, unspecified and unique-local addresses,
/// including IPv4-mapped IPv6 forms of the private IPv4 ranges.
pub open spec fn is_private_spec(s: Seq<char>) -> bool
    decreases s.len(),
{
    starts_with(s, "10."@) || starts_with(s, "192.168."@) || (starts_with(s, "172."@) && 16
        <= second_octet(s) <= 31) || starts_with(s, "127."@) || starts_with(s, "0."@) || s
        == "::1"@ || s == "::"@ || is_link_local_v6(s) || starts_with(s, "fc00:"@)
        || starts_with(s, "fd"@) || s == "*"@ || (s.len() >= 7 && starts_with(s, "::ffff:"@)
        && is_private_spec(s.skip(7)))
}

/// Whether `cs` begins with `p`.
fn has_prefix(cs: &Vec<char>, p: &str) -> (r: bool)
    ensures
        r == starts_with(cs@, p@),
{
    let n = p.unicode_len();
    if n > cs.len() {
        return false;
    }
    let mut i: usize = 0;
    while i < n
        invariant
            n == p@.len(),
            n <= cs@.len(),
            i <= n,
            forall|j: int| 0 <= j < i ==> cs@[j] == p@[j],
        decreases n - i,
    {
        if cs[i] != p.get_char(i) {
            assert(cs@.take(n as int)[i as int] != p@[i as int]);
            return false;
        }
        i = i + 1;
    }
    assert(cs@.take(n as int) =~= p@);
    true
}

/// Whether `cs` is exactly `p`.
fn is_exactly(cs: &Vec<char>, p: &str) -> (r: bool)
    ensures
        r == (cs@ == p@),
{
    let n = p.unicode_len();
    if n != cs.len() {
        return false;
    }
    let b = has_prefix(cs, p);
    assert(cs@.take(n as int) =~= cs@);
    b
}

/// First index at or after `i` holding `c`, or the length when there is none.
fn find_char_from(cs: &Vec<char>, c: char, i: usize) -> (r: usize)
    requires
        i <= cs@.len(),
    ensures
        r as int == find_from(cs@, c, i as int),
        i <= r <= cs@.len(),
{
    proof {
        lemma_find_from_bounds(cs@, c, i as int);
    }
    let mut k = i;
    while k < cs.len() && cs[k] != c
        invariant
            i <= k <= cs@.len(),
            find_from(cs@, c, k as int) == find_from(cs@, c, i as int),
        decreases cs@.len() - k,
    {
        k = k + 1;
    }
    k
}

/// Last index holding `c`, if any.
fn rfind_char(cs: &Vec<char>, c: char) -> (r: Option<usize>)
    ensures
        match r {
            Some(p) => p as int == rfind_before(cs@, c, cs@.len() as int),
            None => rfind_before(cs@, c, cs@.len() as int) == -1,
        },
{
    let mut k = cs.len();
    while k > 0 && cs[k - 1] != c
        invariant
            k <= cs@.len(),
            rfind_before(cs@, c, k as int) == rfind_before(cs@, c, cs@.len() as int),
        decreases k,
    {
        k = k - 1;
    }
    if k == 0 {
        None
    } else {
        Some(k - 1)
    }
}

fn is_private_chars(cs: &Vec<char>) -> (r: bool)
    ensures
        r == is_private_spec(cs@),
    decreases cs@.len(),
{
    if has_prefix(cs, "10.") || has_prefix(cs, "192.168.") {
        return true;
    }
    if has_prefix(cs, "172.") {
        let first = find_char_from(cs, '.', 0);
        if first < cs.len() {
            let end = find_char_from(cs, '.', first + 1);
            let second = match parse_unsigned_in(cs, first + 1, end, 255) {
                Some(v) => v,
                None => 0,
            };
            if 16 <= second && second <= 31 {
                return true;
            }
        }
    }
    if has_prefix(cs, "127.") || has_prefix(cs, "0.") || is_exactly(cs, "::1") || is_exactly(
        cs,
        "::",
    ) || link_local_v6(cs) || has_prefix(cs, "fc00:") || has_prefix(cs, "fd")
        || is_exactly(cs, "*") {
        return true;
    }
    if cs.len() >= 7 && has_prefix(cs, "::ffff:") {
        let mut rest: Vec<char> = Vec::new();
        let mut i: usize = 7;
        while i < cs.len()
            invariant
                7 <= i <= cs@.len(),
                rest@ == cs@.subrange(7, i as int),
            decreases cs@.len() - i,
        {
            rest.push(cs[i]);
            assert(cs@.subrange(7, i as int).push(cs@[i as int]) =~= cs@.subrange(7, i as int + 1));
            i = i + 1;
        }
        assert(rest@ =~= cs@.skip(7));
        return is_private_chars(&rest);
    }
    false
}

/// Whether `ip` is a private, loopback, link-local or otherwise non-routable
/// address that is never worth geolocating.
pub fn is_private_ip(ip: &str) -> (r: bool)
    ensures
        r == is_private_spec(ip@),
{
    let cs = chars_of(ip);
    is_private_chars(&cs)
}


/// Where the port text of `s` starts, if it has a separator: two past the
/// first `]` of a bracketed text, one past the last colon otherwise.
pub open spec fn port_start(s: Seq<char>) -> Option<int> {
    if s.len() > 0 && s[0] == '[' {
        let close = find_from(s, ']', 1);
        if close + 2 <= s.len() {
            Some(close + 2)
        } else {
            None
        }
    } else {
        let pos = rfind_before(s, ':', s.len() as int);
        if pos >= 0 {
            Some(pos + 1)
        } else {
            None
        }
    }
}

/// End of the host part of `s` when it has a valid port: before the `]`
/// of a bracketed text, before the last colon otherwise.
pub open spec fn host_range(s: Seq<char>) -> Seq<char> {
    if s.len() > 0 && s[0] == '[' {
        s.subrange(1, find_from(s, ']', 1))
    } else {
        s.take(rfind_before(s, ':', s.len() as int))
    }
}

/// How a `host:port` text splits into host and port: a bracketed IPv6 host
/// ends at the first `]`, which is followed by one separator character;
/// otherwise the last colon separates host and port. When there is no
/// separator or the text after it is not a valid port (empty, not decimal,
/// or above 65535), the whole text is the host and the port is 0.
pub open spec fn split_spec(s: Seq<char>) -> (Seq<char>, u16) {
    match port_start(s) {
        Some(p) => match parse_unsigned(s.skip(p), 65535) {
            Some(v) => (host_range(s), v as u16),
            None => (s, 0),
        },
        None => (s, 0),
    }
}

proof fn lemma_rfind_bounds(s: Seq<char>, c: char, i: int)
    requires
        0 <= i <= s.len(),
    ensures
        -1 <= rfind_before(s, c, i) < i,
        rfind_before(s, c, i) >= 0 ==> s[rfind_before(s, c, i)] == c,
    decreases i,
{
    if i > 0 && s[i - 1] != c {
        lemma_rfind_bounds(s, c, i - 1);
    }
}

/// The text from `from` to `to` of `s`, as an owned string.
fn piece(s: &str, from: usize, to: usize) -> (r: String)
    requires
        from <= to <= s@.len(),
    ensures
        r@ == s@.subrange(from as int, to as int),
{
    String::from_str(s.substring_char(from, to))
}

/// Splits a connection-table address (`ip:port`, bare IPv6 with a trailing
/// port, or `[ipv6]:port`) into host and port; see `split_spec`.
pub fn split_address(addr: &str) -> (r: (String, u16))
    ensures
        (r.0@, r.1) == split_spec(addr@),
{
    let cs = chars_of(addr);
    let n = cs.len();
    let (start, host_from, host_to) = if n > 0 && cs[0] == '[' {
        let close = find_char_from(&cs, ']', 1);
        if close >= n - 1 {
            return (piece(addr, 0, n), 0);
        }
        (close + 2, 1, close)
    } else {
        proof {
            lemma_rfind_bounds(cs@, ':', n as int);
        }
        match rfind_char(&cs, ':') {
            Some(pos) => {
                assert(cs@.subrange(0, pos as int) =~= cs@.take(pos as int));
                (pos + 1, 0, pos)
            },
            None => {
                assert(cs@.subrange(0, n as int) =~= cs@);
                return (piece(addr, 0, n), 0);
            },
        }
    };
    assert(cs@.subrange(start as int, n as int) =~= cs@.skip(start as int));
    match parse_unsigned_in(&cs, start, n, 65535) {
        Some(v) => (piece(addr, host_from, host_to), v as u16),
        None => {
            assert(cs@.subrange(0, n as int) =~= cs@);
            (piece(addr, 0, n), 0)
        },
    }
}

/// Protocol code carried by a flow: 1 tcp, 2 udp, 3 icmp, 0 otherwise.
pub open spec fn protocol_code_spec(p: Seq<char>) -> u8 {
    if p == "tcp"@ {
        1
    } else if p == "udp"@ {
        2
    } else if p == "icmp"@ {
        3
    } else {
        0
    }
}

/// Numeric code for a transport protocol name.
pub fn protocol_code(proto: &str) -> (r: u8)
    ensures
        r == protocol_code_spec(proto@),
{
    let cs = chars_of(proto);
    if is_exactly(&cs, "tcp") {
        1
    } else if is_exactly(&cs, "udp") {
        2
    } else if is_exactly(&cs, "icmp") {
        3
    } else {
        0
    }
}

/// Well-known service behind a destination port, by code.
pub open spec fn service_code_spec(port: u16) -> Option<u8> {
    if port == 21 {
        Some(1)
    } else if port == 22 {
        Some(2)
    } else if port == 25 {
        Some(3)
    } else if port == 53 {
        Some(4)
    } else if port == 80 {
        Some(5)
    } else if port == 110 {
        Some(6)
    } else if port == 143 {
        Some(7)
    } else if port == 443 {
        Some(8)
    } else if port == 465 {
        Some(9)
    } else if port == 587 {
        Some(10)
    } else if port == 993 {
        Some(11)
    } else if port == 995 {
        Some(12)
    } else if port == 1433 {
        Some(13)
    } else if port == 3306 {
        Some(14)
    } else if port == 3389 {
        Some(15)
    } else if port == 5432 {
        Some(16)
    } else if port == 5900 {
        Some(17)
    } else if port == 6379 {
        Some(18)
    } else if port == 8080 {
        Some(19)
    } else if port == 8443 {
        Some(20)
    } else if port == 27017 {
        Some(21)
    } else if port == 9090 {
        Some(22)
    } else {
        None
    }
}

/// Service code of a destination port, if it is a recognised service port.
pub fn service_code(port: u16) -> (r: Option<u8>)
    ensures
        r == service_code_spec(port),
{
    match port {
        21 => Some(1),
        22 => Some(2),
        25 => Some(3),
        53 => Some(4),
        80 => Some(5),
        110 => Some(6),
        143 => Some(7),
        443 => Some(8),
        465 => Some(9),
        587 => Some(10),
        993 => Some(11),
        995 => Some(12),
        1433 => Some(13),
        3306 => Some(14),
        3389 => Some(15),
        5432 => Some(16),
        5900 => Some(17),
        6379 => Some(18),
        8080 => Some(19),
        8443 => Some(20),
        27017 => Some(21),
        9090 => Some(22),
        _ => None,
    }
}


/// The decimal digit character for `d < 10`.
pub open spec fn digit_char(d: nat) -> char {
    if d == 0 {
        '0'
    } else if d == 1 {
        '1'
    } else if d == 2 {
        '2'
    } else if d == 3 {
        '3'
    } else if d == 4 {
        '4'
    } else if d == 5 {
        '5'
    } else if d == 6 {
        '6'
    } else if d == 7 {
        '7'
    } else if d == 8 {
        '8'
    } else {
        '9'
    }
}

/// Decimal text of `n`, without leading zeros.
pub open spec fn decimal_spec(n: nat) -> Seq<char>
    decreases n,
{
    if n < 10 {
        seq![digit_char(n)]
    } else {
        decimal_spec(n / 10).push(digit_char(n % 10))
    }
}

fn digit_str(d: u64) -> (r: &'static str)
    requires
        d < 10,
    ensures
        r@ == seq![digit_char(d as nat)],
{
    proof {
        reveal_strlit("0");
        reveal_strlit("1");
        reveal_strlit("2");
        reveal_strlit("3");
        reveal_strlit("4");
        reveal_strlit("5");
        reveal_strlit("6");
        reveal_strlit("7");
        reveal_strlit("8");
        reveal_strlit("9");
    }
    let r = match d {
        0 => "0",
        1 => "1",
        2 => "2",
        3 => "3",
        4 => "4",
        5 => "5",
        6 => "6",
        7 => "7",
        8 => "8",
        _ => "9",
    };
    assert(r@ =~= seq![digit_char(d as nat)]);
    r
}

/// Decimal text of `n`.
pub fn decimal(n: u64) -> (r: String)
    ensures
        r@ == decimal_spec(n as nat),
    decreases n,
{
    if n < 10 {
        String::from_str(digit_str(n))
    } else {
        let mut s = decimal(n / 10);
        s.append(digit_str(n % 10));
        s
    }
}


proof fn lemma_digit_char(x: nat)
    requires
        x < 10,
    ensures
        is_digit(digit_char(x)),
        (digit_char(x) as nat) - ('0' as nat) == x,
{
}

proof fn lemma_decimal_digits(n: nat)
    ensures
        decimal_spec(n).len() > 0,
        forall|i: int| 0 <= i < decimal_spec(n).len() ==> is_digit(#[trigger] decimal_spec(n)[i]),
        digits_value(decimal_spec(n)) == n,
    decreases n,
{
    lemma_digit_char(n % 10);
    if n < 10 {
        let d = decimal_spec(n);
        assert(d.drop_last() =~= Seq::<char>::empty());
        assert(d.last() == digit_char(n));
        assert(digits_value(d.drop_last()) == 0);
        assert(digits_value(d) == digits_value(d.drop_last()) * 10 + ((d.last() as nat) - ('0' as nat)) as nat);
    } else {
        lemma_decimal_digits(n / 10);
        let d = decimal_spec(n);
        assert(d.last() == digit_char(n % 10));
        assert(d.drop_last() =~= decimal_spec(n / 10));
        assert(digits_value(d) == digits_value(d.drop_last()) * 10 + ((d.last() as nat) - ('0' as nat)) as nat);
        assert(digits_value(d) == (n / 10) * 10 + n % 10);
        assert(d.drop_last() =~= decimal_spec(n / 10));
        assert forall|i: int| 0 <= i < d.len() implies is_digit(#[trigger] d[i]) by {
            if i < d.len() - 1 {
                assert(d[i] == decimal_spec(n / 10)[i]);
            }
        }
    }
}

proof fn lemma_parse_decimal(n: nat, max: nat)
    requires
        n <= max,
    ensures
        parse_unsigned(decimal_spec(n), max) == Some(n),
{
    lemma_decimal_digits(n);
    let d = decimal_spec(n);
    assert(d[0] != '+');
    assert(unsigned_body(d) == d);
}

proof fn lemma_rfind_at(s: Seq<char>, c: char, p: int, i: int)
    requires
        0 <= p < i <= s.len(),
        s[p] == c,
        forall|j: int| p < j < i ==> s[j] != c,
    ensures
        rfind_before(s, c, i) == p,
    decreases i,
{
    if i - 1 > p {
        lemma_rfind_at(s, c, p, i - 1);
    }
}

proof fn lemma_find_at(s: Seq<char>, c: char, i: int, p: int)
    requires
        0 <= i <= p < s.len(),
        s[p] == c,
        forall|j: int| i <= j < p ==> s[j] != c,
    ensures
        find_from(s, c, i) == p,
    decreases p - i,
{
    if i < p {
        lemma_find_at(s, c, i + 1, p);
    }
}

/// Address text `ip:port`.
pub open spec fn join_address(ip: Seq<char>, port: u16) -> Seq<char> {
    ip + seq![':'] + decimal_spec(port as nat)
}

/// Address text `[ip]:port`.
pub open spec fn join_bracketed(ip: Seq<char>, port: u16) -> Seq<char> {
    seq!['['] + ip + seq![']', ':'] + decimal_spec(port as nat)
}

/// Splitting a formatted address gives back its host and port: for an IPv4
/// host (no colon), a bare IPv6 host (at least one colon), and a bracketed
/// IPv6 host (no closing bracket inside), each with a trailing valid port.
pub proof fn lemma_split_round_trip(ip: Seq<char>, port: u16)
    ensures
        !(ip.len() > 0 && ip[0] == '[') ==> split_spec(join_address(ip, port)) == (ip, port),
        (forall|i: int| 0 <= i < ip.len() ==> ip[i] != ']') ==> split_spec(join_bracketed(ip, port))
            == (ip, port),
{
    let d = decimal_spec(port as nat);
    lemma_parse_decimal(port as nat, 65535);
    lemma_decimal_digits(port as nat);
    assert(forall|i: int| 0 <= i < d.len() ==> d[i] != ':' && d[i] != ']') by {
        assert forall|i: int| 0 <= i < d.len() implies d[i] != ':' && d[i] != ']' by {
            assert(is_digit(d[i]));
        }
    }
    if !(ip.len() > 0 && ip[0] == '[') {
        let s = join_address(ip, port);
        let n = ip.len() as int;
        assert(s[n] == ':');
        assert forall|j: int| n < j < s.len() implies s[j] != ':' by {
            assert(s[j] == d[j - n - 1]);
        }
        lemma_rfind_at(s, ':', n, s.len() as int);
        assert(s.take(n) =~= ip);
        assert(s.skip(n + 1) =~= d);
        if s.len() > 0 && s[0] == '[' {
            assert(ip.len() == 0);
        }
        assert(s =~= (ip + seq![':']) + d);
    }
    if forall|i: int| 0 <= i < ip.len() ==> ip[i] != ']' {
        let s = join_bracketed(ip, port);
        let n = ip.len() as int;
        assert(s[0] == '[');
        assert(s[n + 1] == ']');
        assert forall|j: int| 1 <= j < n + 1 implies s[j] != ']' by {
            assert(s[j] == ip[j - 1]);
        }
        lemma_find_at(s, ']', 1, n + 1);
        assert(s.subrange(1, n + 1) =~= ip);
        assert(s.skip(n + 3) =~= d);
    }
}


/// A text without a valid trailing port keeps the whole text as host, with
/// port 0: one with no separator (no colon, or an unclosed bracket or
/// nothing after the `]`), and one whose text after the separator is
/// empty, not decimal, or above 65535.
pub proof fn lemma_split_without_port(s: Seq<char>)
    ensures
        port_start(s) is None ==> split_spec(s) == (s, 0u16),
        port_start(s) is Some && parse_unsigned(s.skip(port_start(s)->0), 65535) is None
            ==> split_spec(s) == (s, 0u16),
        !(s.len() > 0 && s[0] == '[') && (forall|i: int| 0 <= i < s.len() ==> s[i] != ':')
            ==> split_spec(s) == (s, 0u16),
{
    if !(s.len() > 0 && s[0] == '[') && (forall|i: int| 0 <= i < s.len() ==> s[i] != ':') {
        lemma_rfind_bounds(s, ':', s.len() as int);
    }
}


/// Dotted-quad text of an IPv4 address.
pub open spec fn dotted_quad(a: u8, b: u8, c: u8, d: u8) -> Seq<char> {
    decimal_spec(a as nat) + seq!['.'] + decimal_spec(b as nat) + seq!['.'] + decimal_spec(
        c as nat,
    ) + seq!['.'] + decimal_spec(d as nat)
}

proof fn lemma_decimal_injective(x: nat, y: nat)
    requires
        decimal_spec(x) == decimal_spec(y),
    ensures
        x == y,
{
    lemma_decimal_digits(x);
    lemma_decimal_digits(y);
}

/// A text that starts with the digits of `x` and a dot starts with the
/// digits of `y` and a dot only when `x == y`.
proof fn lemma_octet_prefix(x: nat, y: nat, r: Seq<char>)
    ensures
        starts_with(decimal_spec(x) + seq!['.'] + r, decimal_spec(y) + seq!['.']) <==> x == y,
{
    let dx = decimal_spec(x);
    let dy = decimal_spec(y);
    let s = dx + seq!['.'] + r;
    let p = dy + seq!['.'];
    lemma_decimal_digits(x);
    lemma_decimal_digits(y);
    if x == y {
        assert(s.take(p.len() as int) =~= p);
    } else if starts_with(s, p) {
        let lx = dx.len() as int;
        let ly = dy.len() as int;
        assert(s.take(p.len() as int)[ly] == '.');
        if ly < lx {
            assert(s[ly] == dx[ly]);
            assert(is_digit(dx[ly]));
        } else if ly > lx {
            assert(s[lx] == '.');
            assert(p[lx] == dy[lx]);
            assert(is_digit(dy[lx]));
            assert(s.take(p.len() as int)[lx] == s[lx]);
        } else {
            assert forall|i: int| 0 <= i < lx implies dx[i] == dy[i] by {
                assert(s[i] == dx[i]);
                assert(p[i] == dy[i]);
                assert(s.take(p.len() as int)[i] == s[i]);
            }
            assert(dx =~= dy);
            lemma_decimal_injective(x, y);
        }
    }
}

proof fn lemma_starts_with_concat(s: Seq<char>, x: Seq<char>, y: Seq<char>)
    ensures
        starts_with(s, x + y) <==> starts_with(s, x) && starts_with(s.skip(x.len() as int), y),
{
    if starts_with(s, x + y) {
        assert(s.take(x.len() as int) =~= (x + y).take(x.len() as int));
        assert(s.take(x.len() as int) =~= x);
        assert(s.skip(x.len() as int).take(y.len() as int) =~= y) by {
            assert forall|i: int| 0 <= i < y.len() implies s.skip(x.len() as int)[i] == y[i] by {
                assert(s.take((x + y).len() as int)[x.len() + i] == (x + y)[x.len() + i]);
            }
        }
    }
    if starts_with(s, x) && starts_with(s.skip(x.len() as int), y) {
        assert(s.take((x + y).len() as int) =~= x + y) by {
            assert forall|i: int| 0 <= i < (x + y).len() implies s[i] == (x + y)[i] by {
                if i < x.len() {
                    assert(s.take(x.len() as int)[i] == s[i]);
                } else {
                    assert(s.skip(x.len() as int).take(y.len() as int)[i - x.len()] == s[i]);
                }
            }
        }
    }
}

proof fn lemma_literal_octets()
    ensures
        "10."@ == decimal_spec(10) + seq!['.'],
        "127."@ == decimal_spec(127) + seq!['.'],
        "0."@ == decimal_spec(0) + seq!['.'],
        "172."@ == decimal_spec(172) + seq!['.'],
        "192."@ == decimal_spec(192) + seq!['.'],
        "168."@ == decimal_spec(168) + seq!['.'],
        "192.168."@ == "192."@ + "168."@,
{
    reveal_strlit("10.");
    reveal_strlit("127.");
    reveal_strlit("0.");
    reveal_strlit("172.");
    reveal_strlit("192.");
    reveal_strlit("168.");
    reveal_strlit("192.168.");
    assert(decimal_spec(1) == seq!['1']);
    assert(decimal_spec(12) =~= seq!['1', '2']);
    assert(decimal_spec(10) =~= seq!['1', '0']);
    assert(decimal_spec(127) =~= seq!['1', '2', '7']);
    assert(decimal_spec(17) =~= seq!['1', '7']);
    assert(decimal_spec(172) =~= seq!['1', '7', '2']);
    assert(decimal_spec(19) =~= seq!['1', '9']);
    assert(decimal_spec(192) =~= seq!['1', '9', '2']);
    assert(decimal_spec(16) =~= seq!['1', '6']);
    assert(decimal_spec(168) =~= seq!['1', '6', '8']);
    assert("10."@ =~= decimal_spec(10) + seq!['.']);
    assert("127."@ =~= decimal_spec(127) + seq!['.']);
    assert("0."@ =~= decimal_spec(0) + seq!['.']);
    assert("172."@ =~= decimal_spec(172) + seq!['.']);
    assert("192."@ =~= decimal_spec(192) + seq!['.']);
    assert("168."@ =~= decimal_spec(168) + seq!['.']);
    assert("192.168."@ =~= "192."@ + "168."@);
}


/// On dotted-quad IPv4 text, the private ranges are exactly 10/8, 127/8,
/// 0/8, 172.16/12 and 192.168/16; every other address is public.
pub proof fn lemma_private_dotted_quad(a: u8, b: u8, c: u8, d: u8)
    ensures
        is_private_spec(dotted_quad(a, b, c, d)) == (a == 10 || a == 127 || a == 0 || (a == 172 && 16
            <= b <= 31) || (a == 192 && b == 168)),
{
    let s = dotted_quad(a, b, c, d);
    let da = decimal_spec(a as nat);
    let db = decimal_spec(b as nat);
    let r2 = seq!['.'] + decimal_spec(c as nat) + seq!['.'] + decimal_spec(d as nat);
    let r = db + r2;
    assert(s =~= da + seq!['.'] + r);
    lemma_decimal_digits(a as nat);
    lemma_decimal_digits(b as nat);
    lemma_literal_octets();
    lemma_octet_prefix(a as nat, 10, r);
    lemma_octet_prefix(a as nat, 127, r);
    lemma_octet_prefix(a as nat, 0, r);
    lemma_octet_prefix(a as nat, 172, r);
    lemma_octet_prefix(a as nat, 192, r);
    // 192.168.
    lemma_starts_with_concat(s, "192."@, "168."@);
    if a == 192 {
        reveal_strlit("192.");
        assert("192."@.len() == 4);
        assert(da.len() == 3);
        assert(s.skip(4) =~= db + r2);
        assert(db + r2 =~= db + seq!['.'] + (decimal_spec(c as nat) + seq!['.'] + decimal_spec(d as nat)));
        lemma_octet_prefix(b as nat, 168, decimal_spec(c as nat) + seq!['.'] + decimal_spec(d as nat));
    }
    // second octet
    let la = da.len() as int;
    let lb = db.len() as int;
    assert(s[la] == '.');
    assert forall|j: int| 0 <= j < la implies s[j] != '.' by {
        assert(s[j] == da[j]);
        assert(is_digit(da[j]));
    }
    lemma_find_at(s, '.', 0, la);
    assert(s[la + 1 + lb] == '.');
    assert forall|j: int| la + 1 <= j < la + 1 + lb implies s[j] != '.' by {
        assert(s[j] == db[j - la - 1]);
        assert(is_digit(db[j - la - 1]));
    }
    lemma_find_at(s, '.', la + 1, la + 1 + lb);
    assert(s.subrange(la + 1, la + 1 + lb) =~= db);
    lemma_parse_decimal(b as nat, 255);
    assert(second_octet(s) == b);
    // the remaining forms all start with something other than a digit
    assert(is_digit(s[0])) by {
        assert(s[0] == da[0]);
    }
    reveal_strlit("::1");
    reveal_strlit("::");
    reveal_strlit("fc00:");
    reveal_strlit("fd");
    reveal_strlit("*");
    reveal_strlit("::ffff:");
    assert(s != "::1"@ && s != "::"@ && s != "*"@) by {
        assert(s[0] != "::1"@[0]);
        assert(s[0] != "*"@[0]);
    }
    assert(!starts_with(s, "fc00:"@)) by {
        if starts_with(s, "fc00:"@) {
            assert(s.take(5)[0] == s[0]);
        }
    }
    assert(!starts_with(s, "fd"@)) by {
        if starts_with(s, "fd"@) {
            assert(s.take(2)[0] == s[0]);
        }
    }
    assert(!starts_with(s, "::ffff:"@)) by {
        if starts_with(s, "::ffff:"@) {
            assert(s.take(7)[0] == s[0]);
        }
    }
}

} // verus!
