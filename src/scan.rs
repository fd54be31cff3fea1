//! Parsing of the connection-table and process-list utilities' text output.
use vstd::prelude::*;
use vstd::string::*;
use crate::address::{chars_of, is_private_ip, is_private_spec, parse_unsigned, parse_unsigned_in, split_address, split_spec};
use crate::frame::{str_eq, ParsedConnection};

verus! {

/// Unicode `White_Space` characters.
pub open spec fn is_space(c: char) -> bool {
    ('\u{9}' <= c && c <= '\u{d}') || c == ' ' || c == '\u{85}' || c == '\u{a0}' || c == '\u{1680}'
        || ('\u{2000}' <= c && c <= '\u{200a}') || c == '\u{2028}' || c == '\u{2029}' || c
        == '\u{202f}' || c == '\u{205f}' || c == '\u{3000}'
}

pub fn space(c: char) -> (r: bool)
    ensures
        r == is_space(c),
{
    ('\u{9}' <= c && c <= '\u{d}') || c == ' ' || c == '\u{85}' || c == '\u{a0}' || c == '\u{1680}'
        || ('\u{2000}' <= c && c <= '\u{200a}') || c == '\u{2028}' || c == '\u{2029}' || c
        == '\u{202f}' || c == '\u{205f}' || c == '\u{3000}'
}

/// Whitespace-separated words of `s`.
pub open spec fn words(s: Seq<char>) -> Seq<Seq<char>>
    decreases s.len(),
{
    if s.len() == 0 {
        Seq::empty()
    } else {
        let w = words(s.drop_last());
        let c = s.last();
        if is_space(c) {
            w
        } else if s.len() == 1 || is_space(s[s.len() - 2]) {
            w.push(seq![c])
        } else {
            w.update(w.len() - 1, w.last().push(c))
        }
    }
}

proof fn lemma_words_nonempty(s: Seq<char>)
    requires
        s.len() > 0,
        !is_space(s.last()),
    ensures
        words(s).len() > 0,
    decreases s.len(),
{
    if s.len() > 1 && !is_space(s[s.len() - 2]) {
        assert(s.drop_last().last() == s[s.len() - 2]);
        lemma_words_nonempty(s.drop_last());
    }
}

pub open spec fn string_views(v: Seq<String>) -> Seq<Seq<char>> {
    v.map_values(|s: String| s@)
}

/// The words of `s[from..to]`.
pub(crate) fn words_in(s: &str, cs: &Vec<char>, from: usize, to: usize) -> (r: Vec<String>)
    requires
        cs@ == s@,
        from <= to <= cs@.len(),
    ensures
        string_views(r@) == words(cs@.subrange(from as int, to as int)),
{
    let ghost line = cs@.subrange(from as int, to as int);
    let mut out: Vec<String> = Vec::new();
    let mut i: usize = from;
    assert(line.take(0) =~= Seq::<char>::empty());
    assert(string_views(out@) =~= words(line.take(0)));
    while i < to
        invariant
            cs@ == s@,
            from <= i <= to <= cs@.len(),
            line == cs@.subrange(from as int, to as int),
            string_views(out@) == words(line.take(i - from)),
        decreases to - i,
    {
        let ghost t = line.take(i - from + 1);
        assert(t.drop_last() =~= line.take(i - from));
        assert(t.last() == cs@[i as int]);
        let c = cs[i];
        if !space(c) {
            let piece = s.substring_char(i, i + 1);
            assert(piece@ =~= seq![c]);
            if i == from || space(cs[i - 1]) {
                let ghost ob = out@;
                out.push(String::from_str(piece));
                assert(string_views(out@) =~= string_views(ob).push(seq![c]));
            } else {
                assert(t[t.len() - 2] == cs@[i - 1]);
                proof {
                    lemma_words_nonempty(t.drop_last());
                }
                let ghost ob = out@;
                let mut last = out.pop().unwrap();
                assert(last == ob.last());
                last.append(piece);
                assert(last@ =~= ob.last()@.push(c));
                assert(ob.len() > 0);
                out.push(last);
                assert(out@ =~= ob.drop_last().push(last));
                assert(string_views(ob).last() == ob.last()@);
                assert(string_views(out@) =~= string_views(ob).update(ob.len() - 1, ob.last()@.push(c)));
            }
        } else {
            assert(t.len() > 0);
        }
        i = i + 1;
    }
    assert(line.take(to - from) =~= line);
    out
}


// ---------------------------------------------------------------- connection table

/// Whether `t` is `lower` with any letters in either ASCII case, where
/// `upper` is `lower` in upper case.
pub open spec fn same_word_ci(t: Seq<char>, lower: Seq<char>, upper: Seq<char>) -> bool {
    t.len() == lower.len() && lower.len() == upper.len() && forall|i: int|
        0 <= i < t.len() ==> #[trigger] t[i] == lower[i] || t[i] == upper[i]
}

fn word_ci(t: &String, lower: &str, upper: &str) -> (r: bool)
    ensures
        r == same_word_ci(t@, lower@, upper@),
{
    let n = lower.unicode_len();
    if t.as_str().unicode_len() != n || upper.unicode_len() != n {
        return false;
    }
    let mut i: usize = 0;
    while i < n
        invariant
            n == t@.len(),
            n == lower@.len(),
            n == upper@.len(),
            i <= n,
            forall|j: int| 0 <= j < i ==> #[trigger] t@[j] == lower@[j] || t@[j] == upper@[j],
        decreases n - i,
    {
        let c = t.as_str().get_char(i);
        if c != lower.get_char(i) && c != upper.get_char(i) {
            return false;
        }
        i = i + 1;
    }
    true
}

/// One row of the connection table as values.
pub struct ConnRow {
    pub proto: Seq<char>,
    pub local_ip: Seq<char>,
    pub remote_ip: Seq<char>,
    pub remote_port: u16,
    pub state: Seq<char>,
    pub pid: u32,
}

pub open spec fn conn_view(c: ParsedConnection) -> ConnRow {
    ConnRow {
        proto: c.proto@,
        local_ip: c.local_ip@,
        remote_ip: c.remote_ip@,
        remote_port: c.remote_port,
        state: c.state@,
        pid: c.pid,
    }
}

/// A process id read from text, 0 when the text is not a valid `u32`.
pub open spec fn pid_or_zero(t: Seq<char>) -> u32 {
    match parse_unsigned(t, u32::MAX as nat) {
        Some(v) => v as u32,
        None => 0,
    }
}

/// The connection a row of words describes: TCP rows carry a state before
/// the owning process id, UDP rows do not. Rows of other protocols, short
/// rows, and rows whose remote end is unspecified (`*`, `*:*`, `0.0.0.0`,
/// `[::]`, empty) or private are skipped.
pub open spec fn row_of(w: Seq<Seq<char>>) -> Option<ConnRow> {
    if w.len() < 4 {
        None
    } else {
        let tcp = same_word_ci(w[0], "tcp"@, "TCP"@);
        let udp = same_word_ci(w[0], "udp"@, "UDP"@);
        let remote = split_spec(w[2]);
        if !tcp && !udp {
            None
        } else if remote.0 == "*"@ || remote.0 == "*:*"@ || remote.0 == "0.0.0.0"@ || remote.0 == "[::]"@
            || remote.0.len() == 0 || is_private_spec(remote.0) {
            None
        } else {
            Some(
                ConnRow {
                    proto: if tcp {
                        "tcp"@
                    } else {
                        "udp"@
                    },
                    local_ip: split_spec(w[1]).0,
                    remote_ip: remote.0,
                    remote_port: remote.1,
                    state: if tcp {
                        w[3]
                    } else {
                        "STATELESS"@
                    },
                    pid: if tcp {
                        if w.len() > 4 {
                            pid_or_zero(w[4])
                        } else {
                            0
                        }
                    } else {
                        pid_or_zero(w[3])
                    },
                },
            )
        }
    }
}

fn pid_in(t: &String) -> (r: u32)
    ensures
        r == pid_or_zero(t@),
{
    let cs = chars_of(t.as_str());
    assert(cs@.subrange(0, cs@.len() as int) =~= cs@);
    match parse_unsigned_in(&cs, 0, cs.len(), 0xFFFF_FFFF) {
        Some(v) => v as u32,
        None => 0,
    }
}

/// Parses one line of the connection table.
fn parse_row(s: &str, cs: &Vec<char>, from: usize, to: usize) -> (r: Option<ParsedConnection>)
    requires
        cs@ == s@,
        from <= to <= cs@.len(),
    ensures
        match r {
            Some(c) => row_of(words(cs@.subrange(from as int, to as int))) == Some(conn_view(c)),
            None => row_of(words(cs@.subrange(from as int, to as int))) is None,
        },
{
    let w = words_in(s, cs, from, to);
    let ghost wv = string_views(w@);
    if w.len() < 4 {
        return None;
    }
    assert(wv[0] == w@[0]@ && wv[1] == w@[1]@ && wv[2] == w@[2]@ && wv[3] == w@[3]@);
    let tcp = word_ci(&w[0], "tcp", "TCP");
    let udp = word_ci(&w[0], "udp", "UDP");
    if !tcp && !udp {
        return None;
    }
    let (local_ip, _local_port) = split_address(w[1].as_str());
    let (remote_ip, remote_port) = split_address(w[2].as_str());
    if str_eq(&remote_ip, "*") || str_eq(&remote_ip, "*:*") || str_eq(&remote_ip, "0.0.0.0") || str_eq(&remote_ip, "[::]")
        || remote_ip.as_str().unicode_len() == 0 || is_private_ip(remote_ip.as_str()) {
        return None;
    }
    let (state, pid) = if tcp {
        let pid = if w.len() > 4 {
            assert(wv[4] == w@[4]@);
            pid_in(&w[4])
        } else {
            0
        };
        (w[3].clone(), pid)
    } else {
        (String::from_str("STATELESS"), pid_in(&w[3]))
    };
    let proto = if tcp {
        String::from_str("tcp")
    } else {
        String::from_str("udp")
    };
    Some(ParsedConnection { proto, local_ip, remote_ip, remote_port, state, pid })
}

/// Lines of `s` (split at line feeds, the last one possibly empty).
pub open spec fn pieces(s: Seq<char>) -> Seq<Seq<char>>
    decreases s.len(),
{
    if s.len() == 0 {
        seq![Seq::empty()]
    } else {
        let p = pieces(s.drop_last());
        if s.last() == '\n' {
            p.push(Seq::empty())
        } else {
            p.update(p.len() - 1, p.last().push(s.last()))
        }
    }
}

/// The connections described by the lines `ls`, in order.
pub open spec fn rows_of(ls: Seq<Seq<char>>) -> Seq<ConnRow>
    decreases ls.len(),
{
    if ls.len() == 0 {
        Seq::empty()
    } else {
        match row_of(words(ls.last())) {
            Some(r) => rows_of(ls.drop_last()).push(r),
            None => rows_of(ls.drop_last()),
        }
    }
}

pub open spec fn conn_views(v: Seq<ParsedConnection>) -> Seq<ConnRow> {
    v.map_values(|c: ParsedConnection| conn_view(c))
}

/// Parses the connection table's text into the remote connections it lists.
pub fn parse_connection_table(text: &str) -> (r: Vec<ParsedConnection>)
    ensures
        conn_views(r@) == rows_of(pieces(text@)),
{
    let cs = chars_of(text);
    let n = cs.len();
    let mut out: Vec<ParsedConnection> = Vec::new();
    let ghost mut done: Seq<Seq<char>> = Seq::empty();
    let mut start: usize = 0;
    let mut i: usize = 0;
    assert(cs@.take(0) =~= Seq::<char>::empty());
    assert(pieces(cs@.take(0)) =~= done.push(cs@.subrange(0, 0)));
    while i < n
        invariant
            n == cs@.len(),
            cs@ == text@,
            start <= i <= n,
            pieces(cs@.take(i as int)) == done.push(cs@.subrange(start as int, i as int)),
            conn_views(out@) == rows_of(done),
        decreases n - i,
    {
        let ghost t = cs@.take(i as int + 1);
        assert(t.drop_last() =~= cs@.take(i as int));
        assert(t.last() == cs@[i as int]);
        if cs[i] == '\n' {
            let row = parse_row(text, &cs, start, i);
            let ghost cur = cs@.subrange(start as int, i as int);
            let ghost ob = out@;
            match row {
                Some(c) => {
                    out.push(c);
                    assert(conn_views(out@) =~= conn_views(ob).push(conn_view(c)));
                },
                None => {},
            }
            proof {
                let nd = done.push(cur);
                assert(nd.drop_last() =~= done);
                assert(nd.last() == cur);
                done = nd;
                assert(cs@.subrange(i as int + 1, i as int + 1) =~= Seq::<char>::empty());
            }
            start = i + 1;
        } else {
            assert(cs@.subrange(start as int, i as int + 1) =~= cs@.subrange(start as int, i as int).push(cs@[i as int]));
        }
        i = i + 1;
    }
    assert(cs@.take(n as int) =~= cs@);
    let row = parse_row(text, &cs, start, n);
    let ghost cur = cs@.subrange(start as int, n as int);
    let ghost ob = out@;
    match row {
        Some(c) => {
            out.push(c);
            assert(conn_views(out@) =~= conn_views(ob).push(conn_view(c)));
        },
        None => {},
    }
    proof {
        let nd = done.push(cur);
        assert(nd.drop_last() =~= done);
        assert(nd.last() == cur);
    }
    out
}


// ---------------------------------------------------------------- process list

/// Index of the first non-space character at or after `i`, or the length.
pub open spec fn skip_space(s: Seq<char>, i: int) -> int
    decreases s.len() - i,
{
    if i < 0 || i >= s.len() || !is_space(s[i]) {
        i
    } else {
        skip_space(s, i + 1)
    }
}

/// One past the last non-space character before `j`, or 0.
pub open spec fn back_space(s: Seq<char>, j: int) -> int
    decreases j,
{
    if j <= 0 || j > s.len() || !is_space(s[j - 1]) {
        j
    } else {
        back_space(s, j - 1)
    }
}

/// `s` without leading and trailing whitespace.
pub open spec fn trim(s: Seq<char>) -> Seq<char> {
    let lo = skip_space(s, 0);
    let hi = back_space(s, s.len() as int);
    if lo >= hi {
        Seq::empty()
    } else {
        s.subrange(lo, hi)
    }
}

proof fn lemma_skip_space(s: Seq<char>, i: int)
    requires
        0 <= i <= s.len(),
    ensures
        i <= skip_space(s, i) <= s.len(),
    decreases s.len() - i,
{
    if i < s.len() && is_space(s[i]) {
        lemma_skip_space(s, i + 1);
    }
}

proof fn lemma_back_space(s: Seq<char>, j: int)
    requires
        0 <= j <= s.len(),
    ensures
        0 <= back_space(s, j) <= j,
    decreases j,
{
    if j > 0 && is_space(s[j - 1]) {
        lemma_back_space(s, j - 1);
    }
}

pub(crate) fn trim_chars(cs: &Vec<char>) -> (r: Vec<char>)
    ensures
        r@ == trim(cs@),
{
    let n = cs.len();
    proof {
        lemma_skip_space(cs@, 0);
        lemma_back_space(cs@, n as int);
    }
    let mut lo: usize = 0;
    while lo < n && space(cs[lo])
        invariant
            lo <= n == cs@.len(),
            skip_space(cs@, lo as int) == skip_space(cs@, 0),
        decreases n - lo,
    {
        lo = lo + 1;
    }
    let mut hi: usize = n;
    while hi > 0 && space(cs[hi - 1])
        invariant
            hi <= n == cs@.len(),
            back_space(cs@, hi as int) == back_space(cs@, n as int),
        decreases hi,
    {
        hi = hi - 1;
    }
    let mut r: Vec<char> = Vec::new();
    if lo >= hi {
        return r;
    }
    let mut i = lo;
    while i < hi
        invariant
            lo <= i <= hi <= n == cs@.len(),
            r@ == cs@.subrange(lo as int, i as int),
        decreases hi - i,
    {
        r.push(cs[i]);
        assert(cs@.subrange(lo as int, i as int + 1) =~= cs@.subrange(lo as int, i as int).push(cs@[i as int]));
        i = i + 1;
    }
    r
}

/// State of the quoted-field scan after reading `s`: the completed fields,
/// the field being read, whether inside quotes, and whether the scan has
/// stopped (after the second completed field).
pub open spec fn csv_scan(s: Seq<char>) -> (Seq<Seq<char>>, Seq<char>, bool, bool)
    decreases s.len(),
{
    if s.len() == 0 {
        (Seq::empty(), Seq::empty(), false, false)
    } else {
        let (f, cur, q, stop) = csv_scan(s.drop_last());
        let c = s.last();
        if stop {
            (f, cur, q, stop)
        } else if c == '"' {
            (f, cur, !q, false)
        } else if c == ',' && !q {
            (f.push(cur), Seq::empty(), q, f.len() + 1 >= 2)
        } else {
            (f, cur.push(c), q, false)
        }
    }
}

/// The fields of one process-list line (quotes removed).
pub open spec fn csv_fields(s: Seq<char>) -> Seq<Seq<char>> {
    let (f, cur, _q, _stop) = csv_scan(s);
    if cur.len() > 0 {
        f.push(cur)
    } else {
        f
    }
}

/// The (pid, name) a process-list line gives: its first field trimmed is
/// the name, its second trimmed the pid; both must be present, the name
/// non-empty and the pid a positive `u32`.
pub open spec fn process_entry(line: Seq<char>) -> Option<(u32, Seq<char>)> {
    let f = csv_fields(line);
    if f.len() < 2 {
        None
    } else {
        match parse_unsigned(trim(f[1]), u32::MAX as nat) {
            Some(pid) => if trim(f[0]).len() > 0 && pid > 0 {
                Some((pid as u32, trim(f[0])))
            } else {
                None
            },
            None => None,
        }
    }
}

pub open spec fn process_entries(ls: Seq<Seq<char>>) -> Seq<(u32, Seq<char>)>
    decreases ls.len(),
{
    if ls.len() == 0 {
        Seq::empty()
    } else {
        match process_entry(ls.last()) {
            Some(e) => process_entries(ls.drop_last()).push(e),
            None => process_entries(ls.drop_last()),
        }
    }
}

pub open spec fn name_views(v: Seq<(u32, String)>) -> Seq<(u32, Seq<char>)> {
    v.map_values(|e: (u32, String)| (e.0, e.1@))
}

/// Relies on `String::push`: appends one character.
#[verifier::external_body]
fn push_char(s: &mut String, c: char)
    ensures
        final(s)@ == old(s)@.push(c),
{
    s.push(c)
}

pub(crate) fn string_of(f: &Vec<char>) -> (r: String)
    ensures
        r@ == f@,
{
    let mut out = String::new();
    let mut i: usize = 0;
    while i < f.len()
        invariant
            i <= f@.len(),
            out@ == f@.take(i as int),
        decreases f@.len() - i,
    {
        push_char(&mut out, f[i]);
        assert(out@ =~= f@.take(i as int + 1));
        i = i + 1;
    }
    assert(f@.take(f@.len() as int) =~= f@);
    out
}

fn process_line(s: &str, cs: &Vec<char>, from: usize, to: usize) -> (r: Option<(u32, String)>)
    requires
        cs@ == s@,
        from <= to <= cs@.len(),
    ensures
        match r {
            Some(e) => process_entry(cs@.subrange(from as int, to as int)) == Some((e.0, e.1@)),
            None => process_entry(cs@.subrange(from as int, to as int)) is None,
        },
{
    let ghost line = cs@.subrange(from as int, to as int);
    let mut fields: Vec<Vec<char>> = Vec::new();
    let mut cur: Vec<char> = Vec::new();
    let mut q = false;
    let mut stop = false;
    let mut i = from;
    assert(line.take(0) =~= Seq::<char>::empty());
    while i < to
        invariant
            from <= i <= to <= cs@.len(),
            line == cs@.subrange(from as int, to as int),
            csv_scan(line.take(i - from)) == (fields@.map_values(|v: Vec<char>| v@), cur@, q, stop),
        decreases to - i,
    {
        let ghost t = line.take(i - from + 1);
        assert(t.drop_last() =~= line.take(i - from));
        assert(t.last() == cs@[i as int]);
        let c = cs[i];
        if !stop {
            if c == '"' {
                q = !q;
            } else if c == ',' && !q {
                let ghost fb = fields@.map_values(|v: Vec<char>| v@);
                let mut done: Vec<char> = Vec::new();
                std::mem::swap(&mut done, &mut cur);
                fields.push(done);
                assert(fields@.map_values(|v: Vec<char>| v@) =~= fb.push(done@));
                stop = fields.len() >= 2;
            } else {
                cur.push(c);
            }
        }
        i = i + 1;
    }
    assert(line.take(to - from) =~= line);
    if cur.len() > 0 {
        let ghost fb = fields@.map_values(|v: Vec<char>| v@);
        fields.push(cur);
        assert(fields@.map_values(|v: Vec<char>| v@) =~= fb.push(fields@.last()@));
    }
    let ghost fv = fields@.map_values(|v: Vec<char>| v@);
    assert(fv == csv_fields(line));
    if fields.len() < 2 {
        return None;
    }
    assert(fv[0] == fields@[0]@ && fv[1] == fields@[1]@);
    let name_chars = trim_chars(&fields[0]);
    let pid_chars = trim_chars(&fields[1]);
    assert(pid_chars@.subrange(0, pid_chars@.len() as int) =~= pid_chars@);
    match parse_unsigned_in(&pid_chars, 0, pid_chars.len(), 0xFFFF_FFFF) {
        Some(pid) => {
            if name_chars.len() > 0 && pid > 0 {
                let name = string_of(&name_chars);
                Some((pid as u32, name))
            } else {
                None
            }
        },
        None => None,
    }
}


/// Parses the process list's text into (pid, name) records, in order; a
/// later record for the same pid supersedes an earlier one.
pub fn parse_process_list(text: &str) -> (r: Vec<(u32, String)>)
    ensures
        name_views(r@) == process_entries(pieces(text@)),
{
    let cs = chars_of(text);
    let n = cs.len();
    let mut out: Vec<(u32, String)> = Vec::new();
    let ghost mut done: Seq<Seq<char>> = Seq::empty();
    let mut start: usize = 0;
    let mut i: usize = 0;
    assert(cs@.take(0) =~= Seq::<char>::empty());
    assert(pieces(cs@.take(0)) =~= done.push(cs@.subrange(0, 0)));
    while i < n
        invariant
            n == cs@.len(),
            cs@ == text@,
            start <= i <= n,
            pieces(cs@.take(i as int)) == done.push(cs@.subrange(start as int, i as int)),
            name_views(out@) == process_entries(done),
        decreases n - i,
    {
        let ghost t = cs@.take(i as int + 1);
        assert(t.drop_last() =~= cs@.take(i as int));
        assert(t.last() == cs@[i as int]);
        if cs[i] == '\n' {
            let entry = process_line(text, &cs, start, i);
            let ghost cur = cs@.subrange(start as int, i as int);
            let ghost ob = out@;
            match entry {
                Some(e) => {
                    out.push(e);
                    assert(name_views(out@) =~= name_views(ob).push((e.0, e.1@)));
                },
                None => {},
            }
            proof {
                let nd = done.push(cur);
                assert(nd.drop_last() =~= done);
                assert(nd.last() == cur);
                done = nd;
                assert(cs@.subrange(i as int + 1, i as int + 1) =~= Seq::<char>::empty());
            }
            start = i + 1;
        } else {
            assert(cs@.subrange(start as int, i as int + 1) =~= cs@.subrange(start as int, i as int).push(cs@[i as int]));
        }
        i = i + 1;
    }
    assert(cs@.take(n as int) =~= cs@);
    let entry = process_line(text, &cs, start, n);
    let ghost cur = cs@.subrange(start as int, n as int);
    let ghost ob = out@;
    match entry {
        Some(e) => {
            out.push(e);
            assert(name_views(out@) =~= name_views(ob).push((e.0, e.1@)));
        },
        None => {},
    }
    proof {
        let nd = done.push(cur);
        assert(nd.drop_last() =~= done);
        assert(nd.last() == cur);
    }
    out
}

} // verus!
