//! Text helpers for exporting recorded sessions.
use vstd::prelude::*;
use vstd::string::*;

verus! {

pub open spec fn needs_quoting(s: Seq<char>) -> bool {
    s.contains(',') || s.contains('"') || s.contains('\n') || s.contains('\r')
}

/// `s` with every double quote doubled.
pub open spec fn double_quotes(s: Seq<char>) -> Seq<char>
    decreases s.len(),
{
    if s.len() == 0 {
        s
    } else if s.last() == '"' {
        double_quotes(s.drop_last()) + seq!['"', '"']
    } else {
        double_quotes(s.drop_last()).push(s.last())
    }
}

/// A CSV field: quoted, with inner quotes doubled, when it holds a comma,
/// a quote or a line break; as is otherwise.
pub open spec fn csv_field(s: Seq<char>) -> Seq<char> {
    if needs_quoting(s) {
        seq!['"'] + double_quotes(s) + seq!['"']
    } else {
        s
    }
}

/// Escapes `s` as one CSV field.
pub fn escape_csv(s: &str) -> (r: String)
    ensures
        r@ == csv_field(s@),
{
    proof {
        reveal_strlit("\"");
    }
    let n = s.unicode_len();
    let mut quote = false;
    let mut i: usize = 0;
    while i < n
        invariant
            n == s@.len(),
            i <= n,
            quote == exists|j: int|
                0 <= j < i && (s@[j] == ',' || s@[j] == '"' || s@[j] == '\n' || s@[j] == '\r'),
        decreases n - i,
    {
        let c = s.get_char(i);
        if c == ',' || c == '"' || c == '\n' || c == '\r' {
            quote = true;
        }
        i = i + 1;
    }
    proof {
        if quote {
            let j = choose|j: int|
                0 <= j < n && (s@[j] == ',' || s@[j] == '"' || s@[j] == '\n' || s@[j] == '\r');
            assert(s@[j] == ',' ==> s@.contains(','));
            assert(s@[j] == '"' ==> s@.contains('"'));
            assert(s@[j] == '\n' ==> s@.contains('\n'));
            assert(s@[j] == '\r' ==> s@.contains('\r'));
        }
        if needs_quoting(s@) {
            if s@.contains(',') {
                let j = choose|j: int| 0 <= j < n && s@[j] == ',';
            }
            if s@.contains('"') {
                let j = choose|j: int| 0 <= j < n && s@[j] == '"';
            }
            if s@.contains('\n') {
                let j = choose|j: int| 0 <= j < n && s@[j] == '\n';
            }
            if s@.contains('\r') {
                let j = choose|j: int| 0 <= j < n && s@[j] == '\r';
            }
        }
    }
    if !quote {
        return String::from_str(s);
    }
    let mut out = String::from_str("\"");
    let mut k: usize = 0;
    while k < n
        invariant
            n == s@.len(),
            k <= n,
            out@ == seq!['"'] + double_quotes(s@.take(k as int)),
        decreases n - k,
    {
        assert(s@.take(k as int + 1).drop_last() =~= s@.take(k as int));
        let ghost before = out@;
        assert(s@.take(k as int + 1).last() == s@[k as int]);
        if s.get_char(k) == '"' {
            let q = "\"";
            proof {
                reveal_strlit("\"");
                assert(q@.len() == 1);
                assert(q@ =~= seq!['"']);
            }
            out.append(q);
            out.append(q);
        } else {
            let piece = s.substring_char(k, k + 1);
            assert(piece@ =~= seq![s@[k as int]]);
            out.append(piece);
        }
        assert(out@ =~= seq!['"'] + double_quotes(s@.take(k as int + 1)));
        k = k + 1;
    }
    assert(s@.take(n as int) =~= s@);
    out.append("\"");
    out
}

/// The database location as text.
pub fn get_database_path(db_path: &str) -> (r: String)
    ensures
        r@ == db_path@,
{
    String::from_str(db_path)
}


/// Rows kept when a series of `len` rows is thinned to about `max`: all
/// of them when they fit, else every `len / max`-th row (position
/// `floor(i * len / max)` for `i < max`) followed by the last row.
pub open spec fn sample_positions(len: nat, max: nat) -> Seq<int> {
    if len <= max {
        Seq::new(len, |i: int| i)
    } else {
        Seq::new(max, |i: int| i * (len as int) / (max as int)).push(len - 1)
    }
}

pub open spec fn positions_view(r: Seq<usize>) -> Seq<int> {
    r.map_values(|p: usize| p as int)
}

/// Positions of the rows to keep when thinning `len` rows to `max` points.
pub fn downsample_positions(len: usize, max: usize) -> (r: Vec<usize>)
    ensures
        positions_view(r@) == sample_positions(len as nat, max as nat),
        forall|i: int| 0 <= i < r@.len() ==> #[trigger] r@[i] < len,
{
    let mut r: Vec<usize> = Vec::new();
    if len <= max {
        let mut i: usize = 0;
        while i < len
            invariant
                i <= len,
                r@.len() == i,
                positions_view(r@) == Seq::new(i as nat, |j: int| j),
                forall|j: int| 0 <= j < r@.len() ==> #[trigger] r@[j] < len,
            decreases len - i,
        {
            let ghost before = r@;
            r.push(i);
            assert forall|j: int| 0 <= j < i + 1 implies #[trigger] positions_view(r@)[j] == j by {
                if j < i {
                    assert(r@[j] == before[j]);
                    assert(positions_view(before)[j] == j);
                }
            }
            assert(positions_view(r@) =~= Seq::new((i + 1) as nat, |j: int| j));
            i = i + 1;
        }
        return r;
    }
    let mut i: usize = 0;
    while i < max
        invariant
            i <= max < len,
            r@.len() == i,
            positions_view(r@) == Seq::new(i as nat, |j: int| j * (len as int) / (max as int)),
            forall|j: int| 0 <= j < r@.len() ==> #[trigger] r@[j] < len,
        decreases max - i,
    {
        proof {
            assert((i as int * len as int) / (max as int) < len as int) by (nonlinear_arith)
                requires
                    i < max,
                    max > 0,
                    len > 0,
            ;
            assert(i as int * len as int <= usize::MAX as int * usize::MAX as int) by (nonlinear_arith)
                requires
                    i <= usize::MAX,
                    len <= usize::MAX,
            ;
        }
        let p = ((i as u128) * (len as u128) / (max as u128)) as usize;
        assert(p as int == (i as int) * (len as int) / (max as int));
        let ghost before = r@;
        r.push(p);
        assert forall|j: int| 0 <= j < i + 1 implies #[trigger] positions_view(r@)[j] == j * (len as int) / (max as int) by {
            if j < i {
                assert(r@[j] == before[j]);
                assert(positions_view(before)[j] == j * (len as int) / (max as int));
            }
        }
        assert(positions_view(r@) =~= Seq::new((i + 1) as nat, |j: int| j * (len as int) / (max as int)));
        i = i + 1;
    }
    r.push(len - 1);
    assert(positions_view(r@) =~= Seq::new(max as nat, |j: int| j * (len as int) / (max as int)).push(len - 1));
    r
}

} // verus!
