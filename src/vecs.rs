//! Small vector helpers.
use vstd::prelude::*;

verus! {

/// The elements of `v` in reverse order.
pub fn reversed<T>(v: Vec<T>) -> (r: Vec<T>)
    ensures
        r@ == v@.reverse(),
{
    let ghost orig = v@;
    let mut rest = v;
    let mut out: Vec<T> = Vec::new();
    while rest.len() > 0
        invariant
            out@ + rest@.reverse() == orig.reverse(),
        decreases rest@.len(),
    {
        let ghost before = rest@;
        let e = rest.pop().unwrap();
        assert(before.reverse() =~= seq![e] + rest@.reverse());
        let ghost o = out@;
        out.push(e);
        assert(o + before.reverse() =~= out@ + rest@.reverse());
    }
    assert(out@ =~= out@ + rest@.reverse());
    out
}

} // verus!
