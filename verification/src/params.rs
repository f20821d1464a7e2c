//! The parameter store's record: one line holding both parameters.
//!
//! The fitted `(theta0, theta1)` pair is persisted as a single text line,
//! the two values separated by a comma.  Writing and reading the line are
//! exact inverses, so a round trip through the store returns the very
//! parameters that were saved.  A line that does not hold exactly two
//! well-formed numbers is reported as corrupt, never silently replaced by
//! a default; the one exception is an empty file, the state right after
//! the store is first created, which reads as the untrained `(0, 0)`.

use vstd::prelude::*;
use crate::decimal::{find_byte, fx_bytes, is_blank, is_digit, lemma_find_byte_is,
    lemma_fx_bytes_ascii, lemma_parse_fx_inverse, lemma_trim_subrange, parse_fx, parse_fx_bytes,
    push_fx, trim};
use crate::fixed::{Fx, VAL_LIMIT};

verus! {

/// The persisted parameter record is present but malformed.
#[derive(Clone, Copy, Debug, PartialEq, Eq, Structural)]
pub struct CorruptError;

/// The stored line for the pair `(a, b)`: both values in canonical
/// decimal text, a comma between them, a newline after them.
pub open spec fn params_line(a: int, b: int) -> Seq<u8> {
    fx_bytes(a) + seq![44u8] + fx_bytes(b) + seq![10u8]
}

/// What a stored parameter file denotes: `(0, 0)` for a still-empty file,
/// the two comma-separated values of the first line when both parse, and
/// nothing (corrupt) otherwise.
pub open spec fn parse_params_spec(text: Seq<u8>) -> Option<(int, int)> {
    if text.len() == 0 {
        Some((0, 0))
    } else {
        let line = text.take(find_byte(text, 10));
        let c = find_byte(line, 44);
        if c == line.len() {
            None
        } else {
            let f0 = line.take(c);
            let f1 = line.skip(c + 1);
            if find_byte(f1, 44) != f1.len() {
                None
            } else {
                let p0 = parse_fx(trim(f0));
                let p1 = parse_fx(trim(f1));
                if p0 is Some && p1 is Some {
                    Some((p0->0, p1->0))
                } else {
                    None
                }
            }
        }
    }
}

/// Persistence round trip: reading back a saved parameter line yields
/// exactly the pair that was saved, for every pair in the supported
/// range.
pub proof fn lemma_params_round_trip(a: int, b: int)
    requires
        -VAL_LIMIT <= a <= VAL_LIMIT,
        -VAL_LIMIT <= b <= VAL_LIMIT,
    ensures
        parse_params_spec(params_line(a, b)) == Some((a, b)),
{
    let fa = fx_bytes(a);
    let fb = fx_bytes(b);
    let la = fa.len() as int;
    let lb = fb.len() as int;
    let text = params_line(a, b);
    lemma_fx_bytes_ascii(a);
    lemma_fx_bytes_ascii(b);
    lemma_parse_fx_inverse(a);
    lemma_parse_fx_inverse(b);
    assert(parse_fx(fa) is Some);
    assert(fa.len() >= 1 && fb.len() >= 1);
    assert(text.len() == la + 1 + lb + 1);
    assert forall|i: int| 0 <= i < la + 1 + lb implies #[trigger] text[i] != 10 by {
        if i < la {
            assert(text[i] == fa[i]);
        } else if i == la {
            assert(text[i] == 44);
        } else {
            assert(text[i] == fb[i - la - 1]);
        }
    }
    assert(text[la + 1 + lb] == 10);
    lemma_find_byte_is(text, 10, la + 1 + lb);
    let line = text.take(la + 1 + lb);
    assert(line =~= fa + seq![44u8] + fb);
    assert forall|i: int| 0 <= i < la implies #[trigger] line[i] != 44 by {
        assert(line[i] == fa[i]);
        assert(fa[i] == 45 || fa[i] == 46 || is_digit(fa[i]));
    }
    assert(line[la] == 44);
    lemma_find_byte_is(line, 44, la);
    let f0 = line.take(la);
    let f1 = line.skip(la + 1);
    assert(f0 =~= fa);
    assert(f1 =~= fb);
    assert forall|i: int| 0 <= i < f1.len() implies #[trigger] f1[i] != 44 by {
        assert(f1[i] == fb[i]);
        assert(fb[i] == 45 || fb[i] == 46 || is_digit(fb[i]));
    }
    lemma_find_byte_is(f1, 44, f1.len() as int);
    assert(!is_blank(fa[0]) && !is_blank(fa[la - 1]));
    lemma_trim_subrange(fa, 0, la);
    assert(fa.subrange(0, la) =~= fa);
    assert(!is_blank(fb[0]) && !is_blank(fb[lb - 1]));
    lemma_trim_subrange(fb, 0, lb);
    assert(fb.subrange(0, lb) =~= fb);
}

/// Writes the one-line record `save` persists: both parameters in
/// canonical decimal, comma-separated, newline-terminated.
pub fn format_params(theta0: Fx, theta1: Fx) -> (r: Vec<u8>)
    requires
        theta0.valid(),
        theta1.valid(),
    ensures
        r@ == params_line(theta0@, theta1@),
{
    let mut v: Vec<u8> = Vec::new();
    push_fx(&mut v, theta0.units);
    v.push(44);
    push_fx(&mut v, theta1.units);
    v.push(10);
    proof {
        assert(v@ =~= params_line(theta0@, theta1@));
    }
    v
}

/// The trimming window of `s` between `from` and `to`: blanks are shaved
/// off both ends, and what remains is exactly `trim` of the window.
fn trim_range(s: &[u8], from: usize, to: usize) -> (r: (usize, usize))
    requires
        from <= to <= s@.len(),
    ensures
        from <= r.0 <= r.1 <= to,
        trim(s@.subrange(from as int, to as int)) == s@.subrange(r.0 as int, r.1 as int),
{
    let mut lo = from;
    let mut hi = to;
    while lo < hi && (s[lo] == 32 || s[lo] == 9 || s[lo] == 13)
        invariant
            from <= lo <= hi <= to <= s@.len(),
            hi == to,
            forall|i: int| from <= i < lo ==> is_blank(#[trigger] s@[i]),
        decreases hi - lo,
    {
        lo = lo + 1;
    }
    while lo < hi && (s[hi - 1] == 32 || s[hi - 1] == 9 || s[hi - 1] == 13)
        invariant
            from <= lo <= hi <= to <= s@.len(),
            forall|i: int| from <= i < lo ==> is_blank(#[trigger] s@[i]),
            forall|i: int| hi <= i < to ==> is_blank(#[trigger] s@[i]),
            lo < hi ==> !is_blank(s@[lo as int]),
        decreases hi - lo,
    {
        hi = hi - 1;
    }
    proof {
        let w = s@.subrange(from as int, to as int);
        assert(forall|i: int| 0 <= i < w.len() ==> #[trigger] w[i] == s@[from + i]);
        lemma_trim_subrange(w, lo - from, hi - from);
        assert(w.subrange(lo - from, hi - from) =~= s@.subrange(lo as int, hi as int));
    }
    (lo, hi)
}

/// Reads the persisted parameter record: `(0, 0)` from a still-empty
/// file, the stored pair when the first line holds exactly two
/// well-formed comma-separated values, and `CorruptError` otherwise.
pub fn parse_params(text: &[u8]) -> (r: Result<(Fx, Fx), CorruptError>)
    ensures
        (r is Ok) <==> (parse_params_spec(text@) is Some),
        r matches Ok(p) ==> parse_params_spec(text@) == Some((p.0@, p.1@)),
        r matches Ok(p) ==> p.0.valid() && p.1.valid(),
{
    let n = text.len();
    if n == 0 {
        return Ok((Fx { units: 0 }, Fx { units: 0 }));
    }
    let mut nl: usize = 0;
    while nl < n && text[nl] != 10
        invariant
            0 <= nl <= n,
            n == text@.len(),
            forall|i: int| 0 <= i < nl ==> #[trigger] text@[i] != 10,
        decreases n - nl,
    {
        nl = nl + 1;
    }
    proof {
        lemma_find_byte_is(text@, 10, nl as int);
    }
    let ghost line = text@.take(nl as int);
    proof {
        assert(forall|i: int| 0 <= i < nl ==> #[trigger] line[i] == text@[i]);
    }
    let mut c: usize = 0;
    while c < nl && text[c] != 44
        invariant
            0 <= c <= nl <= n,
            n == text@.len(),
            line == text@.take(nl as int),
            forall|i: int| 0 <= i < nl ==> #[trigger] line[i] == text@[i],
            forall|i: int| 0 <= i < c ==> #[trigger] line[i] != 44,
        decreases nl - c,
    {
        c = c + 1;
    }
    proof {
        lemma_find_byte_is(line, 44, c as int);
    }
    if c == nl {
        return Err(CorruptError);
    }
    let ghost f1 = line.skip(c + 1);
    proof {
        assert(forall|i: int| 0 <= i < f1.len() ==> #[trigger] f1[i] == text@[c + 1 + i]);
    }
    let mut k: usize = c + 1;
    while k < nl && text[k] != 44
        invariant
            c + 1 <= k <= nl <= n,
            n == text@.len(),
            c < nl,
            line == text@.take(nl as int),
            f1 == line.skip(c + 1),
            f1.len() == nl - c - 1,
            forall|i: int| 0 <= i < f1.len() ==> #[trigger] f1[i] == text@[c + 1 + i],
            forall|i: int| 0 <= i < k - c - 1 ==> #[trigger] f1[i] != 44,
        decreases nl - k,
    {
        k = k + 1;
    }
    if k < nl {
        proof {
            lemma_find_byte_is(f1, 44, (k - c - 1) as int);
        }
        return Err(CorruptError);
    }
    proof {
        lemma_find_byte_is(f1, 44, f1.len() as int);
    }
    let w0 = trim_range(text, 0, c);
    let w1 = trim_range(text, c + 1, nl);
    proof {
        assert(line.take(c as int) =~= text@.subrange(0, c as int));
        assert(f1 =~= text@.subrange(c + 1, nl as int));
    }
    let r0 = parse_fx_bytes(vstd::slice::slice_subrange(text, w0.0, w0.1));
    let r1 = parse_fx_bytes(vstd::slice::slice_subrange(text, w1.0, w1.1));
    match (r0, r1) {
        (Some(a), Some(b)) => Ok((Fx { units: a }, Fx { units: b })),
        _ => Err(CorruptError),
    }
}

} // verus!
