//! Decimal text for fixed-point values.
//!
//! A value is written as an optional minus sign, the whole units without
//! leading zeros, a dot, and exactly six fraction digits; it is read back
//! from an optional sign, one or more digits, and an optional dot with one
//! to six fraction digits.  Reading inverts writing exactly, which is what
//! the parameter store's round trip rests on.

use vstd::prelude::*;
use vstd::arithmetic::div_mod::{lemma_div_is_ordered, lemma_div_multiples_vanish_fancy,
    lemma_fundamental_div_mod, lemma_mod_division_less_than_divisor};
use crate::fixed::{SCALE, VAL_LIMIT};

verus! {

/// An ASCII decimal digit.
pub open spec fn is_digit(b: u8) -> bool {
    48 <= b <= 57
}

/// Horizontal whitespace (space, tab, carriage return) around a field.
pub open spec fn is_blank(b: u8) -> bool {
    b == 32 || b == 9 || b == 13
}

/// Every byte of the sequence is a digit.
pub open spec fn all_digits(s: Seq<u8>) -> bool {
    forall|i: int| 0 <= i < s.len() ==> is_digit(#[trigger] s[i])
}

/// The number a digit sequence denotes, most significant digit first.
pub open spec fn digits_val(s: Seq<u8>) -> int
    decreases s.len(),
{
    if s.len() == 0 {
        0
    } else {
        digits_val(s.drop_last()) * 10 + (s.last() - 48)
    }
}

/// Ten to the `k`.
pub open spec fn pow10(k: nat) -> int
    decreases k,
{
    if k == 0 {
        1
    } else {
        10 * pow10((k - 1) as nat)
    }
}

/// `pow10` is positive.
pub proof fn lemma_pow10_pos(k: nat)
    ensures
        pow10(k) >= 1,
    decreases k,
{
    if k > 0 {
        lemma_pow10_pos((k - 1) as nat);
    }
}

/// Index of the first occurrence of `b`, or the length if there is none.
pub open spec fn find_byte(s: Seq<u8>, b: u8) -> int
    decreases s.len(),
{
    if s.len() == 0 {
        0
    } else if s[0] == b {
        0
    } else {
        1 + find_byte(s.drop_first(), b)
    }
}

/// `find_byte` points at the first occurrence: nothing before it matches,
/// and it matches unless it is the length.
pub proof fn lemma_find_byte(s: Seq<u8>, b: u8)
    ensures
        0 <= find_byte(s, b) <= s.len(),
        find_byte(s, b) < s.len() ==> s[find_byte(s, b)] == b,
        forall|i: int| 0 <= i < find_byte(s, b) ==> #[trigger] s[i] != b,
    decreases s.len(),
{
    if s.len() == 0 {
    } else if s[0] == b {
    } else {
        lemma_find_byte(s.drop_first(), b);
        let f = find_byte(s, b);
        assert forall|i: int| 0 <= i < f implies #[trigger] s[i] != b by {
            if i > 0 {
                assert(s.drop_first()[i - 1] == s[i]);
            }
        }
        if f < s.len() {
            assert(s.drop_first()[f - 1] == s[f]);
        }
    }
}

/// Whatever index has a match (or the length, with no match before it)
/// is exactly `find_byte`.
pub proof fn lemma_find_byte_is(s: Seq<u8>, b: u8, j: int)
    requires
        0 <= j <= s.len(),
        j < s.len() ==> s[j] == b,
        forall|i: int| 0 <= i < j ==> #[trigger] s[i] != b,
    ensures
        find_byte(s, b) == j,
    decreases s.len(),
{
    if s.len() == 0 {
    } else if s[0] == b {
        assert(j == 0);
    } else {
        assert(j >= 1);
        assert forall|i: int| 0 <= i < j - 1 implies #[trigger] s.drop_first()[i] != b by {
            assert(s.drop_first()[i] == s[i + 1]);
        }
        if j - 1 < s.len() - 1 {
            assert(s.drop_first()[j - 1] == s[j]);
        }
        lemma_find_byte_is(s.drop_first(), b, j - 1);
    }
}

/// A digit string denotes a non-negative number.
pub proof fn lemma_digits_val_nonneg(s: Seq<u8>)
    requires
        all_digits(s),
    ensures
        digits_val(s) >= 0,
    decreases s.len(),
{
    if s.len() > 0 {
        assert(is_digit(s[s.len() - 1]));
        assert(all_digits(s.drop_last()));
        lemma_digits_val_nonneg(s.drop_last());
    }
}

/// Dropping trailing digits never increases the denoted number.
pub proof fn lemma_digits_val_prefix(s: Seq<u8>, k: int)
    requires
        all_digits(s),
        0 <= k <= s.len(),
    ensures
        digits_val(s.take(k)) <= digits_val(s),
    decreases s.len(),
{
    if k == s.len() {
        assert(s.take(k) =~= s);
    } else {
        assert(all_digits(s.drop_last()));
        assert(s.drop_last().take(k) =~= s.take(k));
        lemma_digits_val_prefix(s.drop_last(), k);
        lemma_digits_val_nonneg(s.drop_last());
        assert(is_digit(s[s.len() - 1]));
    }
}

/// The decimal digits of `n >= 0`, most significant first, no leading
/// zeros (a single zero for zero).
pub open spec fn dec_of(n: int) -> Seq<u8>
    decreases n,
{
    if n <= 9 {
        seq![(48 + n) as u8]
    } else {
        dec_of(n / 10).push((48 + n % 10) as u8)
    }
}

/// The decimal digits of `n`, zero-padded on the left to width `w`.
pub open spec fn dec_pad(n: int, w: nat) -> Seq<u8>
    decreases w,
{
    if w == 0 {
        Seq::empty()
    } else {
        dec_pad(n / 10, (w - 1) as nat).push((48 + n % 10) as u8)
    }
}

/// `dec_of` writes digits only, at least one, and reading them back gives
/// the number it was given.
pub proof fn lemma_dec_of(n: int)
    requires
        0 <= n,
    ensures
        all_digits(dec_of(n)),
        dec_of(n).len() >= 1,
        digits_val(dec_of(n)) == n,
    decreases n,
{
    if n <= 9 {
        let s = dec_of(n);
        assert(s.len() == 1);
        assert(s.drop_last() =~= Seq::<u8>::empty());
        assert(s.last() == (48 + n) as u8);
        assert(digits_val(Seq::<u8>::empty()) == 0);
        assert(digits_val(s) == digits_val(s.drop_last()) * 10 + (s.last() - 48));
    } else {
        lemma_fundamental_div_mod(n, 10);
        lemma_mod_division_less_than_divisor(n, 10);
        lemma_div_is_ordered(0, n, 10);
        lemma_dec_of(n / 10);
        let x = dec_of(n / 10);
        let d = (48 + n % 10) as u8;
        assert(x.push(d).drop_last() =~= x);
        assert(x.push(d).last() == d);
        assert(all_digits(x.push(d))) by {
            assert(forall|i: int|
                0 <= i < x.len() ==> #[trigger] x.push(d)[i] == x[i]);
        }
    }
}

/// `dec_pad` writes exactly `w` digits, and reading them back gives the
/// number, provided it fits the width.
pub proof fn lemma_dec_pad(n: int, w: nat)
    requires
        0 <= n < pow10(w),
    ensures
        all_digits(dec_pad(n, w)),
        dec_pad(n, w).len() == w,
        digits_val(dec_pad(n, w)) == n,
    decreases w,
{
    if w == 0 {
    } else {
        lemma_fundamental_div_mod(n, 10);
        lemma_mod_division_less_than_divisor(n, 10);
        lemma_div_is_ordered(0, n, 10);
        lemma_pow10_pos((w - 1) as nat);
        assert(n <= 10 * pow10((w - 1) as nat) - 1);
        lemma_div_is_ordered(n, 10 * pow10((w - 1) as nat) - 1, 10);
        lemma_div_multiples_vanish_fancy(pow10((w - 1) as nat) - 1, 9, 10);
        assert(n / 10 < pow10((w - 1) as nat));
        lemma_dec_pad(n / 10, (w - 1) as nat);
        let x = dec_pad(n / 10, (w - 1) as nat);
        let d = (48 + n % 10) as u8;
        assert(x.push(d).drop_last() =~= x);
        assert(x.push(d).last() == d);
        assert(all_digits(x.push(d))) by {
            assert(forall|i: int|
                0 <= i < x.len() ==> #[trigger] x.push(d)[i] == x[i]);
        }
    }
}

/// A digit string of length `l` denotes less than `pow10(l)`.
pub proof fn lemma_digits_val_bound(s: Seq<u8>)
    requires
        all_digits(s),
    ensures
        0 <= digits_val(s) < pow10(s.len()),
    decreases s.len(),
{
    if s.len() == 0 {
    } else {
        assert(all_digits(s.drop_last()));
        lemma_digits_val_bound(s.drop_last());
        assert(is_digit(s.last()));
    }
}

/// `pow10` is monotone.
pub proof fn lemma_pow10_mono(a: nat, b: nat)
    requires
        a <= b,
    ensures
        pow10(a) <= pow10(b),
    decreases b,
{
    if a < b {
        lemma_pow10_mono(a, (b - 1) as nat);
        lemma_pow10_pos((b - 1) as nat);
    }
}

/// `pow10` turns addition into multiplication.
pub proof fn lemma_pow10_add(a: nat, b: nat)
    ensures
        pow10(a + b) == pow10(a) * pow10(b),
    decreases a,
{
    if a == 0 {
    } else {
        lemma_pow10_add((a - 1) as nat, b);
        assert(10 * (pow10((a - 1) as nat) * pow10(b)) == (10 * pow10((a - 1) as nat)) * pow10(
            b,
        )) by (nonlinear_arith);
        assert((a - 1) as nat + b == (a + b - 1) as nat);
    }
}

/// Leading and trailing blanks removed.
pub open spec fn trim(s: Seq<u8>) -> Seq<u8>
    decreases s.len(),
{
    if s.len() > 0 && is_blank(s[0]) {
        trim(s.drop_first())
    } else if s.len() > 0 && is_blank(s.last()) {
        trim(s.drop_last())
    } else {
        s
    }
}

/// Trimming a sequence that is blank outside `[lo, hi)` and non-blank at
/// both ends of that window yields exactly the window.
pub proof fn lemma_trim_subrange(s: Seq<u8>, lo: int, hi: int)
    requires
        0 <= lo <= hi <= s.len(),
        forall|i: int| 0 <= i < lo ==> is_blank(#[trigger] s[i]),
        forall|i: int| hi <= i < s.len() ==> is_blank(#[trigger] s[i]),
        lo < hi ==> !is_blank(s[lo]) && !is_blank(s[hi - 1]),
    ensures
        trim(s) == s.subrange(lo, hi),
    decreases s.len(),
{
    if s.len() > 0 && is_blank(s[0]) {
        assert(lo != hi || hi <= s.len());
        if lo == 0 {
            assert(!(lo < hi));
            assert(forall|i: int|
                0 <= i < s.drop_first().len() ==> #[trigger] s.drop_first()[i] == s[i + 1]);
            lemma_trim_subrange(s.drop_first(), 0, 0);
            assert(s.subrange(lo, hi) =~= s.drop_first().subrange(0, 0));
        } else {
            assert(forall|i: int|
                0 <= i < s.drop_first().len() ==> #[trigger] s.drop_first()[i] == s[i + 1]);
            lemma_trim_subrange(s.drop_first(), lo - 1, hi - 1);
            assert(s.subrange(lo, hi) =~= s.drop_first().subrange(lo - 1, hi - 1));
        }
    } else if s.len() > 0 && is_blank(s.last()) {
        assert(lo < hi ==> hi < s.len());
        if lo == hi {
            assert(lo == 0);
            assert(is_blank(s[0]));
            assert(false);
        }
        assert(forall|i: int|
            0 <= i < s.drop_last().len() ==> #[trigger] s.drop_last()[i] == s[i]);
        lemma_trim_subrange(s.drop_last(), lo, hi);
        assert(s.subrange(lo, hi) =~= s.drop_last().subrange(lo, hi));
    } else {
        if s.len() > 0 {
            assert(lo == 0 && hi == s.len());
        }
        assert(s.subrange(lo, hi) =~= s);
    }
}

/// The number, in micro-units, that a decimal field denotes: an optional
/// sign, one or more whole digits, and optionally a dot with one to six
/// fraction digits; absent if the field is malformed or the value lies
/// outside the supported range.
pub open spec fn parse_fx(s: Seq<u8>) -> Option<int> {
    let neg = s.len() > 0 && s[0] == 45;
    let t = if s.len() > 0 && (s[0] == 45 || s[0] == 43) {
        s.drop_first()
    } else {
        s
    };
    let d = find_byte(t, 46);
    let ip = t.take(d);
    let fp = if d < t.len() {
        t.skip(d + 1)
    } else {
        Seq::empty()
    };
    if ip.len() == 0 || !all_digits(ip) {
        None
    } else if d < t.len() && (fp.len() == 0 || fp.len() > 6 || !all_digits(fp)) {
        None
    } else {
        let mag = digits_val(ip) * SCALE + digits_val(fp) * pow10((6 - fp.len()) as nat);
        if mag > VAL_LIMIT {
            None
        } else if neg {
            Some(-mag)
        } else {
            Some(mag)
        }
    }
}

/// The canonical decimal text of `u` micro-units: optional minus sign,
/// whole units without leading zeros, a dot, six fraction digits.
pub open spec fn fx_bytes(u: int) -> Seq<u8> {
    let a = if u >= 0 {
        u
    } else {
        -u
    };
    let sign: Seq<u8> = if u < 0 {
        seq![45u8]
    } else {
        Seq::empty()
    };
    sign + dec_of(a / (SCALE as int)) + seq![46u8] + dec_pad(a % (SCALE as int), 6)
}

/// Every byte the writer emits is a sign, a dot or a digit — never a
/// separator, a newline or a blank.
pub proof fn lemma_fx_bytes_ascii(u: int)
    requires
        -VAL_LIMIT <= u <= VAL_LIMIT,
    ensures
        forall|i: int|
            0 <= i < fx_bytes(u).len() ==> (#[trigger] fx_bytes(u)[i] == 45 || fx_bytes(u)[i]
                == 46 || is_digit(fx_bytes(u)[i])),
{
    let a = if u >= 0 {
        u
    } else {
        -u
    };
    reveal_with_fuel(pow10, 7);
    lemma_fundamental_div_mod(a, SCALE as int);
    lemma_mod_division_less_than_divisor(a, SCALE as int);
    lemma_div_is_ordered(0, a, SCALE as int);
    lemma_dec_of(a / (SCALE as int));
    lemma_dec_pad(a % (SCALE as int), 6);
    assert(pow10(6) == 1_000_000);
}

/// Reading the canonical text of any supported value gives that value
/// back exactly.
pub proof fn lemma_parse_fx_inverse(u: int)
    requires
        -VAL_LIMIT <= u <= VAL_LIMIT,
    ensures
        parse_fx(fx_bytes(u)) == Some(u),
{
    let a = if u >= 0 {
        u
    } else {
        -u
    };
    let w = a / (SCALE as int);
    let f = a % (SCALE as int);
    reveal_with_fuel(pow10, 7);
    lemma_fundamental_div_mod(a, SCALE as int);
    lemma_mod_division_less_than_divisor(a, SCALE as int);
    lemma_div_is_ordered(0, a, SCALE as int);
    lemma_dec_of(w);
    assert(pow10(6) == 1_000_000);
    lemma_dec_pad(f, 6);
    let body = dec_of(w) + seq![46u8] + dec_pad(f, 6);
    let s = fx_bytes(u);
    let t = if u < 0 {
        s.drop_first()
    } else {
        s
    };
    assert(t =~= body);
    let dl = dec_of(w).len() as int;
    assert forall|i: int| 0 <= i < dl implies #[trigger] body[i] != 46 by {
        assert(body[i] == dec_of(w)[i]);
        assert(is_digit(dec_of(w)[i]));
    }
    assert(body[dl] == 46);
    lemma_find_byte_is(body, 46, dl);
    assert(body.take(dl) =~= dec_of(w));
    assert(body.skip(dl + 1) =~= dec_pad(f, 6));
    if u < 0 {
        assert(s[0] == 45);
    } else {
        assert(s[0] == dec_of(w)[0] || s.len() == 0);
        assert(is_digit(dec_of(w)[0]));
        assert(s[0] != 45 && s[0] != 43);
    }
    assert(digits_val(dec_of(w)) == w);
    assert(digits_val(dec_pad(f, 6nat)) == f);
    assert(pow10(0nat) == 1);
    assert(digits_val(dec_of(w)) * SCALE + digits_val(dec_pad(f, 6nat)) * pow10(0nat) == w
        * SCALE + f) by (nonlinear_arith)
        requires
            digits_val(dec_of(w)) == w,
            digits_val(dec_pad(f, 6nat)) == f,
            pow10(0nat) == 1,
    ;
    assert(w * SCALE + f == a) by {
        assert(SCALE as int * w == w * SCALE) by (nonlinear_arith);
    }
}

/// Appends the decimal digits of `n`, most significant first.
fn push_dec(v: &mut Vec<u8>, n: u64)
    ensures
        final(v)@ == old(v)@ + dec_of(n as int),
    decreases n,
{
    if n <= 9 {
        v.push(48 + n as u8);
        proof {
            assert(v@ =~= old(v)@ + dec_of(n as int));
        }
    } else {
        push_dec(v, n / 10);
        v.push(48 + (n % 10) as u8);
        proof {
            assert((48 + (n as int % 10)) as u8 == 48 + (n % 10) as u8);
            assert(v@ =~= old(v)@ + dec_of(n as int));
        }
    }
}

/// Appends the decimal digits of `n`, zero-padded to width `w`.
fn push_pad(v: &mut Vec<u8>, n: u64, w: u8)
    ensures
        final(v)@ == old(v)@ + dec_pad(n as int, w as nat),
    decreases w,
{
    if w == 0 {
        proof {
            assert(v@ =~= old(v)@ + dec_pad(n as int, 0));
        }
    } else {
        push_pad(v, n / 10, w - 1);
        v.push(48 + (n % 10) as u8);
        proof {
            assert((48 + (n as int % 10)) as u8 == 48 + (n % 10) as u8);
            assert(v@ =~= old(v)@ + dec_pad(n as int, w as nat));
        }
    }
}

/// Appends the canonical decimal text of `u` micro-units.
pub fn push_fx(v: &mut Vec<u8>, u: i64)
    requires
        -VAL_LIMIT <= u <= VAL_LIMIT,
    ensures
        final(v)@ == old(v)@ + fx_bytes(u as int),
{
    let a: u64 = if u < 0 {
        v.push(45);
        (-u) as u64
    } else {
        u as u64
    };
    push_dec(v, a / 1_000_000);
    v.push(46);
    push_pad(v, a % 1_000_000, 6);
    proof {
        let ai = if u as int >= 0 {
            u as int
        } else {
            -(u as int)
        };
        assert(a == ai);
        assert(a as int / 1_000_000 == ai / (SCALE as int));
        assert(a as int % 1_000_000 == ai % (SCALE as int));
        assert(v@ =~= old(v)@ + fx_bytes(u as int));
    }
}

/// Ten to the `k`, executable.
fn pow10_exec(k: usize) -> (r: i64)
    requires
        k <= 6,
    ensures
        r == pow10(k as nat),
{
    let mut r: i64 = 1;
    let mut i: usize = 0;
    while i < k
        invariant
            0 <= i <= k <= 6,
            r == pow10(i as nat),
        decreases k - i,
    {
        proof {
            lemma_pow10_mono(i as nat, 5);
            reveal_with_fuel(pow10, 7);
        }
        r = r * 10;
        i = i + 1;
    }
    r
}

/// Reads a decimal field as micro-units; absent exactly where the grammar
/// is violated or the value lies outside the supported range.
pub fn parse_fx_bytes(s: &[u8]) -> (r: Option<i64>)
    ensures
        (r is Some) <==> (parse_fx(s@) is Some),
        r matches Some(v) ==> parse_fx(s@) == Some(v as int),
        r matches Some(v) ==> -VAL_LIMIT <= v <= VAL_LIMIT,
{
    let n = s.len();
    let has_sign = n > 0 && (s[0] == 45 || s[0] == 43);
    let neg = n > 0 && s[0] == 45;
    let pos0: usize = if has_sign {
        1
    } else {
        0
    };
    let ghost t = if has_sign {
        s@.drop_first()
    } else {
        s@
    };
    proof {
        assert(forall|i: int| 0 <= i < t.len() ==> #[trigger] t[i] == s@[i + pos0]);
        lemma_find_byte(t, 46);
    }
    let mut k = pos0;
    let mut acc: i64 = 0;
    let mut big = false;
    while k < n && s[k] != 46
        invariant
            pos0 <= k <= n,
            n == s@.len(),
            pos0 == 1 <==> (n > 0 && (s@[0] == 45 || s@[0] == 43)),
            pos0 == 0 || pos0 == 1,
            t == (if pos0 == 1 {
                s@.drop_first()
            } else {
                s@
            }),
            t.len() == n - pos0,
            forall|i: int| 0 <= i < t.len() ==> #[trigger] t[i] == s@[i + pos0],
            forall|i: int|
                0 <= i < k - pos0 ==> is_digit(#[trigger] t[i]) && t[i] != 46,
            !big ==> acc == digits_val(t.take(k - pos0)) && 0 <= acc <= VAL_LIMIT,
            big ==> digits_val(t.take(k - pos0)) > VAL_LIMIT,
        decreases n - k,
    {
        let c = s[k];
        let ghost j = k - pos0;
        proof {
            assert(t[j as int] == c);
        }
        if c < 48 || c > 57 {
            proof {
                lemma_find_byte(t, 46);
                let d = find_byte(t, 46);
                if d <= j {
                    assert(t[d] == 46);
                    assert(false);
                }
                assert(t.take(d)[j as int] == t[j as int]);
                assert(!is_digit(t.take(d)[j as int]));
                assert(!all_digits(t.take(d)));
            }
            return None;
        }
        proof {
            assert(t.take(j + 1).drop_last() =~= t.take(j as int));
            assert(t.take(j + 1).last() == t[j as int]);
            assert(digits_val(t.take(j + 1)) == digits_val(t.take(j as int)) * 10 + (c - 48));
        }
        if big {
            proof {
                lemma_digits_val_nonneg(t.take(j as int).drop_last());
                assert(digits_val(t.take(j + 1)) > VAL_LIMIT);
            }
        } else {
            let nacc = acc * 10 + (c - 48) as i64;
            if nacc > VAL_LIMIT {
                big = true;
            } else {
                acc = nacc;
            }
        }
        k = k + 1;
    }
    let ipl = k - pos0;
    let ghost d = find_byte(t, 46);
    proof {
        lemma_find_byte_is(t, 46, ipl as int);
        assert(d == ipl as int);
    }
    if ipl == 0 {
        proof {
            assert(t.take(0) =~= Seq::<u8>::empty());
        }
        return None;
    }
    let ghost ip = t.take(d);
    proof {
        assert(all_digits(ip)) by {
            assert(forall|i: int| 0 <= i < ip.len() ==> #[trigger] ip[i] == t[i]);
        }
    }
    let mut fpv: i64 = 0;
    if k < n {
        let m = n - k - 1;
        proof {
            assert(t.skip(d + 1).len() == m);
        }
        if m == 0 || m > 6 {
            return None;
        }
        let ghost fp = t.skip(d + 1);
        proof {
            assert(forall|i: int| 0 <= i < fp.len() ==> #[trigger] fp[i] == s@[k + 1 + i]);
        }
        let mut k2 = k + 1;
        while k2 < n
            invariant
                k + 1 <= k2 <= n,
                n == s@.len(),
                m == n - k - 1,
                1 <= m <= 6,
                pos0 == 0 || pos0 == 1,
                pos0 <= k < n,
                t == (if s@.len() > 0 && (s@[0] == 45 || s@[0] == 43) {
                    s@.drop_first()
                } else {
                    s@
                }),
                t.len() == n - pos0,
                d == find_byte(t, 46),
                d == k - pos0,
                ip == t.take(d),
                all_digits(ip),
                ip.len() >= 1,
                fp == t.skip(d + 1),
                fp.len() == m,
                forall|i: int| 0 <= i < fp.len() ==> #[trigger] fp[i] == s@[k + 1 + i],
                forall|i: int| 0 <= i < k2 - k - 1 ==> is_digit(#[trigger] fp[i]),
                fpv == digits_val(fp.take(k2 - k - 1)),
                0 <= fpv < pow10((k2 - k - 1) as nat),
            decreases n - k2,
        {
            let c = s[k2];
            let ghost j2 = k2 - k - 1;
            proof {
                assert(fp[j2 as int] == c);
            }
            if c < 48 || c > 57 {
                proof {
                    assert(!all_digits(fp));
                }
                return None;
            }
            proof {
                assert(fp.take(j2 + 1).drop_last() =~= fp.take(j2 as int));
                assert(fp.take(j2 + 1).last() == fp[j2 as int]);
                lemma_pow10_mono((j2 + 1) as nat, 6);
                reveal_with_fuel(pow10, 7);
            }
            fpv = fpv * 10 + (c - 48) as i64;
            k2 = k2 + 1;
        }
        proof {
            assert(fp.take(m as int) =~= fp);
            assert(all_digits(fp));
            lemma_pow10_add(m as nat, (6 - m) as nat);
            lemma_pow10_pos((6 - m) as nat);
            lemma_pow10_mono((6 - m) as nat, 6);
            reveal_with_fuel(pow10, 7);
            assert(fpv * pow10((6 - m) as nat) < pow10(m as nat) * pow10((6 - m) as nat))
                by (nonlinear_arith)
                requires
                    0 <= fpv < pow10(m as nat),
                    pow10((6 - m) as nat) >= 1,
            ;
            assert(0 <= fpv * pow10((6 - m) as nat)) by (nonlinear_arith)
                requires
                    0 <= fpv,
                    pow10((6 - m) as nat) >= 1,
            ;
        }
        let pw = pow10_exec(6 - m);
        fpv = fpv * pw;
    } else {
        proof {
            assert(d == t.len());
            reveal_with_fuel(pow10, 7);
        }
    }
    proof {
        lemma_digits_val_nonneg(ip);
    }
    if big {
        proof {
            assert(digits_val(ip) * SCALE >= (VAL_LIMIT + 1) * SCALE) by (nonlinear_arith)
                requires
                    digits_val(ip) >= VAL_LIMIT + 1,
            ;
        }
        return None;
    }
    let mag = acc * 1_000_000 + fpv;
    if mag > VAL_LIMIT {
        None
    } else if neg {
        Some(-mag)
    } else {
        Some(mag)
    }
}

} // verus!
