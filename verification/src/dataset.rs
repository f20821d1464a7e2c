//! Samples and the built-in fallback dataset.
//!
//! A dataset is an ordered sequence of (mileage, price) pairs.  When no
//! tabular source is available the loader falls back to a fixed set of 24
//! documented pairs, so a first run always has data to train on.

use vstd::prelude::*;
use crate::decimal::{find_byte, lemma_find_byte_is, parse_fx, parse_fx_bytes};
use crate::fixed::{Fx, MAX_SAMPLES};

verus! {

/// A row of the tabular source is malformed: it does not hold exactly two
/// fields, or a field is not a supported number.  The whole load fails;
/// no row is skipped.
#[derive(Clone, Copy, Debug, PartialEq, Eq, Structural)]
pub struct ParseError;

/// One (mileage, price) observation, both coordinates in micro-units.
#[derive(Clone, Copy, Debug, PartialEq, Eq, Structural)]
pub struct Sample {
    pub x: Fx,
    pub y: Fx,
}

impl Sample {
    /// Both coordinates lie in the library's supported range.
    pub open spec fn valid(self) -> bool {
        self.x.valid() && self.y.valid()
    }

    /// Pairs two values.
    pub fn new(x: Fx, y: Fx) -> (r: Sample)
        ensures
            r.x == x,
            r.y == y,
    {
        Sample { x, y }
    }
}

/// Every sample of the sequence is in range.
pub open spec fn dataset_valid(s: Seq<Sample>) -> bool {
    forall|i: int| 0 <= i < s.len() ==> #[trigger] s[i].valid()
}

/// One whole-unit sample as micro-units.
pub open spec fn whole(x: int, y: int) -> Sample {
    Sample { x: Fx { units: (x * 1_000_000) as i64 }, y: Fx { units: (y * 1_000_000) as i64 } }
}

/// The 24 built-in (mileage, price) pairs used when no source is available.
pub open spec fn fallback_spec() -> Seq<Sample> {
    seq![
        whole(240000, 3650),
        whole(139800, 3800),
        whole(150500, 4400),
        whole(185530, 4450),
        whole(176000, 5250),
        whole(114800, 5350),
        whole(166800, 5800),
        whole(89000, 5990),
        whole(144500, 5999),
        whole(84000, 6200),
        whole(82029, 6390),
        whole(63060, 6390),
        whole(74000, 6600),
        whole(97500, 6800),
        whole(67000, 6800),
        whole(76025, 6900),
        whole(48235, 6900),
        whole(93000, 6990),
        whole(60949, 7490),
        whole(65674, 7555),
        whole(54000, 7990),
        whole(68500, 7990),
        whole(22899, 7990),
        whole(61789, 8290),
    ]
}

/// Builds the built-in fallback dataset.
pub fn fallback_dataset() -> (r: Vec<Sample>)
    ensures
        r@ == fallback_spec(),
        r@.len() == 24,
        dataset_valid(r@),
{
    let mut v: Vec<Sample> = Vec::new();
    v.push(Sample { x: Fx { units: 240000_000000 }, y: Fx { units: 3650_000000 } });
    v.push(Sample { x: Fx { units: 139800_000000 }, y: Fx { units: 3800_000000 } });
    v.push(Sample { x: Fx { units: 150500_000000 }, y: Fx { units: 4400_000000 } });
    v.push(Sample { x: Fx { units: 185530_000000 }, y: Fx { units: 4450_000000 } });
    v.push(Sample { x: Fx { units: 176000_000000 }, y: Fx { units: 5250_000000 } });
    v.push(Sample { x: Fx { units: 114800_000000 }, y: Fx { units: 5350_000000 } });
    v.push(Sample { x: Fx { units: 166800_000000 }, y: Fx { units: 5800_000000 } });
    v.push(Sample { x: Fx { units: 89000_000000 }, y: Fx { units: 5990_000000 } });
    v.push(Sample { x: Fx { units: 144500_000000 }, y: Fx { units: 5999_000000 } });
    v.push(Sample { x: Fx { units: 84000_000000 }, y: Fx { units: 6200_000000 } });
    v.push(Sample { x: Fx { units: 82029_000000 }, y: Fx { units: 6390_000000 } });
    v.push(Sample { x: Fx { units: 63060_000000 }, y: Fx { units: 6390_000000 } });
    v.push(Sample { x: Fx { units: 74000_000000 }, y: Fx { units: 6600_000000 } });
    v.push(Sample { x: Fx { units: 97500_000000 }, y: Fx { units: 6800_000000 } });
    v.push(Sample { x: Fx { units: 67000_000000 }, y: Fx { units: 6800_000000 } });
    v.push(Sample { x: Fx { units: 76025_000000 }, y: Fx { units: 6900_000000 } });
    v.push(Sample { x: Fx { units: 48235_000000 }, y: Fx { units: 6900_000000 } });
    v.push(Sample { x: Fx { units: 93000_000000 }, y: Fx { units: 6990_000000 } });
    v.push(Sample { x: Fx { units: 60949_000000 }, y: Fx { units: 7490_000000 } });
    v.push(Sample { x: Fx { units: 65674_000000 }, y: Fx { units: 7555_000000 } });
    v.push(Sample { x: Fx { units: 54000_000000 }, y: Fx { units: 7990_000000 } });
    v.push(Sample { x: Fx { units: 68500_000000 }, y: Fx { units: 7990_000000 } });
    v.push(Sample { x: Fx { units: 22899_000000 }, y: Fx { units: 7990_000000 } });
    v.push(Sample { x: Fx { units: 61789_000000 }, y: Fx { units: 8290_000000 } });
    proof {
        assert(v@ =~= fallback_spec());
    }
    v
}

/// The coordinate pairs a sample sequence holds, in micro-units.
pub open spec fn sample_view(s: Seq<Sample>) -> Seq<(int, int)> {
    s.map(|i: int, smp: Sample| (smp.x@, smp.y@))
}

/// Index of the first newline at or after `i`, or the length.
pub open spec fn next_nl(s: Seq<u8>, i: int) -> int
    decreases s.len() - i,
{
    if i < 0 || i >= s.len() {
        s.len() as int
    } else if s[i] == 10 {
        i
    } else {
        next_nl(s, i + 1)
    }
}

/// `next_nl` points at the first newline at or after `i`.
pub proof fn lemma_next_nl(s: Seq<u8>, i: int)
    requires
        0 <= i <= s.len(),
    ensures
        i <= next_nl(s, i) <= s.len(),
        next_nl(s, i) < s.len() ==> s[next_nl(s, i)] == 10,
        forall|j: int| i <= j < next_nl(s, i) ==> #[trigger] s[j] != 10,
    decreases s.len() - i,
{
    if i < s.len() && s[i] != 10 {
        lemma_next_nl(s, i + 1);
    }
}

/// Whatever index at or after `i` carries the first newline (or the
/// length, with none before it) is exactly `next_nl`.
pub proof fn lemma_next_nl_is(s: Seq<u8>, i: int, j: int)
    requires
        0 <= i <= j <= s.len(),
        j < s.len() ==> s[j] == 10,
        forall|t: int| i <= t < j ==> #[trigger] s[t] != 10,
    ensures
        next_nl(s, i) == j,
    decreases s.len() - i,
{
    if i < s.len() && s[i] != 10 {
        lemma_next_nl_is(s, i + 1, j);
    }
}

/// A line with its trailing carriage return, if any, removed.
pub open spec fn strip_cr(line: Seq<u8>) -> Seq<u8> {
    if line.len() > 0 && line.last() == 13 {
        line.drop_last()
    } else {
        line
    }
}

/// The pair a data row denotes: exactly two comma-separated fields, each
/// a supported number; absent if the row is malformed.
pub open spec fn parse_row(line: Seq<u8>) -> Option<(int, int)> {
    let c = find_byte(line, 44);
    if c == line.len() {
        None
    } else {
        let f0 = line.take(c);
        let f1 = line.skip(c + 1);
        if find_byte(f1, 44) != f1.len() {
            None
        } else {
            let p0 = parse_fx(f0);
            let p1 = parse_fx(f1);
            if p0 is Some && p1 is Some {
                Some((p0->0, p1->0))
            } else {
                None
            }
        }
    }
}

/// The pairs denoted by the rows from position `i` on, one line at a
/// time; empty lines are passed over, and one malformed row fails the
/// whole tail.
pub open spec fn parse_rows(s: Seq<u8>, i: int) -> Option<Seq<(int, int)>>
    decreases s.len() - i,
    when 0 <= i <= s.len()
    via parse_rows_dec
{
    if i >= s.len() {
        Some(Seq::empty())
    } else {
        let e = next_nl(s, i);
        let line = strip_cr(s.subrange(i, e));
        let tail = if e >= s.len() {
            Some(Seq::<(int, int)>::empty())
        } else {
            parse_rows(s, e + 1)
        };
        if line.len() == 0 {
            tail
        } else {
            let p = parse_row(line);
            if p is Some && tail is Some {
                Some(seq![p->0] + tail->0)
            } else {
                None
            }
        }
    }
}

#[via_fn]
proof fn parse_rows_dec(s: Seq<u8>, i: int) {
    if 0 <= i < s.len() {
        lemma_next_nl(s, i);
    }
}

/// What a tabular source denotes: its rows after the header line, if
/// every one is well-formed and they are not too many for the engine.
pub open spec fn parse_dataset_spec(s: Seq<u8>) -> Option<Seq<(int, int)>> {
    let e0 = next_nl(s, 0);
    let rows = if e0 >= s.len() {
        Some(Seq::<(int, int)>::empty())
    } else {
        parse_rows(s, e0 + 1)
    };
    if rows is Some && rows->0.len() <= MAX_SAMPLES {
        rows
    } else {
        None
    }
}

/// Index of the first newline at or after `from`, executable.
fn scan_nl(s: &[u8], from: usize) -> (e: usize)
    requires
        from <= s@.len(),
    ensures
        e == next_nl(s@, from as int),
        from <= e <= s@.len(),
{
    let n = s.len();
    let mut k = from;
    while k < n && s[k] != 10
        invariant
            from <= k <= n,
            n == s@.len(),
            forall|j: int| from <= j < k ==> #[trigger] s@[j] != 10,
        decreases n - k,
    {
        k = k + 1;
    }
    proof {
        lemma_next_nl_is(s@, from as int, k as int);
    }
    k
}

/// Reads one data row between `lo` and `hi`.
fn parse_row_bytes(s: &[u8], lo: usize, hi: usize) -> (r: Option<(i64, i64)>)
    requires
        lo <= hi <= s@.len(),
    ensures
        (r is Some) <==> (parse_row(s@.subrange(lo as int, hi as int)) is Some),
        r matches Some(p) ==> (parse_row(s@.subrange(lo as int, hi as int)) == Some(
            (p.0 as int, p.1 as int),
        )),
        r matches Some(p) ==> ((Fx { units: p.0 }).valid() && (Fx { units: p.1 }).valid()),
{
    let ghost line = s@.subrange(lo as int, hi as int);
    proof {
        assert(forall|i: int| 0 <= i < line.len() ==> #[trigger] line[i] == s@[lo + i]);
    }
    let mut c = lo;
    while c < hi && s[c] != 44
        invariant
            lo <= c <= hi <= s@.len(),
            line == s@.subrange(lo as int, hi as int),
            forall|i: int| 0 <= i < line.len() ==> #[trigger] line[i] == s@[lo + i],
            forall|i: int| 0 <= i < c - lo ==> #[trigger] line[i] != 44,
        decreases hi - c,
    {
        c = c + 1;
    }
    proof {
        lemma_find_byte_is(line, 44, c - lo);
    }
    if c == hi {
        return None;
    }
    let ghost f1 = line.skip(c - lo + 1);
    proof {
        assert(forall|i: int| 0 <= i < f1.len() ==> #[trigger] f1[i] == s@[c + 1 + i]);
    }
    let mut k = c + 1;
    while k < hi && s[k] != 44
        invariant
            c + 1 <= k <= hi <= s@.len(),
            lo <= c < hi,
            line == s@.subrange(lo as int, hi as int),
            f1 == line.skip(c - lo + 1),
            f1.len() == hi - c - 1,
            forall|i: int| 0 <= i < f1.len() ==> #[trigger] f1[i] == s@[c + 1 + i],
            forall|i: int| 0 <= i < k - c - 1 ==> #[trigger] f1[i] != 44,
        decreases hi - k,
    {
        k = k + 1;
    }
    if k < hi {
        proof {
            lemma_find_byte_is(f1, 44, (k - c - 1) as int);
        }
        return None;
    }
    proof {
        lemma_find_byte_is(f1, 44, f1.len() as int);
        assert(line.take(c - lo) =~= s@.subrange(lo as int, c as int));
        assert(f1 =~= s@.subrange(c + 1, hi as int));
    }
    let r0 = parse_fx_bytes(vstd::slice::slice_subrange(s, lo, c));
    let r1 = parse_fx_bytes(vstd::slice::slice_subrange(s, c + 1, hi));
    match (r0, r1) {
        (Some(a), Some(b)) => Some((a, b)),
        _ => None,
    }
}

/// Reads two-column numeric rows from tabular text, skipping the header
/// line; one malformed row aborts the whole load.
pub fn parse_dataset(text: &[u8]) -> (r: Result<Vec<Sample>, ParseError>)
    ensures
        (r is Ok) <==> (parse_dataset_spec(text@) is Some),
        r matches Ok(v) ==> parse_dataset_spec(text@) == Some(sample_view(v@)),
        r matches Ok(v) ==> dataset_valid(v@) && v@.len() <= MAX_SAMPLES,
{
    let n = text.len();
    let e0 = scan_nl(text, 0);
    if e0 >= n {
        let out: Vec<Sample> = Vec::new();
        proof {
            assert(sample_view(out@) =~= Seq::<(int, int)>::empty());
        }
        return Ok(out);
    }
    let ghost start = e0 + 1;
    let mut pos = e0 + 1;
    let mut out: Vec<Sample> = Vec::new();
    proof {
        assert(sample_view(out@) =~= Seq::<(int, int)>::empty());
        assert(sample_view(out@) + parse_rows(text@, start)->0 =~= parse_rows(
            text@,
            start,
        )->0);
    }
    while pos < n
        invariant
            1 <= pos <= n,
            n == text@.len(),
            start == e0 + 1,
            e0 == next_nl(text@, 0),
            e0 < n,
            start <= n,
            dataset_valid(out@),
            out@.len() <= MAX_SAMPLES,
            parse_rows(text@, start as int) == (match parse_rows(text@, pos as int) {
                Option::None => Option::<Seq<(int, int)>>::None,
                Option::Some(t) => Option::Some(sample_view(out@) + t),
            }),
        decreases n - pos,
    {
        let e = scan_nl(text, pos);
        let e2 = if e > pos && text[e - 1] == 13 {
            e - 1
        } else {
            e
        };
        proof {
            assert(strip_cr(text@.subrange(pos as int, e as int)) =~= text@.subrange(
                pos as int,
                e2 as int,
            ));
        }
        let ghost tail_spec = if e >= n {
            Some(Seq::<(int, int)>::empty())
        } else {
            parse_rows(text@, e + 1)
        };
        proof {
            if e >= n {
                assert(parse_rows(text@, n as int) == Some(Seq::<(int, int)>::empty()));
            }
        }
        if e2 > pos {
            match parse_row_bytes(text, pos, e2) {
                Some(p) => {
                    if out.len() >= MAX_SAMPLES {
                        proof {
                            if parse_rows(text@, start as int) is Some {
                                assert(parse_rows(text@, start as int)->0.len()
                                    > MAX_SAMPLES);
                            }
                        }
                        return Err(ParseError);
                    }
                    let ghost old_out = out@;
                    out.push(Sample { x: Fx { units: p.0 }, y: Fx { units: p.1 } });
                    proof {
                        assert(sample_view(out@) =~= sample_view(old_out) + seq![
                            (p.0 as int, p.1 as int),
                        ]);
                        if parse_rows(text@, pos as int) is Some {
                            assert(sample_view(old_out) + (seq![(p.0 as int, p.1 as int)]
                                + tail_spec->0) =~= sample_view(out@) + tail_spec->0);
                        }
                    }
                },
                None => {
                    return Err(ParseError);
                },
            }
        }
        pos = if e < n {
            e + 1
        } else {
            n
        };
    }
    proof {
        assert(parse_rows(text@, n as int) == Some(Seq::<(int, int)>::empty()));
        assert(sample_view(out@) + Seq::<(int, int)>::empty() =~= sample_view(out@));
    }
    Ok(out)
}

/// Loads a dataset: parses the tabular source when one could be read, and
/// falls back to the built-in sample set when there is no source or the
/// source is malformed.
pub fn load_dataset(source: Option<&[u8]>) -> (r: Vec<Sample>)
    ensures
        dataset_valid(r@),
        r@.len() <= MAX_SAMPLES,
        source is None ==> r@ == fallback_spec(),
        source matches Some(t) ==> ((parse_dataset_spec(t@) is None) ==> r@
            == fallback_spec()),
        source matches Some(t) ==> (parse_dataset_spec(t@) matches Some(rows) ==> sample_view(
            r@,
        ) == rows),
{
    match source {
        None => fallback_dataset(),
        Some(t) => match parse_dataset(t) {
            Ok(v) => v,
            Err(_) => fallback_dataset(),
        },
    }
}

} // verus!
