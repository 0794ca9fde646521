//! Timeline records and `HH:MM:SS.mmm` timestamps.
//!
//! Times are carried as whole milliseconds; a timestamp string names one.

use vstd::prelude::*;
use crate::digits::{
    all_digits, char_is_digit, digit_val, digit_value_of, lemma_digits_value_concat, digits_value, is_digit, lemma_padded, lemma_padded_exact, lemma_pow10_small, padded,
    parse_digits, pow10, push_padded,
};
use crate::text::{
    lacks, lemma_split_append_plain, lemma_split_append_sep, lemma_split_plain, split_chars,
    split_on, str_chars, views,
};

verus! {

/// The kind of content a segment represents.
#[derive(Debug, Clone, Copy, PartialEq, Eq, Structural)]
pub enum SegmentType {
    Speech,
    Visual,
    Sound,
}

/// One entry of a timeline.
#[derive(Debug, Clone)]
pub struct Segment {
    pub segment_type: SegmentType,
    pub start: String,
    pub end: String,
    pub content: String,
    /// Capture timestamps of the frames a visual segment was generated from.
    pub frames: Vec<String>,
}

/// A time-bounded part of a video, the unit of processing.
#[derive(Debug, Clone, Copy, PartialEq, Eq, Structural)]
pub struct Chunk {
    pub index: u32,
    pub start_ms: u64,
    pub end_ms: u64,
}

/// A processing request known to the server.
#[derive(Debug, Clone)]
pub struct Job {
    pub id: u128,
    pub source: String,
    pub status: JobStatus,
}

/// The state of a job.
#[derive(Debug, Clone, Copy, PartialEq, Eq, Structural)]
pub enum JobStatus {
    Queued,
    Processing,
    Completed,
    Failed,
}

/// How the visual track was sampled.
#[derive(Debug, Clone, Copy, PartialEq, Eq, Structural)]
pub enum SamplingMode {
    Fixed,
    Adaptive,
}

/// The merged output for one video.
#[derive(Debug, Clone)]
pub struct Timeline {
    pub source: String,
    pub duration_ms: u64,
    pub segments: Vec<Segment>,
}

// ---------------------------------------------------------------- timestamps

/// `HH:MM:SS.mmm` for `ms` milliseconds; hours grow past two digits when needed.
pub open spec fn timestamp_text(ms: nat) -> Seq<char> {
    padded(ms / 3600000, 2) + seq![':'] + padded((ms % 3600000) / 60000, 2) + seq![':'] + padded(
        (ms % 60000) / 1000,
        2,
    ) + seq!['.'] + padded(ms % 1000, 3)
}

/// A non-empty run of decimal digits.
pub open spec fn numeral(s: Seq<char>) -> bool {
    s.len() > 0 && all_digits(s)
}

/// Milliseconds named by a fraction-of-second digit string: its first three
/// digits, read as thousandths; further digits are dropped.
pub open spec fn frac_millis(f: Seq<char>) -> nat {
    if f.len() >= 3 {
        digits_value(f.take(3))
    } else {
        digits_value(f) * pow10((3 - f.len()) as nat)
    }
}

/// The digits of a whole field of a timestamp: the field without the `+`
/// it may lead with.
pub open spec fn field_digits(s: Seq<char>) -> Seq<char> {
    if s.len() > 0 && s[0] == '+' {
        s.drop_first()
    } else {
        s
    }
}

/// The milliseconds the hours or minutes field `s` names at `unit`
/// milliseconds apiece: an optional leading `+`, then digits with an optional
/// `.` and fraction digits (at least one digit in all); the fraction's share is
/// rounded down to whole milliseconds.
pub open spec fn field_ms(s: Seq<char>, unit: nat) -> Option<nat> {
    let p = split_on(field_digits(s), '.');
    if p.len() == 1 && numeral(p[0]) {
        Some(digits_value(p[0]) * unit)
    } else if p.len() == 2 && all_digits(p[0]) && all_digits(p[1]) && p[0].len() + p[1].len() > 0 {
        Some(digits_value(p[0]) * unit + frac_of(p[1], unit))
    } else {
        None
    }
}

/// The milliseconds a timestamp names: three `:`-separated fields; hours and
/// minutes as [`field_ms`] reads them, whole seconds as digits with an
/// optional leading `+`, then an optional `.`-separated fraction of digits
/// (text after a second `.` is ignored). `None` when the shape does not hold.
pub open spec fn timestamp_millis(ts: Seq<char>) -> Option<nat> {
    let parts = split_on(ts, ':');
    if parts.len() != 3 {
        None
    } else {
        let sec = split_on(parts[2], '.');
        let sc = field_digits(sec[0]);
        match (field_ms(parts[0], 3600000), field_ms(parts[1], 60000)) {
            (Some(h), Some(m)) => if !numeral(sc) || (sec.len() > 1 && !numeral(sec[1])) {
                None
            } else {
                let frac = if sec.len() > 1 {
                    frac_millis(sec[1])
                } else {
                    0
                };
                Some(h + m + digits_value(sc) * 1000 + frac)
            },
            _ => None,
        }
    }
}

/// The digits of a whole field (see [`field_digits`]).
fn field_chars(s: &[char]) -> (r: Vec<char>)
    ensures
        r@ == field_digits(s@),
{
    let lo: usize = if s.len() > 0 && s[0] == '+' {
        1
    } else {
        0
    };
    let mut r: Vec<char> = Vec::new();
    let mut i = lo;
    while i < s.len()
        invariant
            lo <= i <= s.len(),
            r@ == s@.subrange(lo as int, i as int),
        decreases s.len() - i,
    {
        r.push(s[i]);
        i = i + 1;
        assert(s@.subrange(lo as int, i as int) == s@.subrange(lo as int, i - 1).push(s@[i - 1]));
    }
    assert(s@.subrange(0, s@.len() as int) == s@);
    r
}

/// The whole milliseconds that a decimal fraction `0.f` of `unit`
/// milliseconds holds, rounded down.
pub open spec fn frac_of(f: Seq<char>, unit: nat) -> nat {
    digits_value(f) * unit / pow10(f.len())
}

proof fn lemma_frac_step(t: Seq<char>, unit: nat)
    requires
        t.len() > 0,
        all_digits(t),
    ensures
        frac_of(t, unit) == (digit_val(t[0]) * unit + frac_of(t.drop_first(), unit)) / 10,
{
    let c = seq![t[0]];
    let t2 = t.drop_first();
    assert(c + t2 == t);
    lemma_digits_value_concat(c, t2);
    assert(c.drop_last() =~= Seq::<char>::empty());
    assert(digits_value(c.drop_last()) == 0);
    assert(c.last() == t[0]);
    assert(digits_value(c) == digit_val(t[0]));
    let m = t2.len();
    let p = pow10(m);
    assert(pow10(t.len()) == 10 * p);
    lemma_pow10_positive(m);
    let d = digit_val(t[0]);
    let b = digits_value(t2);
    let x = b * unit;
    assert((d * p + b) * unit == (d * unit) * p + x) by (nonlinear_arith)
        requires
            x == b * unit,
    ;
    vstd::arithmetic::div_mod::lemma_div_denominator(((d * unit) * p + x) as int, p as int, 10);
    assert(p * 10 == 10 * p) by (nonlinear_arith);
    vstd::arithmetic::div_mod::lemma_hoist_over_denominator(x as int, (d * unit) as int, p);
    assert(x as int / p as int + (d * unit) as int == (x + (d * unit) * p) as int / p as int);
}

proof fn lemma_pow10_positive(k: nat)
    ensures
        pow10(k) > 0,
    decreases k,
{
    if k > 0 {
        lemma_pow10_positive((k - 1) as nat);
    }
}

/// `frac_of(f, unit)`, for a fraction of digits.
fn scaled_fraction(f: &[char], unit: u64) -> (r: u64)
    requires
        all_digits(f@),
        0 < unit <= 3600000,
    ensures
        r == frac_of(f@, unit as nat),
        r < unit,
{
    let n = f.len();
    let mut x: u64 = 0;
    let mut j: usize = n;
    proof {
        let e = f@.subrange(n as int, n as int);
        assert(e =~= Seq::<char>::empty());
        assert(digits_value(e) == 0);
        assert(pow10(e.len()) == 1);
        assert(frac_of(e, unit as nat) == 0);
    }
    while j > 0
        invariant
            j <= n == f@.len(),
            all_digits(f@),
            0 < unit <= 3600000,
            x == frac_of(f@.subrange(j as int, n as int), unit as nat),
            x < unit,
        decreases j,
    {
        j = j - 1;
        let d = digit_value_of(f[j]);
        let ghost t = f@.subrange(j as int, n as int);
        proof {
            assert(t.drop_first() =~= f@.subrange(j + 1, n as int));
            assert(t[0] == f@[j as int]);
            assert(all_digits(t));
            lemma_frac_step(t, unit as nat);
        }
        assert(d * unit + x < 10 * unit) by (nonlinear_arith)
            requires
                d < 10,
                x < unit,
        ;
        x = (d * unit + x) / 10;
    }
    proof {
        assert(f@.subrange(0, n as int) == f@);
    }
    x
}

fn digit_run(s: &[char]) -> (b: bool)
    ensures
        b == all_digits(s@),
{
    let mut i: usize = 0;
    while i < s.len()
        invariant
            i <= s.len(),
            forall|j: int| 0 <= j < i ==> is_digit(#[trigger] s@[j]),
        decreases s.len() - i,
    {
        if !char_is_digit(s[i]) {
            assert(!is_digit(s@[i as int]));
            return false;
        }
        i = i + 1;
    }
    true
}

/// The milliseconds of an hours or minutes field (see [`field_ms`]); `None`
/// when it is malformed or names more than a `u64` holds.
fn parse_field(s: &[char], unit: u64) -> (r: Option<u64>)
    requires
        0 < unit <= 3600000,
    ensures
        r matches Some(v) ==> field_ms(s@, unit as nat) == Some(v as nat),
        r is None ==> match field_ms(s@, unit as nat) {
            Some(v) => v > u64::MAX,
            None => true,
        },
{
    let t = field_chars(s);
    let p = split_chars(t.as_slice(), '.');
    assert(views(p@) == split_on(t@, '.'));
    if p.len() == 1 {
        assert(views(p@)[0] == p@[0]@);
        match parse_digits(p[0].as_slice()) {
            Some(v) => {
                assert(v * unit >= v) by (nonlinear_arith)
                    requires
                        unit >= 1,
                ;
                v.checked_mul(unit)
            },
            None => {
                proof {
                    if numeral(p@[0]@) {
                        assert(digits_value(p@[0]@) * unit >= digits_value(p@[0]@)) by (nonlinear_arith)
                            requires
                                unit >= 1,
                        ;
                    }
                }
                None
            },
        }
    } else if p.len() == 2 {
        assert(views(p@)[0] == p@[0]@);
        assert(views(p@)[1] == p@[1]@);
        let a = p[0].as_slice();
        let b = p[1].as_slice();
        if !digit_run(a) || !digit_run(b) || (a.len() == 0 && b.len() == 0) {
            return None;
        }
        let whole: u64 = if a.len() == 0 {
            assert(digits_value(a@) == 0);
            0
        } else {
            match parse_digits(a) {
                Some(v) => v,
                None => {
                    proof {
                        assert(digits_value(a@) * unit >= digits_value(a@)) by (nonlinear_arith)
                            requires
                                unit >= 1,
                        ;
                    }
                    return None;
                },
            }
        };
        let f = scaled_fraction(b, unit);
        proof {
            assert(whole * unit >= whole) by (nonlinear_arith)
                requires
                    unit >= 1,
            ;
        }
        match whole.checked_mul(unit) {
            Some(w) => w.checked_add(f),
            None => None,
        }
    } else {
        None
    }
}

/// `timestamp_millis`, restricted to what fits in a `u64`.
pub open spec fn parsed_timestamp(ts: Seq<char>) -> Option<u64> {
    match timestamp_millis(ts) {
        Some(v) => if v <= u64::MAX {
            Some(v as u64)
        } else {
            None
        },
        None => None,
    }
}

/// Formats `ms` milliseconds as `HH:MM:SS.mmm`.
pub fn format_timestamp(ms: u64) -> (s: String)
    ensures
        s@ == timestamp_text(ms as nat),
{
    let mut s = String::new();
    push_padded(&mut s, ms / 3600000, 2);
    s.push(':');
    push_padded(&mut s, (ms % 3600000) / 60000, 2);
    s.push(':');
    push_padded(&mut s, (ms % 60000) / 1000, 2);
    s.push('.');
    push_padded(&mut s, ms % 1000, 3);
    s
}


/// Milliseconds named by a fraction field, or `None` when it is not a
/// non-empty run of digits.
fn parse_frac(f: &[char]) -> (r: Option<u64>)
    ensures
        r matches Some(v) ==> numeral(f@) && v == frac_millis(f@) && v < 1000,
        r is None ==> !numeral(f@),
{
    if f.len() == 0 {
        return None;
    }
    let mut i: usize = 0;
    while i < f.len()
        invariant
            i <= f.len(),
            forall|j: int| 0 <= j < i ==> is_digit(#[trigger] f@[j]),
        decreases f.len() - i,
    {
        if !char_is_digit(f[i]) {
            assert(!is_digit(f@[i as int]));
            return None;
        }
        i = i + 1;
    }
    let k: usize = if f.len() >= 3 {
        3
    } else {
        f.len()
    };
    let mut acc: u64 = 0;
    let mut j: usize = 0;
    while j < k
        invariant
            j <= k <= 3,
            k <= f.len(),
            all_digits(f@),
            acc == digits_value(f@.take(j as int)),
            acc < pow10(j as nat),
        decreases k - j,
    {
        assert(f@.take(j + 1).drop_last() == f@.take(j as int));
        assert(f@.take(j + 1).last() == f@[j as int]);
        let d = digit_value_of(f[j]);
        proof {
            lemma_pow10_small();
        }
        assert(pow10((j + 1) as nat) == 10 * pow10(j as nat));
        acc = acc * 10 + d;
        j = j + 1;
    }
    proof {
        if f.len() < 3 {
            assert(f@.take(k as int) == f@);
        }
    }
    let scale: u64 = if k == 3 {
        1
    } else if k == 2 {
        10
    } else {
        100
    };
    proof {
        lemma_pow10_small();
    }
    Some(acc * scale)
}

/// Reads an `HH:MM:SS.mmm` timestamp into milliseconds; `None` when `ts` does
/// not have that shape or names more than `u64::MAX` milliseconds.
pub fn parse_timestamp(ts: &str) -> (r: Option<u64>)
    ensures
        r == parsed_timestamp(ts@),
{
    let chars = str_chars(ts);
    let parts = split_chars(chars.as_slice(), ':');
    if parts.len() != 3 {
        return None;
    }
    assert(views(parts@)[0] == parts@[0]@);
    assert(views(parts@)[1] == parts@[1]@);
    assert(views(parts@)[2] == parts@[2]@);
    let sec = split_chars(parts[2].as_slice(), '.');
    assert(views(sec@)[0] == sec@[0]@);
    let frac: u64 = if sec.len() > 1 {
        assert(views(sec@)[1] == sec@[1]@);
        match parse_frac(sec[1].as_slice()) {
            Some(f) => f,
            None => return None,
        }
    } else {
        0
    };
    let oh = parse_field(parts[0].as_slice(), 3600000);
    let om = parse_field(parts[1].as_slice(), 60000);
    let fs = field_chars(sec[0].as_slice());
    let os = parse_digits(fs.as_slice());
    let ghost sv = digits_value(fs@);
    proof {
        assert(sv * 1000 >= sv) by (nonlinear_arith);
    }
    match (oh, om, os) {
        (Some(h), Some(m), Some(s)) => {
            let a = match h.checked_add(m) {
                Some(v) => v,
                None => return None,
            };
            let c = match s.checked_mul(1000) {
                Some(v) => v,
                None => return None,
            };
            let d = match a.checked_add(c) {
                Some(v) => v,
                None => return None,
            };
            match d.checked_add(frac) {
                Some(v) => Some(v),
                None => None,
            }
        },
        _ => None,
    }
}

/// A digit string contains neither separator of a timestamp.
proof fn lemma_digits_lack_separators(s: Seq<char>)
    requires
        all_digits(s),
    ensures
        lacks(s, ':'),
        lacks(s, '.'),
{
    assert forall|i: int| 0 <= i < s.len() implies #[trigger] s[i] != ':' by {
        assert(is_digit(s[i]));
    }
    assert forall|i: int| 0 <= i < s.len() implies #[trigger] s[i] != '.' by {
        assert(is_digit(s[i]));
    }
}

/// Reading back a formatted timestamp gives the milliseconds it was made from.
pub proof fn lemma_timestamp_roundtrip(ms: u64)
    ensures
        parsed_timestamp(timestamp_text(ms as nat)) == Some(ms),
{
    let n = ms as nat;
    let h = n / 3600000;
    let m = (n % 3600000) / 60000;
    let s = (n % 60000) / 1000;
    let f = n % 1000;
    let a = padded(h, 2);
    let b = padded(m, 2);
    let c = padded(s, 2);
    let d = padded(f, 3);
    lemma_padded(h, 2);
    lemma_padded(m, 2);
    lemma_padded(s, 2);
    lemma_padded(f, 3);
    lemma_pow10_small();
    lemma_padded_exact(f, 3);
    lemma_digits_lack_separators(a);
    lemma_digits_lack_separators(b);
    lemma_digits_lack_separators(c);
    lemma_digits_lack_separators(d);
    let e = Seq::<char>::empty();
    // pieces at ':'
    let x2 = a + seq![':'];
    let x3 = x2 + b;
    let x4 = x3 + seq![':'];
    let x5 = x4 + c;
    let x6 = x5 + seq!['.'];
    let x7 = x6 + d;
    assert(x7 == timestamp_text(n));
    lemma_split_plain(a, ':');
    assert(x2 == a.push(':'));
    lemma_split_append_sep(a, ':');
    lemma_split_append_plain(x2, b, ':');
    assert(split_on(x3, ':') =~= seq![a, b]);
    assert(x4 == x3.push(':'));
    lemma_split_append_sep(x3, ':');
    lemma_split_append_plain(x4, c, ':');
    assert(split_on(x5, ':') =~= seq![a, b, c]);
    let dot = seq!['.'];
    assert(lacks(dot, ':'));
    lemma_split_append_plain(x5, dot, ':');
    assert(split_on(x6, ':') =~= seq![a, b, c + dot]);
    lemma_split_append_plain(x6, d, ':');
    let cd = c + dot + d;
    assert(split_on(x7, ':') =~= seq![a, b, cd]);
    // pieces of the seconds field at '.'
    lemma_split_plain(c, '.');
    assert(c + dot == c.push('.'));
    lemma_split_append_sep(c, '.');
    lemma_split_append_plain(c + dot, d, '.');
    assert(split_on(cd, '.') =~= seq![c, d]);
    assert(d.take(3) == d);
    assert(field_digits(a) == a);
    assert(field_digits(b) == b);
    assert(field_digits(c) == c);
    lemma_split_plain(a, '.');
    lemma_split_plain(b, '.');
    assert(field_ms(a, 3600000) == Some(digits_value(a) * 3600000));
    assert(field_ms(b, 60000) == Some(digits_value(b) * 60000));
    assert(h * 3600000 + m * 60000 + s * 1000 + f == n) by (nonlinear_arith)
        requires
            h == n / 3600000,
            m == (n % 3600000) / 60000,
            s == (n % 60000) / 1000,
            f == n % 1000,
    ;
}

} // verus!
