//! Checkable facts in a description or an on-screen text line: numbers with the
//! precision they were stated to, uppercase labels (tickers, exchanges,
//! indicators) and chart timeframes, each with a deduplication key.

use vstd::prelude::*;
use crate::digits::{
    all_digits, char_is_digit, decimal, digit_char, digit_to_char, digit_val, digit_value_of,
    digits_value, is_digit, parse_digits, zeros,
};
use crate::text::{chars_eq, is_whitespace, is_ws, string_from_chars, string_views, str_chars};
use vstd::string::*;

verus! {

/// Unit class of a numeric fact. Percentages never match plain numbers.
#[derive(Debug, Clone, Copy, PartialEq, Eq, Structural)]
pub enum NumberUnit {
    Plain,
    Percent,
}

/// How finely a number was stated. `Exact` for a plain integer such as a year;
/// otherwise the size of the last stated digit, `10^(scale + zeros - decimals)`,
/// where `scale` is the number's multiplier exponent.
#[derive(Debug, Clone, Copy, PartialEq, Eq, Structural)]
pub enum Precision {
    Exact,
    Digit { zeros: usize, decimals: usize },
}

/// A checkable fact. A number is held exactly as written: its sign, its integer
/// digits without group separators, its decimal digits and the power of ten of
/// its `k`/`M`/`B`/`T` multiplier, so its value is
/// `±int_digits.frac_digits × 10^scale`.
#[derive(Debug, Clone, PartialEq)]
pub enum Fact {
    Number {
        negative: bool,
        int_digits: String,
        frac_digits: String,
        scale: u32,
        unit: NumberUnit,
        precision: Precision,
        raw: String,
    },
    /// Uppercase on-screen token: ticker, exchange, indicator (BTC, RSI).
    Label { text: String },
    /// Chart timeframe, normalised: minutes lowercase (`15m`), hours, days,
    /// weeks and months uppercase (`4H`, `1D`, `1W`, `1M`).
    Timeframe { text: String },
}

/// A fact as plain values.
pub enum FactModel {
    Number {
        negative: bool,
        int_digits: Seq<char>,
        frac_digits: Seq<char>,
        scale: nat,
        unit: NumberUnit,
        precision: Precision,
        raw: Seq<char>,
    },
    Label { text: Seq<char> },
    Timeframe { text: Seq<char> },
}

impl View for Fact {
    type V = FactModel;

    open spec fn view(&self) -> FactModel {
        match self {
            Fact::Number { negative, int_digits, frac_digits, scale, unit, precision, raw } =>
                FactModel::Number {
                negative: *negative,
                int_digits: int_digits@,
                frac_digits: frac_digits@,
                scale: *scale as nat,
                unit: *unit,
                precision: *precision,
                raw: raw@,
            },
            Fact::Label { text } => FactModel::Label { text: text@ },
            Fact::Timeframe { text } => FactModel::Timeframe { text: text@ },
        }
    }
}

/// The models of a list of facts.
pub open spec fn fact_models(v: Seq<Fact>) -> Seq<FactModel> {
    v.map_values(|f: Fact| f@)
}

// ---------------------------------------------------------------- tokens

/// Characters a description is split into words at.
pub open spec fn is_word_sep(c: char) -> bool {
    is_ws(c) || c == '/' || c == '|'
}

/// The words of `s`, as splitting at every separator yields them: always at
/// least one, empty words kept.
pub open spec fn words(s: Seq<char>) -> Seq<Seq<char>>
    decreases s.len(),
{
    if s.len() == 0 {
        seq![Seq::<char>::empty()]
    } else {
        let rest = words(s.drop_last());
        if is_word_sep(s.last()) {
            rest.push(Seq::<char>::empty())
        } else {
            rest.update(rest.len() - 1, rest.last().push(s.last()))
        }
    }
}

/// Splitting always yields a word, possibly empty.
pub proof fn lemma_words_nonempty(s: Seq<char>)
    ensures
        words(s).len() >= 1,
    decreases s.len(),
{
    if s.len() > 0 {
        lemma_words_nonempty(s.drop_last());
    }
}

/// Punctuation trimmed from both ends of a word.
pub open spec fn is_punct(c: char) -> bool {
    ||| c == '('
    ||| c == ')'
    ||| c == '['
    ||| c == ']'
    ||| c == '"'
    ||| c == '\''
    ||| c == ','
    ||| c == '.'
    ||| c == ';'
    ||| c == ':'
    ||| c == '!'
    ||| c == '?'
    ||| c == '*'
    ||| c == '`'
    ||| c == '\u{b7}'
    ||| c == '\u{2022}'
}

/// `c` is trimmed from words as punctuation.
pub fn punct(c: char) -> (b: bool)
    ensures
        b == is_punct(c),
{
    c == '(' || c == ')' || c == '[' || c == ']' || c == '"' || c == '\'' || c == ',' || c
        == '.' || c == ';' || c == ':' || c == '!' || c == '?' || c == '*' || c == '`' || c
        == '\u{b7}' || c == '\u{2022}'
}

/// Index of the first character of `s` that is not punctuation (`s.len()` when
/// there is none).
pub open spec fn punct_prefix(s: Seq<char>) -> int
    decreases s.len(),
{
    if s.len() == 0 {
        0
    } else if is_punct(s[0]) {
        1 + punct_prefix(s.drop_first())
    } else {
        0
    }
}

/// Number of punctuation characters ending `s`.
pub open spec fn punct_suffix(s: Seq<char>) -> int
    decreases s.len(),
{
    if s.len() == 0 {
        0
    } else if is_punct(s.last()) {
        1 + punct_suffix(s.drop_last())
    } else {
        0
    }
}

/// `s` with punctuation trimmed from both ends.
pub open spec fn strip_punct(s: Seq<char>) -> Seq<char> {
    let t = s.subrange(punct_prefix(s), s.len() as int);
    t.subrange(0, t.len() - punct_suffix(t))
}

proof fn lemma_punct_prefix(s: Seq<char>, i: int)
    requires
        0 <= i <= s.len(),
        forall|j: int| 0 <= j < i ==> is_punct(#[trigger] s[j]),
    ensures
        i == s.len() || !is_punct(s[i]) ==> punct_prefix(s) == i,
        0 <= punct_prefix(s) <= s.len(),
    decreases i,
{
    lemma_punct_prefix_bounds(s);
    if i > 0 {
        assert(is_punct(s[0]));
        let t = s.drop_first();
        assert forall|j: int| 0 <= j < i - 1 implies is_punct(#[trigger] t[j]) by {
            assert(t[j] == s[j + 1]);
        }
        lemma_punct_prefix(t, i - 1);
        if i == s.len() || !is_punct(s[i]) {
            assert(i - 1 == t.len() || !is_punct(t[i - 1]));
        }
    }
}

proof fn lemma_punct_prefix_bounds(s: Seq<char>)
    ensures
        0 <= punct_prefix(s) <= s.len(),
    decreases s.len(),
{
    if s.len() > 0 {
        lemma_punct_prefix_bounds(s.drop_first());
    }
}

proof fn lemma_punct_suffix(s: Seq<char>, k: int)
    requires
        0 <= k <= s.len(),
        forall|j: int| s.len() - k <= j < s.len() ==> is_punct(#[trigger] s[j]),
        k == s.len() || !is_punct(s[s.len() - 1 - k]),
    ensures
        punct_suffix(s) == k,
    decreases k,
{
    if k > 0 {
        assert(is_punct(s[s.len() - 1]));
        let t = s.drop_last();
        assert forall|j: int| t.len() - (k - 1) <= j < t.len() implies is_punct(#[trigger] t[j]) by {
            assert(t[j] == s[j]);
        }
        if k - 1 < t.len() {
            assert(t[t.len() - 1 - (k - 1)] == s[s.len() - 1 - k]);
        }
        lemma_punct_suffix(t, k - 1);
    } else {
        if s.len() > 0 {
            assert(!is_punct(s.last()));
        }
    }
}

/// `w` with punctuation trimmed from both ends, as `trim_matches` does.
pub fn strip_punct_chars(w: &[char]) -> (t: Vec<char>)
    ensures
        t@ == strip_punct(w@),
{
    let mut i: usize = 0;
    while i < w.len() && punct(w[i])
        invariant
            i <= w.len(),
            forall|j: int| 0 <= j < i ==> is_punct(#[trigger] w@[j]),
        decreases w.len() - i,
    {
        i = i + 1;
    }
    proof {
        lemma_punct_prefix(w@, i as int);
    }
    let mut k: usize = 0;
    while k < w.len() - i && punct(w[w.len() - 1 - k])
        invariant
            i <= w.len(),
            k <= w.len() - i,
            forall|j: int| w.len() - k <= j < w.len() ==> is_punct(#[trigger] w@[j]),
        decreases w.len() - i - k,
    {
        k = k + 1;
    }
    let ghost t0 = w@.subrange(i as int, w.len() as int);
    proof {
        assert forall|j: int| t0.len() - k <= j < t0.len() implies is_punct(#[trigger] t0[j]) by {
            assert(t0[j] == w@[i + j]);
        }
        if k < t0.len() {
            assert(t0[t0.len() - 1 - k] == w@[w.len() - 1 - k]);
        }
        lemma_punct_suffix(t0, k as int);
    }
    let mut t: Vec<char> = Vec::new();
    let mut j: usize = i;
    while j < w.len() - k
        invariant
            i <= j <= w.len() - k,
            k <= w.len() - i,
            t@ == w@.subrange(i as int, j as int),
        decreases w.len() - k - j,
    {
        t.push(w[j]);
        j = j + 1;
        assert(t@ =~= w@.subrange(i as int, j as int));
    }
    assert(t@ =~= strip_punct(w@));
    t
}

// ---------------------------------------------------------------- timeframes

/// The normalised text of a chart timeframe token: one to three digits and a
/// unit letter; `M` is a month only for 1, 3, 6 and 12 (otherwise a million).
pub open spec fn timeframe_text(tok: Seq<char>) -> Option<Seq<char>> {
    if tok.len() < 2 || tok.len() - 1 > 3 || !all_digits(tok.drop_last()) {
        None
    } else {
        let n = digits_value(tok.drop_last());
        let u = tok.last();
        if u == 'm' {
            Some(decimal(n).push('m'))
        } else if u == 'h' || u == 'H' {
            Some(decimal(n).push('H'))
        } else if u == 'd' || u == 'D' {
            Some(decimal(n).push('D'))
        } else if u == 'w' || u == 'W' {
            Some(decimal(n).push('W'))
        } else if u == 'M' && (n == 1 || n == 3 || n == 6 || n == 12) {
            Some(decimal(n).push('M'))
        } else {
            None
        }
    }
}

/// Reads a chart timeframe token such as `15m`, `4H`, `1D`, `1W` or `12M`.
pub fn parse_timeframe(tok: &[char]) -> (r: Option<Fact>)
    ensures
        match timeframe_text(tok@) {
            Some(t) => r matches Some(f) && f@ == (FactModel::Timeframe { text: t }),
            None => r is None,
        },
        2 <= tok@.len() <= 4 && tok@.last() == 'M' && all_digits(tok@.drop_last()) ==> {
            let n = digits_value(tok@.drop_last());
            (r is Some <==> (n == 1 || n == 3 || n == 6 || n == 12)) && (r is Some ==> r->0@
                == (FactModel::Timeframe { text: decimal(n).push('M') }))
        },
{
    proof {
        if 2 <= tok@.len() <= 4 && tok@.last() == 'M' && all_digits(tok@.drop_last()) {
            assert(tok@.drop_last().push('M') == tok@);
            lemma_month_timeframes(tok@.drop_last(), Seq::empty());
        }
    }
    if tok.len() < 2 || tok.len() - 1 > 3 {
        return None;
    }
    let ds = &tok[0..tok.len() - 1];
    assert(ds@ == tok@.drop_last());
    let n = match parse_digits(ds) {
        Some(n) => n,
        None => {
            proof {
                if all_digits(ds@) {
                    crate::digits::lemma_digits_value_bound(ds@);
                    crate::digits::lemma_pow10_small();
                }
            }
            return None;
        },
    };
    let u = tok[tok.len() - 1];
    let unit = if u == 'm' {
        'm'
    } else if u == 'h' || u == 'H' {
        'H'
    } else if u == 'd' || u == 'D' {
        'D'
    } else if u == 'w' || u == 'W' {
        'W'
    } else if u == 'M' && (n == 1 || n == 3 || n == 6 || n == 12) {
        'M'
    } else {
        return None;
    };
    let mut text = String::new();
    crate::digits::push_decimal(&mut text, n);
    text.push(unit);
    Some(Fact::Timeframe { text })
}

// ---------------------------------------------------------------- labels

/// An ASCII capital letter.
pub open spec fn is_upper(c: char) -> bool {
    65 <= (c as u32) <= 90
}

/// An uppercase on-screen token of two or more characters: capitals and
/// digits only, at least one capital.
pub open spec fn is_label(tok: Seq<char>) -> bool {
    &&& tok.len() >= 2
    &&& forall|i: int| 0 <= i < tok.len() ==> is_upper(#[trigger] tok[i]) || is_digit(tok[i])
    &&& exists|i: int| 0 <= i < tok.len() && is_upper(#[trigger] tok[i])
}

/// `c` is an ASCII capital letter.
pub fn upper(c: char) -> (b: bool)
    ensures
        b == is_upper(c),
{
    let u = c as u32;
    65 <= u && u <= 90
}

/// Reads an uppercase label token.
pub fn parse_label(tok: &[char]) -> (r: Option<Fact>)
    ensures
        is_label(tok@) ==> (r matches Some(f) && f@ == (FactModel::Label { text: tok@ })),
        !is_label(tok@) ==> r is None,
{
    if tok.len() < 2 {
        return None;
    }
    let mut any_upper = false;
    let mut i: usize = 0;
    while i < tok.len()
        invariant
            i <= tok.len(),
            forall|j: int| 0 <= j < i ==> is_upper(#[trigger] tok@[j]) || is_digit(tok@[j]),
            any_upper <==> exists|j: int| 0 <= j < i && is_upper(#[trigger] tok@[j]),
        decreases tok.len() - i,
    {
        let c = tok[i];
        let up = upper(c);
        if !up && !char_is_digit(c) {
            return None;
        }
        if up {
            any_upper = true;
        }
        i = i + 1;
    }
    if !any_upper {
        return None;
    }
    let text = string_from_chars(tok);
    Some(Fact::Label { text })
}


// ---------------------------------------------------------------- numbers

/// Power of ten of a `k`/`M`/`B`/`T` multiplier letter; 0 for any other.
pub open spec fn multiplier_exp(c: char) -> nat {
    if c == 'k' || c == 'K' {
        3
    } else if c == 'M' {
        6
    } else if c == 'b' || c == 'B' {
        9
    } else if c == 't' || c == 'T' {
        12
    } else {
        0
    }
}

/// The power of ten a multiplier letter stands for.
pub fn multiplier_of(c: char) -> (e: u32)
    ensures
        e == multiplier_exp(c),
{
    if c == 'k' || c == 'K' {
        3
    } else if c == 'M' {
        6
    } else if c == 'b' || c == 'B' {
        9
    } else if c == 't' || c == 'T' {
        12
    } else {
        0
    }
}

/// The token starts with a minus sign (ASCII or Unicode).
pub open spec fn signed_negative(tok: Seq<char>) -> bool {
    tok.len() > 0 && (tok[0] == '-' || tok[0] == '\u{2212}')
}

/// How many leading characters are a sign and a dollar sign.
pub open spec fn number_start(tok: Seq<char>) -> int {
    let a = if tok.len() > 0 && (tok[0] == '-' || tok[0] == '\u{2212}' || tok[0] == '+') {
        1int
    } else {
        0int
    };
    if a < tok.len() && tok[a] == '$' {
        a + 1
    } else {
        a
    }
}

/// The token ends in a percent sign or a multiplier letter, which is not part
/// of the digits.
pub open spec fn has_suffix(s: Seq<char>) -> bool {
    s.len() > 0 && (s.last() == '%' || multiplier_exp(s.last()) > 0)
}

/// `s` without its commas.
pub open spec fn without_commas(s: Seq<char>) -> Seq<char>
    decreases s.len(),
{
    if s.len() == 0 {
        s
    } else if s.last() == ',' {
        without_commas(s.drop_last())
    } else {
        without_commas(s.drop_last()).push(s.last())
    }
}

/// Position of the first `.` in `s`; `s.len()` when there is none.
pub open spec fn point_at(s: Seq<char>) -> int
    decreases s.len(),
{
    if s.len() == 0 {
        0
    } else {
        let p = point_at(s.drop_last());
        if p < s.len() - 1 {
            p
        } else if s.last() == '.' {
            s.len() - 1
        } else {
            s.len() as int
        }
    }
}

/// Number of `0` characters ending `s`.
pub open spec fn trailing_zeros(s: Seq<char>) -> nat
    decreases s.len(),
{
    if s.len() > 0 && s.last() == '0' {
        1 + trailing_zeros(s.drop_last())
    } else {
        0
    }
}

/// The number a token states, if it is one: optional sign (`-`, `−` or `+`),
/// optional `$`, digits with optional commas, optional decimals, then an
/// optional `%` or `k`/`M`/`B`/`T`. Decimals give the precision `10^-decimals`;
/// an integer written with commas or a multiplier is stated to its last
/// non-zero digit; any other integer is exact.
pub open spec fn number_model(tok: Seq<char>) -> Option<FactModel> {
    let a = number_start(tok);
    let s = tok.subrange(a, tok.len() as int);
    let unit = if s.len() > 0 && s.last() == '%' {
        NumberUnit::Percent
    } else {
        NumberUnit::Plain
    };
    let scale: nat = if s.len() > 0 && s.last() != '%' {
        multiplier_exp(s.last())
    } else {
        0
    };
    let body = if has_suffix(s) {
        s.drop_last()
    } else {
        s
    };
    if body.len() == 0 || !is_digit(body[0]) {
        None
    } else {
        let c = without_commas(body);
        let p = point_at(c);
        let ip = c.subrange(0, p);
        let fp = if p < c.len() {
            c.subrange(p + 1, c.len() as int)
        } else {
            Seq::<char>::empty()
        };
        if ip.len() == 0 || !all_digits(ip) || (p < c.len() && (fp.len() == 0 || !all_digits(fp))) {
            None
        } else {
            let grouped = tok.contains(',') || scale > 0;
            let tz = trailing_zeros(ip);
            let precision = if p < c.len() {
                Precision::Digit { zeros: 0, decimals: fp.len() as usize }
            } else if grouped {
                Precision::Digit { zeros: if tz == ip.len() { 0 } else { tz as usize }, decimals: 0 }
            } else {
                Precision::Exact
            };
            Some(
                FactModel::Number {
                    negative: signed_negative(tok),
                    int_digits: ip,
                    frac_digits: fp,
                    scale,
                    unit,
                    precision,
                    raw: tok,
                },
            )
        }
    }
}

proof fn lemma_point_at(s: Seq<char>, p: int)
    requires
        0 <= p <= s.len(),
        p == s.len() || s[p] == '.',
        forall|j: int| 0 <= j < p ==> s[j] != '.',
    ensures
        point_at(s) == p,
    decreases s.len(),
{
    if s.len() > 0 {
        let t = s.drop_last();
        if p < s.len() - 1 {
            lemma_point_at(t, p);
        } else {
            assert forall|j: int| 0 <= j < t.len() implies t[j] != '.' by {
                assert(t[j] == s[j]);
            }
            lemma_point_at(t, t.len() as int);
        }
    }
}

pub(crate) proof fn lemma_trailing_zeros(s: Seq<char>, k: int)
    requires
        0 <= k <= s.len(),
        forall|j: int| s.len() - k <= j < s.len() ==> #[trigger] s[j] == '0',
        k == s.len() || s[s.len() - 1 - k] != '0',
    ensures
        trailing_zeros(s) == k,
    decreases k,
{
    if k > 0 {
        let t = s.drop_last();
        assert(s[s.len() - 1] == '0');
        assert forall|j: int| t.len() - (k - 1) <= j < t.len() implies #[trigger] t[j] == '0' by {
            assert(t[j] == s[j]);
        }
        if k - 1 < t.len() {
            assert(t[t.len() - 1 - (k - 1)] == s[s.len() - 1 - k]);
        }
        lemma_trailing_zeros(t, k - 1);
    } else if s.len() > 0 {
        assert(s.last() != '0');
    }
}

/// `c` holds only digits from `lo` up to `hi`.
fn digits_between(c: &[char], lo: usize, hi: usize) -> (b: bool)
    requires
        lo <= hi <= c.len(),
    ensures
        b == all_digits(c@.subrange(lo as int, hi as int)),
{
    let mut i = lo;
    while i < hi
        invariant
            lo <= i <= hi <= c.len(),
            all_digits(c@.subrange(lo as int, i as int)),
        decreases hi - i,
    {
        if !char_is_digit(c[i]) {
            assert(c@.subrange(lo as int, hi as int)[i - lo] == c@[i as int]);
            return false;
        }
        i = i + 1;
        assert forall|j: int| 0 <= j < i - lo implies is_digit(
            #[trigger] c@.subrange(lo as int, i as int)[j],
        ) by {
            assert(c@.subrange(lo as int, i as int)[j] == c@[lo + j]);
            if j < i - 1 - lo {
                assert(c@.subrange(lo as int, (i - 1) as int)[j] == c@[lo + j]);
            }
        }
    }
    true
}

/// `tok` holds a comma.
fn has_comma(tok: &[char]) -> (b: bool)
    ensures
        b == tok@.contains(','),
{
    let mut i: usize = 0;
    while i < tok.len()
        invariant
            i <= tok.len(),
            forall|j: int| 0 <= j < i ==> tok@[j] != ',',
        decreases tok.len() - i,
    {
        if tok[i] == ',' {
            assert(tok@[i as int] == ',');
            return true;
        }
        i = i + 1;
    }
    false
}

/// Reads a numeric token such as `42,000`, `$1.66T`, `-0.25%` or `44k`.
#[verifier::rlimit(40)]
pub fn parse_number(tok: &[char]) -> (r: Option<Fact>)
    ensures
        match number_model(tok@) {
            Some(m) => r matches Some(f) && f@ == m,
            None => r is None,
        },
{
    let mut a: usize = 0;
    let mut negative = false;
    if tok.len() > 0 && (tok[0] == '-' || tok[0] == '\u{2212}') {
        a = 1;
        negative = true;
    } else if tok.len() > 0 && tok[0] == '+' {
        a = 1;
    }
    if a < tok.len() && tok[a] == '$' {
        a = a + 1;
    }
    assert(a == number_start(tok@));
    let ghost s = tok@.subrange(a as int, tok.len() as int);
    let mut e: usize = tok.len();
    let mut unit = NumberUnit::Plain;
    let mut scale: u32 = 0;
    if a < tok.len() {
        let last = tok[tok.len() - 1];
        assert(s.last() == last);
        if last == '%' {
            unit = NumberUnit::Percent;
            e = tok.len() - 1;
        } else {
            scale = multiplier_of(last);
            if scale > 0 {
                e = tok.len() - 1;
            }
        }
    }
    let ghost body = tok@.subrange(a as int, e as int);
    assert(body == (if has_suffix(s) {
        s.drop_last()
    } else {
        s
    }));
    if a >= e || !char_is_digit(tok[a]) {
        return None;
    }
    // digits without their group separators
    let mut c: Vec<char> = Vec::new();
    let mut i: usize = a;
    while i < e
        invariant
            a <= i <= e <= tok.len(),
            c@ == without_commas(tok@.subrange(a as int, i as int)),
        decreases e - i,
    {
        let ch = tok[i];
        assert(tok@.subrange(a as int, i + 1).drop_last() == tok@.subrange(a as int, i as int));
        if ch != ',' {
            c.push(ch);
        }
        i = i + 1;
    }
    assert(c@ == without_commas(body));
    let mut p: usize = 0;
    while p < c.len() && c[p] != '.'
        invariant
            p <= c.len(),
            forall|j: int| 0 <= j < p ==> c@[j] != '.',
        decreases c.len() - p,
    {
        p = p + 1;
    }
    proof {
        lemma_point_at(c@, p as int);
    }
    if p == 0 || !digits_between(c.as_slice(), 0, p) {
        return None;
    }
    let has_point = p < c.len();
    if has_point && (p + 1 == c.len() || !digits_between(c.as_slice(), p + 1, c.len())) {
        return None;
    }
    let ghost ip = c@.subrange(0, p as int);
    let mut int_digits: Vec<char> = Vec::new();
    let mut j: usize = 0;
    while j < p
        invariant
            j <= p <= c.len(),
            int_digits@ == c@.subrange(0, j as int),
        decreases p - j,
    {
        int_digits.push(c[j]);
        j = j + 1;
        assert(int_digits@ =~= c@.subrange(0, j as int));
    }
    let mut frac_digits: Vec<char> = Vec::new();
    if has_point {
        let mut j: usize = p + 1;
        while j < c.len()
            invariant
                p + 1 <= j <= c.len(),
                frac_digits@ == c@.subrange(p + 1, j as int),
            decreases c.len() - j,
        {
            frac_digits.push(c[j]);
            j = j + 1;
            assert(frac_digits@ =~= c@.subrange(p + 1, j as int));
        }
    }
    assert(frac_digits@ == (if p < c.len() {
        c@.subrange(p + 1, c.len() as int)
    } else {
        Seq::<char>::empty()
    }));
    let grouped = has_comma(tok) || scale > 0;
    let precision = if has_point {
        Precision::Digit { zeros: 0, decimals: frac_digits.len() }
    } else if grouped {
        let mut k: usize = 0;
        while k < p && int_digits[p - 1 - k] == '0'
            invariant
                k <= p,
                int_digits@ == ip,
                ip.len() == p,
                forall|q: int| p - k <= q < p ==> #[trigger] ip[q] == '0',
            decreases p - k,
        {
            k = k + 1;
        }
        proof {
            lemma_trailing_zeros(ip, k as int);
        }
        Precision::Digit { zeros: if k == p { 0 } else { k }, decimals: 0 }
    } else {
        Precision::Exact
    };
    let raw = string_from_chars(tok);
    let int_s = string_from_chars(int_digits.as_slice());
    let frac_s = string_from_chars(frac_digits.as_slice());
    Some(
        Fact::Number {
            negative,
            int_digits: int_s,
            frac_digits: frac_s,
            scale,
            unit,
            precision,
            raw,
        },
    )
}


// ---------------------------------------------------------------- keys

/// A number's digit fields hold digits only, as every parsed number's do.
pub open spec fn digits_well_formed(f: FactModel) -> bool {
    match f {
        FactModel::Number { int_digits, frac_digits, .. } => all_digits(int_digits) && all_digits(
            frac_digits,
        ),
        _ => true,
    }
}

/// The digits of a magnitude with its decimal point moved right by `scale`
/// places: integer digits and fraction digits.
pub open spec fn shifted(ip: Seq<char>, fp: Seq<char>, scale: nat) -> (Seq<char>, Seq<char>) {
    if fp.len() <= scale {
        (ip + fp + zeros((scale - fp.len()) as nat), Seq::<char>::empty())
    } else {
        (ip + fp.subrange(0, scale as int), fp.subrange(scale as int, fp.len() as int))
    }
}

/// A digit string plus one; one digit longer when every digit was `9`.
pub open spec fn incremented(s: Seq<char>) -> Seq<char>
    decreases s.len(),
{
    if s.len() == 0 {
        seq!['1']
    } else if digit_val(s.last()) == 9 {
        incremented(s.drop_last()).push('0')
    } else {
        s.drop_last().push(digit_char(digit_val(s.last()) + 1))
    }
}

/// Integer and fraction digits rounded to ten decimals, half up.
pub open spec fn rounded(ip: Seq<char>, fp: Seq<char>) -> (Seq<char>, Seq<char>) {
    if fp.len() <= 10 {
        (ip, fp)
    } else if digit_val(fp[10]) >= 5 {
        let n = incremented(ip + fp.subrange(0, 10));
        (n.subrange(0, n.len() - 10), n.subrange(n.len() - 10, n.len() as int))
    } else {
        (ip, fp.subrange(0, 10))
    }
}

/// Number of `c` characters starting `s`.
pub open spec fn leading_run(s: Seq<char>, c: char) -> nat
    decreases s.len(),
{
    if s.len() > 0 && s[0] == c {
        1 + leading_run(s.drop_first(), c)
    } else {
        0
    }
}

/// Integer digits without their leading zeros (`0` when none is left) and the
/// fraction without its trailing zeros, joined by a point when a fraction is
/// left.
pub open spec fn plain_decimal(ip: Seq<char>, fp: Seq<char>) -> Seq<char> {
    let i0 = ip.subrange(leading_run(ip, '0') as int, ip.len() as int);
    let i = if i0.len() == 0 {
        seq!['0']
    } else {
        i0
    };
    let f = fp.subrange(0, fp.len() - trailing_zeros(fp));
    if f.len() == 0 {
        i
    } else {
        i + seq!['.'] + f
    }
}

/// The shortest plain decimal of a number's value rounded to ten decimals:
/// `2.514T` is `2514000000000`, `0.0001671` stays, `-0.25` is `-0.25`, and a
/// value that rounds to zero is `0` whatever its sign.
pub open spec fn canonical_number(negative: bool, ip: Seq<char>, fp: Seq<char>, scale: nat) -> Seq<
    char,
> {
    let s = shifted(ip, fp, scale);
    let r = rounded(s.0, s.1);
    let m = plain_decimal(r.0, r.1);
    if negative && m != seq!['0'] {
        seq!['-'] + m
    } else {
        m
    }
}

/// Deduplication key of a fact: numbers key on their canonical value and unit,
/// so `42k` and `42,000` are one fact; labels and timeframes on their text.
pub open spec fn key_of(f: FactModel) -> Seq<char> {
    match f {
        FactModel::Number { negative, int_digits, frac_digits, scale, unit, .. } => seq!['n', ':']
            + canonical_number(negative, int_digits, frac_digits, scale) + if unit
            == NumberUnit::Percent {
            seq!['%']
        } else {
            Seq::<char>::empty()
        },
        FactModel::Label { text } => seq!['l', ':'] + text,
        FactModel::Timeframe { text } => seq!['t', ':'] + text,
    }
}

/// The characters of `s` from `lo` up to `hi`.
fn sub_chars(s: &[char], lo: usize, hi: usize) -> (v: Vec<char>)
    requires
        lo <= hi <= s.len(),
    ensures
        v@ == s@.subrange(lo as int, hi as int),
{
    let mut v: Vec<char> = Vec::new();
    let mut i = lo;
    while i < hi
        invariant
            lo <= i <= hi <= s.len(),
            v@ == s@.subrange(lo as int, i as int),
        decreases hi - i,
    {
        v.push(s[i]);
        i = i + 1;
        assert(v@ =~= s@.subrange(lo as int, i as int));
    }
    v
}

/// Appends `n` zero characters.
fn push_zeros(v: &mut Vec<char>, n: usize)
    ensures
        final(v)@ == old(v)@ + zeros(n as nat),
{
    let mut k: usize = 0;
    while k < n
        invariant
            k <= n,
            v@ == old(v)@ + zeros(k as nat),
        decreases n - k,
    {
        v.push('0');
        k = k + 1;
        assert(v@ =~= old(v)@ + zeros(k as nat));
    }
}

fn shift_point(ip: &[char], fp: &[char], scale: u32) -> (r: (Vec<char>, Vec<char>))
    ensures
        (r.0@, r.1@) == shifted(ip@, fp@, scale as nat),
{
    let mut i = sub_chars(ip, 0, ip.len());
    assert(ip@.subrange(0, ip.len() as int) == ip@);
    if fp.len() <= scale as usize {
        let whole = sub_chars(fp, 0, fp.len());
        assert(fp@.subrange(0, fp.len() as int) == fp@);
        let mut k: usize = 0;
        while k < whole.len()
            invariant
                k <= whole.len(),
                whole@ == fp@,
                i@ == ip@ + fp@.subrange(0, k as int),
            decreases whole.len() - k,
        {
            i.push(whole[k]);
            k = k + 1;
            assert(i@ =~= ip@ + fp@.subrange(0, k as int));
        }
        push_zeros(&mut i, scale as usize - fp.len());
        assert(i@ =~= ip@ + fp@ + zeros((scale - fp.len()) as nat));
        (i, Vec::new())
    } else {
        let sc = scale as usize;
        let head = sub_chars(fp, 0, sc);
        let mut k: usize = 0;
        while k < head.len()
            invariant
                k <= head.len() == sc,
                sc < fp.len(),
                head@ == fp@.subrange(0, sc as int),
                i@ == ip@ + fp@.subrange(0, k as int),
            decreases head.len() - k,
        {
            i.push(head[k]);
            k = k + 1;
            assert(i@ =~= ip@ + fp@.subrange(0, k as int));
        }
        let f = sub_chars(fp, sc, fp.len());
        (i, f)
    }
}

/// Adds one to a digit string.
fn increment_digits(s: &[char]) -> (r: Vec<char>)
    requires
        all_digits(s@),
    ensures
        r@ == incremented(s@),
    decreases s.len(),
{
    if s.len() == 0 {
        let mut r = Vec::new();
        r.push('1');
        assert(r@ =~= seq!['1']);
        return r;
    }
    let n = s.len();
    let last = s[n - 1];
    let head = &s[0..n - 1];
    assert(head@ == s@.drop_last());
    assert(is_digit(s@[n - 1]));
    let d = digit_value_of(last);
    if d == 9 {
        assert(all_digits(head@)) by {
            assert forall|i: int| 0 <= i < head@.len() implies is_digit(#[trigger] head@[i]) by {
                assert(head@[i] == s@[i]);
            }
        }
        let mut r = increment_digits(head);
        r.push('0');
        r
    } else {
        let mut r = sub_chars(s, 0, n - 1);
        r.push(digit_to_char(d + 1));
        r
    }
}

fn round_ten(ip: Vec<char>, fp: Vec<char>) -> (r: (Vec<char>, Vec<char>))
    requires
        all_digits(ip@),
        all_digits(fp@),
    ensures
        (r.0@, r.1@) == rounded(ip@, fp@),
{
    if fp.len() <= 10 {
        return (ip, fp);
    }
    assert(is_digit(fp@[10]));
    let up = digit_value_of(fp[10]) >= 5;
    if !up {
        let f = sub_chars(fp.as_slice(), 0, 10);
        return (ip, f);
    }
    let mut joined = ip;
    let mut k: usize = 0;
    while k < 10
        invariant
            k <= 10 < fp.len(),
            joined@ == ip@ + fp@.subrange(0, k as int),
        decreases 10 - k,
    {
        joined.push(fp[k]);
        k = k + 1;
        assert(joined@ =~= ip@ + fp@.subrange(0, k as int));
    }
    assert(all_digits(joined@)) by {
        assert forall|i: int| 0 <= i < joined@.len() implies is_digit(#[trigger] joined@[i]) by {
            if i < ip@.len() {
                assert(joined@[i] == ip@[i]);
            } else {
                assert(joined@[i] == fp@[i - ip@.len()]);
            }
        }
    }
    let n = increment_digits(joined.as_slice());
    proof {
        lemma_incremented_len(joined@);
    }
    let cut = n.len() - 10;
    let i = sub_chars(n.as_slice(), 0, cut);
    let f = sub_chars(n.as_slice(), cut, n.len());
    (i, f)
}

proof fn lemma_incremented_len(s: Seq<char>)
    ensures
        incremented(s).len() >= s.len(),
    decreases s.len(),
{
    if s.len() > 0 {
        lemma_incremented_len(s.drop_last());
    }
}

proof fn lemma_leading_run(s: Seq<char>, c: char, i: int)
    requires
        0 <= i <= s.len(),
        forall|j: int| 0 <= j < i ==> #[trigger] s[j] == c,
        i == s.len() || s[i] != c,
    ensures
        leading_run(s, c) == i,
    decreases i,
{
    if i > 0 {
        let t = s.drop_first();
        assert forall|j: int| 0 <= j < i - 1 implies #[trigger] t[j] == c by {
            assert(t[j] == s[j + 1]);
        }
        if i < s.len() {
            assert(t[i - 1] == s[i]);
        }
        lemma_leading_run(t, c, i - 1);
    }
}

fn plain_decimal_chars(ip: &[char], fp: &[char]) -> (r: Vec<char>)
    ensures
        r@ == plain_decimal(ip@, fp@),
{
    let mut a: usize = 0;
    while a < ip.len() && ip[a] == '0'
        invariant
            a <= ip.len(),
            forall|j: int| 0 <= j < a ==> #[trigger] ip@[j] == '0',
        decreases ip.len() - a,
    {
        a = a + 1;
    }
    proof {
        lemma_leading_run(ip@, '0', a as int);
    }
    let mut out = if a == ip.len() {
        let mut z = Vec::new();
        z.push('0');
        assert(z@ =~= seq!['0']);
        z
    } else {
        sub_chars(ip, a, ip.len())
    };
    let mut t: usize = 0;
    while t < fp.len() && fp[fp.len() - 1 - t] == '0'
        invariant
            t <= fp.len(),
            forall|q: int| fp.len() - t <= q < fp.len() ==> #[trigger] fp@[q] == '0',
        decreases fp.len() - t,
    {
        t = t + 1;
    }
    proof {
        lemma_trailing_zeros(fp@, t as int);
    }
    if t < fp.len() {
        let ghost head = out@;
        out.push('.');
        let mut k: usize = 0;
        while k < fp.len() - t
            invariant
                k <= fp.len() - t,
                t <= fp.len(),
                out@ == head + seq!['.'] + fp@.subrange(0, k as int),
            decreases fp.len() - t - k,
        {
            out.push(fp[k]);
            k = k + 1;
            assert(out@ =~= head + seq!['.'] + fp@.subrange(0, k as int));
        }
    }
    out
}

/// The canonical decimal of a number, see `canonical_number`.
#[verifier::rlimit(40)]
pub fn canonical_chars(negative: bool, ip: &[char], fp: &[char], scale: u32) -> (r: Vec<char>)
    requires
        all_digits(ip@),
        all_digits(fp@),
    ensures
        r@ == canonical_number(negative, ip@, fp@, scale as nat),
{
    let (i, f) = shift_point(ip, fp, scale);
    proof {
        let s = shifted(ip@, fp@, scale as nat);
        assert forall|q: int| 0 <= q < i@.len() implies is_digit(#[trigger] i@[q]) by {
            if fp@.len() <= scale {
                let g = ip@ + fp@;
                if q < ip@.len() {
                    assert(i@[q] == ip@[q]);
                } else if q < g.len() {
                    assert(i@[q] == fp@[q - ip@.len()]);
                } else {
                    assert(i@[q] == '0');
                }
            } else {
                if q < ip@.len() {
                    assert(i@[q] == ip@[q]);
                } else {
                    assert(i@[q] == fp@[q - ip@.len()]);
                }
            }
        }
        assert forall|q: int| 0 <= q < f@.len() implies is_digit(#[trigger] f@[q]) by {
            assert(f@[q] == fp@[q + scale]);
        }
    }
    let (i2, f2) = round_ten(i, f);
    let m = plain_decimal_chars(i2.as_slice(), f2.as_slice());
    let is_zero = m.len() == 1 && m[0] == '0';
    assert(is_zero == (m@ == seq!['0'])) by {
        if m@ == seq!['0'] {
            assert(m@[0] == '0');
        }
        if is_zero {
            assert(m@ =~= seq!['0']);
        }
    }
    if negative && !is_zero {
        let mut r = Vec::new();
        r.push('-');
        let mut k: usize = 0;
        while k < m.len()
            invariant
                k <= m.len(),
                r@ == seq!['-'] + m@.subrange(0, k as int),
            decreases m.len() - k,
        {
            r.push(m[k]);
            k = k + 1;
            assert(r@ =~= seq!['-'] + m@.subrange(0, k as int));
        }
        assert(m@.subrange(0, m.len() as int) == m@);
        r
    } else {
        m
    }
}

impl Fact {
    /// Deduplication key: `n:` and the canonical value (with `%` for a
    /// percentage), `l:` and a label, `t:` and a timeframe.
    pub fn key(&self) -> (k: String)
        requires
            digits_well_formed(self@),
        ensures
            k@ == key_of(self@),
    {
        let mut k = String::new();
        match self {
            Fact::Number { negative, int_digits, frac_digits, scale, unit, .. } => {
                k.push('n');
                k.push(':');
                let ic = str_chars(int_digits.as_str());
                let fc = str_chars(frac_digits.as_str());
                let c = canonical_chars(*negative, ic.as_slice(), fc.as_slice(), *scale);
                crate::text::push_chars(&mut k, c.as_slice());
                if *unit == NumberUnit::Percent {
                    k.push('%');
                }
            },
            Fact::Label { text } => {
                k.push('l');
                k.push(':');
                crate::text::push_str_chars(&mut k, text.as_str());
            },
            Fact::Timeframe { text } => {
                k.push('t');
                k.push(':');
                crate::text::push_str_chars(&mut k, text.as_str());
            },
        }
        assert(k@ =~= key_of(self@));
        k
    }
}


// ---------------------------------------------------------------- extraction

/// A chart-header value: `O`, `H`, `L` or `C` directly before a number
/// (`O2.514T`), read as the number.
pub open spec fn ohlc_model(tok: Seq<char>) -> Option<FactModel> {
    if tok.len() >= 2 && (tok[0] == 'O' || tok[0] == 'H' || tok[0] == 'L' || tok[0] == 'C')
        && is_digit(tok[1]) {
        number_model(tok.drop_first())
    } else {
        None
    }
}

/// The fact a token states, tried in order as a timeframe, a number, a
/// chart-header value and a label; a label on the stoplist is no fact.
pub open spec fn classify(tok: Seq<char>, stop: Seq<Seq<char>>) -> Option<FactModel> {
    let f = match timeframe_text(tok) {
        Some(t) => Some(FactModel::Timeframe { text: t }),
        None => if number_model(tok) is Some {
            number_model(tok)
        } else if ohlc_model(tok) is Some {
            ohlc_model(tok)
        } else if is_label(tok) {
            Some(FactModel::Label { text: tok })
        } else {
            None
        },
    };
    match f {
        Some(FactModel::Label { text }) => if stop.contains(text) {
            None
        } else {
            f
        },
        _ => f,
    }
}

/// A count of one to three digits followed by `M` is a month timeframe
/// exactly for 1, 3, 6 and 12 months (`1M`, `3M`, `6M`, `12M`), and the fact
/// it states is that many months; any other count with `M` is no timeframe.
pub proof fn lemma_month_timeframes(ds: Seq<char>, stop: Seq<Seq<char>>)
    requires
        1 <= ds.len() <= 3,
        all_digits(ds),
    ensures
        ({
            let n = digits_value(ds);
            let month = n == 1 || n == 3 || n == 6 || n == 12;
            &&& (timeframe_text(ds.push('M')) is Some <==> month)
            &&& month ==> classify(ds.push('M'), stop) == Some(
                FactModel::Timeframe { text: decimal(n).push('M') },
            )
        }),
{
    let tok = ds.push('M');
    assert(tok.drop_last() == ds);
    assert(tok.last() == 'M');
}

/// `p` is the word `frame` in any ASCII case, once leading `*` are dropped:
/// the model numbering its frames (`**Frame 3`), whose ordinal is no fact.
pub open spec fn is_frame_word(p: Seq<char>) -> bool {
    let w = p.subrange(leading_run(p, '*') as int, p.len() as int);
    &&& w.len() == 5
    &&& (w[0] == 'f' || w[0] == 'F')
    &&& (w[1] == 'r' || w[1] == 'R')
    &&& (w[2] == 'a' || w[2] == 'A')
    &&& (w[3] == 'm' || w[3] == 'M')
    &&& (w[4] == 'e' || w[4] == 'E')
}

/// Facts found so far and the last non-empty token.
pub struct ScanState {
    pub facts: Seq<FactModel>,
    pub prev: Seq<char>,
}

/// Some fact in `facts` has the key `k`.
pub open spec fn has_key(facts: Seq<FactModel>, k: Seq<char>) -> bool {
    exists|i: int| 0 <= i < facts.len() && key_of(#[trigger] facts[i]) == k
}

/// One word of the scan: trimmed of punctuation, skipped when empty or an
/// ordinal after `frame`, otherwise classified and kept when its key is new.
pub open spec fn scan_word(st: ScanState, word: Seq<char>, stop: Seq<Seq<char>>) -> ScanState {
    let tok = strip_punct(word);
    if tok.len() == 0 {
        st
    } else if is_frame_word(st.prev) && all_digits(tok) {
        ScanState { facts: st.facts, prev: tok }
    } else {
        match classify(tok, stop) {
            Some(f) => if has_key(st.facts, key_of(f)) {
                ScanState { facts: st.facts, prev: tok }
            } else {
                ScanState { facts: st.facts.push(f), prev: tok }
            },
            None => ScanState { facts: st.facts, prev: tok },
        }
    }
}

/// The scan over a list of words.
pub open spec fn scan_words(ws: Seq<Seq<char>>, stop: Seq<Seq<char>>) -> ScanState
    decreases ws.len(),
{
    if ws.len() == 0 {
        ScanState { facts: Seq::empty(), prev: Seq::empty() }
    } else {
        scan_word(scan_words(ws.drop_last(), stop), ws.last(), stop)
    }
}

/// The checkable facts of `text`, in order of first appearance, one per key.
pub open spec fn facts_in(text: Seq<char>, stop: Seq<Seq<char>>) -> Seq<FactModel> {
    scan_words(words(text), stop).facts
}

/// No two facts share a key.
pub open spec fn keys_distinct(facts: Seq<FactModel>) -> bool {
    forall|i: int, j: int|
        0 <= i < j < facts.len() ==> key_of(#[trigger] facts[i]) != key_of(#[trigger] facts[j])
}

/// The scan keeps one fact per key: whatever the text, no two facts it
/// extracts share a key.
pub proof fn lemma_one_fact_per_key(ws: Seq<Seq<char>>, stop: Seq<Seq<char>>)
    ensures
        keys_distinct(scan_words(ws, stop).facts),
    decreases ws.len(),
{
    if ws.len() > 0 {
        let st = scan_words(ws.drop_last(), stop);
        lemma_one_fact_per_key(ws.drop_last(), stop);
        let tok = strip_punct(ws.last());
        if tok.len() > 0 && !(is_frame_word(st.prev) && all_digits(tok)) {
            if let Some(f) = classify(tok, stop) {
                if !has_key(st.facts, key_of(f)) {
                    let n = st.facts.push(f);
                    assert forall|i: int, j: int| 0 <= i < j < n.len() implies key_of(#[trigger] n[i])
                        != key_of(#[trigger] n[j]) by {
                        if j == n.len() - 1 {
                            assert(n[i] == st.facts[i]);
                        } else {
                            assert(n[i] == st.facts[i] && n[j] == st.facts[j]);
                        }
                    }
                }
            }
        }
    }
}

/// Every number in `facts` holds digits only.
pub open spec fn all_well_formed(facts: Seq<FactModel>) -> bool {
    forall|i: int| 0 <= i < facts.len() ==> digits_well_formed(#[trigger] facts[i])
}

proof fn lemma_number_well_formed(tok: Seq<char>)
    ensures
        number_model(tok) matches Some(m) ==> digits_well_formed(m),
{
}

/// `w` is on the stoplist.
fn on_list(w: &[char], stop: &[String]) -> (b: bool)
    ensures
        b == crate::text::string_views(stop@).contains(w@),
{
    let ghost sv = crate::text::string_views(stop@);
    let mut i: usize = 0;
    while i < stop.len()
        invariant
            i <= stop.len(),
            sv == crate::text::string_views(stop@),
            forall|j: int| 0 <= j < i ==> sv[j] != w@,
        decreases stop.len() - i,
    {
        let cs = str_chars(stop[i].as_str());
        if chars_eq(cs.as_slice(), w) {
            assert(sv[i as int] == w@);
            return true;
        }
        i = i + 1;
    }
    false
}

/// The fact a token states, see `classify`.
pub fn classify_token(tok: &[char], stop: &[String]) -> (r: Option<Fact>)
    ensures
        match classify(tok@, crate::text::string_views(stop@)) {
            Some(m) => r matches Some(f) && f@ == m && digits_well_formed(m),
            None => r is None,
        },
{
    proof {
        lemma_number_well_formed(tok@);
        lemma_number_well_formed(tok@.drop_first());
    }
    if let Some(f) = parse_timeframe(tok) {
        return Some(f);
    }
    if let Some(f) = parse_number(tok) {
        return Some(f);
    }
    if tok.len() >= 2 && (tok[0] == 'O' || tok[0] == 'H' || tok[0] == 'L' || tok[0] == 'C')
        && char_is_digit(tok[1]) {
        let rest = &tok[1..tok.len()];
        assert(rest@ == tok@.drop_first());
        if let Some(f) = parse_number(rest) {
            return Some(f);
        }
    }
    if let Some(f) = parse_label(tok) {
        if on_list(tok, stop) {
            return None;
        }
        return Some(f);
    }
    None
}

fn frame_word(p: &[char]) -> (b: bool)
    ensures
        b == is_frame_word(p@),
{
    let mut a: usize = 0;
    while a < p.len() && p[a] == '*'
        invariant
            a <= p.len(),
            forall|j: int| 0 <= j < a ==> #[trigger] p@[j] == '*',
        decreases p.len() - a,
    {
        a = a + 1;
    }
    proof {
        lemma_leading_run(p@, '*', a as int);
    }
    let ghost w = p@.subrange(a as int, p.len() as int);
    if p.len() - a != 5 {
        return false;
    }
    assert(w[0] == p@[a as int] && w[1] == p@[a + 1] && w[2] == p@[a + 2] && w[3] == p@[a + 3]
        && w[4] == p@[a + 4]);
    (p[a] == 'f' || p[a] == 'F') && (p[a + 1] == 'r' || p[a + 1] == 'R') && (p[a + 2] == 'a'
        || p[a + 2] == 'A') && (p[a + 3] == 'm' || p[a + 3] == 'M') && (p[a + 4] == 'e' || p[a
        + 4] == 'E')
}

fn digits_only(t: &[char]) -> (b: bool)
    ensures
        b == all_digits(t@),
{
    let mut i: usize = 0;
    while i < t.len()
        invariant
            i <= t.len(),
            forall|j: int| 0 <= j < i ==> is_digit(#[trigger] t@[j]),
        decreases t.len() - i,
    {
        if !char_is_digit(t[i]) {
            return false;
        }
        i = i + 1;
    }
    true
}

/// The scan's state in executable form: facts, their keys, the last token.
pub open spec fn scan_matches(
    st: ScanState,
    out: Seq<Fact>,
    keys: Seq<Vec<char>>,
    prev: Seq<char>,
) -> bool {
    &&& fact_models(out) == st.facts
    &&& prev == st.prev
    &&& keys.len() == out.len()
    &&& forall|i: int| 0 <= i < keys.len() ==> (#[trigger] keys[i])@ == key_of(out[i]@)
    &&& all_well_formed(st.facts)
}

/// Some key in `keys` is `k`.
fn key_seen(keys: &Vec<Vec<char>>, k: &[char]) -> (b: bool)
    ensures
        b == exists|i: int| 0 <= i < keys@.len() && (#[trigger] keys@[i])@ == k@,
{
    let mut i: usize = 0;
    while i < keys.len()
        invariant
            i <= keys.len(),
            forall|j: int| 0 <= j < i ==> (#[trigger] keys@[j])@ != k@,
        decreases keys.len() - i,
    {
        if chars_eq(keys[i].as_slice(), k) {
            assert(keys@[i as int]@ == k@);
            return true;
        }
        i = i + 1;
    }
    false
}

/// Scans one word.
#[verifier::rlimit(40)]
fn scan_step(
    word: &[char],
    stop: &[String],
    out: &mut Vec<Fact>,
    keys: &mut Vec<Vec<char>>,
    prev: &mut Vec<char>,
    Ghost(st): Ghost<ScanState>,
)
    requires
        scan_matches(st, old(out)@, old(keys)@, old(prev)@),
    ensures
        scan_matches(
            scan_word(st, word@, crate::text::string_views(stop@)),
            final(out)@,
            final(keys)@,
            final(prev)@,
        ),
{
    let ghost sv = crate::text::string_views(stop@);
    let tok = strip_punct_chars(word);
    if tok.len() == 0 {
        return;
    }
    if frame_word(prev.as_slice()) && digits_only(tok.as_slice()) {
        *prev = tok;
        return;
    }
    let r = classify_token(tok.as_slice(), stop);
    match r {
        Some(f) => {
            let k = f.key();
            let ks = str_chars(k.as_str());
            let seen = key_seen(keys, ks.as_slice());
            assert(seen == has_key(st.facts, key_of(f@))) by {
                if seen {
                    let i = choose|i: int| 0 <= i < keys@.len() && (#[trigger] keys@[i])@ == ks@;
                    assert(st.facts[i] == out@[i]@);
                }
                if has_key(st.facts, key_of(f@)) {
                    let i = choose|i: int|
                        0 <= i < st.facts.len() && key_of(#[trigger] st.facts[i]) == key_of(f@);
                    assert(st.facts[i] == out@[i]@);
                    assert(keys@[i]@ == ks@);
                }
            }
            if !seen {
                out.push(f);
                keys.push(ks);
                assert(fact_models(out@) =~= st.facts.push(f@));
                assert forall|i: int| 0 <= i < keys@.len() implies (#[trigger] keys@[i])@
                    == key_of(out@[i]@) by {
                    if i < keys@.len() - 1 {
                        assert(keys@[i] == old(keys)@[i]);
                        assert(out@[i] == old(out)@[i]);
                    }
                }
                assert forall|i: int| 0 <= i < st.facts.push(f@).len() implies digits_well_formed(
                    #[trigger] st.facts.push(f@)[i],
                ) by {
                    if i < st.facts.len() {
                        assert(st.facts.push(f@)[i] == st.facts[i]);
                    }
                }
            }
            *prev = tok;
        },
        None => {
            *prev = tok;
        },
    }
}

/// Extracts the checkable facts of `text`, ignoring as labels the uppercase
/// prose words on `label_stoplist`.
///
/// Supported forms: `42,000` `$42,000` `42k` `1.66T` `-0.25%` `+10.95%`,
/// chart-header values `O2.514T` `C2.594T`; timeframes `15m` `4H` `1D` `1W`
/// `1M`; uppercase labels of two or more characters.
#[verifier::rlimit(40)]
pub fn extract_facts_with(text: &str, label_stoplist: &[String]) -> (r: Vec<Fact>)
    ensures
        fact_models(r@) == facts_in(text@, crate::text::string_views(label_stoplist@)),
        all_well_formed(fact_models(r@)),
        keys_distinct(fact_models(r@)),
{
    let ghost sv = crate::text::string_views(label_stoplist@);
    let cs = str_chars(text);
    let mut out: Vec<Fact> = Vec::new();
    let mut keys: Vec<Vec<char>> = Vec::new();
    let mut prev: Vec<char> = Vec::new();
    let mut cur: Vec<char> = Vec::new();
    let ghost mut done: Seq<Seq<char>> = Seq::empty();
    let mut i: usize = 0;
    assert(cs@.take(0) =~= Seq::<char>::empty());
    assert(fact_models(out@) =~= Seq::<FactModel>::empty());
    assert(prev@ =~= Seq::<char>::empty());
    while i < cs.len()
        invariant
            i <= cs.len(),
            cs@ == text@,
            words(cs@.take(i as int)) == done.push(cur@),
            scan_matches(scan_words(done, sv), out@, keys@, prev@),
            sv == crate::text::string_views(label_stoplist@),
        decreases cs.len() - i,
    {
        let c = cs[i];
        let ghost before = cs@.take(i as int);
        assert(cs@.take(i + 1).drop_last() == before);
        assert(cs@.take(i + 1).last() == c);
        proof {
            lemma_words_nonempty(before);
        }
        if is_whitespace(c) || c == '/' || c == '|' {
            scan_step(cur.as_slice(), label_stoplist, &mut out, &mut keys, &mut prev, Ghost(scan_words(done, sv)));
            proof {
                assert(done.push(cur@).drop_last() == done);
                done = done.push(cur@);
            }
            cur = Vec::new();
            assert(words(cs@.take(i + 1)) =~= done.push(cur@));
        } else {
            cur.push(c);
            assert(words(cs@.take(i + 1)) =~= done.push(cur@));
        }
        i = i + 1;
    }
    assert(cs@.take(cs.len() as int) == cs@);
    scan_step(cur.as_slice(), label_stoplist, &mut out, &mut keys, &mut prev, Ghost(scan_words(done, sv)));
    assert(done.push(cur@).drop_last() == done);
    proof {
        lemma_one_fact_per_key(words(text@), sv);
    }
    out
}

/// `extract_facts_with` without a stoplist.
pub fn extract_facts(text: &str) -> (r: Vec<Fact>)
    ensures
        fact_models(r@) == facts_in(text@, Seq::empty()),
        all_well_formed(fact_models(r@)),
        keys_distinct(fact_models(r@)),
{
    let none: Vec<String> = Vec::new();
    let r = extract_facts_with(text, none.as_slice());
    assert(crate::text::string_views(none@) =~= Seq::<Seq<char>>::empty());
    r
}


// ---------------------------------------------------------------- signature

/// Version of the scoring rules. Raised whenever a change would move a figure
/// already recorded, so old and new scores never compare silently.
pub const FIDELITY_METRIC_VERSION: u32 = 1;

/// 64-bit FNV-1a of `bytes`, continuing from the state `h`.
pub open spec fn fnv1a_from(h: u64, bytes: Seq<u8>) -> u64
    decreases bytes.len(),
{
    if bytes.len() == 0 {
        h
    } else {
        fnv1a_from((h ^ (bytes[0] as u64)).wrapping_mul(0x100000001b3u64), bytes.drop_first())
    }
}

/// FNV-1a of the UTF-8 bytes of a word.
pub open spec fn word_hash(w: Seq<char>) -> u64 {
    fnv1a_from(0xcbf29ce484222325u64, vstd::utf8::encode_utf8(w))
}

/// The exclusive or of the hashes of the words: no order of the words can
/// change it.
pub open spec fn stoplist_hash(ws: Seq<Seq<char>>) -> u64
    decreases ws.len(),
{
    if ws.len() == 0 {
        0
    } else {
        stoplist_hash(ws.drop_last()) ^ word_hash(ws.last())
    }
}

fn word_hash_of(w: &str) -> (h: u64)
    ensures
        h == word_hash(w@),
{
    let bytes = w.as_bytes();
    let mut h: u64 = 0xcbf29ce484222325;
    let mut i: usize = 0;
    assert(bytes@.skip(0) == bytes@);
    while i < bytes.len()
        invariant
            i <= bytes@.len(),
            bytes@ == vstd::utf8::encode_utf8(w@),
            fnv1a_from(h, bytes@.skip(i as int)) == word_hash(w@),
        decreases bytes.len() - i,
    {
        let b = bytes[i];
        assert(bytes@.skip(i as int).drop_first() == bytes@.skip(i + 1));
        assert(bytes@.skip(i as int)[0] == b);
        h = (h ^ (b as u64)).wrapping_mul(0x100000001b3);
        i = i + 1;
    }
    assert(bytes@.skip(i as int).len() == 0);
    h
}

/// Order-independent digest of a label stoplist, so two runs with different
/// prose stoplists do not share a signature.
pub fn stoplist_digest(stoplist: &[String]) -> (d: u64)
    ensures
        d == stoplist_hash(string_views(stoplist@)),
{
    let ghost sv = string_views(stoplist@);
    let mut acc: u64 = 0;
    let mut i: usize = 0;
    assert(sv.take(0) =~= Seq::<Seq<char>>::empty());
    while i < stoplist.len()
        invariant
            i <= stoplist.len(),
            sv == string_views(stoplist@),
            acc == stoplist_hash(sv.take(i as int)),
        decreases stoplist.len() - i,
    {
        let h = word_hash_of(stoplist[i].as_str());
        assert(sv.take(i + 1).drop_last() == sv.take(i as int));
        assert(sv.take(i + 1).last() == stoplist@[i as int]@);
        acc = acc ^ h;
        i = i + 1;
    }
    assert(sv.take(stoplist.len() as int) == sv);
    acc
}

proof fn lemma_xor_swap(a: u64, b: u64, c: u64)
    ensures
        (a ^ b) ^ c == (a ^ c) ^ b,
{
    assert((a ^ b) ^ c == (a ^ c) ^ b) by (bit_vector);
}

/// Taking one word out of the list takes its hash out of the digest.
proof fn lemma_stoplist_hash_remove(ws: Seq<Seq<char>>, i: int)
    requires
        0 <= i < ws.len(),
    ensures
        stoplist_hash(ws) == stoplist_hash(ws.remove(i)) ^ word_hash(ws[i]),
    decreases ws.len(),
{
    if i == ws.len() - 1 {
        assert(ws.remove(i) =~= ws.drop_last());
    } else {
        let t = ws.drop_last();
        lemma_stoplist_hash_remove(t, i);
        assert(ws.remove(i).drop_last() =~= t.remove(i));
        assert(ws.remove(i).last() == ws.last());
        assert(t[i] == ws[i]);
        lemma_xor_swap(stoplist_hash(t.remove(i)), word_hash(ws[i]), word_hash(ws.last()));
    }
}

/// The stoplist digest depends on which words are listed, not on their order:
/// any two lists holding the same words the same number of times give the
/// same digest.
#[verifier::rlimit(40)]
pub proof fn lemma_stoplist_order_irrelevant(ws1: Seq<Seq<char>>, ws2: Seq<Seq<char>>)
    requires
        ws1.to_multiset() == ws2.to_multiset(),
    ensures
        stoplist_hash(ws1) == stoplist_hash(ws2),
    decreases ws1.len(),
{
    broadcast use vstd::seq_lib::group_to_multiset_ensures;

    if ws1.len() == 0 {
        assert(ws2.to_multiset().len() == 0);
        assert(ws2.len() == 0);
    } else {
        let x = ws1.last();
        let t1 = ws1.drop_last();
        assert(ws1 =~= t1.push(x));
        assert(ws1.to_multiset().count(x) > 0);
        assert(ws2.contains(x));
        let i = choose|i: int| 0 <= i < ws2.len() && ws2[i] == x;
        let t2 = ws2.remove(i);
        assert(t2.to_multiset() =~= ws2.to_multiset().remove(x));
        assert(t1.to_multiset() =~= ws1.to_multiset().remove(x)) by {
            assert(ws1.to_multiset() =~= t1.to_multiset().insert(x));
        }
        lemma_stoplist_order_irrelevant(t1, t2);
        lemma_stoplist_hash_remove(ws2, i);
    }
}

/// Lowercase hexadecimal of `n`, as `{:x}` prints it.
pub open spec fn hex_text(n: nat) -> Seq<char>
    decreases n,
{
    if n < 16 {
        seq![crate::cache::hex_char(n)]
    } else {
        hex_text(n / 16).push(crate::cache::hex_char(n % 16))
    }
}

fn push_hex(s: &mut String, n: u64)
    ensures
        final(s)@ == old(s)@ + hex_text(n as nat),
    decreases n,
{
    if n < 16 {
        s.push(crate::cache::hex_digit(n as u8));
        assert(final(s)@ =~= old(s)@ + hex_text(n as nat));
    } else {
        push_hex(s, n / 16);
        s.push(crate::cache::hex_digit((n % 16) as u8));
        assert(final(s)@ =~= old(s)@ + hex_text(n as nat));
    }
}

/// The comparability signature of a score: every setting that can move it, in
/// one string. `tolerance` and `persist` are the real-valued settings as the
/// caller prints them.
pub open spec fn signature_text(
    reference: Seq<char>,
    tolerance: Seq<char>,
    persist: Seq<char>,
    min_text_height_px: nat,
    stoplist: Seq<Seq<char>>,
) -> Seq<char> {
    "vtt-fidelity|v:"@ + decimal(FIDELITY_METRIC_VERSION as nat) + "|ref:"@ + reference + "|tol:"@
        + tolerance + "|persist:"@ + persist + "|height:"@ + decimal(min_text_height_px) + "|stop:"@
        + decimal(stoplist.len()) + "-"@ + hex_text(stoplist_hash(stoplist) as nat)
}

/// Builds the comparability signature of a score (see `signature_text`): two
/// reports with the same signature were scored the same way.
pub fn signature(
    reference: &str,
    tolerance: &str,
    persist: &str,
    min_text_height_px: u32,
    label_stoplist: &[String],
) -> (s: String)
    ensures
        s@ == signature_text(
            reference@,
            tolerance@,
            persist@,
            min_text_height_px as nat,
            string_views(label_stoplist@),
        ),
{
    let mut s = String::new();
    crate::text::push_str_chars(&mut s, "vtt-fidelity|v:");
    crate::digits::push_decimal(&mut s, FIDELITY_METRIC_VERSION as u64);
    crate::text::push_str_chars(&mut s, "|ref:");
    crate::text::push_str_chars(&mut s, reference);
    crate::text::push_str_chars(&mut s, "|tol:");
    crate::text::push_str_chars(&mut s, tolerance);
    crate::text::push_str_chars(&mut s, "|persist:");
    crate::text::push_str_chars(&mut s, persist);
    crate::text::push_str_chars(&mut s, "|height:");
    crate::digits::push_decimal(&mut s, min_text_height_px as u64);
    crate::text::push_str_chars(&mut s, "|stop:");
    crate::digits::push_decimal(&mut s, label_stoplist.len() as u64);
    crate::text::push_str_chars(&mut s, "-");
    let d = stoplist_digest(label_stoplist);
    push_hex(&mut s, d);
    proof {
        assert(string_views(label_stoplist@).len() == label_stoplist@.len());
    }
    s
}

/// Reordering the stoplist never changes the signature.
pub proof fn lemma_signature_ignores_stoplist_order(
    reference: Seq<char>,
    tolerance: Seq<char>,
    persist: Seq<char>,
    min_text_height_px: nat,
    s1: Seq<Seq<char>>,
    s2: Seq<Seq<char>>,
)
    requires
        s1.to_multiset() == s2.to_multiset(),
    ensures
        signature_text(reference, tolerance, persist, min_text_height_px, s1) == signature_text(
            reference,
            tolerance,
            persist,
            min_text_height_px,
            s2,
        ),
{
    broadcast use vstd::seq_lib::group_to_multiset_ensures;

    lemma_stoplist_order_irrelevant(s1, s2);
    assert(s1.len() == s1.to_multiset().len());
}

// ---------------------------------------------------------------- thumbnails

/// `s` with every `:` written as `-`.
pub open spec fn colons_as_dashes(s: Seq<char>) -> Seq<char> {
    s.map_values(|c: char| if c == ':' { '-' } else { c })
}

/// File name of a kept-frame thumbnail: its capture time with `:` as `-`,
/// then `.jpg`.
pub fn thumbnail_name(timestamp_ms: u64) -> (name: String)
    ensures
        name@ == colons_as_dashes(crate::types::timestamp_text(timestamp_ms as nat)) + seq![
            '.',
            'j',
            'p',
            'g',
        ],
{
    let t = crate::types::format_timestamp(timestamp_ms);
    let cs = str_chars(t.as_str());
    let mut name = String::new();
    let mut i: usize = 0;
    while i < cs.len()
        invariant
            i <= cs.len(),
            cs@ == t@,
            name@ == colons_as_dashes(cs@.take(i as int)),
        decreases cs.len() - i,
    {
        let c = cs[i];
        if c == ':' {
            name.push('-');
        } else {
            name.push(c);
        }
        i = i + 1;
        assert(name@ =~= colons_as_dashes(cs@.take(i as int)));
    }
    assert(cs@.take(cs.len() as int) == cs@);
    name.push('.');
    name.push('j');
    name.push('p');
    name.push('g');
    assert(name@ =~= colons_as_dashes(cs@) + seq!['.', 'j', 'p', 'g']);
    name
}


// ---------------------------------------------------------------- report

/// One stated fact and how it fared against the frames the model saw.
#[derive(Debug, Clone, PartialEq)]
pub struct StatedFact {
    pub key: String,
    pub fact: Fact,
    pub supported: bool,
    /// The on-screen token it matched, if any.
    pub matched: Option<String>,
}

/// One prominent on-screen fact and whether the description mentioned it.
#[derive(Debug, Clone, PartialEq)]
pub struct ReferenceFact {
    pub key: String,
    pub fact: Fact,
    pub mentioned: bool,
    /// How long it stayed on screen, in milliseconds.
    pub persist_ms: u64,
    pub height_px: u32,
}

/// The judged facts of one visual segment.
#[derive(Debug, Clone, PartialEq)]
pub struct SegmentFidelity {
    pub start: String,
    pub end: String,
    pub frames: Vec<String>,
    pub stated: Vec<StatedFact>,
    pub prominent: Vec<ReferenceFact>,
}

/// What a fact shows a reader: a number as written, otherwise its text.
pub open spec fn display_of(f: FactModel) -> Seq<char> {
    match f {
        FactModel::Number { raw, .. } => raw,
        FactModel::Label { text } => text,
        FactModel::Timeframe { text } => text,
    }
}

/// The text a fact shows a reader.
pub fn fact_display(f: &Fact) -> (d: String)
    ensures
        d@ == display_of(f@),
{
    match f {
        Fact::Number { raw, .. } => raw.clone(),
        Fact::Label { text } => text.clone(),
        Fact::Timeframe { text } => text.clone(),
    }
}


// ---------------------------------------------------------------- stoplist

/// `f` is a label the stoplist names.
pub open spec fn is_stopped(f: FactModel, stop: Seq<Seq<char>>) -> bool {
    match f {
        FactModel::Label { text } => stop.contains(text),
        _ => false,
    }
}

/// `fs` without the labels the stoplist names.
pub open spec fn unstopped(fs: Seq<FactModel>, stop: Seq<Seq<char>>) -> Seq<FactModel>
    decreases fs.len(),
{
    if fs.len() == 0 {
        fs
    } else if is_stopped(fs.last(), stop) {
        unstopped(fs.drop_last(), stop)
    } else {
        unstopped(fs.drop_last(), stop).push(fs.last())
    }
}

/// A fact the stoplist keeps never shares its key with one it drops.
proof fn lemma_kept_key_differs(f: FactModel, g: FactModel, stop: Seq<Seq<char>>)
    requires
        !is_stopped(f, stop),
        is_stopped(g, stop),
    ensures
        key_of(f) != key_of(g),
{
    let kg = key_of(g);
    let kf = key_of(f);
    assert(kg[0] == 'l');
    match f {
        FactModel::Label { text } => {
            if kf == kg {
                let tg = match g {
                    FactModel::Label { text } => text,
                    _ => text,
                };
                assert(kf.subrange(2, kf.len() as int) =~= text);
                assert(kg.subrange(2, kg.len() as int) =~= tg);
            }
        },
        _ => {
            assert(kf[0] != 'l');
        },
    }
}

#[verifier::rlimit(40)]
proof fn lemma_has_key_unstopped(fs: Seq<FactModel>, stop: Seq<Seq<char>>, f: FactModel)
    requires
        !is_stopped(f, stop),
    ensures
        has_key(unstopped(fs, stop), key_of(f)) == has_key(fs, key_of(f)),
    decreases fs.len(),
{
    if fs.len() > 0 {
        let t = fs.drop_last();
        lemma_has_key_unstopped(t, stop, f);
        let u = unstopped(t, stop);
        if has_key(fs, key_of(f)) {
            let i = choose|i: int| 0 <= i < fs.len() && key_of(#[trigger] fs[i]) == key_of(f);
            if i < t.len() {
                assert(t[i] == fs[i]);
                let j = choose|j: int| 0 <= j < u.len() && key_of(#[trigger] u[j]) == key_of(f);
                if !is_stopped(fs.last(), stop) {
                    assert(unstopped(fs, stop)[j] == u[j]);
                }
            } else {
                if is_stopped(fs.last(), stop) {
                    lemma_kept_key_differs(f, fs.last(), stop);
                } else {
                    assert(unstopped(fs, stop)[u.len() as int] == fs.last());
                }
            }
        }
        if has_key(unstopped(fs, stop), key_of(f)) {
            let n = unstopped(fs, stop);
            let j = choose|j: int| 0 <= j < n.len() && key_of(#[trigger] n[j]) == key_of(f);
            if j < u.len() {
                assert(n[j] == u[j]);
                let i = choose|i: int| 0 <= i < t.len() && key_of(#[trigger] t[i]) == key_of(f);
                assert(fs[i] == t[i]);
            } else {
                assert(n[j] == fs.last());
                assert(fs[fs.len() - 1] == fs.last());
            }
        }
    }
}

#[verifier::rlimit(40)]
proof fn lemma_scan_unstopped(ws: Seq<Seq<char>>, stop: Seq<Seq<char>>)
    ensures
        scan_words(ws, stop).prev == scan_words(ws, Seq::empty()).prev,
        scan_words(ws, stop).facts == unstopped(scan_words(ws, Seq::empty()).facts, stop),
    decreases ws.len(),
{
    if ws.len() > 0 {
        let w = ws.drop_last();
        lemma_scan_unstopped(w, stop);
        let a = scan_words(w, stop);
        let b = scan_words(w, Seq::empty());
        let tok = strip_punct(ws.last());
        let none: Seq<Seq<char>> = Seq::empty();
        if tok.len() > 0 && !(is_frame_word(b.prev) && all_digits(tok)) {
            match classify(tok, none) {
                Some(f) => {
                    if is_stopped(f, stop) {
                        assert(classify(tok, stop) is None);
                        if !has_key(b.facts, key_of(f)) {
                            assert(b.facts.push(f).drop_last() == b.facts);
                        }
                    } else {
                        assert(classify(tok, stop) == Some(f));
                        lemma_has_key_unstopped(b.facts, stop, f);
                        if !has_key(b.facts, key_of(f)) {
                            assert(b.facts.push(f).drop_last() == b.facts);
                        }
                    }
                },
                None => {
                    assert(classify(tok, stop) is None);
                },
            }
        }
    }
}

/// The stoplist removes exactly the labels it names and nothing else: the
/// facts extracted with it are those extracted without it, less those labels.
pub proof fn lemma_stoplist_drops_only_listed_labels(text: Seq<char>, stop: Seq<Seq<char>>)
    ensures
        facts_in(text, stop) == unstopped(facts_in(text, Seq::empty()), stop),
{
    lemma_scan_unstopped(words(text), stop);
}


/// `p + a + q` and `p + b + q` differ whenever `a` and `b` do.
proof fn lemma_middle_differs(p: Seq<char>, a: Seq<char>, b: Seq<char>, q: Seq<char>)
    requires
        a != b,
    ensures
        p + a + q != p + b + q,
{
    let x = p + a + q;
    let y = p + b + q;
    if a.len() == b.len() {
        assert(exists|i: int| 0 <= i < a.len() && a[i] != b[i]) by {
            if forall|i: int| 0 <= i < a.len() ==> a[i] == b[i] {
                assert(a =~= b);
            }
        }
        let i = choose|i: int| 0 <= i < a.len() && a[i] != b[i];
        assert(x[p.len() + i] == a[i]);
        assert(y[p.len() + i] == b[i]);
    } else {
        assert(x.len() != y.len());
    }
}

/// Scores taken with different minimum text heights never share a signature.
pub proof fn lemma_signature_tells_heights_apart(
    reference: Seq<char>,
    tolerance: Seq<char>,
    persist: Seq<char>,
    h1: nat,
    h2: nat,
    stop: Seq<Seq<char>>,
)
    requires
        h1 != h2,
    ensures
        signature_text(reference, tolerance, persist, h1, stop) != signature_text(
            reference,
            tolerance,
            persist,
            h2,
            stop,
        ),
{
    crate::digits::lemma_decimal(h1);
    crate::digits::lemma_decimal(h2);
    let p = "vtt-fidelity|v:"@ + decimal(FIDELITY_METRIC_VERSION as nat) + "|ref:"@ + reference
        + "|tol:"@ + tolerance + "|persist:"@ + persist + "|height:"@;
    let q = "|stop:"@ + decimal(stop.len()) + "-"@ + hex_text(stoplist_hash(stop) as nat);
    lemma_middle_differs(p, decimal(h1), decimal(h2), q);
    assert(signature_text(reference, tolerance, persist, h1, stop) =~= p + decimal(h1) + q);
    assert(signature_text(reference, tolerance, persist, h2, stop) =~= p + decimal(h2) + q);
}

} // verus!

verus! {

// ---------------------------------------------------------------- summary counts

/// How many stated facts were found on screen.
pub open spec fn supported_count(fs: Seq<StatedFact>) -> nat
    decreases fs.len(),
{
    if fs.len() == 0 {
        0
    } else {
        supported_count(fs.drop_last()) + if fs.last().supported {
            1nat
        } else {
            0nat
        }
    }
}

/// How many prominent facts the description mentioned.
pub open spec fn mentioned_count(ps: Seq<ReferenceFact>) -> nat
    decreases ps.len(),
{
    if ps.len() == 0 {
        0
    } else {
        mentioned_count(ps.drop_last()) + if ps.last().mentioned {
            1nat
        } else {
            0nat
        }
    }
}

/// The counts of a report: stated facts, those supported, prominent facts,
/// those mentioned, over all segments.
pub open spec fn report_counts(segs: Seq<SegmentFidelity>) -> (nat, nat, nat, nat)
    decreases segs.len(),
{
    if segs.len() == 0 {
        (0, 0, 0, 0)
    } else {
        let r = report_counts(segs.drop_last());
        let s = segs.last();
        (
            r.0 + s.stated@.len(),
            r.1 + supported_count(s.stated@),
            r.2 + s.prominent@.len(),
            r.3 + mentioned_count(s.prominent@),
        )
    }
}

/// The counts a fidelity summary reports.
#[derive(Debug, Clone, Copy, PartialEq, Eq, Structural)]
pub struct FidelityCounts {
    pub segments: u64,
    pub stated: u64,
    pub supported: u64,
    pub prominent: u64,
    pub mentioned: u64,
}

proof fn lemma_count_bounds(segs: Seq<SegmentFidelity>)
    ensures
        report_counts(segs).1 <= report_counts(segs).0,
        report_counts(segs).3 <= report_counts(segs).2,
    decreases segs.len(),
{
    if segs.len() > 0 {
        lemma_count_bounds(segs.drop_last());
        lemma_supported_le(segs.last().stated@);
        lemma_mentioned_le(segs.last().prominent@);
    }
}

proof fn lemma_supported_le(fs: Seq<StatedFact>)
    ensures
        supported_count(fs) <= fs.len(),
    decreases fs.len(),
{
    if fs.len() > 0 {
        lemma_supported_le(fs.drop_last());
    }
}

proof fn lemma_mentioned_le(ps: Seq<ReferenceFact>)
    ensures
        mentioned_count(ps) <= ps.len(),
    decreases ps.len(),
{
    if ps.len() > 0 {
        lemma_mentioned_le(ps.drop_last());
    }
}

proof fn lemma_counts_grow(segs: Seq<SegmentFidelity>, i: int)
    requires
        0 <= i <= segs.len(),
    ensures
        report_counts(segs.take(i)).0 <= report_counts(segs).0,
        report_counts(segs.take(i)).2 <= report_counts(segs).2,
    decreases segs.len() - i,
{
    if i < segs.len() {
        lemma_counts_grow(segs, i + 1);
        assert(segs.take(i + 1).drop_last() == segs.take(i));
    } else {
        assert(segs.take(i) == segs);
    }
}

/// Counts the stated, supported, prominent and mentioned facts of a report
/// (counts that fit in a `u64`).
pub fn fidelity_counts(segments: &[SegmentFidelity]) -> (c: FidelityCounts)
    requires
        report_counts(segments@).0 <= u64::MAX,
        report_counts(segments@).2 <= u64::MAX,
    ensures
        c.segments == segments@.len(),
        c.stated == report_counts(segments@).0,
        c.supported == report_counts(segments@).1,
        c.prominent == report_counts(segments@).2,
        c.mentioned == report_counts(segments@).3,
{
    let mut c = FidelityCounts { segments: 0, stated: 0, supported: 0, prominent: 0, mentioned: 0 };
    let mut i: usize = 0;
    while i < segments.len()
        invariant
            i <= segments@.len(),
            report_counts(segments@).0 <= u64::MAX,
            report_counts(segments@).2 <= u64::MAX,
            c.segments == i,
            (c.stated as nat, c.supported as nat, c.prominent as nat, c.mentioned as nat)
                == report_counts(segments@.take(i as int)),
        decreases segments@.len() - i,
    {
        let s = &segments[i];
        proof {
            assert(segments@.take(i + 1).drop_last() == segments@.take(i as int));
            assert(segments@.take(i + 1).last() == segments@[i as int]);
            lemma_counts_grow(segments@, i + 1);
            lemma_count_bounds(segments@.take(i + 1));
        }
        let mut j: usize = 0;
        let mut sup: u64 = 0;
        while j < s.stated.len()
            invariant
                j <= s.stated@.len(),
                sup == supported_count(s.stated@.take(j as int)),
                sup <= j,
            decreases s.stated@.len() - j,
        {
            assert(s.stated@.take(j + 1).drop_last() == s.stated@.take(j as int));
            if s.stated[j].supported {
                sup = sup + 1;
            }
            j = j + 1;
        }
        assert(s.stated@.take(j as int) == s.stated@);
        let mut k: usize = 0;
        let mut men: u64 = 0;
        while k < s.prominent.len()
            invariant
                k <= s.prominent@.len(),
                men == mentioned_count(s.prominent@.take(k as int)),
                men <= k,
            decreases s.prominent@.len() - k,
        {
            assert(s.prominent@.take(k + 1).drop_last() == s.prominent@.take(k as int));
            if s.prominent[k].mentioned {
                men = men + 1;
            }
            k = k + 1;
        }
        assert(s.prominent@.take(k as int) == s.prominent@);
        c = FidelityCounts {
            segments: c.segments + 1,
            stated: c.stated + s.stated.len() as u64,
            supported: c.supported + sup,
            prominent: c.prominent + s.prominent.len() as u64,
            mentioned: c.mentioned + men,
        };
        i = i + 1;
    }
    assert(segments@.take(i as int) == segments@);
    c
}

} // verus!
