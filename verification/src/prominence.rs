//! Which on-screen facts were prominent in a segment's window of frames: those
//! that stayed on screen long enough, in text tall enough to read.

use vstd::prelude::*;
use crate::fidelity::{digits_well_formed, key_of, Fact, FactModel};
use crate::text::{chars_eq, string_from_chars, str_chars};

verus! {

/// A fact read from a frame, with the height of its text in source pixels.
#[derive(Debug, Clone, PartialEq)]
pub struct OcrFact {
    pub fact: Fact,
    pub height_px: u32,
}

/// The facts read from one frame, in reading order, with the frame's capture
/// time in milliseconds.
#[derive(Debug, Clone, PartialEq)]
pub struct FrameFacts {
    pub timestamp_ms: u64,
    pub facts: Vec<OcrFact>,
}

/// A prominent on-screen fact: how long it stayed on screen and the height of
/// its tallest reading.
#[derive(Debug, Clone, PartialEq)]
pub struct Prominent {
    pub key: String,
    pub fact: Fact,
    pub persist_ms: u64,
    pub height_px: u32,
}

/// A frame as plain values: capture time and (fact, text height) pairs.
pub struct FrameModel {
    pub ts: nat,
    pub facts: Seq<(FactModel, nat)>,
}

/// A frame's readings as plain values.
pub open spec fn frame_model(f: FrameFacts) -> FrameModel {
    FrameModel {
        ts: f.timestamp_ms as nat,
        facts: f.facts@.map_values(|o: OcrFact| (o.fact@, o.height_px as nat)),
    }
}

/// A window's frames as plain values.
pub open spec fn frame_models(w: Seq<FrameFacts>) -> Seq<FrameModel> {
    w.map_values(|f: FrameFacts| frame_model(f))
}

/// Every number read in the window holds digits only, as extracted ones do.
pub open spec fn window_well_formed(w: Seq<FrameFacts>) -> bool {
    forall|i: int, j: int|
        0 <= i < w.len() && 0 <= j < w[i].facts@.len() ==> digits_well_formed(
            #[trigger] w[i].facts@[j].fact@,
        )
}

// ---------------------------------------------------------------- occurrences

/// Position of the first fact with key `k` in a frame's list.
pub open spec fn first_with_key(fs: Seq<(FactModel, nat)>, k: Seq<char>) -> Option<int>
    decreases fs.len(),
{
    if fs.len() == 0 {
        None
    } else {
        match first_with_key(fs.drop_last(), k) {
            Some(i) => Some(i),
            None => if key_of(fs.last().0) == k {
                Some(fs.len() - 1)
            } else {
                None
            },
        }
    }
}

/// Capture times of the frames of `w` that show a fact with key `k`, in order.
pub open spec fn times_of(w: Seq<FrameModel>, k: Seq<char>) -> Seq<nat>
    decreases w.len(),
{
    if w.len() == 0 {
        Seq::empty()
    } else {
        let t = times_of(w.drop_last(), k);
        if first_with_key(w.last().facts, k) is Some {
            t.push(w.last().ts)
        } else {
            t
        }
    }
}

/// The tallest text of `k` over the frames of `w`, each frame's first reading
/// of it counted.
pub open spec fn height_of(w: Seq<FrameModel>, k: Seq<char>) -> nat
    decreases w.len(),
{
    if w.len() == 0 {
        0
    } else {
        let h = height_of(w.drop_last(), k);
        match first_with_key(w.last().facts, k) {
            Some(i) => if w.last().facts[i].1 > h {
                w.last().facts[i].1
            } else {
                h
            },
            None => h,
        }
    }
}

/// The first reading of `k` in `w`, if it is on screen at all.
pub open spec fn fact_of(w: Seq<FrameModel>, k: Seq<char>) -> Option<FactModel>
    decreases w.len(),
{
    if w.len() == 0 {
        None
    } else {
        match fact_of(w.drop_last(), k) {
            Some(f) => Some(f),
            None => match first_with_key(w.last().facts, k) {
                Some(i) => Some(w.last().facts[i].0),
                None => None,
            },
        }
    }
}

/// The largest of `s` (0 when empty).
pub open spec fn seq_max(s: Seq<nat>) -> nat
    decreases s.len(),
{
    if s.len() == 0 {
        0
    } else if s.len() == 1 || s.last() > seq_max(s.drop_last()) {
        s.last()
    } else {
        seq_max(s.drop_last())
    }
}

/// The smallest of `s` (0 when empty).
pub open spec fn seq_min(s: Seq<nat>) -> nat
    decreases s.len(),
{
    if s.len() == 0 {
        0
    } else if s.len() == 1 || s.last() < seq_min(s.drop_last()) {
        s.last()
    } else {
        seq_min(s.drop_last())
    }
}

/// How long `k` stayed on screen: from its first to its last capture time.
pub open spec fn span_of(w: Seq<FrameModel>, k: Seq<char>) -> nat {
    let t = times_of(w, k);
    if seq_max(t) >= seq_min(t) {
        (seq_max(t) - seq_min(t)) as nat
    } else {
        0
    }
}

/// Time from the window's first frame to its last.
pub open spec fn window_span(w: Seq<FrameModel>) -> nat {
    if w.len() == 0 || w.last().ts < w[0].ts {
        0
    } else {
        (w.last().ts - w[0].ts) as nat
    }
}

/// `k` is prominent in `w`: on screen for at least `min_persist` (or, in a
/// window shorter than that, on every frame of it), in text at least
/// `min_height` pixels tall.
pub open spec fn is_prominent(w: Seq<FrameModel>, k: Seq<char>, min_persist: nat, min_height: nat) -> bool {
    &&& fact_of(w, k) is Some
    &&& (span_of(w, k) >= min_persist || (window_span(w) < min_persist && times_of(w, k).len()
        == w.len()))
    &&& height_of(w, k) >= min_height
}

/// `a` sorts strictly before `b`, character by character, a prefix first.
pub open spec fn lex_lt(a: Seq<char>, b: Seq<char>) -> bool
    decreases a.len(),
{
    if a.len() == 0 {
        b.len() > 0
    } else if b.len() == 0 {
        false
    } else if a[0] != b[0] {
        (a[0] as u32) < (b[0] as u32)
    } else {
        lex_lt(a.drop_first(), b.drop_first())
    }
}

// ---------------------------------------------------------------- lemmas

proof fn lemma_first_with_key_push(fs: Seq<(FactModel, nat)>, e: (FactModel, nat), k: Seq<char>)
    ensures
        first_with_key(fs.push(e), k) == match first_with_key(fs, k) {
            Some(i) => Some(i),
            None => if key_of(e.0) == k {
                Some(fs.len() as int)
            } else {
                None
            },
        },
{
    assert(fs.push(e).drop_last() == fs);
}

proof fn lemma_first_with_key_range(fs: Seq<(FactModel, nat)>, k: Seq<char>)
    ensures
        first_with_key(fs, k) matches Some(i) ==> 0 <= i < fs.len() && key_of(fs[i].0) == k,
    decreases fs.len(),
{
    if fs.len() > 0 {
        lemma_first_with_key_range(fs.drop_last(), k);
    }
}

proof fn lemma_absent(w: Seq<FrameModel>, k: Seq<char>)
    ensures
        fact_of(w, k) is None ==> times_of(w, k).len() == 0 && height_of(w, k) == 0,
        fact_of(w, k) matches Some(f) ==> key_of(f) == k,
        fact_of(w, k) is Some ==> times_of(w, k).len() > 0,
        times_of(w, k).len() <= w.len(),
    decreases w.len(),
{
    if w.len() > 0 {
        lemma_absent(w.drop_last(), k);
        lemma_first_with_key_range(w.last().facts, k);
    }
}

proof fn lemma_lex_total(a: Seq<char>, b: Seq<char>)
    ensures
        a == b || lex_lt(a, b) || lex_lt(b, a),
    decreases a.len(),
{
    if a.len() > 0 && b.len() > 0 {
        if a[0] == b[0] {
            lemma_lex_total(a.drop_first(), b.drop_first());
            if a.drop_first() == b.drop_first() {
                assert(a =~= seq![a[0]] + a.drop_first());
                assert(b =~= seq![b[0]] + b.drop_first());
            }
        } else {
            vstd::utf8::char_u32_cast(a[0], a[0] as u32);
            vstd::utf8::char_u32_cast(b[0], b[0] as u32);
        }
    } else if a.len() == 0 && b.len() == 0 {
        assert(a =~= b);
    }
}

proof fn lemma_lex_transitive(a: Seq<char>, b: Seq<char>, c: Seq<char>)
    requires
        lex_lt(a, b),
        lex_lt(b, c),
    ensures
        lex_lt(a, c),
    decreases a.len(),
{
    if a.len() > 0 && b.len() > 0 && c.len() > 0 {
        if a[0] == b[0] && b[0] == c[0] {
            lemma_lex_transitive(a.drop_first(), b.drop_first(), c.drop_first());
        }
    }
}

// ---------------------------------------------------------------- grouping

/// The occurrences of one key gathered so far.
struct Group {
    key: Vec<char>,
    fact: Fact,
    times: Vec<u64>,
    height: u32,
}

spec fn nat_times(s: Seq<u64>) -> Seq<nat> {
    s.map_values(|t: u64| t as nat)
}

spec fn group_ok(g: Group, w: Seq<FrameModel>) -> bool {
    &&& fact_of(w, g.key@) == Some(g.fact@)
    &&& nat_times(g.times@) == times_of(w, g.key@)
    &&& g.height as nat == height_of(w, g.key@)
    &&& digits_well_formed(g.fact@)
}

spec fn groups_ok(gs: Seq<Group>, w: Seq<FrameModel>) -> bool {
    &&& forall|i: int| 0 <= i < gs.len() ==> group_ok(#[trigger] gs[i], w)
    &&& forall|i: int, j: int| 0 <= i < j < gs.len() ==> (#[trigger] gs[i]).key@ != (#[trigger] gs[j]).key@
    &&& forall|k: Seq<char>| #[trigger] fact_of(w, k) is Some ==> exists|i: int| 0 <= i < gs.len() && (#[trigger] gs[i]).key@ == k
}

fn copy_string(s: &String) -> (r: String)
    ensures
        r@ == s@,
{
    s.clone()
}

fn copy_fact(f: &Fact) -> (r: Fact)
    ensures
        r@ == f@,
{
    match f {
        Fact::Number { negative, int_digits, frac_digits, scale, unit, precision, raw } => {
            Fact::Number {
                negative: *negative,
                int_digits: copy_string(int_digits),
                frac_digits: copy_string(frac_digits),
                scale: *scale,
                unit: *unit,
                precision: *precision,
                raw: copy_string(raw),
            }
        },
        Fact::Label { text } => Fact::Label { text: copy_string(text) },
        Fact::Timeframe { text } => Fact::Timeframe { text: copy_string(text) },
    }
}

/// Index of the group with key `k`, if any.
fn find_group(gs: &Vec<Group>, k: &[char]) -> (r: Option<usize>)
    ensures
        r matches Some(i) ==> i < gs@.len() && gs@[i as int].key@ == k@,
        r is None ==> forall|i: int| 0 <= i < gs@.len() ==> (#[trigger] gs@[i]).key@ != k@,
{
    let mut i: usize = 0;
    while i < gs.len()
        invariant
            i <= gs@.len(),
            forall|j: int| 0 <= j < i ==> (#[trigger] gs@[j]).key@ != k@,
        decreases gs.len() - i,
    {
        if chars_eq(gs[i].key.as_slice(), k) {
            return Some(i);
        }
        i = i + 1;
    }
    None
}

/// Some key in `keys` is `k`.
fn listed(keys: &Vec<Vec<char>>, k: &[char]) -> (b: bool)
    ensures
        b == exists|i: int| 0 <= i < keys@.len() && (#[trigger] keys@[i])@ == k@,
{
    let mut i: usize = 0;
    while i < keys.len()
        invariant
            i <= keys@.len(),
            forall|j: int| 0 <= j < i ==> (#[trigger] keys@[j])@ != k@,
        decreases keys.len() - i,
    {
        if chars_eq(keys[i].as_slice(), k) {
            return true;
        }
        i = i + 1;
    }
    false
}


/// Adding one more reading `e` to the last frame of a window.
#[verifier::rlimit(40)]
proof fn lemma_reading_added(
    prefix: Seq<FrameModel>,
    ts: nat,
    fs: Seq<(FactModel, nat)>,
    e: (FactModel, nat),
    k: Seq<char>,
)
    ensures
        ({
            let w1 = prefix.push(FrameModel { ts, facts: fs });
            let w2 = prefix.push(FrameModel { ts, facts: fs.push(e) });
            if first_with_key(fs, k) is Some || key_of(e.0) != k {
                times_of(w2, k) == times_of(w1, k) && height_of(w2, k) == height_of(w1, k)
                    && fact_of(w2, k) == fact_of(w1, k)
            } else {
                &&& times_of(w2, k) == times_of(w1, k).push(ts)
                &&& height_of(w2, k) == if e.1 > height_of(w1, k) {
                    e.1
                } else {
                    height_of(w1, k)
                }
                &&& fact_of(w2, k) == match fact_of(w1, k) {
                    Some(f) => Some(f),
                    None => Some(e.0),
                }
            }
        }),
{
    let w1 = prefix.push(FrameModel { ts, facts: fs });
    let w2 = prefix.push(FrameModel { ts, facts: fs.push(e) });
    assert(w1.drop_last() == prefix);
    assert(w2.drop_last() == prefix);
    lemma_first_with_key_push(fs, e, k);
    lemma_first_with_key_range(fs, k);
    if first_with_key(fs, k) is Some {
        let i = first_with_key(fs, k)->0;
        assert(fs.push(e)[i] == fs[i]);
    }
    if first_with_key(fs, k) is None && key_of(e.0) == k {
        assert(fs.push(e)[fs.len() as int] == e);
    }
}

/// An empty last frame adds nothing.
proof fn lemma_empty_frame(prefix: Seq<FrameModel>, ts: nat, k: Seq<char>)
    ensures
        ({
            let w = prefix.push(FrameModel { ts, facts: Seq::empty() });
            times_of(w, k) == times_of(prefix, k) && height_of(w, k) == height_of(prefix, k)
                && fact_of(w, k) == fact_of(prefix, k)
        }),
{
    let w = prefix.push(FrameModel { ts, facts: Seq::empty() });
    assert(w.drop_last() == prefix);
}

fn copy_chars(v: &Vec<char>) -> (r: Vec<char>)
    ensures
        r@ == v@,
{
    let mut r: Vec<char> = Vec::new();
    let mut i: usize = 0;
    while i < v.len()
        invariant
            i <= v@.len(),
            r@ == v@.take(i as int),
        decreases v.len() - i,
    {
        r.push(v[i]);
        i = i + 1;
        assert(r@ =~= v@.take(i as int));
    }
    assert(v@.take(v@.len() as int) == v@);
    r
}

/// Records the readings of one more frame.
#[verifier::rlimit(40)]
fn add_frame(gs: &mut Vec<Group>, f: &FrameFacts, Ghost(prefix): Ghost<Seq<FrameModel>>)
    requires
        groups_ok(old(gs)@, prefix),
        forall|j: int| 0 <= j < f.facts@.len() ==> digits_well_formed(#[trigger] f.facts@[j].fact@),
    ensures
        groups_ok(final(gs)@, prefix.push(frame_model(*f))),
{
    let ghost fm = frame_model(*f);
    let ts = f.timestamp_ms;
    let mut in_frame: Vec<Vec<char>> = Vec::new();
    let mut j: usize = 0;
    proof {
        assert(fm.facts.take(0) =~= Seq::<(FactModel, nat)>::empty());
        assert forall|k: Seq<char>| #[trigger] fact_of(prefix.push(FrameModel { ts: fm.ts, facts: fm.facts.take(0) }), k) == fact_of(prefix, k) by {
            lemma_empty_frame(prefix, fm.ts, k);
        }
        assert forall|i: int| 0 <= i < gs@.len() implies group_ok(#[trigger] gs@[i], prefix.push(FrameModel { ts: fm.ts, facts: fm.facts.take(0) })) by {
            lemma_empty_frame(prefix, fm.ts, gs@[i].key@);
        }
    }
    while j < f.facts.len()
        invariant
            j <= f.facts@.len(),
            fm == frame_model(*f),
            ts == fm.ts,
            forall|q: int| 0 <= q < f.facts@.len() ==> digits_well_formed(#[trigger] f.facts@[q].fact@),
            groups_ok(gs@, prefix.push(FrameModel { ts: fm.ts, facts: fm.facts.take(j as int) })),
            forall|k: Seq<char>|
                #![trigger first_with_key(fm.facts.take(j as int), k)]
                (exists|q: int| 0 <= q < in_frame@.len() && (#[trigger] in_frame@[q])@ == k)
                    <==> first_with_key(fm.facts.take(j as int), k) is Some,
        decreases f.facts.len() - j,
    {
        let of = &f.facts[j];
        let k = of.fact.key();
        let kc = str_chars(k.as_str());
        let ghost e = fm.facts[j as int];
        let ghost fs = fm.facts.take(j as int);
        let ghost w1 = prefix.push(FrameModel { ts: fm.ts, facts: fs });
        let ghost w2 = prefix.push(FrameModel { ts: fm.ts, facts: fs.push(e) });
        assert(fm.facts.take(j + 1) == fs.push(e));
        assert(e == (of.fact@, of.height_px as nat));
        assert(key_of(e.0) == kc@);
        proof {
            lemma_first_with_key_push(fs, e, kc@);
        }
        if listed(&in_frame, kc.as_slice()) {
            proof {
                assert forall|k2: Seq<char>| #[trigger] fact_of(w2, k2) == fact_of(w1, k2) by {
                    lemma_reading_added(prefix, fm.ts, fs, e, k2);
                }
                assert forall|i: int| 0 <= i < gs@.len() implies group_ok(#[trigger] gs@[i], w2) by {
                    lemma_reading_added(prefix, fm.ts, fs, e, gs@[i].key@);
                }
                assert forall|k2: Seq<char>|
                    #![trigger first_with_key(fs.push(e), k2)]
                    (exists|q: int| 0 <= q < in_frame@.len() && (#[trigger] in_frame@[q])@ == k2)
                        <==> first_with_key(fs.push(e), k2) is Some by {
                    lemma_first_with_key_push(fs, e, k2);
                }
            }
        } else {
            let ghost old_in = in_frame@;
            in_frame.push(copy_chars(&kc));
            proof {
                assert forall|k2: Seq<char>|
                    #![trigger first_with_key(fs.push(e), k2)]
                    (exists|q: int| 0 <= q < in_frame@.len() && (#[trigger] in_frame@[q])@ == k2)
                        <==> first_with_key(fs.push(e), k2) is Some by {
                    lemma_first_with_key_push(fs, e, k2);
                    if k2 == kc@ {
                        assert(in_frame@[old_in.len() as int]@ == k2);
                    } else {
                        if exists|q: int| 0 <= q < in_frame@.len() && (#[trigger] in_frame@[q])@ == k2 {
                            let q = choose|q: int| 0 <= q < in_frame@.len() && (#[trigger] in_frame@[q])@ == k2;
                            assert(q < old_in.len());
                            assert(old_in[q]@ == k2);
                        }
                        if first_with_key(fs, k2) is Some {
                            let q = choose|q: int| 0 <= q < old_in.len() && (#[trigger] old_in[q])@ == k2;
                            assert(in_frame@[q] == old_in[q]);
                        }
                    }
                }
            }
            assert(first_with_key(fs, kc@) is None);
            let ghost old_gs = gs@;
            match find_group(gs, kc.as_slice()) {
                Some(gi) => {
                    let mut g = gs.remove(gi);
                    assert(g == old_gs[gi as int]);
                    g.times.push(ts);
                    if of.height_px > g.height {
                        g.height = of.height_px;
                    }
                    gs.insert(gi, g);
                    proof {
                        lemma_reading_added(prefix, fm.ts, fs, e, kc@);
                        assert(gs@.len() == old_gs.len());
                        assert forall|i: int| 0 <= i < gs@.len() && i != gi implies gs@[i] == old_gs[i] by {
                        }
                        assert(gs@[gi as int] == g);
                        assert(nat_times(g.times@) =~= nat_times(old_gs[gi as int].times@).push(ts as nat));
                        assert forall|i: int| 0 <= i < gs@.len() implies group_ok(#[trigger] gs@[i], w2) by {
                            lemma_reading_added(prefix, fm.ts, fs, e, gs@[i].key@);
                            if i != gi {
                                assert(gs@[i] == old_gs[i]);
                                assert(old_gs[i].key@ != kc@);
                            }
                        }
                        assert forall|i: int, i2: int| 0 <= i < i2 < gs@.len() implies (#[trigger] gs@[i]).key@ != (#[trigger] gs@[i2]).key@ by {
                            assert(gs@[i].key@ == old_gs[i].key@);
                            assert(gs@[i2].key@ == old_gs[i2].key@);
                        }
                        assert forall|k2: Seq<char>| #[trigger] fact_of(w2, k2) is Some implies exists|i: int| 0 <= i < gs@.len() && (#[trigger] gs@[i]).key@ == k2 by {
                            lemma_reading_added(prefix, fm.ts, fs, e, k2);
                            if k2 == kc@ {
                                assert(gs@[gi as int].key@ == k2);
                            } else {
                                let i = choose|i: int| 0 <= i < old_gs.len() && (#[trigger] old_gs[i]).key@ == k2;
                                assert(gs@[i].key@ == old_gs[i].key@);
                            }
                        }
                    }
                },
                None => {
                    let mut times: Vec<u64> = Vec::new();
                    times.push(ts);
                    let g = Group { key: kc, fact: copy_fact(&of.fact), times, height: of.height_px };
                    gs.push(g);
                    proof {
                        lemma_reading_added(prefix, fm.ts, fs, e, kc@);
                        assert(fact_of(w1, kc@) is None);
                        lemma_absent(w1, kc@);
                        assert(nat_times(g.times@) =~= seq![ts as nat]);
                        assert(times_of(w1, kc@) =~= Seq::<nat>::empty());
                        assert(gs@[old_gs.len() as int] == g);
                        assert forall|i: int| 0 <= i < gs@.len() implies group_ok(#[trigger] gs@[i], w2) by {
                            lemma_reading_added(prefix, fm.ts, fs, e, gs@[i].key@);
                            if i < old_gs.len() {
                                assert(gs@[i] == old_gs[i]);
                                assert(old_gs[i].key@ != kc@);
                            }
                        }
                        assert forall|i: int, i2: int| 0 <= i < i2 < gs@.len() implies (#[trigger] gs@[i]).key@ != (#[trigger] gs@[i2]).key@ by {
                            if i2 < old_gs.len() {
                                assert(gs@[i] == old_gs[i]);
                                assert(gs@[i2] == old_gs[i2]);
                            } else {
                                assert(gs@[i] == old_gs[i]);
                            }
                        }
                        assert forall|k2: Seq<char>| #[trigger] fact_of(w2, k2) is Some implies exists|i: int| 0 <= i < gs@.len() && (#[trigger] gs@[i]).key@ == k2 by {
                            lemma_reading_added(prefix, fm.ts, fs, e, k2);
                            if k2 == kc@ {
                                assert(gs@[old_gs.len() as int].key@ == k2);
                            } else {
                                let i = choose|i: int| 0 <= i < old_gs.len() && (#[trigger] old_gs[i]).key@ == k2;
                                assert(gs@[i] == old_gs[i]);
                            }
                        }
                    }
                },
            }
        }
        j = j + 1;
    }
    assert(fm.facts.take(f.facts@.len() as int) =~= fm.facts);
    assert(FrameModel { ts: fm.ts, facts: fm.facts } == fm);
}

/// Gathers every key read in the window with its first reading, capture
/// times and tallest text.
fn group_window(window: &[FrameFacts]) -> (gs: Vec<Group>)
    requires
        window_well_formed(window@),
    ensures
        groups_ok(gs@, frame_models(window@)),
{
    let ghost wm = frame_models(window@);
    let mut gs: Vec<Group> = Vec::new();
    let mut i: usize = 0;
    assert(wm.take(0) =~= Seq::<FrameModel>::empty());
    while i < window.len()
        invariant
            i <= window@.len(),
            wm == frame_models(window@),
            window_well_formed(window@),
            groups_ok(gs@, wm.take(i as int)),
        decreases window.len() - i,
    {
        let f = &window[i];
        assert(wm.take(i + 1) == wm.take(i as int).push(frame_model(*f)));
        assert forall|j: int| 0 <= j < f.facts@.len() implies digits_well_formed(#[trigger] f.facts@[j].fact@) by {
            assert(window@[i as int].facts@[j] == f.facts@[j]);
        }
        add_frame(&mut gs, f, Ghost(wm.take(i as int)));
        i = i + 1;
    }
    assert(wm.take(window@.len() as int) == wm);
    gs
}


// ---------------------------------------------------------------- selection

/// `p` is a prominent fact of `w`, with its first reading, how long it stayed
/// on screen and its tallest text.
pub open spec fn prominent_ok(p: Prominent, w: Seq<FrameModel>, min_persist: nat, min_height: nat) -> bool {
    &&& is_prominent(w, p.key@, min_persist, min_height)
    &&& fact_of(w, p.key@) == Some(p.fact@)
    &&& p.persist_ms as nat == span_of(w, p.key@)
    &&& p.height_px as nat == height_of(w, p.key@)
}

proof fn lemma_lex_skip(a: Seq<char>, b: Seq<char>, i: int)
    requires
        0 <= i <= a.len(),
        i <= b.len(),
        a.take(i) == b.take(i),
    ensures
        lex_lt(a, b) == lex_lt(a.skip(i), b.skip(i)),
    decreases i,
{
    if i > 0 {
        assert(a[0] == a.take(i)[0]);
        assert(b[0] == b.take(i)[0]);
        assert(a.drop_first().take(i - 1) =~= b.drop_first().take(i - 1)) by {
            assert forall|q: int| 0 <= q < i - 1 implies a.drop_first()[q] == b.drop_first()[q] by {
                assert(a.take(i)[q + 1] == b.take(i)[q + 1]);
                assert(a.take(i)[q + 1] == a[q + 1]);
                assert(b.take(i)[q + 1] == b[q + 1]);
            }
        }
        lemma_lex_skip(a.drop_first(), b.drop_first(), i - 1);
        assert(a.drop_first().skip(i - 1) =~= a.skip(i));
        assert(b.drop_first().skip(i - 1) =~= b.skip(i));
    } else {
        assert(a.skip(0) == a);
        assert(b.skip(0) == b);
    }
}

/// `a` sorts strictly before `b`.
pub fn lex_less(a: &[char], b: &[char]) -> (r: bool)
    ensures
        r == lex_lt(a@, b@),
{
    let mut i: usize = 0;
    while i < a.len() && i < b.len() && a[i] == b[i]
        invariant
            i <= a@.len(),
            i <= b@.len(),
            a@.take(i as int) == b@.take(i as int),
        decreases a.len() - i,
    {
        i = i + 1;
        assert(a@.take(i as int) =~= b@.take(i as int)) by {
            assert forall|q: int| 0 <= q < i implies a@.take(i as int)[q] == b@.take(i as int)[q] by {
                if q < i - 1 {
                    assert(a@.take(i - 1)[q] == b@.take(i - 1)[q]);
                }
            }
        }
    }
    proof {
        lemma_lex_skip(a@, b@, i as int);
    }
    if i == a.len() {
        i < b.len()
    } else if i == b.len() {
        false
    } else {
        assert(a@.skip(i as int)[0] == a@[i as int]);
        assert(b@.skip(i as int)[0] == b@[i as int]);
        (a[i] as u32) < (b[i] as u32)
    }
}

proof fn lemma_seq_max_min_step(s: Seq<nat>, t: nat)
    ensures
        seq_max(s.push(t)) == if s.len() == 0 || t > seq_max(s) {
            t
        } else {
            seq_max(s)
        },
        seq_min(s.push(t)) == if s.len() == 0 || t < seq_min(s) {
            t
        } else {
            seq_min(s)
        },
{
    assert(s.push(t).drop_last() == s);
}

/// The first and last capture times of a group, as a span.
fn group_span(times: &Vec<u64>) -> (span: u64)
    requires
        times@.len() > 0,
    ensures
        span as nat == ({
            let t = nat_times(times@);
            if seq_max(t) >= seq_min(t) {
                (seq_max(t) - seq_min(t)) as nat
            } else {
                0
            }
        }),
{
    let ghost t = nat_times(times@);
    let mut lo = times[0];
    let mut hi = times[0];
    let mut q: usize = 1;
    proof {
        lemma_seq_max_min_step(Seq::<nat>::empty(), t[0]);
        assert(t.take(1) =~= Seq::<nat>::empty().push(t[0]));
    }
    while q < times.len()
        invariant
            1 <= q <= times@.len(),
            t == nat_times(times@),
            lo as nat == seq_min(t.take(q as int)),
            hi as nat == seq_max(t.take(q as int)),
        decreases times.len() - q,
    {
        let x = times[q];
        proof {
            assert(t.take(q + 1) == t.take(q as int).push(x as nat));
            lemma_seq_max_min_step(t.take(q as int), x as nat);
        }
        if x > hi {
            hi = x;
        }
        if x < lo {
            lo = x;
        }
        q = q + 1;
    }
    assert(t.take(times@.len() as int) == t);
    if hi >= lo {
        hi - lo
    } else {
        0
    }
}

/// Keys strictly increase along `s`.
pub open spec fn sorted_by_key(s: Seq<Prominent>) -> bool {
    forall|a: int, b: int| 0 <= a < b < s.len() ==> lex_lt((#[trigger] s[a]).key@, (#[trigger] s[b]).key@)
}

spec fn all_ok(s: Seq<Prominent>, w: Seq<FrameModel>, mp: nat, mh: nat) -> bool {
    forall|a: int| 0 <= a < s.len() ==> prominent_ok(#[trigger] s[a], w, mp, mh)
}

spec fn from_groups(s: Seq<Prominent>, gs: Seq<Group>, i: int) -> bool {
    forall|a: int| 0 <= a < s.len() ==> exists|q: int| 0 <= q < i && (#[trigger] gs[q]).key@ == (#[trigger] s[a]).key@
}

spec fn covered(s: Seq<Prominent>, gs: Seq<Group>, i: int, w: Seq<FrameModel>, mp: nat, mh: nat) -> bool {
    forall|q: int|
        0 <= q < i && is_prominent(w, (#[trigger] gs[q]).key@, mp, mh) ==> exists|a: int|
            0 <= a < s.len() && (#[trigger] s[a]).key@ == gs[q].key@
}

/// Inserts `x` where it keeps the list sorted by key.
#[verifier::rlimit(40)]
fn insert_sorted(out: &mut Vec<Prominent>, x: Prominent) -> (p: usize)
    requires
        sorted_by_key(old(out)@),
        forall|a: int| 0 <= a < old(out)@.len() ==> (#[trigger] old(out)@[a]).key@ != x.key@,
    ensures
        p <= old(out)@.len(),
        final(out)@ == old(out)@.insert(p as int, x),
        sorted_by_key(final(out)@),
{
    let xk = str_chars(x.key.as_str());
    let mut p: usize = 0;
    while p < out.len() && lex_less(str_chars(out[p].key.as_str()).as_slice(), xk.as_slice())
        invariant
            p <= out@.len(),
            xk@ == x.key@,
            forall|a: int| 0 <= a < p ==> lex_lt((#[trigger] out@[a]).key@, x.key@),
        decreases out.len() - p,
    {
        p = p + 1;
    }
    let ghost old_out = out@;
    proof {
        if p < old_out.len() {
            lemma_lex_total(old_out[p as int].key@, x.key@);
        }
    }
    out.insert(p, x);
    proof {
        assert forall|a: int, b: int|
            0 <= a < b < out@.len() implies lex_lt((#[trigger] out@[a]).key@, (#[trigger] out@[b]).key@) by {
            if b < p {
                assert(out@[a] == old_out[a] && out@[b] == old_out[b]);
            } else if b == p {
                assert(out@[a] == old_out[a]);
            } else if a < p {
                assert(out@[a] == old_out[a] && out@[b] == old_out[b - 1]);
                lemma_lex_transitive(old_out[a].key@, x.key@, old_out[p as int].key@);
                if b - 1 > p {
                    lemma_lex_transitive(old_out[a].key@, old_out[p as int].key@, old_out[b - 1].key@);
                }
            } else if a == p {
                assert(out@[b] == old_out[b - 1]);
                if b - 1 > p {
                    lemma_lex_transitive(x.key@, old_out[p as int].key@, old_out[b - 1].key@);
                }
            } else {
                assert(out@[a] == old_out[a - 1] && out@[b] == old_out[b - 1]);
            }
        }
    }
    p
}

proof fn lemma_fresh_key(s: Seq<Prominent>, gs: Seq<Group>, i: int, w: Seq<FrameModel>)
    requires
        0 <= i < gs.len(),
        groups_ok(gs, w),
        from_groups(s, gs, i),
    ensures
        forall|a: int| 0 <= a < s.len() ==> (#[trigger] s[a]).key@ != gs[i].key@,
{
    assert forall|a: int| 0 <= a < s.len() implies (#[trigger] s[a]).key@ != gs[i].key@ by {
        let q = choose|q: int| 0 <= q < i && (#[trigger] gs[q]).key@ == s[a].key@;
        assert(gs[q].key@ != gs[i].key@);
    }
}

#[verifier::rlimit(40)]
proof fn lemma_placed_ok(s: Seq<Prominent>, p: int, x: Prominent, w: Seq<FrameModel>, mp: nat, mh: nat)
    requires
        0 <= p <= s.len(),
        prominent_ok(x, w, mp, mh),
        all_ok(s, w, mp, mh),
    ensures
        all_ok(s.insert(p, x), w, mp, mh),
{
    let n = s.insert(p, x);
    assert forall|a: int| 0 <= a < n.len() implies prominent_ok(#[trigger] n[a], w, mp, mh) by {
        if a < p {
            assert(n[a] == s[a]);
        } else if a > p {
            assert(n[a] == s[a - 1]);
        }
    }
}

#[verifier::rlimit(40)]
proof fn lemma_placed_from(s: Seq<Prominent>, p: int, x: Prominent, gs: Seq<Group>, i: int)
    requires
        0 <= i < gs.len(),
        0 <= p <= s.len(),
        x.key@ == gs[i].key@,
        from_groups(s, gs, i),
    ensures
        from_groups(s.insert(p, x), gs, i + 1),
{
    let n = s.insert(p, x);
    assert forall|a: int| 0 <= a < n.len() implies exists|q: int| 0 <= q < i + 1 && (#[trigger] gs[q]).key@ == (#[trigger] n[a]).key@ by {
        if a < p {
            assert(n[a] == s[a]);
            let q = choose|q: int| 0 <= q < i && (#[trigger] gs[q]).key@ == s[a].key@;
            assert(gs[q].key@ == n[a].key@);
        } else if a > p {
            assert(n[a] == s[a - 1]);
            let q = choose|q: int| 0 <= q < i && (#[trigger] gs[q]).key@ == s[a - 1].key@;
            assert(gs[q].key@ == n[a].key@);
        } else {
            assert(gs[i].key@ == n[a].key@);
        }
    }
}

#[verifier::rlimit(40)]
proof fn lemma_placed_covered(
    s: Seq<Prominent>,
    p: int,
    x: Prominent,
    gs: Seq<Group>,
    i: int,
    w: Seq<FrameModel>,
    mp: nat,
    mh: nat,
)
    requires
        0 <= i < gs.len(),
        0 <= p <= s.len(),
        x.key@ == gs[i].key@,
        covered(s, gs, i, w, mp, mh),
    ensures
        covered(s.insert(p, x), gs, i + 1, w, mp, mh),
{
    let n = s.insert(p, x);
    assert forall|q: int|
        0 <= q < i + 1 && is_prominent(w, (#[trigger] gs[q]).key@, mp, mh) implies exists|a: int|
            0 <= a < n.len() && (#[trigger] n[a]).key@ == gs[q].key@ by {
        if q < i {
            let a = choose|a: int| 0 <= a < s.len() && (#[trigger] s[a]).key@ == gs[q].key@;
            if a < p {
                assert(n[a] == s[a]);
            } else {
                assert(n[a + 1] == s[a]);
            }
        } else {
            assert(n[p] == x);
        }
    }
}

proof fn lemma_skipped(s: Seq<Prominent>, gs: Seq<Group>, i: int, w: Seq<FrameModel>, mp: nat, mh: nat)
    requires
        0 <= i < gs.len(),
        !is_prominent(w, gs[i].key@, mp, mh),
        from_groups(s, gs, i),
        covered(s, gs, i, w, mp, mh),
    ensures
        from_groups(s, gs, i + 1),
        covered(s, gs, i + 1, w, mp, mh),
{
    assert forall|a: int| 0 <= a < s.len() implies exists|q: int| 0 <= q < i + 1 && (#[trigger] gs[q]).key@ == (#[trigger] s[a]).key@ by {
        let q = choose|q: int| 0 <= q < i && (#[trigger] gs[q]).key@ == s[a].key@;
    }
}

/// The prominent facts of a window of frames, sorted by key: each key read
/// in the window that stayed on screen for at least `min_persist_ms` (or, in
/// a window shorter than that, was on every frame of it) in text at least
/// `min_height_px` tall, with its first reading, the time from its first to
/// its last capture and its tallest text.
#[verifier::rlimit(40)]
pub fn prominent_facts(window: &[FrameFacts], min_persist_ms: u64, min_height_px: u32) -> (r: Vec<
    Prominent,
>)
    requires
        window_well_formed(window@),
    ensures
        sorted_by_key(r@),
        forall|i: int|
            0 <= i < r@.len() ==> prominent_ok(
                #[trigger] r@[i],
                frame_models(window@),
                min_persist_ms as nat,
                min_height_px as nat,
            ),
        forall|k: Seq<char>|
            #[trigger] is_prominent(frame_models(window@), k, min_persist_ms as nat, min_height_px as nat)
                ==> exists|i: int| 0 <= i < r@.len() && (#[trigger] r@[i]).key@ == k,
{
    let ghost w = frame_models(window@);
    let ghost mp = min_persist_ms as nat;
    let ghost mh = min_height_px as nat;
    let gs = group_window(window);
    let wspan: u64 = if window.len() == 0 || window[window.len() - 1].timestamp_ms
        < window[0].timestamp_ms {
        0
    } else {
        window[window.len() - 1].timestamp_ms - window[0].timestamp_ms
    };
    assert(wspan as nat == window_span(w)) by {
        if window@.len() > 0 {
            assert(w[0] == frame_model(window@[0]));
            assert(w.last() == frame_model(window@[window@.len() - 1]));
        }
    }
    let mut out: Vec<Prominent> = Vec::new();
    let mut i: usize = 0;
    while i < gs.len()
        invariant
            i <= gs@.len(),
            w == frame_models(window@),
            mp == min_persist_ms as nat,
            mh == min_height_px as nat,
            wspan as nat == window_span(w),
            groups_ok(gs@, w),
            sorted_by_key(out@),
            all_ok(out@, w, mp, mh),
            from_groups(out@, gs@, i as int),
            covered(out@, gs@, i as int, w, mp, mh),
        decreases gs.len() - i,
    {
        let g = &gs[i];
        assert(group_ok(gs@[i as int], w));
        proof {
            lemma_absent(w, g.key@);
        }
        let span = group_span(&g.times);
        let n = g.times.len();
        assert(n == times_of(w, g.key@).len());
        let window_len = window.len();
        assert(window_len == w.len());
        let persists = span >= min_persist_ms || (wspan < min_persist_ms && n == window_len);
        let keep = persists && g.height >= min_height_px;
        assert(keep == is_prominent(w, g.key@, mp, mh));
        if keep {
            let x = Prominent {
                key: string_from_chars(g.key.as_slice()),
                fact: copy_fact(&g.fact),
                persist_ms: span,
                height_px: g.height,
            };
            assert(prominent_ok(x, w, mp, mh));
            let ghost before = out@;
            proof {
                lemma_fresh_key(before, gs@, i as int, w);
            }
            let p = insert_sorted(&mut out, x);
            proof {
                lemma_placed_ok(before, p as int, x, w, mp, mh);
                lemma_placed_from(before, p as int, x, gs@, i as int);
                lemma_placed_covered(before, p as int, x, gs@, i as int, w, mp, mh);
            }
        } else {
            proof {
                lemma_skipped(out@, gs@, i as int, w, mp, mh);
            }
        }
        i = i + 1;
    }
    proof {
        assert forall|k: Seq<char>| #[trigger] is_prominent(w, k, mp, mh) implies exists|a: int|
            0 <= a < out@.len() && (#[trigger] out@[a]).key@ == k by {
            let q = choose|q: int| 0 <= q < gs@.len() && (#[trigger] gs@[q]).key@ == k;
            assert(is_prominent(w, gs@[q].key@, mp, mh));
        }
    }
    out
}

} // verus!
