//! Pieces of the labelling sheet: the items shown, their deterministic
//! order, thumbnail choice and HTML escaping.

use vstd::prelude::*;
use crate::text::{push_str_chars, str_chars};
use crate::digits::{decimal, push_decimal};
use crate::fidelity::{
    colons_as_dashes, display_of, fact_display, ReferenceFact, SegmentFidelity, StatedFact,
};
use crate::text::chars_eq;
use crate::types::Segment;
use crate::vision::{base64_standard, encode_base64};

verus! {

/// One item put in front of the person labelling.
#[derive(Debug, Clone, PartialEq)]
pub struct ReviewItem {
    pub id: String,
    pub segment: usize,
    /// `stated` (the description said it) or `missed` (on screen, not said).
    pub kind: String,
    pub key: String,
    pub display: String,
    /// `supported`, `unsupported` or `missed`.
    pub metric: String,
    pub matched: Option<String>,
}

/// A file of judgments made on the sheet.
#[derive(Debug, Clone)]
pub struct LabelFile {
    pub items: Vec<Label>,
}

/// One judgment: `yes`, `no` or `unsure` for the item `id`.
#[derive(Debug, Clone)]
pub struct Label {
    pub id: String,
    pub kind: String,
    pub metric: String,
    pub human: String,
}

// ---------------------------------------------------------------- shuffling

/// One step of the generator the shuffle draws from.
#[verifier::opaque]
pub open spec fn lcg_next(x: u64) -> u64 {
    x.wrapping_mul(6364136223846793005).wrapping_add(1442695040888963407)
}

/// `v` with the elements at `i` and `j` exchanged.
pub open spec fn swapped<T>(v: Seq<T>, i: int, j: int) -> Seq<T> {
    v.update(i, v[j]).update(j, v[i])
}

/// The position drawn for step `i` from generator state `x`.
#[verifier::opaque]
pub open spec fn draw(x: u64, i: nat) -> int {
    ((x >> 33u64) as usize % (i + 1) as usize) as int
}

/// The Fisher-Yates passes from position `i` down to 1, the generator at `x`
/// before the first draw.
pub open spec fn shuffle_from<T>(v: Seq<T>, x: u64, i: nat) -> Seq<T>
    decreases i,
{
    if i == 0 {
        v
    } else {
        let x2 = lcg_next(x);
        shuffle_from(swapped(v, i as int, draw(x2, i)), x2, (i - 1) as nat)
    }
}

/// The order a seed gives a sequence.
pub open spec fn shuffled<T>(v: Seq<T>, seed: u64) -> Seq<T> {
    if v.len() <= 1 {
        v
    } else {
        shuffle_from(v, lcg_next(seed), (v.len() - 1) as nat)
    }
}

/// `p` rearranges `inp` into `out`, using each position of `inp` once.
#[verifier::opaque]
pub open spec fn permutes<T>(out: Seq<T>, inp: Seq<T>, p: Seq<int>) -> bool {
    &&& p.len() == out.len() == inp.len()
    &&& forall|k: int| 0 <= k < p.len() ==> 0 <= #[trigger] p[k] < inp.len() && out[k] == inp[p[k]]
    &&& forall|a: int, b: int| 0 <= a < b < p.len() ==> p[a] != p[b]
}

/// The generator's next state.
fn next_state(x: u64) -> (y: u64)
    ensures
        y == lcg_next(x),
{
    reveal(lcg_next);
    x.wrapping_mul(6364136223846793005).wrapping_add(1442695040888963407)
}

/// The position drawn for step `i`.
fn draw_index(x: u64, i: usize) -> (j: usize)
    requires
        i < usize::MAX,
    ensures
        j == draw(x, i as nat),
        j <= i,
{
    reveal(draw);
    (x >> 33) as usize % (i + 1)
}

/// Exchanges the elements at `i` and `j`.
fn swap_at<T>(v: &mut Vec<T>, i: usize, j: usize)
    requires
        j <= i < old(v)@.len(),
    ensures
        final(v)@ == swapped(old(v)@, i as int, j as int),
{
    if i == j {
        assert(swapped(old(v)@, i as int, j as int) =~= old(v)@);
        return;
    }
    let a = v.remove(i);
    let b = v.remove(j);
    v.insert(j, a);
    v.insert(i, b);
    assert(v@ =~= swapped(old(v)@, i as int, j as int));
}

/// Exchanging two elements keeps a rearrangement a rearrangement.
proof fn lemma_swap_permutes<T>(out: Seq<T>, inp: Seq<T>, p: Seq<int>, i: int, j: int)
    requires
        permutes(out, inp, p),
        0 <= j <= i < out.len(),
    ensures
        permutes(swapped(out, i, j), inp, swapped(p, i, j)),
{
    reveal(permutes);
    let no = swapped(out, i, j);
    let np = swapped(p, i, j);
    assert forall|k: int| 0 <= k < np.len() implies 0 <= #[trigger] np[k] < inp.len() && no[k]
        == inp[np[k]] by {
        if k == j {
            assert(no[k] == out[i] && np[k] == p[i]);
        } else if k == i {
            assert(no[k] == out[j] && np[k] == p[j]);
        } else {
            assert(no[k] == out[k] && np[k] == p[k]);
        }
    }
    assert forall|a: int, b: int| 0 <= a < b < np.len() implies np[a] != np[b] by {
        let fa = if a == j {
            i
        } else if a == i {
            j
        } else {
            a
        };
        let fb = if b == j {
            i
        } else if b == i {
            j
        } else {
            b
        };
        assert(np[a] == p[fa]);
        assert(np[b] == p[fb]);
        if fa < fb {
            assert(p[fa] != p[fb]);
        } else {
            assert(p[fb] != p[fa]);
        }
    }
}

/// Shuffles `v` deterministically: the same seed always gives the same order.
pub fn shuffle<T>(v: &mut Vec<T>, seed: u64)
    ensures
        final(v)@ == shuffled(old(v)@, seed),
        exists|p: Seq<int>| permutes(final(v)@, old(v)@, p),
{
    let ghost orig = v@;
    let ghost mut p: Seq<int> = Seq::new(v@.len(), |k: int| k);
    assert(permutes(v@, orig, p)) by {
        reveal(permutes);
    }
    if v.len() <= 1 {
        return;
    }
    let mut x = next_state(seed);
    let mut i: usize = v.len() - 1;
    while i > 0
        invariant
            i < orig.len() <= usize::MAX,
            v@.len() == orig.len(),
            shuffled(orig, seed) == shuffle_from(v@, x, i as nat),
            permutes(v@, orig, p),
        decreases i,
    {
        let ghost xo = x;
        x = next_state(x);
        let j = draw_index(x, i);
        let ghost before = v@;
        proof {
            lemma_swap_permutes(v@, orig, p, i as int, j as int);
            p = swapped(p, i as int, j as int);
            assert(shuffle_from(before, xo, i as nat) == shuffle_from(
                swapped(before, i as int, j as int),
                x,
                (i - 1) as nat,
            ));
        }
        swap_at(v, i, j);
        i = i - 1;
    }
}

// ---------------------------------------------------------------- escaping

/// The HTML text for one character.
pub open spec fn escape_char(c: char) -> Seq<char> {
    if c == '&' {
        "&amp;"@
    } else if c == '<' {
        "&lt;"@
    } else if c == '>' {
        "&gt;"@
    } else if c == '"' {
        "&quot;"@
    } else {
        seq![c]
    }
}

/// `s` made safe to place in HTML text and attribute values.
pub open spec fn escaped(s: Seq<char>) -> Seq<char>
    decreases s.len(),
{
    if s.len() == 0 {
        Seq::<char>::empty()
    } else {
        escaped(s.drop_last()) + escape_char(s.last())
    }
}

/// Escapes `&`, `<`, `>` and `"` for HTML.
pub fn esc(s: &str) -> (r: String)
    ensures
        r@ == escaped(s@),
{
    let cs = str_chars(s);
    let mut r = String::new();
    let mut i: usize = 0;
    while i < cs.len()
        invariant
            i <= cs.len(),
            cs@ == s@,
            r@ == escaped(cs@.take(i as int)),
        decreases cs.len() - i,
    {
        let c = cs[i];
        assert(cs@.take(i + 1).drop_last() == cs@.take(i as int));
        assert(cs@.take(i + 1).last() == c);
        if c == '&' {
            crate::text::push_str_chars(&mut r, "&amp;");
        } else if c == '<' {
            crate::text::push_str_chars(&mut r, "&lt;");
        } else if c == '>' {
            crate::text::push_str_chars(&mut r, "&gt;");
        } else if c == '"' {
            crate::text::push_str_chars(&mut r, "&quot;");
        } else {
            r.push(c);
        }
        i = i + 1;
    }
    assert(cs@.take(cs.len() as int) == cs@);
    r
}

// ---------------------------------------------------------------- thumbnails

/// The positions of the frames shown for a segment: all of them when there
/// are at most `n`, else `n` spread evenly from first to last.
pub open spec fn thumb_positions(len: nat, n: nat) -> Seq<int> {
    if len <= n {
        Seq::new(len, |i: int| i)
    } else {
        let d = if n > 1 {
            n - 1
        } else {
            1
        };
        Seq::new(n, |i: int| i * (len - 1) / d)
    }
}

/// Picks up to `n` thumbnails spread across a segment's frames.
pub fn pick_thumbs(frames: &[String], n: usize) -> (r: Vec<&String>)
    requires
        frames.len() <= n || n * frames.len() <= usize::MAX,
    ensures
        r@.len() == thumb_positions(frames@.len(), n as nat).len(),
        forall|k: int|
            0 <= k < r@.len() ==> 0 <= #[trigger] thumb_positions(frames@.len(), n as nat)[k]
                < frames@.len() && *r@[k] == frames@[thumb_positions(frames@.len(), n as nat)[k]],
{
    let len = frames.len();
    let mut r: Vec<&String> = Vec::new();
    if len <= n {
        let mut i: usize = 0;
        while i < len
            invariant
                i <= len == frames@.len() <= n,
                r@.len() == i,
                forall|k: int| 0 <= k < i ==> *#[trigger] r@[k] == frames@[k],
            decreases len - i,
        {
            r.push(&frames[i]);
            i = i + 1;
        }
        return r;
    }
    let d: usize = if n > 1 {
        n - 1
    } else {
        1
    };
    let mut i: usize = 0;
    while i < n
        invariant
            n < len == frames@.len(),
            n * len <= usize::MAX,
            d == (if n > 1 {
                n - 1
            } else {
                1
            }),
            i <= n,
            r@.len() == i,
            forall|k: int|
                0 <= k < i ==> 0 <= #[trigger] thumb_positions(len as nat, n as nat)[k] < len
                    && *r@[k] == frames@[thumb_positions(len as nat, n as nat)[k]],
        decreases n - i,
    {
        assert(i * (len - 1) <= n * len) by (nonlinear_arith)
            requires
                i < n,
                n < len,
        ;
        let q = i * (len - 1) / d;
        assert(q < len) by (nonlinear_arith)
            requires
                q as int == (i * (len - 1)) as int / d as int,
                i < n,
                n < len,
                d == (if n > 1 {
                    n - 1
                } else {
                    1
                }),
        ;
        r.push(&frames[q]);
        i = i + 1;
    }
    r
}

} // verus!

verus! {

// ---------------------------------------------------------------- label tally

/// What the judgments say, counted: for each judged stated fact the
/// metric's verdict and the person's; how often they disagreed each way;
/// how many missed facts were judged and how many of them mattered; and the
/// items where the two disagreed.
#[derive(Debug, Clone)]
pub struct LabelTally {
    pub pairs: Vec<(bool, bool)>,
    pub false_hallucinations: usize,
    pub missed_hallucinations: usize,
    pub labelled_missed: usize,
    pub missed_that_matter: usize,
    pub disagreements: Vec<String>,
}

/// The tally as plain values.
pub struct TallyView {
    pub pairs: Seq<(bool, bool)>,
    pub false_hallucinations: nat,
    pub missed_hallucinations: nat,
    pub labelled_missed: nat,
    pub missed_that_matter: nat,
    pub disagreements: Seq<Seq<char>>,
}

/// The tally of a list of judgments: `unsure` ones are skipped; a stated
/// fact pairs the metric's `supported` with the person's `yes`; a missed
/// fact counts as mattering when the person said `yes`; other kinds count
/// for nothing.
pub open spec fn tally_of(items: Seq<Label>) -> TallyView
    decreases items.len(),
{
    if items.len() == 0 {
        TallyView {
            pairs: Seq::empty(),
            false_hallucinations: 0,
            missed_hallucinations: 0,
            labelled_missed: 0,
            missed_that_matter: 0,
            disagreements: Seq::empty(),
        }
    } else {
        let t = tally_of(items.drop_last());
        let l = items.last();
        let human_yes = l.human@ == "yes"@;
        if l.human@ == "unsure"@ {
            t
        } else if l.kind@ == "stated"@ {
            let metric_yes = l.metric@ == "supported"@;
            TallyView {
                pairs: t.pairs.push((metric_yes, human_yes)),
                false_hallucinations: t.false_hallucinations + if !metric_yes && human_yes {
                    1nat
                } else {
                    0nat
                },
                missed_hallucinations: t.missed_hallucinations + if metric_yes && !human_yes {
                    1nat
                } else {
                    0nat
                },
                disagreements: if metric_yes != human_yes {
                    t.disagreements.push(l.id@)
                } else {
                    t.disagreements
                },
                ..t
            }
        } else if l.kind@ == "missed"@ {
            TallyView {
                labelled_missed: t.labelled_missed + 1,
                missed_that_matter: t.missed_that_matter + if human_yes {
                    1nat
                } else {
                    0nat
                },
                ..t
            }
        } else {
            t
        }
    }
}

pub open spec fn tally_view(t: LabelTally) -> TallyView {
    TallyView {
        pairs: t.pairs@,
        false_hallucinations: t.false_hallucinations as nat,
        missed_hallucinations: t.missed_hallucinations as nat,
        labelled_missed: t.labelled_missed as nat,
        missed_that_matter: t.missed_that_matter as nat,
        disagreements: crate::text::string_views(t.disagreements@),
    }
}

pub proof fn lemma_tally_bounds(items: Seq<Label>)
    ensures
        tally_of(items).pairs.len() + tally_of(items).labelled_missed <= items.len(),
        tally_of(items).false_hallucinations <= tally_of(items).pairs.len(),
        tally_of(items).missed_hallucinations <= tally_of(items).pairs.len(),
        tally_of(items).missed_that_matter <= tally_of(items).labelled_missed,
    decreases items.len(),
{
    if items.len() > 0 {
        lemma_tally_bounds(items.drop_last());
    }
}

/// A judgment that is not `unsure`.
pub open spec fn is_judged(l: Label) -> bool {
    l.human@ != "unsure"@
}

/// `unsure` judgments count for nothing: the tally of a file is the tally of
/// its other judgments alone.
pub proof fn lemma_unsure_counts_for_nothing(items: Seq<Label>)
    ensures
        tally_of(items) == tally_of(items.filter(|l: Label| is_judged(l))),
    decreases items.len(),
{
    reveal(Seq::filter);
    if items.len() > 0 {
        let f = |l: Label| is_judged(l);
        lemma_unsure_counts_for_nothing(items.drop_last());
        let sub = items.drop_last().filter(f);
        if f(items.last()) {
            let g = sub.push(items.last());
            assert(g.drop_last() == sub);
            assert(g.last() == items.last());
        }
    }
}

/// Every missed fact judged `yes` or `no` (anything but `unsure`) is counted
/// as judged, and those judged `yes` as mattering; nothing else is.
pub proof fn lemma_labelled_missed_counts_judged_missed(items: Seq<Label>)
    ensures
        tally_of(items).labelled_missed == items.filter(
            |l: Label| l.kind@ == "missed"@ && is_judged(l),
        ).len(),
        tally_of(items).missed_that_matter == items.filter(
            |l: Label| l.kind@ == "missed"@ && is_judged(l) && l.human@ == "yes"@,
        ).len(),
    decreases items.len(),
{
    reveal(Seq::filter);
    reveal_strlit("stated");
    reveal_strlit("missed");
    reveal_strlit("unsure");
    reveal_strlit("yes");
    assert("stated"@ != "missed"@) by {
        assert("stated"@[0] != "missed"@[0]);
    }
    assert("yes"@ != "unsure"@) by {
        assert("yes"@[0] != "unsure"@[0]);
    }
    if items.len() > 0 {
        lemma_labelled_missed_counts_judged_missed(items.drop_last());
    }
}

/// Counts the judgments of a labels file.
pub fn tally_labels(labels: &LabelFile) -> (t: LabelTally)
    ensures
        tally_view(t) == tally_of(labels.items@),
        tally_view(t) == tally_of(labels.items@.filter(|l: Label| is_judged(l))),
        t.labelled_missed == labels.items@.filter(|l: Label| l.kind@ == "missed"@ && is_judged(l)).len(),
{
    proof {
        lemma_unsure_counts_for_nothing(labels.items@);
        lemma_labelled_missed_counts_judged_missed(labels.items@);
    }
    let items = &labels.items;
    let mut t = LabelTally {
        pairs: Vec::new(),
        false_hallucinations: 0,
        missed_hallucinations: 0,
        labelled_missed: 0,
        missed_that_matter: 0,
        disagreements: Vec::new(),
    };
    let mut i: usize = 0;
    proof {
        assert(crate::text::string_views(t.disagreements@) =~= Seq::<Seq<char>>::empty());
        assert(items@.take(0) =~= Seq::<Label>::empty());
    }
    while i < items.len()
        invariant
            i <= items@.len(),
            tally_view(t) == tally_of(items@.take(i as int)),
        decreases items@.len() - i,
    {
        let l = &items[i];
        proof {
            assert(items@.take(i + 1).drop_last() == items@.take(i as int));
            assert(items@.take(i + 1).last() == items@[i as int]);
            lemma_tally_bounds(items@.take(i as int));
        }
        let human_yes = crate::config::str_eq(l.human.as_str(), "yes");
        if !crate::config::str_eq(l.human.as_str(), "unsure") {
            if crate::config::str_eq(l.kind.as_str(), "stated") {
                let metric_yes = crate::config::str_eq(l.metric.as_str(), "supported");
                t.pairs.push((metric_yes, human_yes));
                if metric_yes != human_yes {
                    let ghost before = t.disagreements@;
                    t.disagreements.push(l.id.clone());
                    assert(crate::text::string_views(t.disagreements@) =~= crate::text::string_views(
                        before,
                    ).push(l.id@));
                }
                if !metric_yes && human_yes {
                    t.false_hallucinations = t.false_hallucinations + 1;
                }
                if metric_yes && !human_yes {
                    t.missed_hallucinations = t.missed_hallucinations + 1;
                }
            } else if crate::config::str_eq(l.kind.as_str(), "missed") {
                t.labelled_missed = t.labelled_missed + 1;
                if human_yes {
                    t.missed_that_matter = t.missed_that_matter + 1;
                }
            }
        }
        i = i + 1;
    }
    assert(items@.take(items@.len() as int) == items@);
    t
}


// ---------------------------------------------------------------- sampling

/// A review item as plain values.
pub struct ItemModel {
    pub id: Seq<char>,
    pub segment: nat,
    pub kind: Seq<char>,
    pub key: Seq<char>,
    pub display: Seq<char>,
    pub metric: Seq<char>,
    pub matched: Option<Seq<char>>,
}

pub open spec fn opt_view(o: Option<String>) -> Option<Seq<char>> {
    match o {
        Some(s) => Some(s@),
        None => None,
    }
}

impl View for ReviewItem {
    type V = ItemModel;

    open spec fn view(&self) -> ItemModel {
        ItemModel {
            id: self.id@,
            segment: self.segment as nat,
            kind: self.kind@,
            key: self.key@,
            display: self.display@,
            metric: self.metric@,
            matched: opt_view(self.matched),
        }
    }
}

pub open spec fn item_models(v: Seq<ReviewItem>) -> Seq<ItemModel> {
    v.map_values(|r: ReviewItem| r@)
}

/// The item for a stated fact of segment `si`: id `s<si>:<key>`.
pub open spec fn stated_item(si: nat, f: StatedFact) -> ItemModel {
    ItemModel {
        id: seq!['s'] + decimal(si) + seq![':'] + f.key@,
        segment: si,
        kind: "stated"@,
        key: f.key@,
        display: display_of(f.fact@),
        metric: if f.supported {
            "supported"@
        } else {
            "unsupported"@
        },
        matched: opt_view(f.matched),
    }
}

/// The item for a prominent fact of segment `si` that went unmentioned: id
/// `m<si>:<key>`.
pub open spec fn missed_item(si: nat, p: ReferenceFact) -> ItemModel {
    ItemModel {
        id: seq!['m'] + decimal(si) + seq![':'] + p.key@,
        segment: si,
        kind: "missed"@,
        key: p.key@,
        display: display_of(p.fact@),
        metric: "missed"@,
        matched: None,
    }
}

/// The items of the stated facts of segment `si` with the given verdict.
pub open spec fn stated_items(si: nat, fs: Seq<StatedFact>, supported: bool) -> Seq<ItemModel>
    decreases fs.len(),
{
    if fs.len() == 0 {
        Seq::empty()
    } else {
        let r = stated_items(si, fs.drop_last(), supported);
        if fs.last().supported == supported {
            r.push(stated_item(si, fs.last()))
        } else {
            r
        }
    }
}

/// The items of the unmentioned prominent facts of segment `si`.
pub open spec fn missed_items(si: nat, ps: Seq<ReferenceFact>) -> Seq<ItemModel>
    decreases ps.len(),
{
    if ps.len() == 0 {
        Seq::empty()
    } else {
        let r = missed_items(si, ps.drop_last());
        if !ps.last().mentioned {
            r.push(missed_item(si, ps.last()))
        } else {
            r
        }
    }
}

/// Stated-fact items with the given verdict, segment by segment.
pub open spec fn stated_pool(segs: Seq<SegmentFidelity>, supported: bool) -> Seq<ItemModel>
    decreases segs.len(),
{
    if segs.len() == 0 {
        Seq::empty()
    } else {
        stated_pool(segs.drop_last(), supported) + stated_items(
            (segs.len() - 1) as nat,
            segs.last().stated@,
            supported,
        )
    }
}

/// Missed-fact items, segment by segment.
pub open spec fn missed_pool(segs: Seq<SegmentFidelity>) -> Seq<ItemModel>
    decreases segs.len(),
{
    if segs.len() == 0 {
        Seq::empty()
    } else {
        missed_pool(segs.drop_last()) + missed_items(
            (segs.len() - 1) as nat,
            segs.last().prominent@,
        )
    }
}

/// How many items of `out` belong to segment `s`.
pub open spec fn seg_count(out: Seq<ItemModel>, s: nat) -> nat
    decreases out.len(),
{
    if out.len() == 0 {
        0
    } else {
        seg_count(out.drop_last(), s) + if out.last().segment == s {
            1nat
        } else {
            0nat
        }
    }
}

/// Appends `items` in order until `out` holds `limit` items, skipping any
/// whose segment already has `cap` items.
pub open spec fn take_items(items: Seq<ItemModel>, limit: nat, cap: nat, out: Seq<ItemModel>) -> Seq<
    ItemModel,
>
    decreases items.len(),
{
    if items.len() == 0 || out.len() >= limit {
        out
    } else if seg_count(out, items[0].segment) < cap {
        take_items(items.drop_first(), limit, cap, out.push(items[0]))
    } else {
        take_items(items.drop_first(), limit, cap, out)
    }
}

/// The disagreement-first sample: first the stated facts judged unsupported,
/// then supported ones until two thirds of the sample is filled, then missed
/// facts; each group in the order its own seed shuffles it, no segment given
/// more than `cap` items.
pub open spec fn selection(segs: Seq<SegmentFidelity>, sample: nat, seed: u64, cap: nat) -> Seq<
    ItemModel,
> {
    let u = shuffled(stated_pool(segs, false), seed);
    let s = shuffled(stated_pool(segs, true), seed ^ 0x9e37_79b9u64);
    let m = shuffled(missed_pool(segs), seed ^ 0x7f4a_7c15u64);
    take_items(
        m,
        sample,
        cap,
        take_items(s, sample * 2 / 3, cap, take_items(u, sample, cap, Seq::empty())),
    )
}

proof fn lemma_models_swapped(v: Seq<ReviewItem>, i: int, j: int)
    requires
        0 <= i < v.len(),
        0 <= j < v.len(),
    ensures
        item_models(swapped(v, i, j)) == swapped(item_models(v), i, j),
{
    assert(item_models(swapped(v, i, j)) =~= swapped(item_models(v), i, j));
}

proof fn lemma_models_shuffle_from(v: Seq<ReviewItem>, x: u64, i: nat)
    requires
        i < v.len() <= usize::MAX,
    ensures
        item_models(shuffle_from(v, x, i)) == shuffle_from(item_models(v), x, i),
    decreases i,
{
    if i > 0 {
        let x2 = lcg_next(x);
        let j = draw(x2, i);
        assert(0 <= j <= i) by {
            reveal(draw);
        }
        lemma_models_swapped(v, i as int, j);
        lemma_models_shuffle_from(swapped(v, i as int, j), x2, (i - 1) as nat);
    }
}

proof fn lemma_models_shuffled(v: Seq<ReviewItem>, seed: u64)
    requires
        v.len() <= usize::MAX,
    ensures
        item_models(shuffled(v, seed)) == shuffled(item_models(v), seed),
{
    if v.len() > 1 {
        lemma_models_shuffle_from(v, lcg_next(seed), (v.len() - 1) as nat);
    }
}

/// A segment never gets more than `cap` items, and `limit` is never passed.
proof fn lemma_take_items_bounds(items: Seq<ItemModel>, limit: nat, cap: nat, out: Seq<ItemModel>)
    ensures
        take_items(items, limit, cap, out).len() <= if out.len() > limit {
            out.len()
        } else {
            limit
        },
        forall|s: nat|
            #![trigger seg_count(take_items(items, limit, cap, out), s)]
            seg_count(take_items(items, limit, cap, out), s) <= if seg_count(out, s) > cap {
                seg_count(out, s)
            } else {
                cap
            },
    decreases items.len(),
{
    if items.len() == 0 || out.len() >= limit {
    } else {
        let it = items[0];
        if seg_count(out, it.segment) < cap {
            let o2 = out.push(it);
            assert(o2.drop_last() == out);
            lemma_take_items_bounds(items.drop_first(), limit, cap, o2);
            assert forall|s: nat| seg_count(o2, s) <= if seg_count(out, s) > cap {
                seg_count(out, s)
            } else {
                cap
            } by {}
        } else {
            lemma_take_items_bounds(items.drop_first(), limit, cap, out);
        }
    }
}

fn copy_opt(o: &Option<String>) -> (r: Option<String>)
    ensures
        opt_view(r) == opt_view(*o),
{
    match o {
        Some(m) => Some(m.clone()),
        None => None,
    }
}

fn duplicate_item(it: &ReviewItem) -> (r: ReviewItem)
    ensures
        r@ == it@,
{
    ReviewItem {
        id: it.id.clone(),
        segment: it.segment,
        kind: it.kind.clone(),
        key: it.key.clone(),
        display: it.display.clone(),
        metric: it.metric.clone(),
        matched: copy_opt(&it.matched),
    }
}

fn stated_review_item(si: usize, f: &StatedFact) -> (r: ReviewItem)
    ensures
        r@ == stated_item(si as nat, *f),
{
    let mut id = String::new();
    id.push('s');
    push_decimal(&mut id, si as u64);
    id.push(':');
    push_str_chars(&mut id, f.key.as_str());
    assert(id@ =~= seq!['s'] + decimal(si as nat) + seq![':'] + f.key@);
    let metric = if f.supported {
        "supported".to_owned()
    } else {
        "unsupported".to_owned()
    };
    ReviewItem {
        id,
        segment: si,
        kind: "stated".to_owned(),
        key: f.key.clone(),
        display: fact_display(&f.fact),
        metric,
        matched: copy_opt(&f.matched),
    }
}

fn missed_review_item(si: usize, p: &ReferenceFact) -> (r: ReviewItem)
    ensures
        r@ == missed_item(si as nat, *p),
{
    let mut id = String::new();
    id.push('m');
    push_decimal(&mut id, si as u64);
    id.push(':');
    push_str_chars(&mut id, p.key.as_str());
    assert(id@ =~= seq!['m'] + decimal(si as nat) + seq![':'] + p.key@);
    ReviewItem {
        id,
        segment: si,
        kind: "missed".to_owned(),
        key: p.key.clone(),
        display: fact_display(&p.fact),
        metric: "missed".to_owned(),
        matched: None,
    }
}

/// The three candidate groups: unsupported stated facts, supported ones and
/// missed prominent facts, segment by segment.
#[verifier::rlimit(40)]
fn collect_pools(segs: &[SegmentFidelity]) -> (r: (Vec<ReviewItem>, Vec<ReviewItem>, Vec<ReviewItem>))
    ensures
        item_models(r.0@) == stated_pool(segs@, false),
        item_models(r.1@) == stated_pool(segs@, true),
        item_models(r.2@) == missed_pool(segs@),
{
    let mut unsupported: Vec<ReviewItem> = Vec::new();
    let mut supported: Vec<ReviewItem> = Vec::new();
    let mut missed: Vec<ReviewItem> = Vec::new();
    let mut si: usize = 0;
    assert(segs@.take(0) =~= Seq::<SegmentFidelity>::empty());
    assert(item_models(unsupported@) =~= Seq::<ItemModel>::empty());
    assert(item_models(supported@) =~= Seq::<ItemModel>::empty());
    assert(item_models(missed@) =~= Seq::<ItemModel>::empty());
    while si < segs.len()
        invariant
            si <= segs.len(),
            item_models(unsupported@) == stated_pool(segs@.take(si as int), false),
            item_models(supported@) == stated_pool(segs@.take(si as int), true),
            item_models(missed@) == missed_pool(segs@.take(si as int)),
        decreases segs.len() - si,
    {
        let seg = &segs[si];
        let ghost u0 = item_models(unsupported@);
        let ghost s0 = item_models(supported@);
        let ghost m0 = item_models(missed@);
        let mut j: usize = 0;
        assert(seg.stated@.take(0) =~= Seq::<StatedFact>::empty());
        assert(u0 + stated_items(si as nat, seg.stated@.take(0), false) =~= u0);
        assert(s0 + stated_items(si as nat, seg.stated@.take(0), true) =~= s0);
        while j < seg.stated.len()
            invariant
                j <= seg.stated@.len(),
                item_models(unsupported@) == u0 + stated_items(si as nat, seg.stated@.take(j as int), false),
                item_models(supported@) == s0 + stated_items(si as nat, seg.stated@.take(j as int), true),
            decreases seg.stated.len() - j,
        {
            let f = &seg.stated[j];
            let it = stated_review_item(si, f);
            let ghost t = seg.stated@.take(j + 1);
            assert(t.drop_last() == seg.stated@.take(j as int));
            assert(t.last() == *f);
            let ghost pu = stated_items(si as nat, t.drop_last(), false);
            let ghost ps = stated_items(si as nat, t.drop_last(), true);
            let ghost bu = item_models(unsupported@);
            let ghost bs = item_models(supported@);
            assert(bu == u0 + pu);
            assert(bs == s0 + ps);
            let ghost x = it@;
            assert(x == stated_item(si as nat, t.last()));
            if f.supported {
                supported.push(it);
                assert(item_models(supported@) =~= bs.push(x));
                assert(stated_items(si as nat, t, true) == ps.push(x));
                assert(stated_items(si as nat, t, false) == pu);
                assert(item_models(supported@) =~= s0 + stated_items(si as nat, t, true));
                assert(item_models(unsupported@) =~= u0 + stated_items(si as nat, t, false));
            } else {
                unsupported.push(it);
                assert(item_models(unsupported@) =~= bu.push(x));
                assert(stated_items(si as nat, t, false) == pu.push(x));
                assert(stated_items(si as nat, t, true) == ps);
                assert(item_models(supported@) =~= s0 + stated_items(si as nat, t, true));
                assert(item_models(unsupported@) =~= u0 + stated_items(si as nat, t, false));
            }
            j = j + 1;
            assert(t == seg.stated@.take(j as int));
        }
        let mut k: usize = 0;
        assert(seg.prominent@.take(0) =~= Seq::<ReferenceFact>::empty());
        assert(m0 + missed_items(si as nat, seg.prominent@.take(0)) =~= m0);
        while k < seg.prominent.len()
            invariant
                k <= seg.prominent@.len(),
                item_models(missed@) == m0 + missed_items(si as nat, seg.prominent@.take(k as int)),
            decreases seg.prominent.len() - k,
        {
            let p = &seg.prominent[k];
            let ghost t = seg.prominent@.take(k + 1);
            assert(t.drop_last() == seg.prominent@.take(k as int));
            assert(t.last() == *p);
            let ghost pm = missed_items(si as nat, t.drop_last());
            let ghost bm = item_models(missed@);
            assert(bm == m0 + pm);
            if !p.mentioned {
                let it = missed_review_item(si, p);
                let ghost x = it@;
                missed.push(it);
                assert(item_models(missed@) =~= bm.push(x));
                assert(missed_items(si as nat, t) == pm.push(x));
                assert(item_models(missed@) =~= m0 + missed_items(si as nat, t));
            } else {
                assert(missed_items(si as nat, t) == pm);
            }
            k = k + 1;
            assert(t == seg.prominent@.take(k as int));
        }
        assert(seg.stated@.take(seg.stated@.len() as int) == seg.stated@);
        assert(seg.prominent@.take(seg.prominent@.len() as int) == seg.prominent@);
        let ghost nt = segs@.take(si + 1);
        assert(nt.drop_last() == segs@.take(si as int));
        assert(nt.last() == *seg);
        si = si + 1;
    }
    assert(segs@.take(segs.len() as int) == segs@);
    (unsupported, supported, missed)
}

/// How many items of `out` belong to segment `s`.
fn count_segment(out: &Vec<ReviewItem>, s: usize) -> (n: usize)
    ensures
        n == seg_count(item_models(out@), s as nat),
{
    let ghost om = item_models(out@);
    let mut n: usize = 0;
    let mut k: usize = 0;
    assert(om.take(0) =~= Seq::<ItemModel>::empty());
    while k < out.len()
        invariant
            k <= out.len(),
            om == item_models(out@),
            n == seg_count(om.take(k as int), s as nat),
            n <= k,
        decreases out.len() - k,
    {
        assert(om.take(k + 1).drop_last() == om.take(k as int));
        assert(om.take(k + 1).last() == out@[k as int]@);
        if out[k].segment == s {
            n = n + 1;
        }
        k = k + 1;
    }
    assert(om.take(out.len() as int) == om);
    n
}

/// Appends `items` to `out` as `take_items` describes.
#[verifier::rlimit(40)]
fn take_into(items: Vec<ReviewItem>, limit: usize, cap: usize, out: &mut Vec<ReviewItem>)
    ensures
        item_models(final(out)@) == take_items(
            item_models(items@),
            limit as nat,
            cap as nat,
            item_models(old(out)@),
        ),
{
    let ghost im = item_models(items@);
    let mut i: usize = 0;
    assert(im.skip(0) == im);
    while i < items.len()
        invariant
            i <= items.len(),
            im == item_models(items@),
            take_items(im, limit as nat, cap as nat, item_models(old(out)@)) == take_items(
                im.skip(i as int),
                limit as nat,
                cap as nat,
                item_models(out@),
            ),
        decreases items.len() - i,
    {
        if out.len() >= limit {
            return;
        }
        let ghost rest = im.skip(i as int);
        assert(rest[0] == items@[i as int]@);
        assert(rest.drop_first() == im.skip(i + 1));
        let n = count_segment(out, items[i].segment);
        if n < cap {
            let it = duplicate_item(&items[i]);
            let ghost before = item_models(out@);
            out.push(it);
            assert(item_models(out@) =~= before.push(it@));
        }
        i = i + 1;
    }
    assert(im.skip(i as int).len() == 0);
}

/// `select_items_capped` with no cap per segment.
pub fn select_items(segments: &[SegmentFidelity], sample: usize, seed: u64) -> (out: Vec<ReviewItem>)
    ensures
        item_models(out@) == selection(segments@, sample as nat, seed, usize::MAX as nat),
        out@.len() <= sample,
{
    select_items_capped(segments, sample, seed, usize::MAX)
}

/// Disagreement-first sample of the judged facts (see `selection`), shuffled
/// deterministically so the same job yields the same sheet. `per_segment`
/// caps any one segment so a degenerate one cannot fill the sheet.
#[verifier::rlimit(40)]
pub fn select_items_capped(
    segments: &[SegmentFidelity],
    sample: usize,
    seed: u64,
    per_segment: usize,
) -> (out: Vec<ReviewItem>)
    ensures
        item_models(out@) == selection(segments@, sample as nat, seed, per_segment as nat),
        out@.len() <= sample,
        forall|s: nat| #[trigger] seg_count(item_models(out@), s) <= per_segment,
{
    let (mut unsupported, mut supported, mut missed) = collect_pools(segments);
    let ul = unsupported.len();
    let sl = supported.len();
    let ml = missed.len();
    let ghost u0 = unsupported@;
    let ghost s0 = supported@;
    let ghost m0 = missed@;
    shuffle(&mut unsupported, seed);
    shuffle(&mut supported, seed ^ 0x9e37_79b9);
    shuffle(&mut missed, seed ^ 0x7f4a_7c15);
    proof {
        assert(u0.len() == ul && s0.len() == sl && m0.len() == ml);
        lemma_models_shuffled(u0, seed);
        lemma_models_shuffled(s0, seed ^ 0x9e37_79b9u64);
        lemma_models_shuffled(m0, seed ^ 0x7f4a_7c15u64);
    }
    let mut out: Vec<ReviewItem> = Vec::new();
    assert(item_models(out@) =~= Seq::<ItemModel>::empty());
    let ghost e = Seq::<ItemModel>::empty();
    let ghost um = item_models(unsupported@);
    let ghost sm = item_models(supported@);
    let ghost mm = item_models(missed@);
    take_into(unsupported, sample, per_segment, &mut out);
    let ghost o1 = item_models(out@);
    let two_thirds = ((sample as u128) * 2 / 3) as usize;
    assert(two_thirds == sample * 2 / 3);
    take_into(supported, two_thirds, per_segment, &mut out);
    let ghost o2 = item_models(out@);
    take_into(missed, sample, per_segment, &mut out);
    proof {
        lemma_take_items_bounds(um, sample as nat, per_segment as nat, e);
        lemma_take_items_bounds(sm, two_thirds as nat, per_segment as nat, o1);
        lemma_take_items_bounds(mm, sample as nat, per_segment as nat, o2);
        assert forall|s: nat| #[trigger] seg_count(item_models(out@), s) <= per_segment by {
            assert(seg_count(e, s) == 0);
            assert(seg_count(o1, s) <= per_segment);
            assert(seg_count(o2, s) <= per_segment);
        }
        assert(item_models(out@).len() == out@.len());
    }
    out
}


// ---------------------------------------------------------------- the sheet

/// The bytes stored for a thumbnail file name: the first entry with that name.
pub open spec fn thumb_bytes(thumbs: Seq<(String, Vec<u8>)>, name: Seq<char>) -> Option<Seq<u8>>
    decreases thumbs.len(),
{
    if thumbs.len() == 0 {
        None
    } else {
        match thumb_bytes(thumbs.drop_last(), name) {
            Some(b) => Some(b),
            None => if thumbs.last().0@ == name {
                Some(thumbs.last().1@)
            } else {
                None
            },
        }
    }
}

/// File name of the thumbnail of the frame captured at `t`.
pub open spec fn thumb_file(t: Seq<char>) -> Seq<char> {
    colons_as_dashes(t) + ".jpg"@
}

/// An inline image of a frame's thumbnail, when there is one.
pub open spec fn thumb_img(t: Seq<char>, thumbs: Seq<(String, Vec<u8>)>) -> Seq<char> {
    match thumb_bytes(thumbs, thumb_file(t)) {
        Some(b) => "<img title=\""@ + escaped(t) + "\" src=\"data:image/jpeg;base64,"@ + base64_standard(b)
            + "\">"@,
        None => Seq::empty(),
    }
}

/// The images of the frames picked at `positions`.
pub open spec fn thumb_imgs(
    frames: Seq<String>,
    positions: Seq<int>,
    thumbs: Seq<(String, Vec<u8>)>,
) -> Seq<char>
    decreases positions.len(),
{
    if positions.len() == 0 {
        Seq::empty()
    } else {
        thumb_imgs(frames, positions.drop_last(), thumbs) + thumb_img(
            frames[positions.last()]@,
            thumbs,
        )
    }
}

/// The content of the first visual segment of the timeline spanning
/// `start`..`end` that was described from frames.
pub open spec fn description_of(tl: Seq<Segment>, start: Seq<char>, end: Seq<char>) -> Option<Seq<char>>
    decreases tl.len(),
{
    if tl.len() == 0 {
        None
    } else {
        match description_of(tl.drop_last(), start, end) {
            Some(c) => Some(c),
            None => if tl.last().start@ == start && tl.last().end@ == end && tl.last().frames@.len()
                > 0 {
                Some(tl.last().content@)
            } else {
                None
            },
        }
    }
}

/// The question put for an item.
pub open spec fn question(kind: Seq<char>) -> Seq<char> {
    if kind == "stated"@ {
        "on screen?"@
    } else {
        "should be mentioned?"@
    }
}

/// The opening of a row: the item's id, kind and verdict as data, its fact.
#[verifier::opaque]
pub open spec fn row_head(it: ItemModel) -> Seq<char> {
    "<tr data-id=\""@ + escaped(it.id) + "\" data-kind=\""@ + it.kind + "\" data-metric=\""@
        + it.metric + "\"><td><code>"@ + escaped(it.display) + "</code></td><td>"@ + it.kind
}

/// The verdict and matched-token cells of a row.
#[verifier::opaque]
pub open spec fn row_verdict(it: ItemModel) -> Seq<char> {
    let matched = match it.matched {
        Some(m) => escaped(m),
        None => Seq::empty(),
    };
    "</td><td class=\"m-"@ + it.metric + "\">"@ + it.metric + "</td><td>"@ + matched + "</td><td>"@
}

/// The question and the three radio buttons named by the item's id.
#[verifier::opaque]
pub open spec fn row_buttons(it: ItemModel) -> Seq<char> {
    let id = escaped(it.id);
    question(it.kind) + " <label><input type=\"radio\" name=\""@ + id
        + "\" value=\"yes\">yes</label> <label><input type=\"radio\" name=\""@ + id
        + "\" value=\"no\">no</label> <label><input type=\"radio\" name=\""@ + id
        + "\" value=\"unsure\">unsure</label></td></tr>"@
}

/// One table row: the fact, its kind, the metric's verdict, what it matched
/// and three radio buttons named by the item's id.
pub open spec fn item_row(it: ItemModel) -> Seq<char> {
    row_head(it) + row_verdict(it) + row_buttons(it)
}

/// The items of segment `s`, in order.
pub open spec fn items_of(items: Seq<ItemModel>, s: nat) -> Seq<ItemModel>
    decreases items.len(),
{
    if items.len() == 0 {
        Seq::empty()
    } else if items.last().segment == s {
        items_of(items.drop_last(), s).push(items.last())
    } else {
        items_of(items.drop_last(), s)
    }
}

/// The rows of a list of items.
pub open spec fn item_rows(items: Seq<ItemModel>) -> Seq<char>
    decreases items.len(),
{
    if items.len() == 0 {
        Seq::empty()
    } else {
        item_rows(items.drop_last()) + item_row(items.last())
    }
}

/// The heading of a segment's block, opening its thumbnails.
#[verifier::opaque]
pub open spec fn block_head(si: nat, seg: SegmentFidelity) -> Seq<char> {
    "<div class=\"seg\"><h3>Segment "@ + crate::digits::decimal(si) + " &middot; "@ + escaped(
        seg.start@,
    ) + " &rarr; "@ + escaped(seg.end@) + " &middot; "@ + crate::digits::decimal(
        seg.frames@.len(),
    ) + " frames</h3><div class=\"thumbs\">"@
}

/// The end of the thumbnails and the segment's description, if the timeline
/// has one.
#[verifier::opaque]
pub open spec fn block_desc(seg: SegmentFidelity, tl: Seq<Segment>) -> Seq<char> {
    "</div>"@ + match description_of(tl, seg.start@, seg.end@) {
        Some(c) => "<div class=\"desc\">"@ + escaped(c) + "</div>"@,
        None => Seq::empty(),
    }
}

/// The heading row of a segment's table.
pub open spec fn table_head() -> Seq<char> {
    "<table><tr><th>fact</th><th>kind</th><th>metric</th><th>matched</th><th>your judgment</th></tr>"@
}

/// The block of segment `si`: heading, thumbnails, the description and the
/// table of its items.
pub open spec fn segment_block(
    si: nat,
    seg: SegmentFidelity,
    tl: Seq<Segment>,
    items: Seq<ItemModel>,
    thumbs: Seq<(String, Vec<u8>)>,
    per_segment: nat,
) -> Seq<char> {
    block_head(si, seg) + thumb_imgs(
        seg.frames@,
        thumb_positions(seg.frames@.len(), per_segment),
        thumbs,
    ) + block_desc(seg, tl) + table_head() + item_rows(items_of(items, si)) + "</table></div>"@
}

/// The blocks of the segments before `upto` that have items, in order.
pub open spec fn segment_blocks(
    segs: Seq<SegmentFidelity>,
    tl: Seq<Segment>,
    items: Seq<ItemModel>,
    thumbs: Seq<(String, Vec<u8>)>,
    per_segment: nat,
    upto: nat,
) -> Seq<char>
    decreases upto,
{
    if upto == 0 {
        Seq::empty()
    } else {
        let si = (upto - 1) as nat;
        segment_blocks(segs, tl, items, thumbs, per_segment, si) + if items_of(items, si).len()
            > 0 {
            segment_block(si, segs[si as int], tl, items, thumbs, per_segment)
        } else {
            Seq::empty()
        }
    }
}

/// Every thumbnail is small enough to encode.
pub open spec fn thumbs_fit(thumbs: Seq<(String, Vec<u8>)>) -> bool {
    forall|i: int| 0 <= i < thumbs.len() ==> (#[trigger] thumbs[i]).1@.len() / 3 * 4 + 4 <= usize::MAX
}

fn find_thumb(thumbs: &[(String, Vec<u8>)], name: &[char]) -> (r: Option<usize>)
    ensures
        match thumb_bytes(thumbs@, name@) {
            Some(b) => r matches Some(i) && i < thumbs@.len() && thumbs@[i as int].1@ == b,
            None => r is None,
        },
{
    let mut i: usize = 0;
    assert(thumbs@.take(0) =~= Seq::<(String, Vec<u8>)>::empty());
    while i < thumbs.len()
        invariant
            i <= thumbs@.len(),
            thumb_bytes(thumbs@.take(i as int), name@) is None,
        decreases thumbs.len() - i,
    {
        let ghost t = thumbs@.take(i + 1);
        assert(t.drop_last() == thumbs@.take(i as int));
        assert(t.last() == thumbs@[i as int]);
        let cs = str_chars(thumbs[i].0.as_str());
        if chars_eq(cs.as_slice(), name) {
            proof {
                lemma_thumb_bytes_extend(thumbs@, i as int + 1, name@);
            }
            return Some(i);
        }
        i = i + 1;
    }
    assert(thumbs@.take(thumbs@.len() as int) == thumbs@);
    None
}

/// A match found in a prefix stays the first match of the whole list.
proof fn lemma_thumb_bytes_extend(thumbs: Seq<(String, Vec<u8>)>, k: int, name: Seq<char>)
    requires
        0 <= k <= thumbs.len(),
        thumb_bytes(thumbs.take(k), name) is Some,
    ensures
        thumb_bytes(thumbs, name) == thumb_bytes(thumbs.take(k), name),
    decreases thumbs.len() - k,
{
    if k < thumbs.len() {
        let t = thumbs.take(k + 1);
        assert(t.drop_last() == thumbs.take(k));
        lemma_thumb_bytes_extend(thumbs, k + 1, name);
    } else {
        assert(thumbs.take(k) == thumbs);
    }
}

fn push_escaped(s: &mut String, t: &str)
    ensures
        final(s)@ == old(s)@ + escaped(t@),
{
    let e = esc(t);
    push_str_chars(s, e.as_str());
}

#[verifier::rlimit(40)]
fn push_thumbs(
    h: &mut String,
    frames: &[String],
    thumbs: &[(String, Vec<u8>)],
    per_segment: usize,
)
    requires
        frames.len() <= per_segment || per_segment * frames.len() <= usize::MAX,
        thumbs_fit(thumbs@),
    ensures
        final(h)@ == old(h)@ + thumb_imgs(
            frames@,
            thumb_positions(frames@.len(), per_segment as nat),
            thumbs@,
        ),
{
    let picked = pick_thumbs(frames, per_segment);
    let ghost pos = thumb_positions(frames@.len(), per_segment as nat);
    let mut k: usize = 0;
    assert(pos.take(0) =~= Seq::<int>::empty());
    while k < picked.len()
        invariant
            k <= picked@.len() == pos.len(),
            pos == thumb_positions(frames@.len(), per_segment as nat),
            thumbs_fit(thumbs@),
            forall|q: int|
                0 <= q < picked@.len() ==> 0 <= #[trigger] pos[q] < frames@.len() && *picked@[q]
                    == frames@[pos[q]],
            h@ == old(h)@ + thumb_imgs(frames@, pos.take(k as int), thumbs@),
        decreases picked.len() - k,
    {
        let t: &String = picked[k];
        assert(pos.take(k + 1).drop_last() == pos.take(k as int));
        assert(pos.take(k + 1).last() == pos[k as int]);
        assert(*t == frames@[pos[k as int]]);
        let tc = str_chars(t.as_str());
        let mut name: Vec<char> = Vec::new();
        let mut i: usize = 0;
        while i < tc.len()
            invariant
                i <= tc@.len(),
                name@ == colons_as_dashes(tc@.take(i as int)),
            decreases tc.len() - i,
        {
            if tc[i] == ':' {
                name.push('-');
            } else {
                name.push(tc[i]);
            }
            i = i + 1;
            assert(name@ =~= colons_as_dashes(tc@.take(i as int)));
        }
        assert(tc@.take(tc@.len() as int) == tc@);
        let suffix = str_chars(".jpg");
        let mut j: usize = 0;
        let ghost base = name@;
        while j < suffix.len()
            invariant
                j <= suffix@.len(),
                suffix@ == ".jpg"@,
                name@ == base + suffix@.take(j as int),
            decreases suffix.len() - j,
        {
            name.push(suffix[j]);
            j = j + 1;
            assert(name@ =~= base + suffix@.take(j as int));
        }
        assert(suffix@.take(suffix@.len() as int) == suffix@);
        assert(name@ == thumb_file(t@));
        match find_thumb(thumbs, name.as_slice()) {
            Some(idx) => {
                assert(thumbs_fit(thumbs@));
                assert(thumbs@[idx as int].1@.len() / 3 * 4 + 4 <= usize::MAX);
                let b64 = encode_base64(thumbs[idx].1.as_slice());
                push_str_chars(h, "<img title=\"");
                push_escaped(h, t.as_str());
                push_str_chars(h, "\" src=\"data:image/jpeg;base64,");
                push_str_chars(h, b64.as_str());
                push_str_chars(h, "\">");
            },
            None => {},
        }
        k = k + 1;
        assert(h@ =~= old(h)@ + thumb_imgs(frames@, pos.take(k as int), thumbs@));
    }
    assert(pos.take(pos.len() as int) == pos);
}

fn push_row(h: &mut String, it: &ReviewItem)
    ensures
        final(h)@ == old(h)@ + item_row(it@),
{
    let id = esc(it.id.as_str());
    let stated = str_chars("stated");
    let kc = str_chars(it.kind.as_str());
    let q = if chars_eq(kc.as_slice(), stated.as_slice()) {
        "on screen?"
    } else {
        "should be mentioned?"
    };
    assert(q@ == question(it.kind@));
    let ghost h0 = h@;
    push_str_chars(h, "<tr data-id=\"");
    push_str_chars(h, id.as_str());
    push_str_chars(h, "\" data-kind=\"");
    push_str_chars(h, it.kind.as_str());
    push_str_chars(h, "\" data-metric=\"");
    push_str_chars(h, it.metric.as_str());
    push_str_chars(h, "\"><td><code>");
    push_escaped(h, it.display.as_str());
    push_str_chars(h, "</code></td><td>");
    push_str_chars(h, it.kind.as_str());
    assert(h@ =~= h0 + row_head(it@)) by {
        reveal(row_head);
    }
    let ghost h1 = h@;
    push_str_chars(h, "</td><td class=\"m-");
    push_str_chars(h, it.metric.as_str());
    push_str_chars(h, "\">");
    push_str_chars(h, it.metric.as_str());
    push_str_chars(h, "</td><td>");
    match &it.matched {
        Some(m) => push_escaped(h, m.as_str()),
        None => {},
    }
    push_str_chars(h, "</td><td>");
    assert(h@ =~= h1 + row_verdict(it@)) by {
        reveal(row_verdict);
    }
    let ghost h2 = h@;
    push_str_chars(h, q);
    push_str_chars(h, " <label><input type=\"radio\" name=\"");
    push_str_chars(h, id.as_str());
    push_str_chars(h, "\" value=\"yes\">yes</label> <label><input type=\"radio\" name=\"");
    push_str_chars(h, id.as_str());
    push_str_chars(h, "\" value=\"no\">no</label> <label><input type=\"radio\" name=\"");
    push_str_chars(h, id.as_str());
    push_str_chars(h, "\" value=\"unsure\">unsure</label></td></tr>");
    assert(h@ =~= h2 + row_buttons(it@)) by {
        reveal(row_buttons);
    }
    assert(h@ =~= h0 + item_row(it@));
}


fn push_description(h: &mut String, seg: &SegmentFidelity, tl: &[Segment])
    ensures
        final(h)@ == old(h)@ + block_desc(*seg, tl@),
{
    let ghost h0 = h@;
    push_str_chars(h, "</div>");
    let sc = str_chars(seg.start.as_str());
    let ec = str_chars(seg.end.as_str());
    let mut i: usize = 0;
    assert(tl@.take(0) =~= Seq::<Segment>::empty());
    while i < tl.len()
        invariant
            i <= tl@.len(),
            sc@ == seg.start@,
            ec@ == seg.end@,
            description_of(tl@.take(i as int), seg.start@, seg.end@) is None,
            h0 == old(h)@,
            h@ == h0 + "</div>"@,
        decreases tl.len() - i,
    {
        let x = &tl[i];
        let ghost t = tl@.take(i + 1);
        assert(t.drop_last() == tl@.take(i as int));
        assert(t.last() == *x);
        let xs = str_chars(x.start.as_str());
        let xe = str_chars(x.end.as_str());
        if chars_eq(xs.as_slice(), sc.as_slice()) && chars_eq(xe.as_slice(), ec.as_slice())
            && x.frames.len() > 0 {
            proof {
                lemma_description_extend(tl@, i + 1, seg.start@, seg.end@);
            }
            push_str_chars(h, "<div class=\"desc\">");
            push_escaped(h, x.content.as_str());
            push_str_chars(h, "</div>");
            assert(h@ =~= h0 + block_desc(*seg, tl@)) by {
                reveal(block_desc);
            }
            return;
        }
        i = i + 1;
    }
    assert(tl@.take(tl@.len() as int) == tl@);
    assert(h@ =~= h0 + block_desc(*seg, tl@)) by {
        reveal(block_desc);
    }
}

proof fn lemma_description_extend(tl: Seq<Segment>, k: int, start: Seq<char>, end: Seq<char>)
    requires
        0 <= k <= tl.len(),
        description_of(tl.take(k), start, end) is Some,
    ensures
        description_of(tl, start, end) == description_of(tl.take(k), start, end),
    decreases tl.len() - k,
{
    if k < tl.len() {
        let t = tl.take(k + 1);
        assert(t.drop_last() == tl.take(k));
        lemma_description_extend(tl, k + 1, start, end);
    } else {
        assert(tl.take(k) == tl);
    }
}

fn push_rows(h: &mut String, items: &[ReviewItem], si: usize)
    ensures
        final(h)@ == old(h)@ + item_rows(items_of(item_models(items@), si as nat)),
{
    let ghost m = item_models(items@);
    let ghost h0 = h@;
    let mut k: usize = 0;
    assert(m.take(0) =~= Seq::<ItemModel>::empty());
    while k < items.len()
        invariant
            k <= items@.len(),
            m == item_models(items@),
            h@ == h0 + item_rows(items_of(m.take(k as int), si as nat)),
        decreases items.len() - k,
    {
        let it = &items[k];
        let ghost t = m.take(k + 1);
        assert(t.drop_last() == m.take(k as int));
        assert(t.last() == it@);
        if it.segment == si {
            let ghost before = h@;
            push_row(h, it);
            assert(items_of(t, si as nat) == items_of(m.take(k as int), si as nat).push(it@));
            assert(item_rows(items_of(t, si as nat)) == item_rows(items_of(m.take(k as int), si as nat)) + item_row(it@)) by {
                assert(items_of(t, si as nat).drop_last() == items_of(m.take(k as int), si as nat));
            }
            assert(h@ =~= h0 + item_rows(items_of(t, si as nat)));
        }
        k = k + 1;
    }
    assert(m.take(items@.len() as int) == m);
}

#[verifier::rlimit(40)]
fn push_block(
    h: &mut String,
    si: usize,
    seg: &SegmentFidelity,
    tl: &[Segment],
    items: &[ReviewItem],
    thumbs: &[(String, Vec<u8>)],
    per_segment: usize,
)
    requires
        seg.frames.len() <= per_segment || per_segment * seg.frames.len() <= usize::MAX,
        thumbs_fit(thumbs@),
    ensures
        final(h)@ == old(h)@ + segment_block(
            si as nat,
            *seg,
            tl@,
            item_models(items@),
            thumbs@,
            per_segment as nat,
        ),
{
    let ghost h0 = h@;
    push_str_chars(h, "<div class=\"seg\"><h3>Segment ");
    crate::digits::push_decimal(h, si as u64);
    push_str_chars(h, " &middot; ");
    push_escaped(h, seg.start.as_str());
    push_str_chars(h, " &rarr; ");
    push_escaped(h, seg.end.as_str());
    push_str_chars(h, " &middot; ");
    crate::digits::push_decimal(h, seg.frames.len() as u64);
    push_str_chars(h, " frames</h3><div class=\"thumbs\">");
    assert(h@ =~= h0 + block_head(si as nat, *seg)) by {
        reveal(block_head);
    }
    let ghost h1 = h@;
    push_thumbs(h, seg.frames.as_slice(), thumbs, per_segment);
    let ghost h2 = h@;
    push_description(h, seg, tl);
    let ghost h3 = h@;
    push_str_chars(
        h,
        "<table><tr><th>fact</th><th>kind</th><th>metric</th><th>matched</th><th>your judgment</th></tr>",
    );
    let ghost h4 = h@;
    push_rows(h, items, si);
    let ghost h5 = h@;
    push_str_chars(h, "</table></div>");
    assert(h@ =~= h0 + segment_block(
        si as nat,
        *seg,
        tl@,
        item_models(items@),
        thumbs@,
        per_segment as nat,
    ));
}

/// Every item belongs to one of the segments.
pub open spec fn items_in_range(items: Seq<ReviewItem>, n: nat) -> bool {
    forall|i: int| 0 <= i < items.len() ==> (#[trigger] items[i]).segment < n
}

/// Thumbnails can be picked from every segment (their positions fit in
/// `usize`).
pub open spec fn thumbs_pickable(segs: Seq<SegmentFidelity>, per_segment: nat) -> bool {
    forall|i: int|
        0 <= i < segs.len() ==> (#[trigger] segs[i]).frames@.len() <= per_segment || per_segment
            * segs[i].frames@.len() <= usize::MAX
}

/// The body of the review sheet: for each segment that has items, in order,
/// its heading, up to `thumbs_per_segment` thumbnails spread over its frames
/// (those found in `thumbs`, by file name), its description from the
/// timeline and a table of its items with a yes/no/unsure choice each.
#[verifier::rlimit(40)]
pub fn review_sections(
    segments: &[SegmentFidelity],
    timeline: &[Segment],
    items: &[ReviewItem],
    thumbs: &[(String, Vec<u8>)],
    thumbs_per_segment: usize,
) -> (h: String)
    requires
        items_in_range(items@, segments@.len()),
        thumbs_pickable(segments@, thumbs_per_segment as nat),
        thumbs_fit(thumbs@),
    ensures
        h@ == segment_blocks(
            segments@,
            timeline@,
            item_models(items@),
            thumbs@,
            thumbs_per_segment as nat,
            segments@.len(),
        ),
{
    let ghost m = item_models(items@);
    let mut h = String::new();
    let mut si: usize = 0;
    while si < segments.len()
        invariant
            si <= segments@.len(),
            m == item_models(items@),
            thumbs_pickable(segments@, thumbs_per_segment as nat),
            thumbs_fit(thumbs@),
            h@ == segment_blocks(segments@, timeline@, m, thumbs@, thumbs_per_segment as nat, si as nat),
        decreases segments.len() - si,
    {
        let seg = &segments[si];
        assert(segments@[si as int].frames@.len() <= thumbs_per_segment || thumbs_per_segment
            * segments@[si as int].frames@.len() <= usize::MAX);
        let mut any = false;
        let mut k: usize = 0;
        assert(m.take(0) =~= Seq::<ItemModel>::empty());
        while k < items.len()
            invariant
                k <= items@.len(),
                m == item_models(items@),
                any == (items_of(m.take(k as int), si as nat).len() > 0),
            decreases items.len() - k,
        {
            let ghost t = m.take(k + 1);
            assert(t.drop_last() == m.take(k as int));
            assert(t.last() == items@[k as int]@);
            if items[k].segment == si {
                any = true;
            }
            k = k + 1;
        }
        assert(m.take(items@.len() as int) == m);
        if any {
            push_block(&mut h, si, seg, timeline, items, thumbs, thumbs_per_segment);
        }
        si = si + 1;
    }
    h
}


proof fn lemma_take_items_extends(items: Seq<ItemModel>, limit: nat, cap: nat, out: Seq<ItemModel>)
    ensures
        out.len() <= take_items(items, limit, cap, out).len(),
        take_items(items, limit, cap, out).take(out.len() as int) == out,
    decreases items.len(),
{
    if items.len() == 0 || out.len() >= limit {
        assert(out.take(out.len() as int) == out);
    } else if seg_count(out, items[0].segment) < cap {
        let o2 = out.push(items[0]);
        lemma_take_items_extends(items.drop_first(), limit, cap, o2);
        let r = take_items(items.drop_first(), limit, cap, o2);
        assert(r.take(out.len() as int) =~= o2.take(out.len() as int));
        assert(o2.take(out.len() as int) =~= out);
    } else {
        lemma_take_items_extends(items.drop_first(), limit, cap, out);
    }
}

proof fn lemma_seg_count_le(out: Seq<ItemModel>, s: nat)
    ensures
        seg_count(out, s) <= out.len(),
    decreases out.len(),
{
    if out.len() > 0 {
        lemma_seg_count_le(out.drop_last(), s);
    }
}

proof fn lemma_take_items_all(items: Seq<ItemModel>, limit: nat, cap: nat, out: Seq<ItemModel>)
    requires
        out.len() + items.len() <= limit,
        out.len() + items.len() <= cap,
    ensures
        take_items(items, limit, cap, out) == out + items,
    decreases items.len(),
{
    if items.len() == 0 {
        assert(out + items =~= out);
    } else {
        lemma_seg_count_le(out, items[0].segment);
        lemma_take_items_all(items.drop_first(), limit, cap, out.push(items[0]));
        assert(out.push(items[0]) + items.drop_first() =~= out + items);
    }
}

/// The hallucination calls come first: the sample begins with the
/// unsupported stated facts it takes, ahead of every other item.
pub proof fn lemma_unsupported_first(segs: Seq<SegmentFidelity>, sample: nat, seed: u64, cap: nat)
    ensures
        ({
            let u = take_items(shuffled(stated_pool(segs, false), seed), sample, cap, Seq::empty());
            selection(segs, sample, seed, cap).take(u.len() as int) == u
        }),
{
    let u = take_items(shuffled(stated_pool(segs, false), seed), sample, cap, Seq::empty());
    let s = shuffled(stated_pool(segs, true), seed ^ 0x9e37_79b9u64);
    let m = shuffled(missed_pool(segs), seed ^ 0x7f4a_7c15u64);
    let o2 = take_items(s, sample * 2 / 3, cap, u);
    lemma_take_items_extends(s, sample * 2 / 3, cap, u);
    lemma_take_items_extends(m, sample, cap, o2);
    let r = take_items(m, sample, cap, o2);
    assert(r.take(u.len() as int) =~= o2.take(u.len() as int));
}

/// When the sample and the cap allow it, every unsupported stated fact is
/// on the sheet, all of them ahead of any other item.
pub proof fn lemma_every_unsupported_fact_shown(
    segs: Seq<SegmentFidelity>,
    sample: nat,
    seed: u64,
    cap: nat,
)
    requires
        stated_pool(segs, false).len() <= sample <= usize::MAX,
        stated_pool(segs, false).len() <= cap,
    ensures
        ({
            let u = shuffled(stated_pool(segs, false), seed);
            selection(segs, sample, seed, cap).take(u.len() as int) == u
        }),
{
    let p = stated_pool(segs, false);
    lemma_shuffled_len(p, seed);
    lemma_take_items_all(shuffled(p, seed), sample, cap, Seq::empty());
    assert(Seq::<ItemModel>::empty() + shuffled(p, seed) =~= shuffled(p, seed));
    lemma_unsupported_first(segs, sample, seed, cap);
}

proof fn lemma_shuffle_from_len<T>(v: Seq<T>, x: u64, i: nat)
    requires
        i < v.len() <= usize::MAX,
    ensures
        shuffle_from(v, x, i).len() == v.len(),
    decreases i,
{
    if i > 0 {
        let x2 = lcg_next(x);
        let j = draw(x2, i);
        assert(0 <= j <= i) by {
            reveal(draw);
        }
        lemma_shuffle_from_len(swapped(v, i as int, j), x2, (i - 1) as nat);
    }
}

proof fn lemma_shuffled_len<T>(v: Seq<T>, seed: u64)
    requires
        v.len() <= usize::MAX,
    ensures
        shuffled(v, seed).len() == v.len(),
{
    if v.len() > 1 {
        lemma_shuffle_from_len(v, lcg_next(seed), (v.len() - 1) as nat);
    }
}


/// Where an item falls in the sheet's order: unsupported stated facts, then
/// supported ones, then missed facts.
pub open spec fn item_rank(it: ItemModel) -> int {
    if it.kind == "missed"@ {
        2
    } else if it.metric == "supported"@ {
        1
    } else {
        0
    }
}

pub open spec fn all_rank(v: Seq<ItemModel>, r: int) -> bool {
    forall|k: int| 0 <= k < v.len() ==> item_rank(#[trigger] v[k]) == r
}

proof fn lemma_item_ranks()
    ensures
        "missed"@ != "stated"@,
        "supported"@ != "unsupported"@,
        "supported"@ != "missed"@,
{
    reveal_strlit("missed");
    reveal_strlit("stated");
    reveal_strlit("supported");
    reveal_strlit("unsupported");
    assert("missed"@[0] != "stated"@[0]);
    assert("supported"@[0] != "unsupported"@[0]);
    assert("supported"@[0] != "missed"@[0]);
}

proof fn lemma_stated_items_rank(si: nat, fs: Seq<StatedFact>, supported: bool)
    ensures
        all_rank(stated_items(si, fs, supported), if supported { 1int } else { 0int }),
    decreases fs.len(),
{
    lemma_item_ranks();
    if fs.len() > 0 {
        lemma_stated_items_rank(si, fs.drop_last(), supported);
    }
}

proof fn lemma_missed_items_rank(si: nat, ps: Seq<ReferenceFact>)
    ensures
        all_rank(missed_items(si, ps), 2),
    decreases ps.len(),
{
    if ps.len() > 0 {
        lemma_missed_items_rank(si, ps.drop_last());
    }
}

proof fn lemma_pool_ranks(segs: Seq<SegmentFidelity>)
    ensures
        all_rank(stated_pool(segs, false), 0),
        all_rank(stated_pool(segs, true), 1),
        all_rank(missed_pool(segs), 2),
    decreases segs.len(),
{
    if segs.len() > 0 {
        let n = (segs.len() - 1) as nat;
        lemma_pool_ranks(segs.drop_last());
        lemma_stated_items_rank(n, segs.last().stated@, false);
        lemma_stated_items_rank(n, segs.last().stated@, true);
        lemma_missed_items_rank(n, segs.last().prominent@);
        let a = stated_pool(segs.drop_last(), false);
        let b = stated_items(n, segs.last().stated@, false);
        assert forall|k: int| 0 <= k < (a + b).len() implies item_rank(#[trigger] (a + b)[k]) == 0 by {
            if k >= a.len() {
                assert((a + b)[k] == b[k - a.len()]);
            }
        }
        let c = stated_pool(segs.drop_last(), true);
        let d = stated_items(n, segs.last().stated@, true);
        assert forall|k: int| 0 <= k < (c + d).len() implies item_rank(#[trigger] (c + d)[k]) == 1 by {
            if k >= c.len() {
                assert((c + d)[k] == d[k - c.len()]);
            }
        }
        let e = missed_pool(segs.drop_last());
        let f = missed_items(n, segs.last().prominent@);
        assert forall|k: int| 0 <= k < (e + f).len() implies item_rank(#[trigger] (e + f)[k]) == 2 by {
            if k >= e.len() {
                assert((e + f)[k] == f[k - e.len()]);
            }
        }
    }
}

proof fn lemma_shuffle_from_rank(v: Seq<ItemModel>, x: u64, i: nat, r: int)
    requires
        i < v.len() <= usize::MAX,
        all_rank(v, r),
    ensures
        all_rank(shuffle_from(v, x, i), r),
    decreases i,
{
    if i > 0 {
        let x2 = lcg_next(x);
        let j = draw(x2, i);
        assert(0 <= j <= i) by {
            reveal(draw);
        }
        let w = swapped(v, i as int, j);
        assert forall|k: int| 0 <= k < w.len() implies item_rank(#[trigger] w[k]) == r by {
            if k == j {
                assert(w[k] == v[i as int]);
            } else if k == i {
                assert(w[k] == v[j]);
            } else {
                assert(w[k] == v[k]);
            }
        }
        lemma_shuffle_from_rank(w, x2, (i - 1) as nat, r);
    }
}

proof fn lemma_shuffled_rank(v: Seq<ItemModel>, seed: u64, r: int)
    requires
        v.len() <= usize::MAX,
        all_rank(v, r),
    ensures
        all_rank(shuffled(v, seed), r),
{
    if v.len() > 1 {
        lemma_shuffle_from_rank(v, lcg_next(seed), (v.len() - 1) as nat, r);
    }
}

/// What `take_items` appends comes from `items`.
proof fn lemma_take_items_rank(items: Seq<ItemModel>, limit: nat, cap: nat, out: Seq<ItemModel>, r: int)
    requires
        all_rank(items, r),
    ensures
        forall|k: int|
            out.len() <= k < take_items(items, limit, cap, out).len() ==> item_rank(
                #[trigger] take_items(items, limit, cap, out)[k],
            ) == r,
    decreases items.len(),
{
    if items.len() == 0 || out.len() >= limit {
    } else {
        let rest = items.drop_first();
        assert(all_rank(rest, r)) by {
            assert forall|k: int| 0 <= k < rest.len() implies item_rank(#[trigger] rest[k]) == r by {
                assert(rest[k] == items[k + 1]);
            }
        }
        if seg_count(out, items[0].segment) < cap {
            let o2 = out.push(items[0]);
            lemma_take_items_rank(rest, limit, cap, o2, r);
            lemma_take_items_extends(rest, limit, cap, o2);
            let t = take_items(rest, limit, cap, o2);
            assert(take_items(items, limit, cap, out) == t);
            assert(item_rank(items[0]) == r);
            assert forall|k: int| out.len() <= k < t.len() implies item_rank(#[trigger] t[k]) == r by {
                if k == out.len() {
                    assert(t[k] == t.take(o2.len() as int)[k]);
                    assert(t[k] == o2[k]);
                }
            }
        } else {
            lemma_take_items_rank(rest, limit, cap, out, r);
            assert(take_items(items, limit, cap, out) == take_items(rest, limit, cap, out));
        }
    }
}

/// The sheet's order: every unsupported stated fact comes before every
/// supported one, and every stated fact before every missed one (pools that
/// fit in memory).
pub proof fn lemma_selection_order(segs: Seq<SegmentFidelity>, sample: nat, seed: u64, cap: nat)
    requires
        stated_pool(segs, false).len() <= usize::MAX,
        stated_pool(segs, true).len() <= usize::MAX,
        missed_pool(segs).len() <= usize::MAX,
    ensures
        forall|i: int, j: int|
            0 <= i < j < selection(segs, sample, seed, cap).len() ==> item_rank(
                selection(segs, sample, seed, cap)[i],
            ) <= item_rank(selection(segs, sample, seed, cap)[j]),
{
    lemma_pool_ranks(segs);
    let u = shuffled(stated_pool(segs, false), seed);
    let s = shuffled(stated_pool(segs, true), seed ^ 0x9e37_79b9u64);
    let m = shuffled(missed_pool(segs), seed ^ 0x7f4a_7c15u64);
    lemma_shuffled_rank(stated_pool(segs, false), seed, 0);
    lemma_shuffled_rank(stated_pool(segs, true), seed ^ 0x9e37_79b9u64, 1);
    lemma_shuffled_rank(missed_pool(segs), seed ^ 0x7f4a_7c15u64, 2);
    let o1 = take_items(u, sample, cap, Seq::empty());
    let o2 = take_items(s, sample * 2 / 3, cap, o1);
    let o3 = take_items(m, sample, cap, o2);
    lemma_take_items_rank(u, sample, cap, Seq::empty(), 0);
    lemma_take_items_rank(s, sample * 2 / 3, cap, o1, 1);
    lemma_take_items_rank(m, sample, cap, o2, 2);
    lemma_take_items_extends(s, sample * 2 / 3, cap, o1);
    lemma_take_items_extends(m, sample, cap, o2);
    assert forall|k: int| 0 <= k < o3.len() implies item_rank(#[trigger] o3[k]) == if k < o1.len() {
        0int
    } else if k < o2.len() {
        1int
    } else {
        2int
    } by {
        if k < o2.len() {
            assert(o3[k] == o3.take(o2.len() as int)[k]);
            if k < o1.len() {
                assert(o2[k] == o2.take(o1.len() as int)[k]);
            }
        }
    }
    assert forall|i: int, j: int| 0 <= i < j < o3.len() implies item_rank(o3[i]) <= item_rank(o3[j]) by {
        assert(item_rank(o3[i]) == if i < o1.len() { 0int } else if i < o2.len() { 1int } else { 2int });
        assert(item_rank(o3[j]) == if j < o1.len() { 0int } else if j < o2.len() { 1int } else { 2int });
    }
}

} // verus!
