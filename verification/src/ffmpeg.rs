//! Planning the chunks of a video and reading what ffmpeg reports.

use vstd::prelude::*;
use crate::digits::{decimal, push_decimal};
use crate::error::VttError;
use crate::text::{
    find_chars, find_first, first_word, first_word_of, lemma_split_on_nonempty, split_chars,
    split_on, str_chars, string_from_chars,
};
use crate::paths::sub_chars;
use crate::types::Chunk;
use crate::config::FfmpegConfig;

verus! {

/// Versions reported by the ffmpeg and ffprobe binaries.
#[derive(Debug, Clone)]
pub struct FfmpegInfo {
    pub ffmpeg_version: String,
    pub ffprobe_version: String,
}

// ---------------------------------------------------------------- chunk plan

/// The chunks of a video of `duration_ms` cut every `chunk_secs` seconds:
/// whole chunks first, then the remainder as a last, shorter chunk when it is
/// longer than 10 ms.
pub open spec fn chunk_plan(duration_ms: nat, chunk_secs: nat) -> Seq<Chunk> {
    if duration_ms == 0 || chunk_secs == 0 {
        Seq::<Chunk>::empty()
    } else {
        let c = chunk_secs * 1000;
        let n = duration_ms / c;
        let full = Seq::new(
            n,
            |i: int| Chunk { index: i as u32, start_ms: (i * c) as u64, end_ms: ((i + 1) * c) as u64 },
        );
        if duration_ms % c > 10 {
            full.push(Chunk { index: n as u32, start_ms: (n * c) as u64, end_ms: duration_ms as u64 })
        } else {
            full
        }
    }
}

proof fn lemma_mul_le(a: nat, b: nat, c: nat)
    by (nonlinear_arith)
    requires
        a <= b,
    ensures
        a * c <= b * c,
{
}

proof fn lemma_div_mul(d: nat, c: nat)
    by (nonlinear_arith)
    requires
        c > 0,
    ensures
        (d / c) * c + d % c == d,
        d % c < c,
        (d / c) * c <= d,
{
}

/// Cuts a video of `duration_ms` into chunks of `chunk_duration_secs`.
pub fn compute_chunks(duration_ms: u64, chunk_duration_secs: u32) -> (chunks: Vec<Chunk>)
    requires
        chunk_duration_secs == 0 || (duration_ms as int) / (chunk_duration_secs * 1000) < u32::MAX,
    ensures
        chunks@ == chunk_plan(duration_ms as nat, chunk_duration_secs as nat),
{
    let mut chunks: Vec<Chunk> = Vec::new();
    if duration_ms == 0 || chunk_duration_secs == 0 {
        return chunks;
    }
    let c: u64 = chunk_duration_secs as u64 * 1000;
    let n: u64 = duration_ms / c;
    proof {
        lemma_div_mul(duration_ms as nat, c as nat);
    }
    let ghost plan = chunk_plan(duration_ms as nat, chunk_duration_secs as nat);
    let mut i: u64 = 0;
    while i < n
        invariant
            i <= n,
            c == chunk_duration_secs * 1000,
            c > 0,
            n == duration_ms / c,
            n * c <= duration_ms,
            n < u32::MAX,
            chunks@.len() == i,
            forall|j: int|
                0 <= j < i ==> #[trigger] chunks@[j] == (Chunk {
                    index: j as u32,
                    start_ms: (j * c) as u64,
                    end_ms: ((j + 1) * c) as u64,
                }),
        decreases n - i,
    {
        proof {
            lemma_mul_le((i + 1) as nat, n as nat, c as nat);
            lemma_mul_le(i as nat, (i + 1) as nat, c as nat);
        }
        let start = i * c;
        assert(start + c == (i + 1) * c) by (nonlinear_arith)
            requires
                start == i * c,
        ;
        let end = start + c;
        chunks.push(Chunk { index: i as u32, start_ms: start, end_ms: end });
        i = i + 1;
    }
    if duration_ms % c > 10 {
        chunks.push(Chunk { index: n as u32, start_ms: n * c, end_ms: duration_ms });
    }
    assert(chunks@ =~= plan);
    chunks
}

/// The chunk plan's promises: positions are indices, chunks are contiguous
/// from zero, each is non-empty and at most one chunk long, and together they
/// cover the video up to a remainder of at most 10 ms.
pub proof fn lemma_chunk_plan_laws(duration_ms: nat, chunk_secs: nat)
    requires
        chunk_secs > 0,
        duration_ms / (chunk_secs * 1000) < u32::MAX,
        duration_ms <= u64::MAX,
    ensures
        ({
            let p = chunk_plan(duration_ms, chunk_secs);
            &&& forall|i: int| 0 <= i < p.len() ==> #[trigger] p[i].index == i
            &&& p.len() > 0 ==> p[0].start_ms == 0
            &&& forall|i: int| 0 < i < p.len() ==> #[trigger] p[i].start_ms == p[i - 1].end_ms
            &&& forall|i: int|
                0 <= i < p.len() ==> p[i].start_ms < #[trigger] p[i].end_ms && p[i].end_ms
                    - p[i].start_ms <= chunk_secs * 1000
            &&& p.len() > 0 ==> p.last().end_ms <= duration_ms && duration_ms - p.last().end_ms
                <= 10
            &&& duration_ms > 10 ==> p.len() > 0
        }),
{
    let p = chunk_plan(duration_ms, chunk_secs);
    if duration_ms == 0 {
        return;
    }
    let c = chunk_secs * 1000;
    let n = duration_ms / c;
    lemma_div_mul(duration_ms, c);
    assert forall|i: int| 0 <= i < p.len() implies #[trigger] p[i].index == i by {
        if i < n {
            lemma_mul_le((i + 1) as nat, n, c);
        }
    }
    assert forall|i: int| 0 < i < p.len() implies #[trigger] p[i].start_ms == p[i - 1].end_ms by {
        lemma_mul_le(i as nat, n, c);
    }
    assert forall|i: int|
        0 <= i < p.len() implies p[i].start_ms < #[trigger] p[i].end_ms && p[i].end_ms
            - p[i].start_ms <= chunk_secs * 1000 by {
        if i < n {
            lemma_mul_le((i + 1) as nat, n, c);
            assert((i + 1) * c == i * c + c) by (nonlinear_arith);
        }
    }
    if p.len() > 0 {
        if duration_ms % c > 10 {
        } else {
            assert(n > 0) by {
                if n == 0 {
                    assert(duration_ms == duration_ms % c);
                }
            }
            assert(n * c == (n - 1 + 1) * c);
        }
    }
    if duration_ms > 10 {
        if n == 0 {
            assert(duration_ms % c == duration_ms);
        }
    }
}

// ---------------------------------------------------------------- versions

/// The first line of a program's output, `unknown` when there is none, as
/// `lines().next().unwrap_or("unknown")` picks it: the text up to the first
/// line feed, less a carriage return before it.
pub open spec fn first_line(out: Seq<char>) -> Seq<char> {
    if out.len() == 0 {
        "unknown"@
    } else {
        let l = split_on(out, '\n')[0];
        if out.len() > l.len() && l.len() > 0 && l.last() == '\r' {
            l.drop_last()
        } else {
            l
        }
    }
}

/// The version line of a `-version` report.
pub fn version_line(stdout: &str) -> (line: String)
    ensures
        line@ == first_line(stdout@),
{
    if stdout.is_empty() {
        return "unknown".to_owned();
    }
    let cs = str_chars(stdout);
    let parts = split_chars(cs.as_slice(), '\n');
    proof {
        lemma_split_on_nonempty(cs@, '\n');
    }
    let first = &parts[0];
    let n = first.len();
    if cs.len() > n && n > 0 && first[n - 1] == '\r' {
        let t = sub_chars(first.as_slice(), 0, n - 1);
        assert(t@ == first@.drop_last());
        string_from_chars(t.as_slice())
    } else {
        string_from_chars(first.as_slice())
    }
}

// ---------------------------------------------------------------- frame metadata

/// The two kinds of line `metadata=print` writes per kept frame.
#[derive(Debug, Clone, Copy, PartialEq, Eq, Structural)]
pub enum MetaKind {
    PtsTime,
    SceneScore,
}

/// A metadata line of ffmpeg's log: its kind and the number it gives, still
/// as text.
#[derive(Debug, Clone)]
pub struct MetaLine {
    pub kind: MetaKind,
    pub token: String,
}

/// What a log line says of frames: a `pts_time:` line gives a frame's time,
/// a `lavfi.scene_score=` line its score; other lines say nothing. The value
/// is the first word after the marker.
pub open spec fn metadata_entry(line: Seq<char>) -> Option<(MetaKind, Seq<char>)> {
    match find_first(line, "pts_time:"@) {
        Some(i) => Some(
            (MetaKind::PtsTime, first_word(line.subrange(i + "pts_time:"@.len(), line.len() as int))),
        ),
        None => match find_first(line, "lavfi.scene_score="@) {
            Some(i) => Some(
                (
                    MetaKind::SceneScore,
                    first_word(line.subrange(i + "lavfi.scene_score="@.len(), line.len() as int)),
                ),
            ),
            None => None,
        },
    }
}

/// The metadata entries of `lines`, in order.
pub open spec fn metadata_entries(lines: Seq<Seq<char>>) -> Seq<(MetaKind, Seq<char>)>
    decreases lines.len(),
{
    if lines.len() == 0 {
        Seq::empty()
    } else {
        let rest = metadata_entries(lines.drop_last());
        match metadata_entry(lines.last()) {
            Some(e) => rest.push(e),
            None => rest,
        }
    }
}

pub open spec fn meta_views(v: Seq<MetaLine>) -> Seq<(MetaKind, Seq<char>)> {
    v.map_values(|m: MetaLine| (m.kind, m.token@))
}

/// The value after `marker` in `line`, when the marker occurs.
fn value_after(line: &[char], marker: &str) -> (r: Option<String>)
    ensures
        r matches Some(v) ==> find_first(line@, marker@) matches Some(i) && v@ == first_word(
            line@.subrange(i + marker@.len(), line@.len() as int),
        ),
        r is None ==> find_first(line@, marker@) is None,
{
    let m = str_chars(marker);
    let len = line.len();
    match find_chars(line, m.as_slice()) {
        Some(i) => {
            proof {
                crate::text::lemma_find_from_props(line@, m@, 0);
                assert(crate::text::occurs_at(line@, m@, i as int));
                assert(i + m@.len() <= line@.len());
            }
            let rest = sub_chars(line, i + m.len(), len);
            let w = first_word_of(rest.as_slice());
            Some(string_from_chars(w.as_slice()))
        },
        None => None,
    }
}

/// The frame lines of an ffmpeg log, in order, with their values as text.
pub fn scan_frame_metadata(log: &str) -> (entries: Vec<MetaLine>)
    ensures
        meta_views(entries@) == metadata_entries(split_on(log@, '\n')),
{
    let cs = str_chars(log);
    let lines = split_chars(cs.as_slice(), '\n');
    let ghost ls = split_on(log@, '\n');
    let mut entries: Vec<MetaLine> = Vec::new();
    let mut i: usize = 0;
    while i < lines.len()
        invariant
            i <= lines.len(),
            crate::text::views(lines@) == ls,
            meta_views(entries@) == metadata_entries(ls.take(i as int)),
        decreases lines.len() - i,
    {
        let line = lines[i].as_slice();
        assert(ls[i as int] == lines@[i as int]@);
        assert(ls.take(i + 1).drop_last() == ls.take(i as int));
        assert(ls.take(i + 1).last() == ls[i as int]);
        let ghost before = entries@;
        match value_after(line, "pts_time:") {
            Some(v) => {
                entries.push(MetaLine { kind: MetaKind::PtsTime, token: v });
                assert(meta_views(entries@) =~= meta_views(before).push(
                    metadata_entry(ls[i as int])->0,
                ));
            },
            None => match value_after(line, "lavfi.scene_score=") {
                Some(v) => {
                    entries.push(MetaLine { kind: MetaKind::SceneScore, token: v });
                    assert(meta_views(entries@) =~= meta_views(before).push(
                        metadata_entry(ls[i as int])->0,
                    ));
                },
                None => {},
            },
        }
        i = i + 1;
    }
    assert(ls.take(lines.len() as int) == ls);
    entries
}

/// Why a log's frame lines do not pair up.
#[derive(Debug, Clone, Copy, PartialEq, Eq, Structural)]
pub enum PairFault {
    /// The time of the entry at this position is not a number.
    BadPtsTime(usize),
    /// The score of the entry at this position is not a number.
    BadSceneScore(usize),
    /// A frame time followed another frame time.
    PtsWithoutScore,
    /// A score came with no frame time before it.
    ScoreWithoutPts,
    /// The log ended on a frame time.
    TrailingPts,
}

/// The pairing after the first `n` entries: the frame time waiting for its
/// score, and the (time, score) positions paired so far.
pub open spec fn pairing_after(kinds: Seq<MetaKind>, ok: Seq<bool>, n: nat) -> Result<
    (Option<int>, Seq<(int, int)>),
    PairFault,
>
    decreases n,
{
    if n == 0 {
        Ok((None, Seq::empty()))
    } else {
        let i = n - 1;
        match pairing_after(kinds, ok, (n - 1) as nat) {
            Err(e) => Err(e),
            Ok((pending, out)) => match kinds[i] {
                MetaKind::PtsTime => if pending is Some {
                    Err(PairFault::PtsWithoutScore)
                } else if !ok[i] {
                    Err(PairFault::BadPtsTime(i as usize))
                } else {
                    Ok((Some(i), out))
                },
                MetaKind::SceneScore => if !ok[i] {
                    Err(PairFault::BadSceneScore(i as usize))
                } else {
                    match pending {
                        None => Err(PairFault::ScoreWithoutPts),
                        Some(p) => Ok((None, out.push((p, i)))),
                    }
                },
            },
        }
    }
}

/// A fault, once met, is the outcome of every longer prefix.
pub proof fn lemma_pairing_fault_sticks(kinds: Seq<MetaKind>, ok: Seq<bool>, m: nat, n: nat)
    requires
        m <= n,
        pairing_after(kinds, ok, m) is Err,
    ensures
        pairing_after(kinds, ok, n) == pairing_after(kinds, ok, m),
    decreases n - m,
{
    if m < n {
        lemma_pairing_fault_sticks(kinds, ok, m, (n - 1) as nat);
    }
}

/// Each frame time paired with the score that follows it; `ok[i]` says
/// whether entry `i`'s value reads as a number.
pub open spec fn frame_pairing(kinds: Seq<MetaKind>, ok: Seq<bool>) -> Result<
    Seq<(int, int)>,
    PairFault,
> {
    match pairing_after(kinds, ok, kinds.len()) {
        Err(e) => Err(e),
        Ok((Some(_), _)) => Err(PairFault::TrailingPts),
        Ok((None, out)) => Ok(out),
    }
}

pub open spec fn pair_views(v: Seq<(usize, usize)>) -> Seq<(int, int)> {
    v.map_values(|p: (usize, usize)| (p.0 as int, p.1 as int))
}

/// Pairs each frame time with the score after it, or says why they do not
/// pair.
pub fn pair_frame_metadata(kinds: &[MetaKind], ok: &[bool]) -> (r: Result<
    Vec<(usize, usize)>,
    PairFault,
>)
    requires
        kinds.len() == ok.len(),
    ensures
        match (r, frame_pairing(kinds@, ok@)) {
            (Ok(v), Ok(s)) => pair_views(v@) == s,
            (Err(e), Err(f)) => e == f,
            _ => false,
        },
{
    let mut out: Vec<(usize, usize)> = Vec::new();
    let mut pending: Option<usize> = None;
    let mut i: usize = 0;
    assert(pair_views(out@) =~= Seq::<(int, int)>::empty());
    while i < kinds.len()
        invariant
            i <= kinds.len(),
            kinds.len() == ok.len(),
            pairing_after(kinds@, ok@, i as nat) == Ok::<(Option<int>, Seq<(int, int)>), PairFault>(
                (
                    match pending {
                        Some(p) => Some(p as int),
                        None => None,
                    },
                    pair_views(out@),
                ),
            ),
        decreases kinds.len() - i,
    {
        match kinds[i] {
            MetaKind::PtsTime => {
                if pending.is_some() {
                    proof {
                        lemma_pairing_fault_sticks(kinds@, ok@, (i + 1) as nat, kinds@.len());
                    }
                    return Err(PairFault::PtsWithoutScore);
                }
                if !ok[i] {
                    proof {
                        lemma_pairing_fault_sticks(kinds@, ok@, (i + 1) as nat, kinds@.len());
                    }
                    return Err(PairFault::BadPtsTime(i));
                }
                pending = Some(i);
            },
            MetaKind::SceneScore => {
                if !ok[i] {
                    proof {
                        lemma_pairing_fault_sticks(kinds@, ok@, (i + 1) as nat, kinds@.len());
                    }
                    return Err(PairFault::BadSceneScore(i));
                }
                match pending {
                    None => {
                        proof {
                            lemma_pairing_fault_sticks(kinds@, ok@, (i + 1) as nat, kinds@.len());
                        }
                        return Err(PairFault::ScoreWithoutPts);
                    },
                    Some(p) => {
                        let ghost before = out@;
                        out.push((p, i));
                        assert(pair_views(out@) =~= pair_views(before).push((p as int, i as int)));
                        pending = None;
                    },
                }
            },
        }
        i = i + 1;
    }
    if pending.is_some() {
        return Err(PairFault::TrailingPts);
    }
    Ok(out)
}

/// The report of a structural pairing fault; the two value faults name the
/// offending text, which only the caller can describe.
pub open spec fn pair_fault_text(f: PairFault) -> Seq<char> {
    match f {
        PairFault::PtsWithoutScore => "frame metadata: pts_time line without a following scene score"@,
        PairFault::ScoreWithoutPts => "frame metadata: scene score without a preceding pts_time"@,
        PairFault::TrailingPts => "frame metadata: trailing pts_time line without a scene score"@,
        _ => Seq::<char>::empty(),
    }
}

/// The error for a structural pairing fault.
pub fn pair_fault_error(f: PairFault) -> (e: VttError)
    ensures
        e matches VttError::Ffmpeg(m) && m@ == pair_fault_text(f),
{
    let m = match f {
        PairFault::PtsWithoutScore => "frame metadata: pts_time line without a following scene score".to_owned(),
        PairFault::ScoreWithoutPts => "frame metadata: scene score without a preceding pts_time".to_owned(),
        PairFault::TrailingPts => "frame metadata: trailing pts_time line without a scene score".to_owned(),
        _ => String::new(),
    };
    VttError::Ffmpeg(m)
}

/// The report of image files and metadata lines that do not correspond.
pub open spec fn frame_count_text(paths: nat, frames: nat) -> Seq<char> {
    "frame extraction wrote "@ + decimal(paths) + " image file(s) but logged metadata for "@
        + decimal(frames)
        + " frame(s); refusing to guess timestamps (is -vsync vfr in effect?)"@
}

/// Image files and metadata lines must correspond one for one.
pub fn check_frame_counts(paths: usize, frames: usize) -> (r: Result<(), VttError>)
    ensures
        paths == frames <==> r is Ok,
        r matches Err(e) ==> e matches VttError::Ffmpeg(m) && m@ == frame_count_text(
            paths as nat,
            frames as nat,
        ),
{
    if paths == frames {
        return Ok(());
    }
    let mut m = String::new();
    crate::text::push_str_chars(&mut m, "frame extraction wrote ");
    push_decimal(&mut m, paths as u64);
    crate::text::push_str_chars(&mut m, " image file(s) but logged metadata for ");
    push_decimal(&mut m, frames as u64);
    crate::text::push_str_chars(
        &mut m,
        " frame(s); refusing to guess timestamps (is -vsync vfr in effect?)",
    );
    Err(VttError::Ffmpeg(m))
}

} // verus!

verus! {

// ---------------------------------------------------------------- frame cap

/// What the per-chunk cap reads of a kept frame: its time in microseconds
/// and its scene score in millionths.
#[derive(Debug, Clone, Copy, PartialEq, Eq, Structural)]
pub struct FrameKey {
    pub timestamp_us: u64,
    pub score_ppm: u64,
}

/// `order` lists the positions of `f` by time, ties in their original order.
pub open spec fn time_order(f: Seq<FrameKey>, order: Seq<int>) -> bool {
    &&& order.len() == f.len()
    &&& forall|k: int| 0 <= k < order.len() ==> 0 <= #[trigger] order[k] < f.len()
    &&& forall|a: int, b: int| 0 <= a < b < order.len() ==> order[a] != order[b]
    &&& forall|a: int, b: int|
        0 <= a < b < order.len() ==> f[order[a]].timestamp_us <= f[order[b]].timestamp_us
    &&& forall|a: int, b: int|
        0 <= a < b < order.len() && f[order[a]].timestamp_us == f[order[b]].timestamp_us
            ==> order[a] < order[b]
}

/// The frame at place `k` of the time order is a floor frame: the first, or
/// one at least `max_gap_us` (less a microsecond of slack) after the one
/// before it.
pub open spec fn is_floor(f: Seq<FrameKey>, order: Seq<int>, max_gap_us: u64, k: int) -> bool {
    k == 0 || f[order[k]].timestamp_us - f[order[k - 1]].timestamp_us >= max_gap_us - 1
}

/// Trigger at place `a` goes before trigger at place `b` in the drop order:
/// lower score first, later frame first on a tie, then by place.
pub open spec fn drops_before(f: Seq<FrameKey>, order: Seq<int>, a: int, b: int) -> bool {
    let fa = f[order[a]];
    let fb = f[order[b]];
    fa.score_ppm < fb.score_ppm || (fa.score_ppm == fb.score_ppm && (fa.timestamp_us
        > fb.timestamp_us || (fa.timestamp_us == fb.timestamp_us && a < b)))
}

/// How many triggers among the first `m` places go before place `k`.
pub open spec fn drop_rank(f: Seq<FrameKey>, order: Seq<int>, max_gap_us: u64, k: int, m: int) -> nat
    decreases m,
{
    if m <= 0 {
        0
    } else {
        drop_rank(f, order, max_gap_us, k, m - 1) + if !is_floor(f, order, max_gap_us, m - 1)
            && drops_before(f, order, m - 1, k) {
            1nat
        } else {
            0nat
        }
    }
}

/// The frame at place `k` is dropped: a trigger among the `f.len() - cap`
/// first in the drop order.
pub open spec fn is_dropped(f: Seq<FrameKey>, order: Seq<int>, cap: nat, max_gap_us: u64, k: int) -> bool {
    !is_floor(f, order, max_gap_us, k) && drop_rank(f, order, max_gap_us, k, f.len() as int) < f.len()
        - cap
}

/// The frames kept among the first `m` places, by time.
pub open spec fn kept_from(f: Seq<FrameKey>, order: Seq<int>, cap: nat, max_gap_us: u64, m: int) -> Seq<
    int,
>
    decreases m,
{
    if m <= 0 {
        Seq::<int>::empty()
    } else {
        let rest = kept_from(f, order, cap, max_gap_us, m - 1);
        if is_dropped(f, order, cap, max_gap_us, m - 1) {
            rest
        } else {
            rest.push(order[m - 1])
        }
    }
}

pub open spec fn index_views(v: Seq<usize>) -> Seq<int> {
    v.map_values(|i: usize| i as int)
}

/// Inserting the next position after every earlier one not later than it
/// keeps a time order.
proof fn lemma_time_order_step(f: Seq<FrameKey>, order: Seq<int>, i: int, pos: int)
    requires
        time_order(f.take(i), order),
        0 <= i < f.len(),
        0 <= pos <= i,
        forall|k: int| 0 <= k < pos ==> f[order[k]].timestamp_us <= f[i].timestamp_us,
        forall|k: int| pos <= k < i ==> f[order[k]].timestamp_us > f[i].timestamp_us,
    ensures
        time_order(f.take(i + 1), order.insert(pos, i)),
{
    let o = order.insert(pos, i);
    let g = f.take(i);
    let h = f.take(i + 1);
    assert forall|k: int| 0 <= k < order.len() implies #[trigger] g[order[k]] == h[order[k]] by {
        assert(0 <= order[k] < i);
    }
    assert forall|k: int| 0 <= k < o.len() implies 0 <= #[trigger] o[k] < h.len() by {
        if k < pos {
            assert(o[k] == order[k]);
        } else if k > pos {
            assert(o[k] == order[k - 1]);
        }
    }
    assert forall|a: int, b: int| 0 <= a < b < o.len() implies o[a] != o[b] && h[o[a]].timestamp_us
        <= h[o[b]].timestamp_us && (h[o[a]].timestamp_us == h[o[b]].timestamp_us ==> o[a] < o[b]) by {
        let fa = if a < pos {
            a
        } else {
            a - 1
        };
        let fb = if b < pos {
            b
        } else {
            b - 1
        };
        if a != pos && b != pos {
            assert(o[a] == order[fa] && o[b] == order[fb]);
            assert(g[order[fa]] == h[order[fa]]);
            assert(g[order[fb]] == h[order[fb]]);
        } else if a == pos {
            assert(o[b] == order[fb]);
            assert(g[order[fb]] == h[order[fb]]);
        } else {
            assert(o[a] == order[fa]);
            assert(g[order[fa]] == h[order[fa]]);
        }
    }
}

/// The positions of `frames` by time, ties in their original order.
pub fn frames_by_time(frames: &[FrameKey]) -> (order: Vec<usize>)
    ensures
        time_order(frames@, index_views(order@)),
{
    let n = frames.len();
    let mut order: Vec<usize> = Vec::new();
    let mut i: usize = 0;
    assert(time_order(frames@.take(0), index_views(order@)));
    while i < n
        invariant
            i <= n == frames@.len(),
            order@.len() == i,
            time_order(frames@.take(i as int), index_views(order@)),
        decreases n - i,
    {
        let t = frames[i].timestamp_us;
        let mut pos = i;
        proof {
            assert forall|k: int| 0 <= k < i implies #[trigger] order@[k] < i by {
                assert(index_views(order@)[k] == order@[k] as int);
            }
        }
        while pos > 0 && frames[order[pos - 1]].timestamp_us > t
            invariant
                pos <= i == order@.len(),
                i < n == frames@.len(),
                forall|k: int| 0 <= k < i ==> #[trigger] order@[k] < i,
                time_order(frames@.take(i as int), index_views(order@)),
                forall|k: int| pos <= k < i ==> frames@[order@[k] as int].timestamp_us > t,
            decreases pos,
        {
            proof {
                assert(0 <= index_views(order@)[pos - 1] < i);
            }
            pos = pos - 1;
        }
        proof {
            let ov = index_views(order@);
            assert forall|k: int| 0 <= k < i implies frames@[ov[k]] == frames@.take(i as int)[ov[k]] by {
                assert(0 <= ov[k] < i);
            }
            assert forall|k: int| 0 <= k < pos implies frames@[ov[k]].timestamp_us <= frames@[i as int].timestamp_us by {
                if pos > 0 {
                    assert(frames@.take(i as int)[ov[k]].timestamp_us <= frames@.take(i as int)[ov[pos - 1]].timestamp_us || k == pos - 1);
                }
            }
            lemma_time_order_step(frames@, ov, i as int, pos as int);
        }
        let ghost before = order@;
        order.insert(pos, i);
        assert(index_views(order@) =~= index_views(before).insert(pos as int, i as int));
        i = i + 1;
    }
    assert(frames@.take(n as int) == frames@);
    order
}

} // verus!

verus! {

fn floor_at(frames: &[FrameKey], order: &Vec<usize>, max_gap_us: u64, k: usize) -> (b: bool)
    requires
        time_order(frames@, index_views(order@)),
        k < frames@.len(),
    ensures
        b == is_floor(frames@, index_views(order@), max_gap_us, k as int),
{
    let ghost ov = index_views(order@);
    if k == 0 {
        return true;
    }
    assert(ov[k as int] == order@[k as int] as int);
    assert(ov[k - 1] == order@[k - 1] as int);
    assert(0 <= ov[k as int] < frames@.len());
    assert(0 <= ov[k - 1] < frames@.len());
    let a = frames[order[k - 1]].timestamp_us;
    let b = frames[order[k]].timestamp_us;
    assert(a <= b);
    if max_gap_us == 0 {
        true
    } else {
        b - a >= max_gap_us - 1
    }
}

fn drops_first(frames: &[FrameKey], order: &Vec<usize>, a: usize, b: usize) -> (r: bool)
    requires
        time_order(frames@, index_views(order@)),
        a < frames@.len(),
        b < frames@.len(),
    ensures
        r == drops_before(frames@, index_views(order@), a as int, b as int),
{
    let ghost ov = index_views(order@);
    assert(ov[a as int] == order@[a as int] as int);
    assert(ov[b as int] == order@[b as int] as int);
    assert(0 <= ov[a as int] < frames@.len());
    assert(0 <= ov[b as int] < frames@.len());
    let fa = frames[order[a]];
    let fb = frames[order[b]];
    fa.score_ppm < fb.score_ppm || (fa.score_ppm == fb.score_ppm && (fa.timestamp_us
        > fb.timestamp_us || (fa.timestamp_us == fb.timestamp_us && a < b)))
}

/// Enforces the per-chunk frame cap: when there are more frames than `cap`,
/// the lowest-scoring trigger frames are dropped until the chunk fits, floor
/// frames never; the kept frames are given by position, in time order. When
/// the chunk already fits, every frame is kept, in time order.
pub fn apply_frame_cap(frames: &[FrameKey], cap: usize, max_gap_us: u64) -> (kept: Vec<usize>)
    ensures
        frames@.len() <= cap ==> time_order(frames@, index_views(kept@)),
        frames@.len() > cap ==> exists|order: Seq<int>|
            time_order(frames@, order) && index_views(kept@) == kept_from(
                frames@,
                order,
                cap as nat,
                max_gap_us,
                frames@.len() as int,
            ),
{
    let n = frames.len();
    let mut kept: Vec<usize> = Vec::new();
    let order = frames_by_time(frames);
    if n <= cap {
        return order;
    }
    let ghost ov = index_views(order@);
    let to_drop = n - cap;
    let mut k: usize = 0;
    while k < n
        invariant
            k <= n == frames@.len(),
            n > cap,
            to_drop == n - cap,
            ov == index_views(order@),
            time_order(frames@, ov),
            index_views(kept@) == kept_from(frames@, ov, cap as nat, max_gap_us, k as int),
        decreases n - k,
    {
        let dropped = if floor_at(frames, &order, max_gap_us, k) {
            false
        } else {
            let mut rank: usize = 0;
            let mut m: usize = 0;
            while m < n
                invariant
                    m <= n == frames@.len(),
                    k < n,
                    rank <= m,
                    ov == index_views(order@),
                    time_order(frames@, ov),
                    rank == drop_rank(frames@, ov, max_gap_us, k as int, m as int),
                decreases n - m,
            {
                if !floor_at(frames, &order, max_gap_us, m) && drops_first(frames, &order, m, k) {
                    rank = rank + 1;
                }
                m = m + 1;
            }
            rank < to_drop
        };
        assert(dropped == is_dropped(frames@, ov, cap as nat, max_gap_us, k as int));
        if !dropped {
            let ghost before = kept@;
            assert(ov[k as int] == order@[k as int] as int);
            kept.push(order[k]);
            assert(index_views(kept@) =~= index_views(before).push(ov[k as int]));
        }
        k = k + 1;
    }
    kept
}

/// Capping never drops a floor frame, and what it keeps stays in time order.
pub proof fn lemma_frame_cap_laws(f: Seq<FrameKey>, order: Seq<int>, cap: nat, max_gap_us: u64, m: int)
    requires
        time_order(f, order),
        0 <= m <= f.len(),
    ensures
        forall|k: int|
            0 <= k < m && is_floor(f, order, max_gap_us, k) ==> kept_from(
                f,
                order,
                cap,
                max_gap_us,
                m,
            ).contains(order[k]),
        forall|a: int, b: int|
            0 <= a < b < kept_from(f, order, cap, max_gap_us, m).len() ==> f[kept_from(
                f,
                order,
                cap,
                max_gap_us,
                m,
            )[a]].timestamp_us <= f[kept_from(f, order, cap, max_gap_us, m)[b]].timestamp_us,
        forall|j: int|
            #![trigger kept_from(f, order, cap, max_gap_us, m)[j]]
            0 <= j < kept_from(f, order, cap, max_gap_us, m).len() ==> exists|k: int|
                0 <= k < m && kept_from(f, order, cap, max_gap_us, m)[j] == #[trigger] order[k],
    decreases m,
{
    if m > 0 {
        lemma_frame_cap_laws(f, order, cap, max_gap_us, m - 1);
        let rest = kept_from(f, order, cap, max_gap_us, m - 1);
        let cur = kept_from(f, order, cap, max_gap_us, m);
        if !is_dropped(f, order, cap, max_gap_us, m - 1) {
            assert(cur == rest.push(order[m - 1]));
            assert forall|k: int|
                0 <= k < m && is_floor(f, order, max_gap_us, k) implies cur.contains(order[k]) by {
                if k < m - 1 {
                    let j = choose|j: int| 0 <= j < rest.len() && rest[j] == order[k];
                    assert(cur[j] == order[k]);
                } else {
                    assert(cur[cur.len() - 1] == order[k]);
                }
            }
            assert forall|a: int, b: int| 0 <= a < b < cur.len() implies f[cur[a]].timestamp_us
                <= f[cur[b]].timestamp_us by {
                if b < cur.len() - 1 {
                    assert(cur[a] == rest[a] && cur[b] == rest[b]);
                } else {
                    assert(cur[a] == rest[a]);
                    let ka = choose|ka: int| 0 <= ka < m - 1 && rest[a] == #[trigger] order[ka];
                    assert(f[order[ka]].timestamp_us <= f[order[m - 1]].timestamp_us);
                }
            }
            assert forall|j: int| #![trigger cur[j]] 0 <= j < cur.len() implies exists|k: int|
                0 <= k < m && cur[j] == #[trigger] order[k] by {
                if j < cur.len() - 1 {
                    assert(cur[j] == rest[j]);
                    let k = choose|k: int| 0 <= k < m - 1 && rest[j] == #[trigger] order[k];
                    assert(cur[j] == order[k]);
                } else {
                    assert(cur[j] == order[m - 1]);
                }
            }
        } else {
            assert(cur == rest);
            assert forall|j: int| #![trigger cur[j]] 0 <= j < cur.len() implies exists|k: int|
                0 <= k < m && cur[j] == #[trigger] order[k] by {
                let k = choose|k: int| 0 <= k < m - 1 && rest[j] == #[trigger] order[k];
            }
        }
    }
}

} // verus!

verus! {

// ---------------------------------------------------------------- cap size

/// How many of the first `m` places hold trigger frames.
pub open spec fn trigger_count(f: Seq<FrameKey>, order: Seq<int>, max_gap_us: u64, m: int) -> nat
    decreases m,
{
    if m <= 0 {
        0
    } else {
        trigger_count(f, order, max_gap_us, m - 1) + if !is_floor(f, order, max_gap_us, m - 1) {
            1nat
        } else {
            0nat
        }
    }
}

spec fn triggers_below(f: Seq<FrameKey>, order: Seq<int>, max_gap_us: u64, m: int) -> Set<int> {
    Set::new(|j: int| 0 <= j < m && !is_floor(f, order, max_gap_us, j))
}

spec fn ahead_below(f: Seq<FrameKey>, order: Seq<int>, max_gap_us: u64, k: int, m: int) -> Set<int> {
    Set::new(|j: int| 0 <= j < m && !is_floor(f, order, max_gap_us, j) && drops_before(f, order, j, k))
}

spec fn dropped_below(f: Seq<FrameKey>, order: Seq<int>, cap: nat, max_gap_us: u64, m: int) -> Set<int> {
    Set::new(|j: int| 0 <= j < m && is_dropped(f, order, cap, max_gap_us, j))
}

proof fn lemma_range_finite(s: Set<int>, m: int)
    requires
        m >= 0,
        forall|j: int| s.contains(j) ==> 0 <= j < m,
    ensures
        s.finite(),
        s.len() <= m,
{
    vstd::set_lib::lemma_int_range(0, m);
    assert(s.subset_of(vstd::set_lib::set_int_range(0, m)));
    vstd::set_lib::lemma_len_subset(s, vstd::set_lib::set_int_range(0, m));
}

proof fn lemma_trigger_count_set(f: Seq<FrameKey>, order: Seq<int>, max_gap_us: u64, m: int)
    requires
        m >= 0,
    ensures
        triggers_below(f, order, max_gap_us, m).finite(),
        triggers_below(f, order, max_gap_us, m).len() == trigger_count(f, order, max_gap_us, m),
    decreases m,
{
    let s = triggers_below(f, order, max_gap_us, m);
    lemma_range_finite(s, m);
    if m > 0 {
        lemma_trigger_count_set(f, order, max_gap_us, m - 1);
        let t = triggers_below(f, order, max_gap_us, m - 1);
        if !is_floor(f, order, max_gap_us, m - 1) {
            assert(s =~= t.insert(m - 1));
        } else {
            assert(s =~= t);
        }
    } else {
        assert(s =~= Set::<int>::empty());
    }
}

proof fn lemma_drop_rank_set(f: Seq<FrameKey>, order: Seq<int>, max_gap_us: u64, k: int, m: int)
    requires
        m >= 0,
    ensures
        ahead_below(f, order, max_gap_us, k, m).finite(),
        ahead_below(f, order, max_gap_us, k, m).len() == drop_rank(f, order, max_gap_us, k, m),
    decreases m,
{
    let s = ahead_below(f, order, max_gap_us, k, m);
    lemma_range_finite(s, m);
    if m > 0 {
        lemma_drop_rank_set(f, order, max_gap_us, k, m - 1);
        let t = ahead_below(f, order, max_gap_us, k, m - 1);
        if !is_floor(f, order, max_gap_us, m - 1) && drops_before(f, order, m - 1, k) {
            assert(s =~= t.insert(m - 1));
        } else {
            assert(s =~= t);
        }
    } else {
        assert(s =~= Set::<int>::empty());
    }
}

proof fn lemma_kept_count(f: Seq<FrameKey>, order: Seq<int>, cap: nat, max_gap_us: u64, m: int)
    requires
        m >= 0,
    ensures
        dropped_below(f, order, cap, max_gap_us, m).finite(),
        kept_from(f, order, cap, max_gap_us, m).len() + dropped_below(f, order, cap, max_gap_us, m).len()
            == m,
    decreases m,
{
    let s = dropped_below(f, order, cap, max_gap_us, m);
    lemma_range_finite(s, m);
    if m > 0 {
        lemma_kept_count(f, order, cap, max_gap_us, m - 1);
        let t = dropped_below(f, order, cap, max_gap_us, m - 1);
        if is_dropped(f, order, cap, max_gap_us, m - 1) {
            assert(s =~= t.insert(m - 1));
        } else {
            assert(s =~= t);
        }
    } else {
        assert(s =~= Set::<int>::empty());
    }
}

proof fn lemma_drops_before_order(f: Seq<FrameKey>, order: Seq<int>, a: int, b: int, c: int)
    ensures
        !drops_before(f, order, a, a),
        a != b ==> drops_before(f, order, a, b) || drops_before(f, order, b, a),
        drops_before(f, order, a, b) && drops_before(f, order, b, c) ==> drops_before(f, order, a, c),
        drops_before(f, order, a, b) ==> !drops_before(f, order, b, a),
{
}

/// Triggers ahead of `j` in the drop order are ahead of `k` too, when `j` is.
proof fn lemma_rank_increases(f: Seq<FrameKey>, order: Seq<int>, max_gap_us: u64, j: int, k: int, n: int)
    requires
        n >= 0,
        0 <= j < n,
        !is_floor(f, order, max_gap_us, j),
        drops_before(f, order, j, k),
    ensures
        drop_rank(f, order, max_gap_us, j, n) < drop_rank(f, order, max_gap_us, k, n),
{
    lemma_drop_rank_set(f, order, max_gap_us, j, n);
    lemma_drop_rank_set(f, order, max_gap_us, k, n);
    let sj = ahead_below(f, order, max_gap_us, j, n);
    let sk = ahead_below(f, order, max_gap_us, k, n);
    assert forall|i: int| sj.contains(i) implies sk.remove(j).contains(i) by {
        lemma_drops_before_order(f, order, i, j, k);
        lemma_drops_before_order(f, order, j, i, k);
    }
    assert(sk.contains(j));
    vstd::set_lib::lemma_len_subset(sj, sk.remove(j));
}

/// The cap keeps what it promises: when there are more frames than `cap`,
/// the lowest-scoring triggers are dropped until exactly `cap` frames are
/// left; only when the floor frames alone exceed the cap are more kept, and
/// then exactly the floor frames.
pub proof fn lemma_frame_cap_size(f: Seq<FrameKey>, order: Seq<int>, cap: nat, max_gap_us: u64)
    requires
        time_order(f, order),
        f.len() > cap,
    ensures
        kept_from(f, order, cap, max_gap_us, f.len() as int).len() == if trigger_count(
            f,
            order,
            max_gap_us,
            f.len() as int,
        ) >= f.len() - cap {
            cap as int
        } else {
            f.len() - trigger_count(f, order, max_gap_us, f.len() as int)
        },
{
    let n = f.len() as int;
    let d = n - cap;
    let t = triggers_below(f, order, max_gap_us, n);
    lemma_trigger_count_set(f, order, max_gap_us, n);
    let tc = t.len() as int;
    let rank = |k: int| drop_rank(f, order, max_gap_us, k, n) as int;
    // ranks of distinct triggers differ
    assert(vstd::relations::injective_on(rank, t)) by {
        assert forall|a: int, b: int| t.contains(a) && t.contains(b) && #[trigger] rank(a) == #[trigger] rank(b) implies a == b by {
            if a != b {
                lemma_drops_before_order(f, order, a, b, a);
                if drops_before(f, order, a, b) {
                    lemma_rank_increases(f, order, max_gap_us, a, b, n);
                } else {
                    lemma_rank_increases(f, order, max_gap_us, b, a, n);
                }
            }
        }
    }
    // every rank lies below the number of triggers
    let range = vstd::set_lib::set_int_range(0, tc);
    vstd::set_lib::lemma_int_range(0, tc);
    assert forall|k: int| t.contains(k) implies 0 <= #[trigger] rank(k) < tc by {
        lemma_drop_rank_set(f, order, max_gap_us, k, n);
        let sk = ahead_below(f, order, max_gap_us, k, n);
        lemma_drops_before_order(f, order, k, k, k);
        assert(sk.subset_of(t.remove(k)));
        vstd::set_lib::lemma_len_subset(sk, t.remove(k));
    }
    let img = t.map(rank);
    vstd::set_lib::lemma_map_size(t, img, rank);
    assert(img.subset_of(range));
    vstd::set_lib::lemma_subset_equality(img, range);
    // the dropped triggers are those ranked below `d`
    let dropped = dropped_below(f, order, cap, max_gap_us, n);
    lemma_kept_count(f, order, cap, max_gap_us, n);
    let lim = if tc >= d {
        d
    } else {
        tc
    };
    let low = vstd::set_lib::set_int_range(0, lim);
    vstd::set_lib::lemma_int_range(0, lim);
    assert(dropped.subset_of(t));
    assert(vstd::relations::injective_on(rank, dropped));
    assert forall|x: int| #[trigger] dropped.map(rank).contains(x) <==> low.contains(x) by {
        if low.contains(x) {
            assert(range.contains(x));
            assert(img.contains(x));
            let k = choose|k: int| t.contains(k) && rank(k) == x;
            assert(dropped.contains(k));
        }
        if dropped.map(rank).contains(x) {
            let k = choose|k: int| dropped.contains(k) && rank(k) == x;
            assert(t.contains(k));
        }
    }
    assert(dropped.map(rank) =~= low);
    vstd::set_lib::lemma_map_size(dropped, low, rank);
}

} // verus!

verus! {

// ---------------------------------------------------------------- seek times

/// A time in milliseconds written in seconds, as a number of seconds prints:
/// `12.5`, `30`, `0.04`.
pub open spec fn seconds_text(ms: nat) -> Seq<char> {
    let whole = decimal(ms / 1000);
    let f = crate::digits::padded(ms % 1000, 3);
    let kept = f.subrange(0, f.len() - crate::fidelity::trailing_zeros(f));
    if ms % 1000 == 0 {
        whole
    } else {
        whole + seq!['.'] + kept
    }
}

/// The seconds text of `ms` milliseconds, as ffmpeg is given seek times.
pub fn seconds_string(ms: u64) -> (s: String)
    ensures
        s@ == seconds_text(ms as nat),
{
    let mut s = String::new();
    push_decimal(&mut s, ms / 1000);
    let frac = ms % 1000;
    if frac != 0 {
        let mut f = String::new();
        crate::digits::push_padded(&mut f, frac, 3);
        let fc = str_chars(f.as_str());
        proof {
            crate::digits::lemma_pow10_small();
            crate::digits::lemma_padded_exact(frac as nat, 3);
        }
        let mut t: usize = 0;
        while t < fc.len() && fc[fc.len() - 1 - t] == '0'
            invariant
                t <= fc@.len(),
                forall|q: int| fc@.len() - t <= q < fc@.len() ==> #[trigger] fc@[q] == '0',
            decreases fc.len() - t,
        {
            t = t + 1;
        }
        proof {
            crate::fidelity::lemma_trailing_zeros(fc@, t as int);
        }
        s.push('.');
        let mut k: usize = 0;
        let ghost head = s@;
        while k < fc.len() - t
            invariant
                t <= fc@.len(),
                k <= fc@.len() - t,
                s@ == head + fc@.subrange(0, k as int),
            decreases fc.len() - t - k,
        {
            s.push(fc[k]);
            k = k + 1;
            assert(s@ =~= head + fc@.subrange(0, k as int));
        }
        assert(s@ =~= seconds_text(ms as nat));
    }
    s
}

} // verus!

verus! {

// ---------------------------------------------------------------- commands

/// A program and its arguments.
#[derive(Debug, Clone)]
pub struct CommandLine {
    pub program: String,
    pub args: Vec<String>,
}

/// The arguments that cut a chunk out of the video: overwrite, seek to its
/// start, stop at its end, read `video`.
pub open spec fn chunk_input_args(chunk: Chunk, video: Seq<char>) -> Seq<Seq<char>> {
    seq![
        "-y"@,
        "-ss"@,
        seconds_text(chunk.start_ms as nat),
        "-to"@,
        seconds_text(chunk.end_ms as nat),
        "-i"@,
        video,
    ]
}

/// ffmpeg's arguments for a chunk's audio: 16 kHz mono 16-bit PCM into `output`.
pub open spec fn audio_args(chunk: Chunk, video: Seq<char>, output: Seq<char>) -> Seq<Seq<char>> {
    chunk_input_args(chunk, video) + seq![
        "-vn"@,
        "-acodec"@,
        "pcm_s16le"@,
        "-ar"@,
        "16000"@,
        "-ac"@,
        "1"@,
        output,
    ]
}

/// The file-name pattern frames are written under in `dir`.
pub open spec fn frame_pattern(dir: Seq<char>, format: Seq<char>) -> Seq<char> {
    crate::paths::path_join(dir, "frame_%06d."@ + format)
}

/// ffmpeg's arguments for a chunk's frames: progress lines off, the video
/// filter `filter`, variable frame rate so only selected frames are written,
/// the configured quality, and the pattern in `dir`.
pub open spec fn frames_args(
    chunk: Chunk,
    video: Seq<char>,
    filter: Seq<char>,
    quality: nat,
    dir: Seq<char>,
    format: Seq<char>,
) -> Seq<Seq<char>> {
    chunk_input_args(chunk, video) + seq![
        "-nostats"@,
        "-vf"@,
        filter,
        "-vsync"@,
        "vfr"@,
        "-q:v"@,
        decimal(quality),
        frame_pattern(dir, format),
    ]
}

fn owned(s: &str) -> (r: String)
    ensures
        r@ == s@,
{
    s.to_owned()
}

fn push_chunk_input(args: &mut Vec<String>, chunk: &Chunk, video: &str)
    ensures
        crate::text::string_views(final(args)@) == crate::text::string_views(old(args)@)
            + chunk_input_args(*chunk, video@),
{
    let ghost a0 = crate::text::string_views(args@);
    args.push(owned("-y"));
    args.push(owned("-ss"));
    args.push(seconds_string(chunk.start_ms));
    args.push(owned("-to"));
    args.push(seconds_string(chunk.end_ms));
    args.push(owned("-i"));
    args.push(owned(video));
    assert(crate::text::string_views(args@) =~= a0 + chunk_input_args(*chunk, video@));
}

/// The ffmpeg command that extracts a chunk's audio to `output`.
pub fn build_audio_command(config: &FfmpegConfig, video: &str, chunk: &Chunk, output: &str) -> (c:
    CommandLine)
    ensures
        c.program@ == config.path@,
        crate::text::string_views(c.args@) == audio_args(*chunk, video@, output@),
{
    let mut args: Vec<String> = Vec::new();
    assert(crate::text::string_views(args@) =~= Seq::<Seq<char>>::empty());
    push_chunk_input(&mut args, chunk, video);
    let ghost a0 = crate::text::string_views(args@);
    args.push(owned("-vn"));
    args.push(owned("-acodec"));
    args.push(owned("pcm_s16le"));
    args.push(owned("-ar"));
    args.push(owned("16000"));
    args.push(owned("-ac"));
    args.push(owned("1"));
    args.push(owned(output));
    assert(crate::text::string_views(args@) =~= audio_args(*chunk, video@, output@));
    CommandLine { program: config.path.clone(), args }
}

/// The ffmpeg command that writes a chunk's frames into `frames_dir`, through
/// the video filter `filter`.
pub fn build_frames_command(
    config: &FfmpegConfig,
    filter: &str,
    video: &str,
    chunk: &Chunk,
    frames_dir: &str,
) -> (c: CommandLine)
    ensures
        c.program@ == config.path@,
        crate::text::string_views(c.args@) == frames_args(
            *chunk,
            video@,
            filter@,
            config.frame_quality as nat,
            frames_dir@,
            config.frame_format@,
        ),
{
    let mut name = String::new();
    crate::text::push_str_chars(&mut name, "frame_%06d.");
    crate::text::push_str_chars(&mut name, config.frame_format.as_str());
    let pattern = crate::paths::join_path(frames_dir, name.as_str());
    let mut quality = String::new();
    push_decimal(&mut quality, config.frame_quality as u64);
    let mut args: Vec<String> = Vec::new();
    assert(crate::text::string_views(args@) =~= Seq::<Seq<char>>::empty());
    push_chunk_input(&mut args, chunk, video);
    args.push(owned("-nostats"));
    args.push(owned("-vf"));
    args.push(owned(filter));
    args.push(owned("-vsync"));
    args.push(owned("vfr"));
    args.push(owned("-q:v"));
    args.push(quality);
    args.push(pattern);
    assert(crate::text::string_views(args@) =~= frames_args(
        *chunk,
        video@,
        filter@,
        config.frame_quality as nat,
        frames_dir@,
        config.frame_format@,
    ));
    CommandLine { program: config.path.clone(), args }
}

} // verus!
