//! Assembling a chunk's speech into prompt context and merging chunk outputs
//! into one timeline.

use vstd::prelude::*;
use crate::text::{
    all_ws, fit_count, is_blank, join_with, lemma_fit_all, push_chars,
    push_joined, push_str_chars, str_chars, string_views, utf8_len, utf8_prefix,
};
use crate::types::{parse_timestamp, parsed_timestamp, Segment, SegmentType, Timeline};

verus! {

/// A segment that carries words: speech whose text is not blank.
pub open spec fn is_spoken(s: Segment) -> bool {
    s.segment_type == SegmentType::Speech && !all_ws(s.content@)
}

/// The texts of the spoken segments, in order.
pub open spec fn spoken(segs: Seq<Segment>) -> Seq<Seq<char>>
    decreases segs.len(),
{
    if segs.len() == 0 {
        Seq::<Seq<char>>::empty()
    } else {
        let rest = spoken(segs.drop_last());
        if is_spoken(segs.last()) {
            rest.push(segs.last().content@)
        } else {
            rest
        }
    }
}

pub fn segment_is_spoken(s: &Segment) -> (b: bool)
    ensures
        b == is_spoken(*s),
{
    if s.segment_type == SegmentType::Speech {
        let cs = str_chars(s.content.as_str());
        !is_blank(cs.as_slice())
    } else {
        false
    }
}

/// The spoken texts of `segments`, in order.
pub fn spoken_texts(segments: &[Segment]) -> (v: Vec<String>)
    ensures
        string_views(v@) == spoken(segments@),
{
    let mut v: Vec<String> = Vec::new();
    let mut i: usize = 0;
    while i < segments.len()
        invariant
            i <= segments.len(),
            string_views(v@) == spoken(segments@.take(i as int)),
        decreases segments.len() - i,
    {
        let ghost prev = v@;
        assert(segments@.take(i + 1).drop_last() == segments@.take(i as int));
        assert(segments@.take(i + 1).last() == segments@[i as int]);
        if segment_is_spoken(&segments[i]) {
            v.push(segments[i].content.clone());
            assert(string_views(v@) =~= string_views(prev).push(segments@[i as int].content@));
        }
        i = i + 1;
    }
    assert(segments@.take(segments.len() as int) == segments@);
    v
}

/// The speech of a chunk, joined with spaces; `None` when nothing was said.
pub fn extract_transcript(segments: &[Segment]) -> (r: Option<String>)
    ensures
        r is None <==> spoken(segments@).len() == 0,
        r matches Some(t) ==> t@ == join_with(spoken(segments@), " "@),
{
    let texts = spoken_texts(segments);
    if texts.len() == 0 {
        return None;
    }
    assert(string_views(texts@).subrange(0, texts@.len() as int) =~= string_views(texts@));
    Some(join_strings(&texts, 0, texts.len(), " "))
}

/// `v[lo..hi]` joined with `sep`.
pub fn join_strings(v: &Vec<String>, lo: usize, hi: usize, sep: &str) -> (s: String)
    requires
        lo <= hi <= v.len(),
    ensures
        s@ == join_with(string_views(v@).subrange(lo as int, hi as int), sep@),
{
    let mut s = String::new();
    let mut i: usize = lo;
    assert(string_views(v@).subrange(lo as int, lo as int) =~= Seq::<Seq<char>>::empty());
    while i < hi
        invariant
            lo <= i <= hi <= v.len(),
            s@ == join_with(string_views(v@).subrange(lo as int, i as int), sep@),
        decreases hi - i,
    {
        let ghost done = string_views(v@).subrange(lo as int, i as int);
        push_joined(&mut s, i - lo, v[i].as_str(), sep, Ghost(done));
        assert(done.push(v@[i as int]@) =~= string_views(v@).subrange(lo as int, i + 1));
        i = i + 1;
    }
    s
}

/// The most recent spoken texts a context may quote: the last five, or none
/// when dialogue is excluded.
pub open spec fn recent_dialogue(whisper: Seq<Segment>, with_dialogue: bool) -> Seq<Seq<char>> {
    let sp = spoken(whisper);
    if !with_dialogue {
        Seq::<Seq<char>>::empty()
    } else if sp.len() <= 5 {
        sp
    } else {
        sp.subrange(sp.len() - 5, sp.len() as int)
    }
}

/// A visual description as quoted in a context: cut to the longest prefix
/// that fits in 200 bytes of UTF-8, marked with `...`, when longer than that.
pub open spec fn visual_excerpt(c: Seq<char>) -> Seq<char> {
    if utf8_len(c) > 200 {
        c.take(fit_count(c, 200) as int) + "..."@
    } else {
        c
    }
}

/// A context from the dialogue it quotes and the last visual description, if
/// any: the two parts, space-separated.
pub open spec fn context_text(d: Seq<Seq<char>>, last_visual: Option<Seq<char>>) -> Seq<char> {
    let p1 = if d.len() > 0 {
        seq!["Recent dialogue: "@ + join_with(d, " "@)]
    } else {
        Seq::<Seq<char>>::empty()
    };
    let p2 = match last_visual {
        Some(c) => p1.push("Last visual: "@ + visual_excerpt(c)),
        None => p1,
    };
    join_with(p2, " "@)
}

/// The context handed to the next chunk: recent dialogue and the last visual
/// description, space-separated.
pub open spec fn chunk_context(whisper: Seq<Segment>, vision: Seq<Segment>, with_dialogue: bool) -> Seq<
    char,
> {
    context_text(
        recent_dialogue(whisper, with_dialogue),
        if vision.len() > 0 {
            Some(vision.last().content@)
        } else {
            None
        },
    )
}

/// The context quoting the dialogue of `whisper_segments` and the description
/// of `last_visual`.
fn context_with(whisper_segments: &[Segment], last_visual: Option<&Segment>, include_dialogue: bool) -> (s:
    String)
    ensures
        s@ == context_text(
            recent_dialogue(whisper_segments@, include_dialogue),
            match last_visual {
                Some(v) => Some(v.content@),
                None => None,
            },
        ),
{
    let ghost d = recent_dialogue(whisper_segments@, include_dialogue);
    let mut s = String::new();
    let mut parts: usize = 0;
    let ghost mut ps: Seq<Seq<char>> = Seq::empty();
    if include_dialogue {
        let texts = spoken_texts(whisper_segments);
        if texts.len() > 0 {
            let lo = if texts.len() > 5 {
                texts.len() - 5
            } else {
                0
            };
            let joined = join_strings(&texts, lo, texts.len(), " ");
            assert(string_views(texts@).subrange(lo as int, texts@.len() as int) == d);
            proof {
                if texts.len() <= 5 {
                    assert(string_views(texts@).subrange(0, texts@.len() as int) == string_views(
                        texts@,
                    ));
                }
            }
            let mut part = String::new();
            push_str_chars(&mut part, "Recent dialogue: ");
            push_str_chars(&mut part, joined.as_str());
            push_joined(&mut s, 0, part.as_str(), " ", Ghost(ps));
            proof {
                ps = ps.push(part@);
            }
            parts = 1;
        }
    }
    assert(ps =~= (if d.len() > 0 {
        seq!["Recent dialogue: "@ + join_with(d, " "@)]
    } else {
        Seq::<Seq<char>>::empty()
    }));
    if let Some(last) = last_visual {
        let content = last.content.as_str();
        let cs = str_chars(content);
        let cut = utf8_prefix(cs.as_slice(), 200);
        proof {
            lemma_fit_all(content@, 200);
        }
        let mut part = String::new();
        push_str_chars(&mut part, "Last visual: ");
        if cut.len() < cs.len() {
            push_chars(&mut part, cut.as_slice());
            push_str_chars(&mut part, "...");
        } else {
            push_str_chars(&mut part, content);
        }
        assert(part@ == "Last visual: "@ + visual_excerpt(last.content@));
        push_joined(&mut s, parts, part.as_str(), " ", Ghost(ps));
    }
    s
}

/// Builds the context summary of a chunk for the next chunk's vision prompt.
pub fn build_chunk_context(
    whisper_segments: &[Segment],
    vision_segments: &[Segment],
    include_dialogue: bool,
) -> (s: String)
    ensures
        s@ == chunk_context(whisper_segments@, vision_segments@, include_dialogue),
{
    if vision_segments.len() > 0 {
        context_with(whisper_segments, Some(&vision_segments[vision_segments.len() - 1]), include_dialogue)
    } else {
        context_with(whisper_segments, None, include_dialogue)
    }
}

} // verus!

verus! {

// ---------------------------------------------------------------- merging

/// The sort key of a segment: its start in milliseconds, 0 when unreadable.
pub open spec fn start_key(s: Segment) -> u64 {
    match parsed_timestamp(s.start@) {
        Some(v) => v,
        None => 0,
    }
}

/// The segments of all chunks, chunk after chunk.
pub open spec fn concat_chunks(chunks: Seq<Vec<Segment>>) -> Seq<Segment> {
    chunks.map_values(|c: Vec<Segment>| c@).flatten()
}

/// Start keys never decrease along `s`.
pub open spec fn sorted_by_start(s: Seq<Segment>) -> bool {
    forall|i: int, j: int| 0 <= i < j < s.len() ==> start_key(s[i]) <= start_key(s[j])
}

/// `p` rearranges `inp` into `out`: `out[j]` is `inp[p[j]]`, no position of
/// `inp` is taken twice, and segments with the same start keep their order.
pub open spec fn stable_arrangement(out: Seq<Segment>, inp: Seq<Segment>, p: Seq<int>) -> bool {
    &&& p.len() == out.len()
    &&& out.len() == inp.len()
    &&& forall|j: int| 0 <= j < p.len() ==> 0 <= #[trigger] p[j] < inp.len() && out[j] == inp[p[j]]
    &&& forall|a: int, b: int| 0 <= a < b < p.len() ==> p[a] != p[b]
    &&& forall|a: int, b: int|
        0 <= a < b < p.len() && start_key(out[a]) == start_key(out[b]) ==> p[a] < p[b]
}

/// `out` is `inp` sorted by start, ties left in their original order.
pub open spec fn stable_sort_of(out: Seq<Segment>, inp: Seq<Segment>) -> bool {
    sorted_by_start(out) && exists|p: Seq<int>| stable_arrangement(out, inp, p)
}

/// Merges the segments of all chunks into one timeline, sorted by start
/// timestamp; segments starting together keep the order they came in.
pub fn merge_segments(source: &str, duration_ms: u64, chunk_segments: Vec<Vec<Segment>>) -> (t:
    Timeline)
    ensures
        t.source@ == source@,
        t.duration_ms == duration_ms,
        stable_sort_of(t.segments@, concat_chunks(chunk_segments@)),
{
    let flat = concat_segments(chunk_segments);
    let segments = sort_by_start(flat);
    Timeline { source: source.to_owned(), duration_ms, segments }
}

/// All segments of `chunks`, chunk after chunk.
pub fn concat_segments(chunks: Vec<Vec<Segment>>) -> (flat: Vec<Segment>)
    ensures
        flat@ == concat_chunks(chunks@),
{
    let ghost all = concat_chunks(chunks@);
    let mut rest = chunks;
    let mut flat: Vec<Segment> = Vec::new();
    while rest.len() > 0
        invariant
            flat@ + concat_chunks(rest@) == all,
        decreases rest.len(),
    {
        let ghost before = rest@;
        let mut c = rest.remove(0);
        proof {
            let vs = before.map_values(|c: Vec<Segment>| c@);
            assert(vs.drop_first() =~= rest@.map_values(|c: Vec<Segment>| c@));
            assert(vs.first() == c@);
        }
        let ghost f0 = flat@;
        flat.append(&mut c);
        assert(f0 + concat_chunks(before) =~= flat@ + concat_chunks(rest@));
    }
    assert(concat_chunks(rest@) =~= Seq::<Segment>::empty());
    assert(flat@ + Seq::<Segment>::empty() =~= flat@);
    flat
}

/// The state of a stable insertion sort after `n` segments of `inp`: `out`
/// holds them sorted, `keys` their start keys, `p` where each came from.
pub open spec fn insertion_state(
    keys: Seq<u64>,
    out: Seq<Segment>,
    p: Seq<int>,
    n: int,
    inp: Seq<Segment>,
) -> bool {
    &&& out.len() == n
    &&& keys.len() == n
    &&& p.len() == n
    &&& forall|j: int| 0 <= j < n ==> #[trigger] keys[j] == start_key(out[j])
    &&& forall|a: int, b: int| 0 <= a < b < n ==> keys[a] <= keys[b]
    &&& forall|j: int| 0 <= j < n ==> 0 <= #[trigger] p[j] < n && out[j] == inp[p[j]]
    &&& forall|a: int, b: int| 0 <= a < b < n ==> p[a] != p[b]
    &&& forall|a: int, b: int| 0 <= a < b < n && keys[a] == keys[b] ==> p[a] < p[b]
}

/// Inserting the next segment after every key not above its own keeps the
/// state of the sort.
pub proof fn lemma_insertion_step(
    keys: Seq<u64>,
    out: Seq<Segment>,
    p: Seq<int>,
    n: int,
    inp: Seq<Segment>,
    pos: int,
    k: u64,
)
    requires
        insertion_state(keys, out, p, n, inp),
        0 <= n < inp.len(),
        0 <= pos <= n,
        k == start_key(inp[n]),
        forall|j: int| 0 <= j < pos ==> keys[j] <= k,
        forall|j: int| pos <= j < n ==> keys[j] > k,
    ensures
        insertion_state(keys.insert(pos, k), out.insert(pos, inp[n]), p.insert(pos, n), n + 1, inp),
{
    let nk = keys.insert(pos, k);
    let no = out.insert(pos, inp[n]);
    let np = p.insert(pos, n);
    assert forall|j: int| 0 <= j < n + 1 implies #[trigger] nk[j] == start_key(no[j]) by {
        if j < pos {
            assert(nk[j] == keys[j] && no[j] == out[j]);
        } else if j > pos {
            assert(nk[j] == keys[j - 1] && no[j] == out[j - 1]);
        }
    }
    assert forall|j: int| 0 <= j < n + 1 implies 0 <= #[trigger] np[j] < n + 1 && no[j] == inp[np[j]] by {
        if j < pos {
            assert(np[j] == p[j] && no[j] == out[j]);
        } else if j > pos {
            assert(np[j] == p[j - 1] && no[j] == out[j - 1]);
        }
    }
    assert forall|a: int, b: int| 0 <= a < b < n + 1 implies nk[a] <= nk[b] by {
        if a < pos && b < pos {
            assert(nk[a] == keys[a] && nk[b] == keys[b]);
        } else if a < pos && b == pos {
            assert(nk[a] == keys[a]);
        } else if a < pos {
            assert(nk[a] == keys[a] && nk[b] == keys[b - 1]);
        } else if a == pos {
            assert(nk[b] == keys[b - 1]);
        } else {
            assert(nk[a] == keys[a - 1] && nk[b] == keys[b - 1]);
        }
    }
    assert forall|a: int, b: int| 0 <= a < b < n + 1 implies np[a] != np[b] by {
        if a < pos && b < pos {
            assert(np[a] == p[a] && np[b] == p[b]);
        } else if a < pos && b == pos {
            assert(np[a] == p[a]);
        } else if a < pos {
            assert(np[a] == p[a] && np[b] == p[b - 1]);
        } else if a == pos {
            assert(np[b] == p[b - 1]);
        } else {
            assert(np[a] == p[a - 1] && np[b] == p[b - 1]);
        }
    }
    assert forall|a: int, b: int| 0 <= a < b < n + 1 && nk[a] == nk[b] implies np[a] < np[b] by {
        if a < pos && b < pos {
            assert(np[a] == p[a] && np[b] == p[b]);
            assert(nk[a] == keys[a] && nk[b] == keys[b]);
        } else if a < pos && b == pos {
            assert(np[a] == p[a]);
        } else if a < pos {
            assert(nk[a] == keys[a] && nk[b] == keys[b - 1]);
        } else if a == pos {
            assert(nk[b] == keys[b - 1]);
        } else {
            assert(np[a] == p[a - 1] && np[b] == p[b - 1]);
            assert(nk[a] == keys[a - 1] && nk[b] == keys[b - 1]);
        }
    }
}

/// `segs` sorted by start timestamp, stably.
pub fn sort_by_start(segs: Vec<Segment>) -> (out: Vec<Segment>)
    ensures
        stable_sort_of(out@, segs@),
{
    let ghost inp = segs@;
    let n = segs.len();
    let mut rest = segs;
    let mut out: Vec<Segment> = Vec::new();
    let mut keys: Vec<u64> = Vec::new();
    let ghost mut p: Seq<int> = Seq::empty();
    let mut i: usize = 0;
    while rest.len() > 0
        invariant
            n == inp.len(),
            i + rest@.len() == n,
            rest@ == inp.subrange(i as int, n as int),
            insertion_state(keys@, out@, p, i as int, inp),
        decreases rest.len(),
    {
        let seg = rest.remove(0);
        assert(seg == inp[i as int]);
        let k = match parse_timestamp(seg.start.as_str()) {
            Some(v) => v,
            None => 0,
        };
        let mut pos = out.len();
        while pos > 0 && keys[pos - 1] > k
            invariant
                pos <= keys@.len(),
                forall|j: int| pos <= j < keys@.len() ==> keys@[j] > k,
            decreases pos,
        {
            pos = pos - 1;
        }
        assert forall|j: int| 0 <= j < pos implies keys@[j] <= k by {
            assert(keys@[j] <= keys@[pos - 1]);
        }
        proof {
            lemma_insertion_step(keys@, out@, p, i as int, inp, pos as int, k);
            p = p.insert(pos as int, i as int);
        }
        out.insert(pos, seg);
        keys.insert(pos, k);
        i = i + 1;
    }
    proof {
        assert forall|a: int, b: int| 0 <= a < b < out@.len() implies start_key(out@[a])
            <= start_key(out@[b]) by {
            assert(keys@[a] == start_key(out@[a]));
            assert(keys@[b] == start_key(out@[b]));
        }
        assert forall|a: int, b: int|
            0 <= a < b < p.len() && start_key(out@[a]) == start_key(out@[b]) implies p[a] < p[b] by {
            assert(keys@[a] == start_key(out@[a]));
            assert(keys@[b] == start_key(out@[b]));
        }
        assert(stable_arrangement(out@, inp, p));
    }
    out
}

} // verus!

verus! {

// ---------------------------------------------------------------- chunk steps

/// The segments of one kind, in order.
pub open spec fn of_kind(segs: Seq<Segment>, kind: SegmentType) -> Seq<Segment> {
    segs.filter(|s: Segment| s.segment_type == kind)
}

/// Keeping only the speech of a chunk leaves its spoken texts as they were.
proof fn lemma_spoken_of_speech(segs: Seq<Segment>)
    ensures
        spoken(of_kind(segs, SegmentType::Speech)) == spoken(segs),
    decreases segs.len(),
{
    reveal(Seq::filter);
    if segs.len() > 0 {
        lemma_spoken_of_speech(segs.drop_last());
        let f = |s: Segment| s.segment_type == SegmentType::Speech;
        let sub = segs.drop_last().filter(f);
        if f(segs.last()) {
            assert(sub.push(segs.last()).drop_last() == sub);
        }
    }
}

/// Segments after `m` that are not of `kind` add nothing to the segments of that kind.
proof fn lemma_of_kind_prefix(segs: Seq<Segment>, kind: SegmentType, m: int)
    requires
        0 <= m <= segs.len(),
        forall|k: int| m <= k < segs.len() ==> segs[k].segment_type != kind,
    ensures
        of_kind(segs, kind) == of_kind(segs.take(m), kind),
    decreases segs.len() - m,
{
    reveal(Seq::filter);
    if segs.len() == m {
        assert(segs.take(m) == segs);
    } else {
        lemma_of_kind_prefix(segs.drop_last(), kind, m);
        assert(segs.drop_last().take(m) == segs.take(m));
    }
}

/// The context a chunk restored from its checkpoint hands to the next chunk:
/// built from its speech and its visual segments.
pub fn cached_chunk_context(segments: &[Segment], include_dialogue: bool) -> (s: String)
    ensures
        s@ == chunk_context(
            of_kind(segments@, SegmentType::Speech),
            of_kind(segments@, SegmentType::Visual),
            include_dialogue,
        ),
{
    proof {
        lemma_spoken_of_speech(segments@);
    }
    let mut j: usize = segments.len();
    while j > 0 && segments[j - 1].segment_type != SegmentType::Visual
        invariant
            j <= segments.len(),
            forall|k: int| j <= k < segments.len() ==> segments@[k].segment_type != SegmentType::Visual,
        decreases j,
    {
        j = j - 1;
    }
    let ghost vis = of_kind(segments@, SegmentType::Visual);
    proof {
        lemma_of_kind_prefix(segments@, SegmentType::Visual, j as int);
        reveal(Seq::filter);
    }
    if j > 0 {
        proof {
            let t = segments@.take(j as int);
            assert(t.drop_last() == segments@.take(j - 1));
            assert(t.last() == segments@[j - 1]);
            assert(vis == of_kind(segments@.take(j - 1), SegmentType::Visual).push(segments@[j - 1]));
        }
        context_with(segments, Some(&segments[j - 1]), include_dialogue)
    } else {
        assert(segments@.take(0).len() == 0);
        context_with(segments, None, include_dialogue)
    }
}

/// A chunk's segments as checkpointed: its speech, then its visual segments.
pub fn combine_segments(whisper_segments: Vec<Segment>, vision_segments: Vec<Segment>) -> (r: Vec<
    Segment,
>)
    ensures
        r@ == whisper_segments@ + vision_segments@,
{
    let mut combined = whisper_segments;
    let mut v = vision_segments;
    combined.append(&mut v);
    combined
}

} // verus!

verus! {

/// With dialogue left out, a chunk's context does not depend on its speech:
/// no spoken word reaches the next chunk.
pub proof fn lemma_context_without_dialogue_ignores_speech(
    speech_a: Seq<Segment>,
    speech_b: Seq<Segment>,
    vision: Seq<Segment>,
)
    ensures
        chunk_context(speech_a, vision, false) == chunk_context(speech_b, vision, false),
{
}

} // verus!

verus! {

// ---------------------------------------------------------------- the chunk loop

/// Where the chunk loop of a job stands.
#[derive(Debug, Clone, Copy, PartialEq, Eq, Structural)]
pub enum Phase {
    /// Nothing done yet.
    Start,
    /// Waiting for the job's checkpoints to be cleared.
    Clearing,
    /// Waiting for the indices of the job's checkpoints.
    Loading,
    /// Waiting for the chunk at `position` to be restored or processed.
    Chunk,
    /// Waiting for the chunk at `position` to be checkpointed.
    Saving,
    /// Waiting for the checkpoints to be removed at the end.
    CleaningUp,
    /// The timeline has been handed out.
    Done,
}

/// The state of a job's chunk loop.
pub struct PipelineState {
    /// Reprocess every chunk, clearing the checkpoints first.
    pub force: bool,
    /// Whether contexts quote dialogue.
    pub include_dialogue: bool,
    /// Remove the checkpoints once the timeline is made.
    pub cleanup: bool,
    pub source: String,
    pub duration_ms: u64,
    /// The index of each chunk, in order.
    pub chunk_ids: Vec<u32>,
    /// The chunk indices that have a checkpoint.
    pub checkpointed: Vec<u32>,
    /// The chunk being handled, counted from 0.
    pub position: usize,
    pub phase: Phase,
    /// The context the next chunk is described with.
    pub context: Option<String>,
    /// The segments of each finished chunk, in order.
    pub done: Vec<Vec<Segment>>,
}

/// What the loop around the state does next.
pub enum ChunkAction {
    ClearCheckpoints,
    LoadCheckpoints,
    /// Read back the checkpointed segments of chunk `index`.
    Restore { index: u32 },
    /// Transcribe and describe chunk `index` (with the state's context);
    /// start transcribing the next chunk meanwhile when `prefetch_next`.
    Process { index: u32, prefetch_next: bool },
    /// Checkpoint chunk `index` with the last segments in `done`.
    Save { index: u32 },
    /// Remove the job's checkpoints.
    Cleanup,
    /// The job's timeline.
    Finish(Timeline),
    /// The event does not fit the state; nothing changes.
    Ignore,
}

/// What the loop reports back.
pub enum ChunkEvent {
    Begin,
    Cleared,
    /// The indices of the chunks that have a checkpoint.
    Loaded(Vec<u32>),
    /// The checkpointed segments of the current chunk.
    Restored(Vec<Segment>),
    /// The speech and visual segments of the current chunk.
    Processed { speech: Vec<Segment>, visual: Vec<Segment> },
    Saved,
    CleanedUp,
}

/// The model of a [`PipelineState`].
pub struct PipelineModel {
    pub force: bool,
    pub include_dialogue: bool,
    pub cleanup: bool,
    pub source: Seq<char>,
    pub duration_ms: u64,
    pub chunk_ids: Seq<u32>,
    pub checkpointed: Seq<u32>,
    pub position: int,
    pub phase: Phase,
    pub context: Option<Seq<char>>,
    pub done: Seq<Vec<Segment>>,
}

impl View for PipelineState {
    type V = PipelineModel;

    open spec fn view(&self) -> PipelineModel {
        PipelineModel {
            force: self.force,
            include_dialogue: self.include_dialogue,
            cleanup: self.cleanup,
            source: self.source@,
            duration_ms: self.duration_ms,
            chunk_ids: self.chunk_ids@,
            checkpointed: self.checkpointed@,
            position: self.position as int,
            phase: self.phase,
            context: match self.context {
                Some(c) => Some(c@),
                None => None,
            },
            done: self.done@,
        }
    }
}

/// Chunk `id` is restored from its checkpoint: it has one and the job is not forced.
pub open spec fn restores(s: PipelineModel, id: u32) -> bool {
    !s.force && s.checkpointed.contains(id)
}

/// The timeline of a finished job: every chunk's segments merged by start.
pub open spec fn finished(s: PipelineModel, t: Timeline) -> bool {
    &&& t.source@ == s.source
    &&& t.duration_ms == s.duration_ms
    &&& stable_sort_of(t.segments@, concat_chunks(s.done))
}

/// The step taken on reaching chunk `s.position`, or the end of the chunks:
/// restore the chunk when it has a checkpoint and the job is not forced,
/// process it otherwise (prefetching the next chunk's speech when that one
/// will be processed too); after the last chunk, clean up when asked, then
/// hand out the merged timeline.
pub open spec fn dispatched(s: PipelineModel, t: PipelineModel, a: ChunkAction) -> bool {
    let n = s.chunk_ids.len();
    if 0 <= s.position < n {
        let id = s.chunk_ids[s.position];
        &&& t == PipelineModel { phase: Phase::Chunk, ..s }
        &&& if restores(s, id) {
            a == ChunkAction::Restore { index: id }
        } else {
            a == ChunkAction::Process {
                index: id,
                prefetch_next: s.position + 1 < n && !restores(s, s.chunk_ids[s.position + 1]),
            }
        }
    } else if s.cleanup {
        &&& t == PipelineModel { phase: Phase::CleaningUp, ..s }
        &&& a == ChunkAction::Cleanup
    } else {
        &&& t.phase == Phase::Done
        &&& a matches ChunkAction::Finish(tl) && finished(s, tl)
    }
}

/// The step that follows an event.
pub open spec fn chunk_step_spec(s: PipelineModel, e: ChunkEvent, t: PipelineModel, a: ChunkAction) -> bool {
    let n = s.chunk_ids.len();
    match (s.phase, e) {
        (Phase::Start, ChunkEvent::Begin) => if s.force {
            t == PipelineModel { phase: Phase::Clearing, ..s } && a == ChunkAction::ClearCheckpoints
        } else {
            t == PipelineModel { phase: Phase::Loading, ..s } && a == ChunkAction::LoadCheckpoints
        },
        (Phase::Clearing, ChunkEvent::Cleared) => dispatched(
            PipelineModel { checkpointed: Seq::empty(), position: 0, ..s },
            t,
            a,
        ),
        (Phase::Loading, ChunkEvent::Loaded(ids)) => dispatched(
            PipelineModel { checkpointed: ids@, position: 0, ..s },
            t,
            a,
        ),
        (Phase::Chunk, ChunkEvent::Restored(segs)) => if 0 <= s.position < n && restores(
            s,
            s.chunk_ids[s.position],
        ) {
            dispatched(
                PipelineModel {
                    position: s.position + 1,
                    context: Some(
                        chunk_context(
                            of_kind(segs@, SegmentType::Speech),
                            of_kind(segs@, SegmentType::Visual),
                            s.include_dialogue,
                        ),
                    ),
                    done: s.done.push(segs),
                    ..s
                },
                t,
                a,
            )
        } else {
            t == s && a == ChunkAction::Ignore
        },
        (Phase::Chunk, ChunkEvent::Processed { speech, visual }) => if 0 <= s.position < n
            && !restores(s, s.chunk_ids[s.position]) {
            &&& t.done.len() == s.done.len() + 1
            &&& t.done.drop_last() == s.done
            &&& t.done.last()@ == speech@ + visual@
            &&& t == PipelineModel {
                phase: Phase::Saving,
                context: Some(chunk_context(speech@, visual@, s.include_dialogue)),
                done: t.done,
                ..s
            }
            &&& a == ChunkAction::Save { index: s.chunk_ids[s.position] }
        } else {
            t == s && a == ChunkAction::Ignore
        },
        (Phase::Saving, ChunkEvent::Saved) => if 0 <= s.position < n {
            dispatched(PipelineModel { position: s.position + 1, ..s }, t, a)
        } else {
            t == s && a == ChunkAction::Ignore
        },
        (Phase::CleaningUp, ChunkEvent::CleanedUp) => {
            &&& t.phase == Phase::Done
            &&& a matches ChunkAction::Finish(tl) && finished(s, tl)
        },
        _ => t == s && a == ChunkAction::Ignore,
    }
}

impl PipelineState {
    /// The loop of a job over `chunk_ids`, before anything is done.
    pub fn new(
        force: bool,
        include_dialogue: bool,
        cleanup: bool,
        source: String,
        duration_ms: u64,
        chunk_ids: Vec<u32>,
    ) -> (s: Self)
        ensures
            s@ == (PipelineModel {
                force,
                include_dialogue,
                cleanup,
                source: source@,
                duration_ms,
                chunk_ids: chunk_ids@,
                checkpointed: Seq::empty(),
                position: 0,
                phase: Phase::Start,
                context: None,
                done: Seq::empty(),
            }),
    {
        PipelineState {
            force,
            include_dialogue,
            cleanup,
            source,
            duration_ms,
            chunk_ids,
            checkpointed: Vec::new(),
            position: 0,
            phase: Phase::Start,
            context: None,
            done: Vec::new(),
        }
    }
}

fn contains_id(v: &Vec<u32>, id: u32) -> (b: bool)
    ensures
        b == v@.contains(id),
{
    let mut i: usize = 0;
    while i < v.len()
        invariant
            i <= v.len(),
            forall|k: int| 0 <= k < i ==> v@[k] != id,
        decreases v.len() - i,
    {
        if v[i] == id {
            return true;
        }
        i = i + 1;
    }
    false
}

/// Takes the step due on reaching `s.position` (see [`dispatched`]).
fn dispatch(s: PipelineState) -> (r: (PipelineState, ChunkAction))
    ensures
        dispatched(s@, r.0@, r.1),
{
    let mut s = s;
    let n = s.chunk_ids.len();
    if s.position < n {
        let id = s.chunk_ids[s.position];
        s.phase = Phase::Chunk;
        if !s.force && contains_id(&s.checkpointed, id) {
            (s, ChunkAction::Restore { index: id })
        } else {
            let prefetch_next = s.position + 1 < n && (s.force || !contains_id(
                &s.checkpointed,
                s.chunk_ids[s.position + 1],
            ));
            (s, ChunkAction::Process { index: id, prefetch_next })
        }
    } else if s.cleanup {
        s.phase = Phase::CleaningUp;
        (s, ChunkAction::Cleanup)
    } else {
        finish(s)
    }
}

/// Merges the finished chunks into the job's timeline.
fn finish(s: PipelineState) -> (r: (PipelineState, ChunkAction))
    ensures
        r.0.phase == Phase::Done,
        r.1 matches ChunkAction::Finish(tl) && finished(s@, tl),
{
    let ghost m = s@;
    let PipelineState {
        force,
        include_dialogue,
        cleanup,
        source,
        duration_ms,
        chunk_ids,
        checkpointed,
        position,
        phase: _,
        context,
        done,
    } = s;
    let timeline = merge_segments(source.as_str(), duration_ms, done);
    let t = PipelineState {
        force,
        include_dialogue,
        cleanup,
        source,
        duration_ms,
        chunk_ids,
        checkpointed,
        position,
        phase: Phase::Done,
        context,
        done: Vec::new(),
    };
    (t, ChunkAction::Finish(timeline))
}

/// One step of a job's chunk loop: from the state and what the loop reports,
/// the next state and what the loop does next (see [`chunk_step_spec`]).
/// Checkpoints are cleared first when the job is forced, loaded otherwise; a
/// chunk with a checkpoint is restored unchanged unless the job is forced,
/// every other chunk is processed and checkpointed before the next one starts;
/// the context handed on is the finished chunk's; at the end the checkpoints
/// are removed when asked and the merged timeline is handed out.
pub fn chunk_step(state: PipelineState, event: ChunkEvent) -> (r: (PipelineState, ChunkAction))
    ensures
        chunk_step_spec(state@, event, r.0@, r.1),
{
    let mut s = state;
    let n = s.chunk_ids.len();
    match (s.phase, event) {
        (Phase::Start, ChunkEvent::Begin) => {
            if s.force {
                s.phase = Phase::Clearing;
                (s, ChunkAction::ClearCheckpoints)
            } else {
                s.phase = Phase::Loading;
                (s, ChunkAction::LoadCheckpoints)
            }
        },
        (Phase::Clearing, ChunkEvent::Cleared) => {
            s.checkpointed = Vec::new();
            s.position = 0;
            dispatch(s)
        },
        (Phase::Loading, ChunkEvent::Loaded(ids)) => {
            s.checkpointed = ids;
            s.position = 0;
            dispatch(s)
        },
        (Phase::Chunk, ChunkEvent::Restored(segs)) => {
            if s.position < n && !s.force && contains_id(&s.checkpointed, s.chunk_ids[s.position]) {
                let c = cached_chunk_context(segs.as_slice(), s.include_dialogue);
                s.context = Some(c);
                s.done.push(segs);
                s.position = s.position + 1;
                dispatch(s)
            } else {
                (s, ChunkAction::Ignore)
            }
        },
        (Phase::Chunk, ChunkEvent::Processed { speech, visual }) => {
            if s.position < n && (s.force || !contains_id(&s.checkpointed, s.chunk_ids[s.position])) {
                let c = build_chunk_context(speech.as_slice(), visual.as_slice(), s.include_dialogue);
                let combined = combine_segments(speech, visual);
                let ghost before = s.done@;
                s.context = Some(c);
                s.done.push(combined);
                s.phase = Phase::Saving;
                proof {
                    assert(s.done@.drop_last() == before);
                }
                let index = s.chunk_ids[s.position];
                (s, ChunkAction::Save { index })
            } else {
                (s, ChunkAction::Ignore)
            }
        },
        (Phase::Saving, ChunkEvent::Saved) => {
            if s.position < n {
                s.position = s.position + 1;
                dispatch(s)
            } else {
                (s, ChunkAction::Ignore)
            }
        },
        (Phase::CleaningUp, ChunkEvent::CleanedUp) => finish(s),
        (_, _) => (s, ChunkAction::Ignore),
    }
}

} // verus!

verus! {

/// A forced job never restores a chunk from a checkpoint: whatever the loop
/// reports, the step is never a restore.
pub proof fn lemma_forced_job_restores_nothing(
    s: PipelineModel,
    e: ChunkEvent,
    t: PipelineModel,
    a: ChunkAction,
)
    requires
        s.force,
        chunk_step_spec(s, e, t, a),
    ensures
        !(a is Restore),
{
}

/// A job that is not forced uses each checkpoint it restores unchanged: the
/// segments reported back become the chunk's segments as they are.
pub proof fn lemma_restored_chunk_kept_unchanged(
    s: PipelineModel,
    segs: Vec<Segment>,
    t: PipelineModel,
    a: ChunkAction,
)
    requires
        s.phase == Phase::Chunk,
        0 <= s.position < s.chunk_ids.len(),
        restores(s, s.chunk_ids[s.position]),
        chunk_step_spec(s, ChunkEvent::Restored(segs), t, a),
    ensures
        match a {
            ChunkAction::Finish(tl) => finished(PipelineModel { done: s.done.push(segs), ..s }, tl),
            _ => t.done == s.done.push(segs),
        },
{
}

} // verus!
