//! Preparing vision-model prompts and cleaning up what the model answers.

use vstd::prelude::*;
use base64::Engine;
use crate::config::TranscriptWindow;
use crate::error::VttError;
use crate::paths::sub_chars;
use crate::pipeline::{is_spoken, join_strings, segment_is_spoken, spoken, start_key};
use crate::text::{
    chars_eq, find_chars, find_first, is_blank, join_with, lemma_find_from_props,
    lemma_fit_all, lowercase, occurs_at, push_joined, push_str_chars, split_chars, split_on,
    str_chars, string_from_chars, string_views, to_lowercase_str, trim, trim_chars, utf8_len,
    utf8_prefix, views,
};
use crate::types::{parse_timestamp, parsed_timestamp, Segment};

verus! {

// ---------------------------------------------------------------- thinking tags

/// A reply with any `<think>...</think>` preamble removed: the text after the
/// first closing tag, trimmed, or the whole reply trimmed when there is none.
pub open spec fn thinking_stripped(c: Seq<char>) -> Seq<char> {
    match find_first(c, "</think>"@) {
        Some(i) => trim(c.subrange(i + "</think>"@.len(), c.len() as int)),
        None => trim(c),
    }
}

/// Removes a thinking preamble from a model reply.
pub fn strip_thinking_tags(content: &str) -> (r: String)
    ensures
        r@ == thinking_stripped(content@),
{
    let cs = str_chars(content);
    let close = str_chars("</think>");
    let len = cs.len();
    match find_chars(cs.as_slice(), close.as_slice()) {
        Some(i) => {
            proof {
                lemma_find_from_props(cs@, close@, 0);
                assert(occurs_at(cs@, close@, i as int));
            }
            let rest = sub_chars(cs.as_slice(), i + close.len(), len);
            let t = trim_chars(rest.as_slice());
            string_from_chars(t.as_slice())
        },
        None => {
            let t = trim_chars(cs.as_slice());
            string_from_chars(t.as_slice())
        },
    }
}

/// What a reply says once trimmed and stripped of its thinking: the text
/// after the thinking when there is any, else the thinking itself, else an
/// empty reply.
pub open spec fn reply_text(content: Seq<char>) -> Option<Seq<char>> {
    let full = trim(content);
    let stripped = thinking_stripped(full);
    if full.len() == 0 {
        None
    } else if stripped.len() > 0 {
        Some(stripped)
    } else {
        match (find_first(full, "<think>"@), find_first(full, "</think>"@)) {
            (Some(s), Some(e)) => {
                let inner = if s + "<think>"@.len() <= e {
                    trim(full.subrange(s + "<think>"@.len(), e))
                } else {
                    Seq::<char>::empty()
                };
                if inner.len() > 0 {
                    Some(inner)
                } else {
                    None
                }
            },
            _ => None,
        }
    }
}

/// The description in a vision model's reply, or the error for an empty one.
pub fn vision_text(content: &str) -> (r: Result<String, VttError>)
    ensures
        r matches Ok(t) ==> reply_text(content@) == Some(t@),
        r matches Err(e) ==> (e matches VttError::Vision(m) && m@
            == "Ollama returned empty content"@),
        r is Ok <==> reply_text(content@) is Some,
{
    let cs = str_chars(content);
    let full_v = trim_chars(cs.as_slice());
    let full = string_from_chars(full_v.as_slice());
    if full_v.len() == 0 {
        return Err(VttError::Vision("Ollama returned empty content".to_owned()));
    }
    let stripped = strip_thinking_tags(full.as_str());
    let sv = str_chars(stripped.as_str());
    if sv.len() > 0 {
        return Ok(stripped);
    }
    let open = str_chars("<think>");
    let close = str_chars("</think>");
    let len = full_v.len();
    match (find_chars(full_v.as_slice(), open.as_slice()), find_chars(full_v.as_slice(), close.as_slice())) {
        (Some(s), Some(e)) => {
            proof {
                lemma_find_from_props(full_v@, open@, 0);
                assert(occurs_at(full_v@, open@, s as int));
            }
            if s + open.len() <= e {
                proof {
                    lemma_find_from_props(full_v@, close@, 0);
                    assert(occurs_at(full_v@, close@, e as int));
                }
                let inner = sub_chars(full_v.as_slice(), s + open.len(), e);
                let t = trim_chars(inner.as_slice());
                if t.len() > 0 {
                    return Ok(string_from_chars(t.as_slice()));
                }
            }
            Err(VttError::Vision("Ollama returned empty content".to_owned()))
        },
        _ => Err(VttError::Vision("Ollama returned empty content".to_owned())),
    }
}

// ---------------------------------------------------------------- prompts

/// The paragraph that hands the previous chunk's context to the model.
pub open spec fn context_paragraph(ctx: Seq<char>) -> Seq<char> {
    "\n\nContext from previous segment:\n\""@ + ctx
        + "\"\nMaintain continuity with what was previously described."@
}

/// The paragraph that hands the batch's transcript to the model.
pub open spec fn transcript_paragraph(t: Seq<char>) -> Seq<char> {
    "\n\nAudio transcript for this segment:\n\""@ + t
        + "\"\n\nUse this transcript as context to enrich your visual description. Note how the visual content relates to what is being said or heard."@
}

/// `template`, then the context paragraph when there is a context that is
/// not blank, then the transcript paragraph when there is a transcript that
/// is not blank.
pub open spec fn prompt_text(
    template: Seq<char>,
    transcript: Option<Seq<char>>,
    ctx: Option<Seq<char>>,
) -> Seq<char> {
    let with_ctx = match ctx {
        Some(c) => if trim(c).len() > 0 {
            template + context_paragraph(c)
        } else {
            template
        },
        None => template,
    };
    match transcript {
        Some(t) => if trim(t).len() > 0 {
            with_ctx + transcript_paragraph(t)
        } else {
            with_ctx
        },
        None => with_ctx,
    }
}

pub open spec fn opt_view(o: Option<&str>) -> Option<Seq<char>> {
    match o {
        Some(s) => Some(s@),
        None => None,
    }
}

/// Builds a batch's prompt from the template, its transcript and the
/// previous chunk's context.
pub fn build_prompt(template: &str, transcript: Option<&str>, previous_context: Option<&str>) -> (p:
    String)
    ensures
        p@ == prompt_text(template@, opt_view(transcript), opt_view(previous_context)),
{
    let mut prompt = template.to_owned();
    match previous_context {
        Some(ctx) => {
            let cs = str_chars(ctx);
            if !is_blank(cs.as_slice()) {
                push_str_chars(&mut prompt, "\n\nContext from previous segment:\n\"");
                push_str_chars(&mut prompt, ctx);
                push_str_chars(
                    &mut prompt,
                    "\"\nMaintain continuity with what was previously described.",
                );
            }
        },
        None => {},
    }
    match transcript {
        Some(t) => {
            let cs = str_chars(t);
            if !is_blank(cs.as_slice()) {
                push_str_chars(&mut prompt, "\n\nAudio transcript for this segment:\n\"");
                push_str_chars(&mut prompt, t);
                push_str_chars(
                    &mut prompt,
                    "\"\n\nUse this transcript as context to enrich your visual description. Note how the visual content relates to what is being said or heard.",
                );
            }
        },
        None => {},
    }
    prompt
}

// ---------------------------------------------------------------- transcript windows

/// Where a segment ends, in milliseconds: its end time, or its start when
/// the end does not read.
pub open spec fn end_key(s: Segment) -> u64 {
    match parsed_timestamp(s.end@) {
        Some(v) => v,
        None => start_key(s),
    }
}

/// Whether a batch from `batch_start` to `batch_end` may see segment `s`.
pub open spec fn in_window(s: Segment, batch_start: u64, batch_end: u64, mode: TranscriptWindow) -> bool {
    match mode {
        TranscriptWindow::Full => true,
        TranscriptWindow::Causal => end_key(s) <= batch_start,
        TranscriptWindow::Concurrent => start_key(s) < batch_end && end_key(s) > batch_start,
    }
}

/// The spoken texts a batch may see, in order.
pub open spec fn window_texts(
    segs: Seq<Segment>,
    batch_start: u64,
    batch_end: u64,
    mode: TranscriptWindow,
) -> Seq<Seq<char>>
    decreases segs.len(),
{
    if segs.len() == 0 {
        Seq::<Seq<char>>::empty()
    } else {
        let rest = window_texts(segs.drop_last(), batch_start, batch_end, mode);
        if is_spoken(segs.last()) && in_window(segs.last(), batch_start, batch_end, mode) {
            rest.push(segs.last().content@)
        } else {
            rest
        }
    }
}

/// The speech a batch's prompt may see, joined with spaces; `None` when there
/// is none.
pub fn transcript_for_window(
    segments: &[Segment],
    batch_start: u64,
    batch_end: u64,
    mode: TranscriptWindow,
) -> (r: Option<String>)
    ensures
        r is None <==> window_texts(segments@, batch_start, batch_end, mode).len() == 0,
        r matches Some(t) ==> t@ == join_with(
            window_texts(segments@, batch_start, batch_end, mode),
            " "@,
        ),
{
    let ghost segs = segments@;
    let mut picked: Vec<String> = Vec::new();
    let mut i: usize = 0;
    while i < segments.len()
        invariant
            i <= segments.len(),
            segs == segments@,
            string_views(picked@) == window_texts(segs.take(i as int), batch_start, batch_end, mode),
        decreases segments.len() - i,
    {
        let s = &segments[i];
        assert(segs.take(i + 1).drop_last() == segs.take(i as int));
        assert(segs.take(i + 1).last() == segs[i as int]);
        if segment_is_spoken(s) {
            let start = match parse_timestamp(s.start.as_str()) {
                Some(v) => v,
                None => 0,
            };
            let end = match parse_timestamp(s.end.as_str()) {
                Some(v) => v,
                None => start,
            };
            let keep = match mode {
                TranscriptWindow::Full => true,
                TranscriptWindow::Causal => end <= batch_start,
                TranscriptWindow::Concurrent => start < batch_end && end > batch_start,
            };
            if keep {
                let ghost before = picked@;
                picked.push(s.content.clone());
                assert(string_views(picked@) =~= string_views(before).push(s.content@));
            }
        }
        i = i + 1;
    }
    assert(segs.take(segments.len() as int) == segs);
    if picked.len() == 0 {
        return None;
    }
    assert(string_views(picked@).subrange(0, picked@.len() as int) =~= string_views(picked@));
    Some(join_strings(&picked, 0, picked.len(), " "))
}

/// Under `Full` a batch sees exactly the chunk's transcript.
pub proof fn lemma_full_window_is_transcript(segs: Seq<Segment>, batch_start: u64, batch_end: u64)
    ensures
        window_texts(segs, batch_start, batch_end, TranscriptWindow::Full) == spoken(segs),
    decreases segs.len(),
{
    if segs.len() > 0 {
        lemma_full_window_is_transcript(segs.drop_last(), batch_start, batch_end);
    }
}

/// Under `Causal` nothing a batch sees ends after the batch begins, and
/// nothing said before it is withheld.
pub proof fn lemma_causal_window_sees_only_the_past(
    segs: Seq<Segment>,
    batch_start: u64,
    batch_end: u64,
)
    ensures
        window_texts(segs, batch_start, batch_end, TranscriptWindow::Causal) == spoken(
            segs.filter(|s: Segment| end_key(s) <= batch_start),
        ),
    decreases segs.len(),
{
    let f = |s: Segment| end_key(s) <= batch_start;
    reveal(Seq::filter);
    if segs.len() > 0 {
        lemma_causal_window_sees_only_the_past(segs.drop_last(), batch_start, batch_end);
        let sub = segs.drop_last().filter(f);
        if f(segs.last()) {
            assert(segs.filter(f) == sub.push(segs.last()));
            assert(sub.push(segs.last()).drop_last() == sub);
        } else {
            assert(segs.filter(f) == sub);
        }
    }
}

// ---------------------------------------------------------------- model list

/// The model is available when some installed name begins with it.
pub open spec fn model_listed(names: Seq<Seq<char>>, model: Seq<char>) -> bool {
    exists|i: int| 0 <= i < names.len() && model.is_prefix_of(#[trigger] names[i])
}

/// The report of a model that is not installed.
pub open spec fn missing_model_text(names: Seq<Seq<char>>, model: Seq<char>) -> Seq<char> {
    "model '"@ + model + "' not found in Ollama (available: "@ + join_with(names, ", "@) + ")"@
}

/// `p` begins `s`.
pub fn starts_with_chars(s: &[char], p: &[char]) -> (b: bool)
    ensures
        b == p@.is_prefix_of(s@),
{
    if p.len() > s.len() {
        return false;
    }
    let mut j: usize = 0;
    while j < p.len()
        invariant
            j <= p.len() <= s.len(),
            forall|q: int| 0 <= q < j ==> s@[q] == p@[q],
        decreases p.len() - j,
    {
        if s[j] != p[j] {
            return false;
        }
        j = j + 1;
    }
    true
}

/// Checks the server's installed models for the configured one.
pub fn check_models(names: &Vec<String>, model: &str) -> (r: Result<(), VttError>)
    ensures
        r is Ok <==> model_listed(string_views(names@), model@),
        r matches Err(e) ==> e matches VttError::Vision(m) && m@ == missing_model_text(
            string_views(names@),
            model@,
        ),
{
    let mc = str_chars(model);
    let ghost ns = string_views(names@);
    let mut i: usize = 0;
    while i < names.len()
        invariant
            i <= names.len(),
            ns == string_views(names@),
            mc@ == model@,
            forall|j: int| 0 <= j < i ==> !model@.is_prefix_of(#[trigger] ns[j]),
        decreases names.len() - i,
    {
        let nc = str_chars(names[i].as_str());
        if starts_with_chars(nc.as_slice(), mc.as_slice()) {
            assert(ns[i as int] == names@[i as int]@);
            return Ok(());
        }
        assert(ns[i as int] == names@[i as int]@);
        i = i + 1;
    }
    let mut m = String::new();
    push_str_chars(&mut m, "model '");
    push_str_chars(&mut m, model);
    push_str_chars(&mut m, "' not found in Ollama (available: ");
    let list = join_strings(names, 0, names.len(), ", ");
    assert(string_views(names@).subrange(0, names@.len() as int) =~= ns);
    push_str_chars(&mut m, list.as_str());
    push_str_chars(&mut m, ")");
    Err(VttError::Vision(m))
}

} // verus!

verus! {

// ---------------------------------------------------------------- repetition

/// The comparison key of a sentence: trimmed and lowercased.
pub open spec fn sentence_key(s: Seq<char>) -> Seq<char> {
    lowercase(trim(s))
}

/// A sentence long enough to count as a repeat: its key takes at least 15
/// bytes of UTF-8.
pub open spec fn countable(s: Seq<char>) -> bool {
    utf8_len(sentence_key(s)) >= 15
}

/// How many countable sentences before position `i` have key `k`.
pub open spec fn count_before(sents: Seq<Seq<char>>, i: int, k: Seq<char>) -> nat
    decreases i,
{
    if i <= 0 {
        0
    } else {
        count_before(sents, i - 1, k) + if countable(sents[i - 1]) && sentence_key(sents[i - 1])
            == k {
            1nat
        } else {
            0nat
        }
    }
}

/// Sentence `i` is the third occurrence of a countable sentence that occurs
/// more than three times in all.
pub open spec fn third_occurrence(sents: Seq<Seq<char>>, i: int) -> bool {
    &&& countable(sents[i])
    &&& count_before(sents, i, sentence_key(sents[i])) >= 2
    &&& count_before(sents, sents.len() as int, sentence_key(sents[i])) >= 4
}

/// The first third occurrence at or after `i`, or the end.
pub open spec fn repeat_stop(sents: Seq<Seq<char>>, i: int) -> int
    decreases sents.len() - i,
{
    if i < 0 || i >= sents.len() {
        sents.len() as int
    } else if third_occurrence(sents, i) {
        i
    } else {
        repeat_stop(sents, i + 1)
    }
}

/// A model reply cut before a generation loop: when some sentence occurs more
/// than three times, the `.`-separated sentences before the first third
/// occurrence of such a sentence (so its first two occurrences stay), joined
/// again and trimmed; the reply itself when that leaves nothing.
pub open spec fn repetition_cut(text: Seq<char>) -> Seq<char> {
    let sents = split_on(text, '.');
    let kept = trim(join_with(sents.take(repeat_stop(sents, 0)), "."@));
    if kept.len() == 0 {
        text
    } else {
        kept
    }
}

pub proof fn lemma_repeat_stop_bounds(sents: Seq<Seq<char>>, i: int)
    requires
        0 <= i <= sents.len(),
    ensures
        i <= repeat_stop(sents, i) <= sents.len(),
        forall|j: int| i <= j < repeat_stop(sents, i) ==> !third_occurrence(sents, j),
        repeat_stop(sents, i) < sents.len() ==> third_occurrence(sents, repeat_stop(sents, i)),
    decreases sents.len() - i,
{
    if i < sents.len() && !third_occurrence(sents, i) {
        lemma_repeat_stop_bounds(sents, i + 1);
    }
}

/// The key of a sentence, and whether it counts.
fn key_of(sent: &[char]) -> (r: (Vec<char>, bool))
    ensures
        r.0@ == sentence_key(sent@),
        r.1 == countable(sent@),
{
    let t = trim_chars(sent);
    let ts = string_from_chars(t.as_slice());
    let low = to_lowercase_str(ts.as_str());
    let k = str_chars(low.as_str());
    let fit = utf8_prefix(k.as_slice(), 14);
    proof {
        lemma_fit_all(k@, 14);
    }
    let long = fit.len() < k.len();
    (k, long)
}

/// How many of the first `upto` sentences count and have key `k`.
fn count_key(keys: &Vec<Vec<char>>, counts: &Vec<bool>, upto: usize, k: &[char], Ghost(ss): Ghost<
    Seq<Seq<char>>,
>) -> (c: usize)
    requires
        upto <= keys@.len() == counts@.len() <= ss.len(),
        forall|q: int| 0 <= q < keys@.len() ==> (#[trigger] keys@[q])@ == sentence_key(ss[q]),
        forall|q: int| 0 <= q < keys@.len() ==> #[trigger] counts@[q] == countable(ss[q]),
    ensures
        c == count_before(ss, upto as int, k@),
{
    let mut c: usize = 0;
    let mut j: usize = 0;
    while j < upto
        invariant
            j <= upto <= keys@.len() == counts@.len() <= ss.len(),
            c <= j,
            forall|q: int| 0 <= q < keys@.len() ==> (#[trigger] keys@[q])@ == sentence_key(ss[q]),
            forall|q: int| 0 <= q < keys@.len() ==> #[trigger] counts@[q] == countable(ss[q]),
            c == count_before(ss, j as int, k@),
        decreases upto - j,
    {
        if counts[j] && chars_eq(keys[j].as_slice(), k) {
            c = c + 1;
        }
        j = j + 1;
    }
    c
}

/// Cuts a model reply before a generation loop: when a sentence occurs more
/// than three times, the reply ends after its second occurrence.
pub fn truncate_repetition(text: &str) -> (r: String)
    ensures
        r@ == repetition_cut(text@),
{
    let cs = str_chars(text);
    let sents = split_chars(cs.as_slice(), '.');
    let ghost ss = split_on(text@, '.');
    let n = sents.len();
    let mut keys: Vec<Vec<char>> = Vec::new();
    let mut counts: Vec<bool> = Vec::new();
    let mut i: usize = 0;
    while i < n
        invariant
            i <= n == sents@.len(),
            views(sents@) == ss,
            keys@.len() == i,
            counts@.len() == i,
            forall|j: int| 0 <= j < i ==> (#[trigger] keys@[j])@ == sentence_key(ss[j]),
            forall|j: int| 0 <= j < i ==> #[trigger] counts@[j] == countable(ss[j]),
        decreases n - i,
    {
        assert(ss[i as int] == sents@[i as int]@);
        let (k, long) = key_of(sents[i].as_slice());
        keys.push(k);
        counts.push(long);
        i = i + 1;
    }
    let mut out = String::new();
    i = 0;
    let mut stop = false;
    while i < n && !stop
        invariant
            i <= n == sents@.len() == ss.len() == keys@.len() == counts@.len(),
            views(sents@) == ss,
            forall|j: int| 0 <= j < n ==> (#[trigger] keys@[j])@ == sentence_key(ss[j]),
            forall|j: int| 0 <= j < n ==> #[trigger] counts@[j] == countable(ss[j]),
            !stop ==> forall|j: int| 0 <= j < i ==> !third_occurrence(ss, j),
            !stop ==> out@ == join_with(ss.take(i as int), "."@),
            stop ==> i > 0 && third_occurrence(ss, i - 1) && (forall|j: int|
                0 <= j < i - 1 ==> !third_occurrence(ss, j)) && out@ == join_with(
                ss.take(i - 1),
                "."@,
            ),
        decreases n - i,
    {
        let mut third = false;
        if counts[i] {
            let before = count_key(&keys, &counts, i, keys[i].as_slice(), Ghost(ss));
            if before >= 2 {
                let total = count_key(&keys, &counts, n, keys[i].as_slice(), Ghost(ss));
                third = total >= 4;
            }
        }
        assert(third == third_occurrence(ss, i as int));
        if third {
            stop = true;
        } else {
            let s = string_from_chars(sents[i].as_slice());
            assert(s@ == ss[i as int]);
            push_joined(&mut out, i, s.as_str(), ".", Ghost(ss.take(i as int)));
            assert(ss.take(i as int).push(ss[i as int]) == ss.take(i + 1));
        }
        i = i + 1;
    }
    let ghost stop_at = repeat_stop(ss, 0);
    proof {
        lemma_repeat_stop_bounds(ss, 0);
        if stop {
            assert(stop_at == i - 1);
        } else {
            assert(i == n);
            assert(stop_at == ss.len());
            assert(ss.take(i as int) == ss);
        }
    }
    let oc = str_chars(out.as_str());
    let t = trim_chars(oc.as_slice());
    if t.len() == 0 {
        text.to_owned()
    } else {
        string_from_chars(t.as_slice())
    }
}

} // verus!

verus! {

// ---------------------------------------------------------------- batches

/// The transcript a batch sees: its window's speech, or nothing when the
/// transcript is switched off.
pub open spec fn batch_transcript(
    segs: Seq<Segment>,
    batch_start: u64,
    batch_end: u64,
    mode: TranscriptWindow,
    use_transcript: bool,
) -> Option<Seq<char>> {
    let t = window_texts(segs, batch_start, batch_end, mode);
    if !use_transcript || t.len() == 0 {
        None
    } else {
        Some(join_with(t, " "@))
    }
}

/// The prompt of one batch: the template with the batch's transcript window
/// and the previous chunk's context, both left out when the transcript is
/// switched off.
pub fn batch_prompt(
    template: &str,
    segments: &[Segment],
    batch_start: u64,
    batch_end: u64,
    mode: TranscriptWindow,
    use_transcript: bool,
    previous_context: Option<&str>,
) -> (p: String)
    ensures
        p@ == prompt_text(
            template@,
            batch_transcript(segments@, batch_start, batch_end, mode, use_transcript),
            if use_transcript {
                opt_view(previous_context)
            } else {
                None
            },
        ),
{
    let windowed = if use_transcript {
        transcript_for_window(segments, batch_start, batch_end, mode)
    } else {
        None
    };
    let ctx = if use_transcript {
        previous_context
    } else {
        None
    };
    match &windowed {
        Some(t) => build_prompt(template, Some(t.as_str()), ctx),
        None => build_prompt(template, None, ctx),
    }
}

/// What to do with one reply to a batch.
#[derive(Debug)]
pub enum ReplyStep {
    /// Keep this description.
    Accept(String),
    /// Ask again.
    Retry,
    /// Give up with this error.
    Fail(VttError),
}

/// Decides on the reply to attempt `attempt` (from 0) of a batch: a
/// description is kept with any generation loop cut off; a failed reply is
/// retried twice, and the third failure is final.
pub fn reply_step(attempt: u32, reply: Result<String, VttError>) -> (s: ReplyStep)
    ensures
        match reply {
            Ok(d) => s matches ReplyStep::Accept(c) && c@ == repetition_cut(d@),
            Err(e) => if attempt < 2 {
                s is Retry
            } else {
                s matches ReplyStep::Fail(f) && f == e
            },
        },
{
    match reply {
        Ok(d) => ReplyStep::Accept(truncate_repetition(d.as_str())),
        Err(e) => if attempt < 2 {
            ReplyStep::Retry
        } else {
            ReplyStep::Fail(e)
        },
    }
}

// ---------------------------------------------------------------- frames

/// The standard, padded base64 text of `bytes`.
pub uninterp spec fn base64_standard(bytes: Seq<u8>) -> Seq<char>;

/// Calls `encode` of `base64::engine::general_purpose::STANDARD`. Trusted:
/// the text is `base64_standard` of the bytes, four characters for every
/// started group of three bytes. The crate panics when that length does not
/// fit in `usize`, which `requires` rules out.
#[verifier::external_body]
pub(crate) fn encode_base64(bytes: &[u8]) -> (r: String)
    requires
        bytes@.len() / 3 * 4 + 4 <= usize::MAX,
    ensures
        r@ == base64_standard(bytes@),
        r@.len() == (bytes@.len() + 2) / 3 * 4,
{
    base64::engine::general_purpose::STANDARD.encode(bytes)
}

/// The frames of a batch, each encoded as base64 for the model.
pub fn encode_frames(frames: &Vec<Vec<u8>>) -> (r: Vec<String>)
    requires
        forall|i: int| 0 <= i < frames@.len() ==> #[trigger] frames@[i]@.len() / 3 * 4 + 4 <= usize::MAX,
    ensures
        r@.len() == frames@.len(),
        forall|i: int| 0 <= i < r@.len() ==> #[trigger] r@[i]@ == base64_standard(frames@[i]@),
{
    let mut r: Vec<String> = Vec::new();
    let mut i: usize = 0;
    while i < frames.len()
        invariant
            i <= frames@.len(),
            r@.len() == i,
            forall|k: int| 0 <= k < frames@.len() ==> #[trigger] frames@[k]@.len() / 3 * 4 + 4 <= usize::MAX,
            forall|k: int| 0 <= k < i ==> #[trigger] r@[k]@ == base64_standard(frames@[k]@),
        decreases frames@.len() - i,
    {
        r.push(encode_base64(frames[i].as_slice()));
        i = i + 1;
    }
    r
}

} // verus!

verus! {

/// With the transcript switched off, a batch's prompt is the bare template:
/// neither speech nor the instruction to use it is added.
pub proof fn lemma_prompt_without_transcript_is_template(
    template: Seq<char>,
    segs: Seq<Segment>,
    batch_start: u64,
    batch_end: u64,
    mode: TranscriptWindow,
)
    ensures
        prompt_text(template, batch_transcript(segs, batch_start, batch_end, mode, false), None)
            == template,
{
}

} // verus!
