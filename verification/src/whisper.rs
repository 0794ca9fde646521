//! Turning speech-recognition output into timeline segments.

use vstd::prelude::*;
use vstd::string::StringSliceAdditionalSpecFns;
use crate::digits::{decimal, push_decimal};
use crate::error::VttError;
use crate::paths::sub_chars;
use crate::text::{
    all_ws, is_ws, join_with, lacks, lowercase, push_joined, push_str_chars, str_chars, string_from_chars, to_lowercase_str, trim,
    trim_chars,
};
use crate::types::{
    format_timestamp, parse_timestamp, parsed_timestamp, timestamp_text, Chunk, Segment, SegmentType,
};

verus! {

/// How a recognized segment's text is classified: `None` when it is blank;
/// a sound event, lowercased, when the whole trimmed text is one bracketed
/// tag with no bracket inside; speech, trimmed, otherwise.
pub open spec fn classified(text: Seq<char>) -> Option<(SegmentType, Seq<char>)> {
    let t = trim(text);
    if t.len() == 0 {
        None
    } else if t[0] == '[' && t.last() == ']' && t.len() > 2 && lacks(
        t.subrange(1, t.len() - 1),
        '[',
    ) && lacks(t.subrange(1, t.len() - 1), ']') {
        Some((SegmentType::Sound, lowercase(t.subrange(1, t.len() - 1))))
    } else {
        Some((SegmentType::Speech, t))
    }
}

/// Whether the characters of `s` include `c`.
fn has_char(s: &[char], c: char) -> (b: bool)
    ensures
        b == !lacks(s@, c),
{
    let mut i: usize = 0;
    while i < s.len()
        invariant
            i <= s.len(),
            forall|j: int| 0 <= j < i ==> #[trigger] s@[j] != c,
        decreases s.len() - i,
    {
        if s[i] == c {
            return true;
        }
        i = i + 1;
    }
    false
}

/// Speech keeps its words and drops the padding around them: text classified
/// as speech is carried trimmed, never empty, and neither starts nor ends
/// with whitespace; text that is all whitespace is no segment.
pub proof fn lemma_speech_is_trimmed(text: Seq<char>)
    ensures
        match classified(text) {
            Some((k, s)) => k == SegmentType::Speech ==> s == trim(text) && s.len() > 0 && !is_ws(
                s[0],
            ) && !is_ws(s.last()),
            None => all_ws(text),
        },
{
    crate::text::lemma_trim_start_props(text);
    let a = crate::text::trim_start(text);
    crate::text::lemma_trim_end_props(a);
    let t = trim(text);
    if t.len() > 0 {
        assert(t[0] == a[0]);
    } else {
        crate::text::lemma_trim_empty_iff_all_ws(text);
    }
}

/// Classifies a recognized text as speech or a sound event such as `[MUSIC]`.
pub fn classify_segment_text(text: &str) -> (r: Option<(SegmentType, String)>)
    ensures
        match (r, classified(text@)) {
            (None, None) => true,
            (Some((k, s)), Some((k2, s2))) => k == k2 && s@ == s2,
            _ => false,
        },
        r matches Some((k, s)) ==> (k == SegmentType::Speech ==> s@ == trim(text@)),
{
    proof {
        lemma_speech_is_trimmed(text@);
    }
    let cs = str_chars(text);
    let t = trim_chars(cs.as_slice());
    let n = t.len();
    if n == 0 {
        return None;
    }
    if t[0] == '[' && t[n - 1] == ']' && n > 2 {
        let inner = sub_chars(t.as_slice(), 1, n - 1);
        if !has_char(inner.as_slice(), '[') && !has_char(inner.as_slice(), ']') {
            let s = string_from_chars(inner.as_slice());
            return Some((SegmentType::Sound, to_lowercase_str(s.as_str())));
        }
    }
    Some((SegmentType::Speech, string_from_chars(t.as_slice())))
}

/// A recognized segment placed on the video's timeline: `t0` and `t1` are in
/// hundredths of a second from the chunk's start.
pub fn transcribed_segment(chunk: &Chunk, t0: u64, t1: u64, text: &str) -> (r: Option<Segment>)
    requires
        chunk.start_ms + t0 * 10 <= u64::MAX,
        chunk.start_ms + t1 * 10 <= u64::MAX,
    ensures
        r is None <==> classified(text@) is None,
        r matches Some(s) ==> classified(text@) matches Some((k, c)) && s.segment_type == k
            && s.content@ == c && s.start@ == timestamp_text((chunk.start_ms + t0 * 10) as nat)
            && s.end@ == timestamp_text((chunk.start_ms + t1 * 10) as nat) && s.frames@.len() == 0,
{
    match classify_segment_text(text) {
        Some((segment_type, content)) => {
            let start = format_timestamp(chunk.start_ms + t0 * 10);
            let end = format_timestamp(chunk.start_ms + t1 * 10);
            Some(Segment { segment_type, start, end, content, frames: Vec::new() })
        },
        None => None,
    }
}

/// The format a WAV file must have for recognition: 16 kHz mono, 16-bit.
pub open spec fn wav_problem(channels: u16, sample_rate: u32, bits: u16) -> Option<Seq<char>> {
    if channels != 1 {
        Some("expected mono WAV, got "@ + decimal(channels as nat) + " channels"@)
    } else if sample_rate != 16000 {
        Some("expected 16kHz WAV, got "@ + decimal(sample_rate as nat) + " Hz"@)
    } else if bits != 16 {
        Some("expected 16-bit WAV, got "@ + decimal(bits as nat) + "-bit"@)
    } else {
        None
    }
}

/// Checks a WAV header against the format recognition expects.
pub fn check_wav_spec(channels: u16, sample_rate: u32, bits_per_sample: u16) -> (r: Result<
    (),
    VttError,
>)
    ensures
        r is Ok <==> wav_problem(channels, sample_rate, bits_per_sample) is None,
        r matches Err(e) ==> (e matches VttError::Whisper(m) && wav_problem(
            channels,
            sample_rate,
            bits_per_sample,
        ) == Some(m@)),
{
    let mut m = String::new();
    if channels != 1 {
        push_str_chars(&mut m, "expected mono WAV, got ");
        push_decimal(&mut m, channels as u64);
        push_str_chars(&mut m, " channels");
        return Err(VttError::Whisper(m));
    }
    if sample_rate != 16000 {
        push_str_chars(&mut m, "expected 16kHz WAV, got ");
        push_decimal(&mut m, sample_rate as u64);
        push_str_chars(&mut m, " Hz");
        return Err(VttError::Whisper(m));
    }
    if bits_per_sample != 16 {
        push_str_chars(&mut m, "expected 16-bit WAV, got ");
        push_decimal(&mut m, bits_per_sample as u64);
        push_str_chars(&mut m, "-bit");
        return Err(VttError::Whisper(m));
    }
    Ok(())
}

/// How the recognizer decodes.
#[derive(Debug, Clone, Copy, PartialEq, Eq, Structural)]
pub enum Decoding {
    /// Beam search of the given width; patience is left at its default.
    BeamSearch { beam_size: i32 },
    /// Greedy decoding keeping the best of this many candidates.
    Greedy { best_of: i32 },
}

/// Beam search for a configured width above one, greedy otherwise.
pub fn sampling_strategy(beam_size: u16) -> (d: Decoding)
    ensures
        beam_size > 1 ==> d == (Decoding::BeamSearch { beam_size: beam_size as i32 }),
        beam_size <= 1 ==> d == (Decoding::Greedy { best_of: 1 }),
{
    if beam_size > 1 {
        Decoding::BeamSearch { beam_size: beam_size as i32 }
    } else {
        Decoding::Greedy { best_of: 1 }
    }
}

} // verus!

verus! {

// ---------------------------------------------------------------- repetition windows

/// Where a segment starts, in milliseconds; 0 when its start does not parse.
pub open spec fn start_ms(s: Segment) -> int {
    match parsed_timestamp(s.start@) {
        Some(v) => v as int,
        None => 0,
    }
}

/// The speech among the first `n` segments grouped into windows of indices,
/// with the start of the last window: a speech segment joins the last window
/// when it starts less than `window_ms` after that window's start, and opens
/// a new window otherwise.
pub open spec fn windows_upto(segs: Seq<Segment>, n: int, window_ms: int) -> (Seq<Seq<usize>>, int)
    decreases n,
{
    if n <= 0 {
        (Seq::empty(), 0)
    } else {
        let prev = windows_upto(segs, n - 1, window_ms);
        if segs[n - 1].segment_type != SegmentType::Speech {
            prev
        } else {
            let t = start_ms(segs[n - 1]);
            if prev.0.len() > 0 && t - prev.1 < window_ms {
                (prev.0.update(prev.0.len() - 1, prev.0.last().push((n - 1) as usize)), prev.1)
            } else {
                (prev.0.push(seq![(n - 1) as usize]), t)
            }
        }
    }
}

/// The windows over all of `segs`.
pub open spec fn speech_windows_of(segs: Seq<Segment>, window_ms: int) -> Seq<Seq<usize>> {
    windows_upto(segs, segs.len() as int, window_ms).0
}

pub open spec fn index_views(v: Seq<Vec<usize>>) -> Seq<Seq<usize>> {
    v.map_values(|x: Vec<usize>| x@)
}

/// Groups the speech segments into the windows over which repetition is
/// measured (see [`windows_upto`]); each window is a nonempty list of indices
/// into `segments`.
pub fn speech_windows(segments: &[Segment], window_ms: u64) -> (w: Vec<Vec<usize>>)
    ensures
        index_views(w@) == speech_windows_of(segments@, window_ms as int),
        forall|a: int| 0 <= a < w@.len() ==> (#[trigger] w@[a])@.len() > 0,
        forall|a: int, b: int|
            0 <= a < w@.len() && 0 <= b < w@[a]@.len() ==> #[trigger] w@[a]@[b] < segments@.len(),
{
    let mut ws: Vec<Vec<usize>> = Vec::new();
    let mut st: u64 = 0;
    let mut i: usize = 0;
    while i < segments.len()
        invariant
            i <= segments.len(),
            index_views(ws@) == windows_upto(segments@, i as int, window_ms as int).0,
            st as int == windows_upto(segments@, i as int, window_ms as int).1,
            forall|a: int| 0 <= a < ws@.len() ==> (#[trigger] ws@[a])@.len() > 0,
            forall|a: int, b: int| 0 <= a < ws@.len() && 0 <= b < ws@[a]@.len() ==> #[trigger] ws@[a]@[b] < i,
        decreases segments.len() - i,
    {
        let seg = &segments[i];
        let ghost before = ws@;
        if seg.segment_type == SegmentType::Speech {
            let t: u64 = match parse_timestamp(seg.start.as_str()) {
                Some(v) => v,
                None => 0,
            };
            let joins = ws.len() > 0 && (t < st || t - st < window_ms);
            if joins {
                let last = ws.len() - 1;
                let mut cur = ws.remove(last);
                cur.push(i);
                ws.push(cur);
                proof {
                    assert(ws@ =~= before.update(last as int, cur));
                    assert(index_views(ws@) =~= index_views(before).update(
                        last as int,
                        index_views(before).last().push(i),
                    ));
                }
            } else {
                let mut v: Vec<usize> = Vec::new();
                v.push(i);
                ws.push(v);
                st = t;
                proof {
                    assert(index_views(ws@) =~= index_views(before).push(seq![i]));
                }
            }
        }
        i = i + 1;
    }
    ws
}

/// The indices of the speech segments among the first `n`, in order.
pub open spec fn speech_upto(segs: Seq<Segment>, n: int) -> Seq<usize>
    decreases n,
{
    if n <= 0 {
        Seq::empty()
    } else if segs[n - 1].segment_type == SegmentType::Speech {
        speech_upto(segs, n - 1).push((n - 1) as usize)
    } else {
        speech_upto(segs, n - 1)
    }
}

proof fn lemma_windows_upto_cover(segs: Seq<Segment>, n: int, window_ms: int)
    requires
        0 <= n <= segs.len(),
    ensures
        windows_upto(segs, n, window_ms).0.flatten_alt() == speech_upto(segs, n),
    decreases n,
{
    if n > 0 {
        lemma_windows_upto_cover(segs, n - 1, window_ms);
        let ws = windows_upto(segs, n - 1, window_ms).0;
        let next = windows_upto(segs, n, window_ms).0;
        if segs[n - 1].segment_type == SegmentType::Speech {
            let i = (n - 1) as usize;
            if next.len() == ws.len() {
                assert(next.drop_last() =~= ws.drop_last());
                assert(next.last() == ws.last().push(i));
                assert(ws.flatten_alt() == ws.drop_last().flatten_alt().add(ws.last()));
                assert(next.flatten_alt() =~= ws.flatten_alt().push(i));
            } else {
                assert(next.drop_last() =~= ws);
                assert(next.flatten_alt() =~= ws.flatten_alt().push(i));
            }
        }
    }
}

/// The repetition windows cover the speech exactly: read in order, they list
/// every speech segment once, in timeline order, and no segment of another kind.
pub proof fn lemma_windows_cover_speech(segs: Seq<Segment>, window_ms: int)
    ensures
        speech_windows_of(segs, window_ms).flatten() == speech_upto(segs, segs.len() as int),
{
    lemma_windows_upto_cover(segs, segs.len() as int, window_ms);
    speech_windows_of(segs, window_ms).lemma_flatten_and_flatten_alt_are_equivalent();
}

proof fn lemma_windows_upto_span(segs: Seq<Segment>, n: int, window_ms: int)
    requires
        0 <= n <= segs.len() <= usize::MAX,
    ensures
        ({
            let (ws, st) = windows_upto(segs, n, window_ms);
            &&& forall|a: int| 0 <= a < ws.len() ==> (#[trigger] ws[a]).len() > 0
            &&& forall|a: int, b: int|
                0 <= a < ws.len() && 0 <= b < ws[a].len() ==> #[trigger] ws[a][b] < n
            &&& ws.len() > 0 ==> st == start_ms(segs[ws.last()[0] as int])
            &&& forall|a: int, b: int|
                0 <= a < ws.len() && 0 < b < ws[a].len() ==> start_ms(segs[#[trigger] ws[a][b] as int])
                    - start_ms(segs[ws[a][0] as int]) < window_ms
        }),
    decreases n,
{
    if n > 0 {
        lemma_windows_upto_span(segs, n - 1, window_ms);
        let (ws, st) = windows_upto(segs, n - 1, window_ms);
        let (next, st2) = windows_upto(segs, n, window_ms);
        let i = (n - 1) as usize;
        if segs[n - 1].segment_type == SegmentType::Speech {
            let t = start_ms(segs[n - 1]);
            if ws.len() > 0 && t - st < window_ms {
                let l = ws.len() - 1;
                assert(next == ws.update(l, ws[l].push(i)));
                assert(st2 == st);
                assert forall|a: int, b: int|
                    0 <= a < next.len() && 0 < b < next[a].len() implies start_ms(
                        segs[#[trigger] next[a][b] as int],
                    ) - start_ms(segs[next[a][0] as int]) < window_ms by {
                    if a < l {
                        assert(next[a] == ws[a]);
                    } else {
                        assert(next[a][0] == ws[l][0]);
                        if b < ws[l].len() {
                            assert(next[a][b] == ws[l][b]);
                        } else {
                            assert(ws.last() == ws[l]);
                            assert(next[a][b] == i);
                            assert(start_ms(segs[next[a][b] as int]) == t);
                            assert(start_ms(segs[next[a][0] as int]) == st);
                        }
                    }
                }
                assert forall|a: int, b: int|
                    0 <= a < next.len() && 0 <= b < next[a].len() implies #[trigger] next[a][b] < n by {
                    if a < l {
                        assert(next[a] == ws[a]);
                    } else if b < ws[l].len() {
                        assert(next[a][b] == ws[l][b]);
                    }
                }
                assert forall|a: int| 0 <= a < next.len() implies (#[trigger] next[a]).len() > 0 by {
                    if a < l {
                        assert(next[a] == ws[a]);
                    }
                }
            } else {
                assert(next == ws.push(seq![i]));
                assert forall|a: int, b: int|
                    0 <= a < next.len() && 0 < b < next[a].len() implies start_ms(
                        segs[#[trigger] next[a][b] as int],
                    ) - start_ms(segs[next[a][0] as int]) < window_ms by {
                    assert(a < ws.len());
                    assert(next[a] == ws[a]);
                }
                assert forall|a: int, b: int|
                    0 <= a < next.len() && 0 <= b < next[a].len() implies #[trigger] next[a][b] < n by {
                    if a < ws.len() {
                        assert(next[a] == ws[a]);
                    }
                }
                assert forall|a: int| 0 <= a < next.len() implies (#[trigger] next[a]).len() > 0 by {
                    if a < ws.len() {
                        assert(next[a] == ws[a]);
                    }
                }
            }
        }
    }
}

/// The repetition windows go by start time: every segment of a window starts
/// less than `window_ms` after the segment that opens it.
pub proof fn lemma_windows_by_start_time(segs: Seq<Segment>, window_ms: int, a: int, b: int)
    requires
        segs.len() <= usize::MAX,
        0 <= a < speech_windows_of(segs, window_ms).len(),
        0 <= b < speech_windows_of(segs, window_ms)[a].len(),
    ensures
        b > 0 ==> start_ms(segs[speech_windows_of(segs, window_ms)[a][b] as int]) - start_ms(
            segs[speech_windows_of(segs, window_ms)[a][0] as int],
        ) < window_ms,
{
    lemma_windows_upto_span(segs, segs.len() as int, window_ms);
}

/// The text of a window: its segments' contents joined by single spaces.
pub open spec fn window_text_of(segs: Seq<Segment>, window: Seq<usize>) -> Seq<char> {
    join_with(window.map_values(|j: usize| segs[j as int].content@), " "@)
}

/// The text over which a window's repetition is measured.
pub fn window_text(segments: &[Segment], window: &[usize]) -> (r: String)
    requires
        forall|b: int| 0 <= b < window@.len() ==> #[trigger] window@[b] < segments@.len(),
    ensures
        r@ == window_text_of(segments@, window@),
{
    let ghost parts = window@.map_values(|j: usize| segments@[j as int].content@);
    let mut out = String::new();
    let mut b: usize = 0;
    while b < window.len()
        invariant
            b <= window.len(),
            parts == window@.map_values(|j: usize| segments@[j as int].content@),
            forall|q: int| 0 <= q < window@.len() ==> #[trigger] window@[q] < segments@.len(),
            out@ == join_with(parts.take(b as int), " "@),
        decreases window.len() - b,
    {
        let seg = &segments[window[b]];
        push_joined(&mut out, b, seg.content.as_str(), " ", Ghost(parts.take(b as int)));
        assert(parts.take(b as int).push(parts[b as int]) =~= parts.take(b + 1));
        b = b + 1;
    }
    assert(parts.take(window@.len() as int) =~= parts);
    out
}

// ---------------------------------------------------------------- compressibility

/// The zlib stream that `flate2` writes for `bytes` at its default level.
pub uninterp spec fn zlib_default(bytes: Seq<u8>) -> Seq<u8>;

/// Runs `flate2::write::ZlibEncoder` at `Compression::default()` over `bytes`
/// into a `Vec` (`new`, `write_all`, `finish`). Claimed: it hands back the
/// zlib stream of `bytes`, the same for the same bytes, and that stream is
/// never empty. The encoder writes into a `Vec`, whose `Write` never fails,
/// and a fresh encoder at the default level reports no compressor error; a
/// zlib stream always carries its two-byte header and four-byte checksum.
#[verifier::external_body]
fn zlib_compress(bytes: &[u8]) -> (r: Option<Vec<u8>>)
    ensures
        r is Some,
        r matches Some(c) ==> c@ == zlib_default(bytes@) && c@.len() > 0,
{
    let mut enc = flate2::write::ZlibEncoder::new(Vec::new(), flate2::Compression::default());
    match std::io::Write::write_all(&mut enc, bytes) {
        Ok(()) => {},
        Err(_) => return None,
    }
    match enc.finish() {
        Ok(c) => Some(c),
        Err(_) => None,
    }
}

/// The sizes behind a text's compression ratio: its length in UTF-8 bytes and
/// the length of its zlib stream; `None` for an empty text (whose ratio is
/// taken as zero).
pub fn compression_sizes(text: &str) -> (r: Option<(usize, usize)>)
    ensures
        text.spec_bytes().len() == 0 ==> r is None,
        text.spec_bytes().len() > 0 ==> r == Some(
            (text.spec_bytes().len() as usize, zlib_default(text.spec_bytes()).len() as usize),
        ),
        r matches Some((n, c)) ==> n > 0 && c > 0,
{
    let bytes = text.as_bytes();
    if bytes.len() == 0 {
        return None;
    }
    match zlib_compress(bytes) {
        Some(c) => Some((bytes.len(), c.len())),
        None => None,
    }
}

} // verus!
