use vtt::types::{format_timestamp, Chunk, Segment, SegmentType};
use vtt::whisper::{
    check_wav_spec, classify_segment_text, compression_sizes, sampling_strategy, speech_windows, transcribed_segment,
    window_text, Decoding,
};

#[test]
fn test_classify_speech() {
    assert_eq!(
        classify_segment_text("Hello, how are you?"),
        Some((SegmentType::Speech, "Hello, how are you?".to_string()))
    );
}

#[test]
fn test_classify_sound_music() {
    assert_eq!(classify_segment_text("[MUSIC]"), Some((SegmentType::Sound, "music".to_string())));
}

#[test]
fn test_classify_sound_laughter() {
    assert_eq!(classify_segment_text("[LAUGHTER]"), Some((SegmentType::Sound, "laughter".to_string())));
}

#[test]
fn test_classify_sound_applause() {
    assert_eq!(classify_segment_text("  [APPLAUSE]  "), Some((SegmentType::Sound, "applause".to_string())));
}

#[test]
fn test_classify_mixed_brackets_is_speech() {
    assert_eq!(
        classify_segment_text("he said [something] interesting"),
        Some((SegmentType::Speech, "he said [something] interesting".to_string()))
    );
}

#[test]
fn test_classify_empty_returns_none() {
    assert_eq!(classify_segment_text(""), None);
    assert_eq!(classify_segment_text("   "), None);
}

#[test]
fn test_classify_empty_brackets_is_speech() {
    assert_eq!(classify_segment_text("[]"), Some((SegmentType::Speech, "[]".to_string())));
}

#[test]
fn nested_brackets_are_speech() {
    assert_eq!(classify_segment_text("[a [b] c]"), Some((SegmentType::Speech, "[a [b] c]".to_string())));
}

#[test]
fn test_sampling_strategy_uses_beam_search_above_one() {
    assert_eq!(sampling_strategy(5), Decoding::BeamSearch { beam_size: 5 });
}

#[test]
fn test_sampling_strategy_falls_back_to_greedy_at_one_or_zero() {
    for n in [0u16, 1u16] {
        assert_eq!(sampling_strategy(n), Decoding::Greedy { best_of: 1 });
    }
}

#[test]
fn test_timestamp_offset_from_chunk() {
    let chunk = Chunk { index: 1, start_ms: 180_000, end_ms: 360_000 };
    let seg = transcribed_segment(&chunk, 500, 700, "hello").unwrap();
    assert_eq!(seg.start, "00:03:05.000");
    assert_eq!(seg.end, "00:03:07.000");
    assert_eq!(seg.segment_type, SegmentType::Speech);
}

#[test]
fn test_timestamp_offset_zero_chunk() {
    let chunk = Chunk { index: 0, start_ms: 0, end_ms: 180_000 };
    let seg = transcribed_segment(&chunk, 1234, 1300, "[MUSIC]").unwrap();
    assert_eq!(seg.start, "00:00:12.340");
    assert_eq!(seg.segment_type, SegmentType::Sound);
    assert_eq!(seg.content, "music");
    assert!(transcribed_segment(&chunk, 0, 10, "  ").is_none());
}

#[test]
fn wav_spec_errors_name_the_mismatch() {
    assert!(check_wav_spec(1, 16000, 16).is_ok());
    assert_eq!(check_wav_spec(2, 16000, 16).unwrap_err().message(), "whisper error: expected mono WAV, got 2 channels");
    assert_eq!(check_wav_spec(1, 44100, 16).unwrap_err().message(), "whisper error: expected 16kHz WAV, got 44100 Hz");
    assert_eq!(check_wav_spec(1, 16000, 24).unwrap_err().message(), "whisper error: expected 16-bit WAV, got 24-bit");
}

/// `len(utf8) / len(zlib(utf8))`, from the library's sizes.
fn compression_ratio(text: &str) -> f64 {
    match compression_sizes(text) {
        Some((bytes, compressed)) => bytes as f64 / compressed as f64,
        None => 0.0,
    }
}

#[test]
fn test_compression_ratio_flags_repetition() {
    let normal = "the price is approaching a significant level of resistance                       that we have been watching for several weeks now";
    let looped = "we can look at it in terms of how the rally did run out of juice ".repeat(10);
    let r_normal = compression_ratio(normal);
    let r_looped = compression_ratio(&looped);
    assert!(r_looped > r_normal * 2.0, "looped text ({r_looped:.2}) must score far above normal ({r_normal:.2})");
    assert!(r_looped > 2.4, "known loop must exceed the standard 2.4 threshold");
}

#[test]
fn test_compression_ratio_false_positives_are_real() {
    let counting = "one two three four five six seven eight nine ten                         eleven twelve thirteen fourteen fifteen sixteen";
    assert!(compression_ratio(counting) > 1.0);
}

#[test]
fn test_compression_ratio_short_text_scores_low() {
    assert!(compression_ratio("okay") < 1.0, "very short strings compress worse than they store; never flaggable");
}

#[test]
fn compression_sizes_empty_text_is_none_and_loops_shrink() {
    assert_eq!(compression_sizes(""), None);
    let looped = "we can look at it in terms of how the rally did run out of juice ".repeat(10);
    let (n, c) = compression_sizes(&looped).unwrap();
    assert_eq!(n, looped.len());
    assert!(c < n / 4);
    let (n, c) = compression_sizes("okay").unwrap();
    assert_eq!(n, 4);
    // header, one block and the checksum: longer than the text, still reported
    assert!(c > n);
    assert_eq!(compression_sizes("é"), Some((2, compression_sizes("é").unwrap().1)));
}

fn make_segment(t: SegmentType, start_ms: u64, end_ms: u64, content: &str) -> Segment {
    Segment {
        segment_type: t,
        start: format_timestamp(start_ms),
        end: format_timestamp(end_ms),
        content: content.to_string(),
        frames: Vec::new(),
    }
}

/// (start, end, ratio, segments) of each window whose ratio exceeds `threshold`.
fn repetition_report(segs: &[Segment], threshold: f64, window_ms: u64) -> Vec<(String, String, f64, usize)> {
    speech_windows(segs, window_ms)
        .into_iter()
        .filter_map(|w| {
            let ratio = compression_ratio(&window_text(segs, &w));
            (ratio > threshold).then(|| (segs[w[0]].start.clone(), segs[w[w.len() - 1]].end.clone(), ratio, w.len()))
        })
        .collect()
}

#[test]
fn test_repetition_report_flags_without_mutating() {
    let looped = "we can look at it in terms of how the rally did run out of juice ".repeat(10);
    let segs = vec![
        make_segment(SegmentType::Speech, 0, 5_000, "a normal sentence about the market"),
        make_segment(SegmentType::Speech, 5_000, 10_000, &looped),
        make_segment(SegmentType::Visual, 10_000, 15_000, &looped),
    ];
    let before: Vec<String> = segs.iter().map(|s| s.content.clone()).collect();
    let report = repetition_report(&segs, 2.4, 30_000);
    assert_eq!(report.len(), 1, "only the SPEECH loop is reported");
    assert_eq!(report[0].0, "00:00:00.000");
    assert_eq!(report[0].1, "00:00:10.000");
    assert_eq!(report[0].3, 2);
    assert!(report[0].2 > 2.4);
    let after: Vec<String> = segs.iter().map(|s| s.content.clone()).collect();
    assert_eq!(before, after, "report must not mutate segment content");
}

#[test]
fn test_repetition_report_window_catches_loop_split_across_short_segments() {
    let segs: Vec<Segment> = (0..15u64)
        .map(|i| make_segment(SegmentType::Speech, 597_000 + i * 2_000, 599_000 + i * 2_000, "So let's go to the 4th hour."))
        .collect();
    assert!(segs.iter().all(|s| compression_ratio(&s.content) <= 2.4));
    let flags = repetition_report(&segs, 2.4, 30_000);
    assert_eq!(flags.len(), 1, "one window, one flag: {flags:?}");
    assert_eq!(flags[0].3, 15);
    assert_eq!(flags[0].0, format_timestamp(597_000));
    assert_eq!(flags[0].1, format_timestamp(599_000 + 14 * 2_000));
    assert!(flags[0].2 > 2.4);
}

#[test]
fn test_repetition_report_windows_split_by_start_time() {
    let mut segs: Vec<Segment> = (0..10u64)
        .map(|i| make_segment(SegmentType::Speech, i * 2_000, i * 2_000 + 1_500, "again and again"))
        .collect();
    segs.extend(
        (0..10u64).map(|i| make_segment(SegmentType::Speech, 100_000 + i * 2_000, 101_500 + i * 2_000, "over and over")),
    );
    let flags = repetition_report(&segs, 2.4, 30_000);
    assert_eq!(flags.len(), 2);
    assert_eq!(flags[0].0, format_timestamp(0));
    assert_eq!(flags[1].0, format_timestamp(100_000));
}

#[test]
fn test_repetition_report_varied_speech_not_flagged_and_visual_ignored() {
    let segs = vec![
        make_segment(SegmentType::Speech, 0, 3_000, "Bitcoin held the yearly open near forty-two thousand."),
        make_segment(SegmentType::Speech, 3_000, 6_000, "Volume on the four-hour is thinning into the weekend."),
        make_segment(SegmentType::Speech, 6_000, 9_000, "Watch the fifty-day moving average as support."),
        make_segment(
            SegmentType::Visual,
            0,
            7_500,
            "chart chart chart chart chart chart chart chart chart chart chart chart chart chart",
        ),
    ];
    assert!(repetition_report(&segs, 2.4, 30_000).is_empty());
    assert!(repetition_report(&[], 2.4, 30_000).is_empty());
}

#[test]
fn speech_windows_skip_other_kinds_and_group_by_start() {
    let segs = vec![
        make_segment(SegmentType::Speech, 0, 1_000, "a"),
        make_segment(SegmentType::Visual, 500, 2_000, "v"),
        make_segment(SegmentType::Speech, 29_999, 30_500, "b"),
        make_segment(SegmentType::Sound, 30_000, 30_100, "s"),
        make_segment(SegmentType::Speech, 30_000, 31_000, "c"),
        make_segment(SegmentType::Speech, 59_999, 60_000, "d"),
    ];
    assert_eq!(speech_windows(&segs, 30_000), vec![vec![0, 2], vec![4, 5]]);
    assert_eq!(speech_windows(&segs, 1), vec![vec![0], vec![2], vec![4], vec![5]]);
    assert_eq!(window_text(&segs, &[0, 2]), "a b");
    assert_eq!(window_text(&segs, &[]), "");
}
