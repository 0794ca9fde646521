use vtt::pipeline::{
    build_chunk_context, cached_chunk_context, combine_segments, extract_transcript,
    merge_segments,
};
use vtt::types::{format_timestamp, parse_timestamp, Segment, SegmentType};

fn make_segment(segment_type: SegmentType, start_ms: u64, end_ms: u64, content: &str) -> Segment {
    Segment {
        segment_type,
        start: format_timestamp(start_ms),
        end: format_timestamp(end_ms),
        content: content.to_string(),
        frames: Vec::new(),
    }
}

#[test]
fn test_format_timestamp() {
    assert_eq!(format_timestamp(0), "00:00:00.000");
    assert_eq!(format_timestamp(72_400), "00:01:12.400");
    assert_eq!(format_timestamp(3_661_500), "01:01:01.500");
}

#[test]
fn test_parse_timestamp() {
    assert_eq!(parse_timestamp("00:00:00.000"), Some(0));
    assert_eq!(parse_timestamp("00:01:12.400"), Some(72_400));
    assert_eq!(parse_timestamp("01:01:01.500"), Some(3_661_500));
    assert_eq!(parse_timestamp("invalid"), None);
}

#[test]
fn parse_timestamp_fields_may_lead_with_plus() {
    assert_eq!(parse_timestamp("+1:00:00"), Some(3_600_000));
    assert_eq!(parse_timestamp("00:+01:+02.5"), Some(62_500));
    assert_eq!(parse_timestamp("++1:00:00"), None);
    assert_eq!(parse_timestamp("+:00:00"), None);
    assert_eq!(parse_timestamp("-1:00:00"), None);
}

#[test]
fn parse_timestamp_reads_decimal_hours_and_minutes() {
    assert_eq!(parse_timestamp("1.5:00:00"), Some(5_400_000));
    assert_eq!(parse_timestamp("0:1.5:00"), Some(90_000));
    assert_eq!(parse_timestamp(".5:00:00"), Some(1_800_000));
    assert_eq!(parse_timestamp("1.:00:00.250"), Some(3_600_250));
    assert_eq!(parse_timestamp("+0.25:+0.5:01"), Some(931_000));
    // a share below one millisecond is dropped, as in the seconds fraction
    assert_eq!(parse_timestamp("0.0000001:00:00"), Some(0));
    assert_eq!(parse_timestamp(".:00:00"), None);
    assert_eq!(parse_timestamp("1.2.3:00:00"), None);
    assert_eq!(parse_timestamp("00:00:1.5.9"), Some(1_500));
}

#[test]
fn test_timestamp_roundtrip() {
    let values = [0u64, 1_234, 72_400, 3_661_500, 7_200_000];
    for val in values {
        let formatted = format_timestamp(val);
        let parsed = parse_timestamp(&formatted).unwrap();
        assert_eq!(val, parsed, "roundtrip failed for {val}");
    }
}

#[test]
fn timestamps_beyond_a_day_keep_counting_hours() {
    assert_eq!(format_timestamp(360_000_000), "100:00:00.000");
    assert_eq!(parse_timestamp("100:00:00.000"), Some(360_000_000));
}

#[test]
fn parse_timestamp_reads_short_fractions_and_none() {
    assert_eq!(parse_timestamp("00:00:01.5"), Some(1_500));
    assert_eq!(parse_timestamp("00:00:01"), Some(1_000));
    assert_eq!(parse_timestamp("00:00:01.12345"), Some(1_123));
    assert_eq!(parse_timestamp("00:01"), None);
    assert_eq!(parse_timestamp("aa:00:01.000"), None);
}

#[test]
fn test_segment_timestamp_from_chunk() {
    assert_eq!(format_timestamp(180_000), "00:03:00.000");
    assert_eq!(format_timestamp(360_000), "00:06:00.000");
}

#[test]
fn test_build_chunk_context_can_exclude_dialogue() {
    let speech = vec![make_segment(SegmentType::Speech, 0, 5_000, "spoken words here")];
    let vision = vec![make_segment(SegmentType::Visual, 0, 7_500, "a chart on screen")];

    let with = build_chunk_context(&speech, &vision, true);
    assert!(with.contains("Recent dialogue"));
    assert!(with.contains("spoken words here"));

    let without = build_chunk_context(&speech, &vision, false);
    assert!(!without.contains("Recent dialogue"), "speech must not leak in");
    assert!(!without.contains("spoken words here"));
    assert!(without.contains("Last visual"), "visual continuity must survive");
    assert!(without.contains("a chart on screen"));
}

#[test]
fn test_build_chunk_context_multibyte_at_truncation_boundary() {
    let mut content = String::new();
    while content.len() < 198 {
        content.push('a');
    }
    content.push('\u{201D}');
    content.push_str(" trailing text so the value exceeds the 200 byte cap");
    assert!(content.len() > 200);
    assert!(!content.is_char_boundary(200));

    let vision = vec![make_segment(SegmentType::Visual, 0, 7_500, &content)];
    let speech = vec![make_segment(SegmentType::Speech, 0, 5_000, "hello there")];

    let ctx = build_chunk_context(&speech, &vision, true);
    assert!(ctx.contains("Last visual:"));
    assert!(ctx.ends_with("..."), "long descriptions should be truncated");
}

#[test]
fn test_build_chunk_context_all_multibyte_never_panics() {
    let content: String = std::iter::repeat('\u{4e16}').take(300).collect();
    let vision = vec![make_segment(SegmentType::Visual, 0, 7_500, &content)];
    let ctx = build_chunk_context(&[], &vision, true);
    assert!(ctx.contains("Last visual:"));
}

#[test]
fn test_merge_empty_input() {
    let timeline = merge_segments("video.mp4", 100_000, vec![]);
    assert_eq!(timeline.source, "video.mp4");
    assert_eq!(timeline.duration_ms, 100_000);
    assert!(timeline.segments.is_empty());
}

#[test]
fn test_merge_single_segment() {
    let seg = make_segment(SegmentType::Speech, 1_000, 2_000, "Hello");
    let timeline = merge_segments("video.mp4", 10_000, vec![vec![seg]]);
    assert_eq!(timeline.segments.len(), 1);
    assert_eq!(timeline.segments[0].content, "Hello");
}

#[test]
fn test_merge_multiple_types_one_chunk() {
    let speech = make_segment(SegmentType::Speech, 1_000, 3_000, "Hello");
    let visual = make_segment(SegmentType::Visual, 0, 5_000, "A person waves");
    let sound = make_segment(SegmentType::Sound, 2_000, 2_500, "music");
    let timeline = merge_segments("v.mp4", 5_000, vec![vec![speech, visual, sound]]);
    assert_eq!(timeline.segments.len(), 3);
    assert_eq!(timeline.segments[0].segment_type, SegmentType::Visual);
    assert_eq!(timeline.segments[1].segment_type, SegmentType::Speech);
    assert_eq!(timeline.segments[2].segment_type, SegmentType::Sound);
}

#[test]
fn test_merge_multiple_chunks_sorted() {
    let chunk1 = vec![make_segment(SegmentType::Speech, 5_000, 8_000, "Later speech")];
    let chunk2 = vec![make_segment(SegmentType::Speech, 1_000, 3_000, "Earlier speech")];
    let timeline = merge_segments("v.mp4", 10_000, vec![chunk1, chunk2]);
    assert_eq!(timeline.segments.len(), 2);
    assert_eq!(timeline.segments[0].content, "Earlier speech");
    assert_eq!(timeline.segments[1].content, "Later speech");
}

#[test]
fn test_merge_interleaved_timestamps() {
    let chunk1 = vec![
        make_segment(SegmentType::Speech, 0, 2_000, "A"),
        make_segment(SegmentType::Speech, 4_000, 6_000, "C"),
    ];
    let chunk2 = vec![
        make_segment(SegmentType::Visual, 1_000, 3_000, "B"),
        make_segment(SegmentType::Visual, 5_000, 7_000, "D"),
    ];
    let timeline = merge_segments("v.mp4", 10_000, vec![chunk1, chunk2]);
    let contents: Vec<&str> = timeline.segments.iter().map(|s| s.content.as_str()).collect();
    assert_eq!(contents, vec!["A", "B", "C", "D"]);
}

#[test]
fn test_merge_same_start_time() {
    let seg1 = make_segment(SegmentType::Speech, 1_000, 3_000, "Speech");
    let seg2 = make_segment(SegmentType::Visual, 1_000, 5_000, "Visual");
    let timeline = merge_segments("v.mp4", 5_000, vec![vec![seg1, seg2]]);
    assert_eq!(timeline.segments.len(), 2);
}

#[test]
fn test_merge_preserves_source_and_duration() {
    let timeline = merge_segments(
        "my_video.mp4",
        3_600_500,
        vec![vec![make_segment(SegmentType::Speech, 0, 1_000, "Hi")]],
    );
    assert_eq!(timeline.source, "my_video.mp4");
    assert_eq!(timeline.duration_ms, 3_600_500);
}

#[test]
fn test_merge_large_segment_count() {
    let segments: Vec<Segment> = (0..500u64)
        .map(|i| make_segment(SegmentType::Speech, i * 1_000, (i + 1) * 1_000, &format!("seg{i}")))
        .collect();
    let timeline = merge_segments("v.mp4", 500_000, vec![segments]);
    assert_eq!(timeline.segments.len(), 500);
    for i in 1..timeline.segments.len() {
        let prev = parse_timestamp(&timeline.segments[i - 1].start).unwrap();
        let curr = parse_timestamp(&timeline.segments[i].start).unwrap();
        assert!(prev <= curr);
    }
}

#[test]
fn merge_keeps_order_of_equal_starts_and_sorts_unreadable_first() {
    let a = make_segment(SegmentType::Speech, 2_000, 3_000, "first");
    let b = make_segment(SegmentType::Visual, 2_000, 4_000, "second");
    let mut c = make_segment(SegmentType::Sound, 0, 0, "unreadable");
    c.start = "garbage".to_string();
    let timeline = merge_segments("v.mp4", 5_000, vec![vec![a], vec![b, c]]);
    let contents: Vec<&str> = timeline.segments.iter().map(|s| s.content.as_str()).collect();
    assert_eq!(contents, vec!["unreadable", "first", "second"]);
}

#[test]
fn test_extract_transcript_empty() {
    assert_eq!(extract_transcript(&[]), None);
}

#[test]
fn test_extract_transcript_only_sound() {
    let segments = vec![make_segment(SegmentType::Sound, 0, 1_000, "music")];
    assert_eq!(extract_transcript(&segments), None);
}

#[test]
fn test_extract_transcript_only_visual() {
    let segments = vec![make_segment(SegmentType::Visual, 0, 5_000, "A cat sits")];
    assert_eq!(extract_transcript(&segments), None);
}

#[test]
fn test_extract_transcript_single_speech() {
    let segments = vec![make_segment(SegmentType::Speech, 0, 2_000, "Hello world")];
    assert_eq!(extract_transcript(&segments), Some("Hello world".to_string()));
}

#[test]
fn test_extract_transcript_multiple_speech() {
    let segments = vec![
        make_segment(SegmentType::Speech, 0, 2_000, "Hello"),
        make_segment(SegmentType::Speech, 2_000, 4_000, "world"),
    ];
    assert_eq!(extract_transcript(&segments), Some("Hello world".to_string()));
}

#[test]
fn test_extract_transcript_mixed_types() {
    let segments = vec![
        make_segment(SegmentType::Speech, 0, 2_000, "Hello"),
        make_segment(SegmentType::Sound, 2_000, 3_000, "music"),
        make_segment(SegmentType::Speech, 3_000, 5_000, "world"),
        make_segment(SegmentType::Visual, 0, 5_000, "A person"),
    ];
    assert_eq!(extract_transcript(&segments), Some("Hello world".to_string()));
}

#[test]
fn test_extract_transcript_skips_empty_speech() {
    let segments = vec![
        make_segment(SegmentType::Speech, 0, 1_000, "  "),
        make_segment(SegmentType::Speech, 1_000, 2_000, "Hello"),
    ];
    assert_eq!(extract_transcript(&segments), Some("Hello".to_string()));
}

#[test]
fn test_build_chunk_context_with_speech_and_visual() {
    let whisper = vec![
        make_segment(SegmentType::Speech, 0, 5_000, "Hello world"),
        make_segment(SegmentType::Speech, 5_000, 10_000, "How are you"),
    ];
    let vision = vec![make_segment(SegmentType::Visual, 0, 10_000, "A man stands in a park")];
    let ctx = build_chunk_context(&whisper, &vision, true);
    assert!(ctx.contains("Hello world"));
    assert!(ctx.contains("How are you"));
    assert!(ctx.contains("A man stands in a park"));
}

#[test]
fn test_build_chunk_context_empty() {
    let ctx = build_chunk_context(&[], &[], true);
    assert!(ctx.is_empty());
}

#[test]
fn test_build_chunk_context_truncates_long_visual() {
    let vision = vec![make_segment(SegmentType::Visual, 0, 10_000, &"x".repeat(500))];
    let ctx = build_chunk_context(&[], &vision, true);
    assert!(ctx.len() < 300);
    assert!(ctx.contains("..."));
}

#[test]
fn chunk_context_exact_text() {
    let whisper: Vec<Segment> = (0..7u64)
        .map(|i| make_segment(SegmentType::Speech, i * 1_000, (i + 1) * 1_000, &format!("w{i}")))
        .collect();
    let vision = vec![
        make_segment(SegmentType::Visual, 0, 1_000, "old"),
        make_segment(SegmentType::Visual, 1_000, 2_000, "new"),
    ];
    let ctx = build_chunk_context(&whisper, &vision, true);
    assert_eq!(ctx, "Recent dialogue: w2 w3 w4 w5 w6 Last visual: new");
    let long = "y".repeat(201);
    let ctx = build_chunk_context(&[], &[make_segment(SegmentType::Visual, 0, 1, &long)], true);
    assert_eq!(ctx, format!("Last visual: {}...", "y".repeat(200)));
}

#[test]
fn cached_context_reads_speech_and_visual_from_one_list() {
    let segs = vec![
        make_segment(SegmentType::Speech, 0, 1_000, "said"),
        make_segment(SegmentType::Sound, 0, 1_000, "music"),
        make_segment(SegmentType::Visual, 0, 1_000, "seen"),
    ];
    assert_eq!(cached_chunk_context(&segs, true), "Recent dialogue: said Last visual: seen");
}

#[test]
fn combined_segments_keep_speech_first() {
    let w = vec![make_segment(SegmentType::Speech, 0, 1_000, "a")];
    let v = vec![make_segment(SegmentType::Visual, 0, 1_000, "b")];
    let c = combine_segments(w, v);
    assert_eq!(c.len(), 2);
    assert_eq!(c[0].content, "a");
    assert_eq!(c[1].content, "b");
}
