use vtt::config::TranscriptWindow;
use vtt::types::{format_timestamp, Segment, SegmentType};
use vtt::vision::{
    batch_prompt, build_prompt, check_models, encode_frames, reply_step, strip_thinking_tags,
    transcript_for_window, truncate_repetition, vision_text, ReplyStep,
};

fn spk(start_ms: u64, end_ms: u64, text: &str) -> Segment {
    Segment {
        segment_type: SegmentType::Speech,
        start: format_timestamp(start_ms),
        end: format_timestamp(end_ms),
        content: text.to_string(),
        frames: Vec::new(),
    }
}

fn sample() -> Vec<Segment> {
    vec![
        spk(0, 10_000, "alpha"),
        spk(10_000, 20_000, "bravo"),
        spk(20_000, 30_000, "charlie"),
        spk(30_000, 40_000, "delta"),
    ]
}

#[test]
fn test_default_prompt_from_config_not_empty() {
    let p = vtt::config::default_vision_prompt();
    assert!(!p.is_empty());
    assert!(p.contains("frames"));
    assert!(p.contains("visual"));
}

#[test]
fn test_load_prompt_template_default() {
    assert_eq!(vtt::config::prompt_file(None), None);
}

#[test]
fn test_load_prompt_template_empty_string() {
    assert_eq!(vtt::config::prompt_file(Some("")), None);
}

#[test]
fn test_transcript_window_causal_excludes_future_speech() {
    let got = transcript_for_window(&sample(), 20_000, 30_000, TranscriptWindow::Causal).unwrap();
    assert!(got.contains("alpha") && got.contains("bravo"));
    assert!(!got.contains("charlie"), "charlie is concurrent, not past");
    assert!(!got.contains("delta"), "delta is in the future: LOOK-AHEAD");
}

#[test]
fn test_transcript_window_causal_empty_at_start_returns_none() {
    assert!(transcript_for_window(&sample(), 0, 10_000, TranscriptWindow::Causal).is_none());
}

#[test]
fn test_transcript_window_concurrent_overlaps_only() {
    let got = transcript_for_window(&sample(), 15_000, 25_000, TranscriptWindow::Concurrent).unwrap();
    assert!(got.contains("bravo") && got.contains("charlie"));
    assert!(!got.contains("delta"), "delta starts after the window ends");
}

#[test]
fn test_transcript_window_full_returns_everything() {
    let got = transcript_for_window(&sample(), 0, 10_000, TranscriptWindow::Full).unwrap();
    for w in ["alpha", "bravo", "charlie", "delta"] {
        assert!(got.contains(w), "Full must include {w}");
    }
}

#[test]
fn transcript_window_exact_joins() {
    assert_eq!(
        transcript_for_window(&sample(), 20_000, 30_000, TranscriptWindow::Causal),
        Some("alpha bravo".to_string())
    );
    assert_eq!(
        transcript_for_window(&sample(), 15_000, 25_000, TranscriptWindow::Concurrent),
        Some("bravo charlie".to_string())
    );
}

#[test]
fn test_build_prompt_without_transcript_omits_instruction() {
    let p = build_prompt("TEMPLATE", None, None);
    assert!(!p.contains("Audio transcript"));
    assert!(!p.contains("relates to what is being said"));
    let p2 = build_prompt("TEMPLATE", Some("hello"), None);
    assert!(p2.contains("hello"));
}

#[test]
fn test_per_batch_prompts_differ_under_windowing() {
    let segs = sample();
    let b0 = transcript_for_window(&segs, 0, 10_000, TranscriptWindow::Concurrent);
    let b3 = transcript_for_window(&segs, 30_000, 40_000, TranscriptWindow::Concurrent);
    let p0 = build_prompt("T", b0.as_deref(), None);
    let p3 = build_prompt("T", b3.as_deref(), None);
    assert_ne!(p0, p3, "batches must get different transcript windows");
}

#[test]
fn test_parse_vision_response_normal() {
    assert_eq!(vision_text("A cat sits on a windowsill.").unwrap(), "A cat sits on a windowsill.");
}

#[test]
fn test_parse_vision_response_with_thinking_tags() {
    let content = "<think>The frames show a domestic scene with a cat...</think>A cat sits on a windowsill looking outside.";
    assert_eq!(vision_text(content).unwrap(), "A cat sits on a windowsill looking outside.");
}

#[test]
fn test_parse_vision_response_thinking_only_with_content() {
    let content = "<think>The scene shows a cat on a windowsill.</think>   ";
    assert_eq!(vision_text(content).unwrap(), "The scene shows a cat on a windowsill.");
}

#[test]
fn test_parse_vision_response_thinking_empty() {
    assert!(vision_text("<think>   </think>   ").is_err());
}

#[test]
fn test_parse_vision_response_empty_content() {
    match vision_text("") {
        Err(e) => assert_eq!(e.message(), "vision model error: Ollama returned empty content"),
        Ok(t) => panic!("unexpected {t}"),
    }
}

#[test]
fn test_strip_thinking_tags_present() {
    assert_eq!(strip_thinking_tags("<think>reasoning</think>The answer"), "The answer");
}

#[test]
fn test_strip_thinking_tags_absent() {
    assert_eq!(strip_thinking_tags("Just a normal response"), "Just a normal response");
}

#[test]
fn test_strip_thinking_tags_with_whitespace() {
    assert_eq!(strip_thinking_tags("<think>blah</think>  \n  The answer  \n"), "The answer");
}

#[test]
fn test_build_prompt_without_transcript() {
    let result = build_prompt("Describe the scene.", None, None);
    assert_eq!(result, "Describe the scene.");
}

#[test]
fn test_build_prompt_with_transcript() {
    let result = build_prompt("Describe the scene.", Some("Hello, welcome to the show."), None);
    assert!(result.contains("Describe the scene."));
    assert!(result.contains("Hello, welcome to the show."));
    assert!(result.contains("Audio transcript"));
}

#[test]
fn test_build_prompt_with_empty_transcript() {
    let result = build_prompt("Describe the scene.", Some("   "), None);
    assert_eq!(result, "Describe the scene.");
}

#[test]
fn test_build_prompt_with_previous_context() {
    let result = build_prompt("Describe.", Some("Hello."), Some("A man waved goodbye."));
    assert!(result.contains("Describe."));
    assert!(result.contains("A man waved goodbye."));
    assert!(result.contains("Hello."));
    assert!(result.contains("Context from previous segment"));
}

#[test]
fn test_build_prompt_with_context_no_transcript() {
    let result = build_prompt("Describe.", None, Some("A man waved goodbye."));
    assert!(result.contains("A man waved goodbye."));
    assert!(!result.contains("Audio transcript"));
}

#[test]
fn build_prompt_exact_text() {
    let result = build_prompt("T", Some("t"), Some("c"));
    assert_eq!(
        result,
        "T\n\nContext from previous segment:\n\"c\"\nMaintain continuity with what was previously described.\n\nAudio transcript for this segment:\n\"t\"\n\nUse this transcript as context to enrich your visual description. Note how the visual content relates to what is being said or heard."
    );
}

#[test]
fn batch_prompt_leaves_out_speech_when_transcript_is_off() {
    let with = batch_prompt("T", &sample(), 20_000, 30_000, TranscriptWindow::Causal, true, Some("ctx"));
    assert!(with.contains("alpha bravo") && with.contains("ctx"));
    let without = batch_prompt("T", &sample(), 20_000, 30_000, TranscriptWindow::Causal, false, Some("ctx"));
    assert_eq!(without, "T");
}

#[test]
fn truncate_repetition_cuts_after_second_of_more_than_three() {
    let s = "The market is moving higher today. The market is moving higher today. The market is moving higher today. The market is moving higher today. Extra.";
    assert_eq!(
        truncate_repetition(s),
        "The market is moving higher today. The market is moving higher today"
    );
    // exactly three occurrences leave the reply as it is
    let three = "Prices rise again today. Prices rise again today. Prices rise again today.";
    assert_eq!(truncate_repetition(three), three);
    assert_eq!(truncate_repetition("Short. Short. Short. Short."), "Short. Short. Short. Short.");
    assert_eq!(truncate_repetition("  no loop here  "), "no loop here");
    assert_eq!(truncate_repetition("   "), "   ");
    assert_eq!(truncate_repetition(" . "), ".");
}

#[test]
fn truncate_repetition_cuts_only_for_the_sentence_that_loops() {
    let x = "Support holds near the lows";
    let y = "Resistance caps the rally again";
    let s = format!("{x}. {y}. {x}. {y}. {x}. {y}. {y}. end");
    // x occurs three times and stays; y occurs four times and is cut at its third
    assert_eq!(truncate_repetition(&s), format!("{x}. {y}. {x}. {y}. {x}"));
}

#[test]
fn truncate_repetition_ignores_case_and_spacing() {
    let s = "A long sentence about charts. a LONG sentence about charts.  A long sentence about charts . tail. \
             A LONG SENTENCE ABOUT CHARTS";
    assert_eq!(truncate_repetition(s), "A long sentence about charts. a LONG sentence about charts");
}

#[test]
fn reply_steps_retry_twice_then_fail() {
    match reply_step(0, Err(vtt::error::VttError::Vision("x".to_string()))) {
        ReplyStep::Retry => {}
        other => panic!("{other:?}"),
    }
    match reply_step(2, Err(vtt::error::VttError::Vision("x".to_string()))) {
        ReplyStep::Fail(e) => assert_eq!(e.message(), "vision model error: x"),
        other => panic!("{other:?}"),
    }
    match reply_step(5, Ok("fine".to_string())) {
        ReplyStep::Accept(t) => assert_eq!(t, "fine"),
        other => panic!("{other:?}"),
    }
}

#[test]
fn model_check_matches_name_prefixes() {
    let names = vec!["llava:7b".to_string(), "qwen3-vl:8b-q4".to_string()];
    assert!(check_models(&names, "qwen3-vl:8b").is_ok());
    match check_models(&names, "other") {
        Err(e) => assert_eq!(
            e.message(),
            "vision model error: model 'other' not found in Ollama (available: llava:7b, qwen3-vl:8b-q4)"
        ),
        Ok(()) => panic!("expected an error"),
    }
}

#[test]
fn frames_are_base64_encoded() {
    let frames = vec![b"fake jpeg data".to_vec(), Vec::new(), b"ab".to_vec()];
    let enc = encode_frames(&frames);
    assert_eq!(enc, vec!["ZmFrZSBqcGVnIGRhdGE=".to_string(), String::new(), "YWI=".to_string()]);
}
