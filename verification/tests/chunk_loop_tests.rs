use vtt::pipeline::{chunk_step, ChunkAction, ChunkEvent, Phase, PipelineState};
use vtt::types::{format_timestamp, Segment, SegmentType};

fn seg(segment_type: SegmentType, start_ms: u64, content: &str) -> Segment {
    Segment {
        segment_type,
        start: format_timestamp(start_ms),
        end: format_timestamp(start_ms + 1_000),
        content: content.to_string(),
        frames: Vec::new(),
    }
}

fn state(force: bool, cleanup: bool) -> PipelineState {
    PipelineState::new(force, true, cleanup, "v.mp4".to_string(), 90_000, vec![0, 1, 2])
}

fn action_name(a: &ChunkAction) -> String {
    match a {
        ChunkAction::ClearCheckpoints => "clear".into(),
        ChunkAction::LoadCheckpoints => "load".into(),
        ChunkAction::Restore { index } => format!("restore {index}"),
        ChunkAction::Process { index, prefetch_next } => format!("process {index} {prefetch_next}"),
        ChunkAction::Save { index } => format!("save {index}"),
        ChunkAction::Cleanup => "cleanup".into(),
        ChunkAction::Finish(_) => "finish".into(),
        ChunkAction::Ignore => "ignore".into(),
    }
}

#[test]
fn resumed_job_restores_checkpointed_chunks_and_processes_the_rest() {
    let (s, a) = chunk_step(state(false, true), ChunkEvent::Begin);
    assert_eq!(action_name(&a), "load");
    let (s, a) = chunk_step(s, ChunkEvent::Loaded(vec![1]));
    // chunk 1 has a checkpoint, so it is not prefetched
    assert_eq!(action_name(&a), "process 0 false");
    let (s, a) = chunk_step(
        s,
        ChunkEvent::Processed { speech: vec![seg(SegmentType::Speech, 0, "hello")], visual: vec![seg(SegmentType::Visual, 500, "a chart")] },
    );
    assert_eq!(action_name(&a), "save 0");
    assert_eq!(s.done.len(), 1);
    assert_eq!(s.done[0].len(), 2);
    assert_eq!(s.context.as_deref(), Some("Recent dialogue: hello Last visual: a chart"));
    let (s, a) = chunk_step(s, ChunkEvent::Saved);
    assert_eq!(action_name(&a), "restore 1");
    let stored = vec![seg(SegmentType::Speech, 30_000, "stored"), seg(SegmentType::Visual, 30_500, "old frame")];
    let (s, a) = chunk_step(s, ChunkEvent::Restored(stored));
    assert_eq!(action_name(&a), "process 2 false");
    assert_eq!(s.done[1][0].content, "stored");
    assert_eq!(s.context.as_deref(), Some("Recent dialogue: stored Last visual: old frame"));
    let (s, a) = chunk_step(s, ChunkEvent::Processed { speech: vec![seg(SegmentType::Speech, 60_000, "bye")], visual: vec![] });
    assert_eq!(action_name(&a), "save 2");
    let (s, a) = chunk_step(s, ChunkEvent::Saved);
    assert_eq!(action_name(&a), "cleanup");
    let (s, a) = chunk_step(s, ChunkEvent::CleanedUp);
    assert_eq!(s.phase, Phase::Done);
    match a {
        ChunkAction::Finish(t) => {
            assert_eq!(t.source, "v.mp4");
            assert_eq!(t.duration_ms, 90_000);
            let texts: Vec<&str> = t.segments.iter().map(|s| s.content.as_str()).collect();
            assert_eq!(texts, vec!["hello", "a chart", "stored", "old frame", "bye"]);
        }
        other => panic!("expected the timeline, got {}", action_name(&other)),
    }
}

#[test]
fn forced_job_clears_checkpoints_and_processes_every_chunk() {
    let (s, a) = chunk_step(state(true, false), ChunkEvent::Begin);
    assert_eq!(action_name(&a), "clear");
    let (mut s, a) = chunk_step(s, ChunkEvent::Cleared);
    assert_eq!(action_name(&a), "process 0 true");
    for i in 0..3u32 {
        let (n, a) = chunk_step(s, ChunkEvent::Processed { speech: vec![], visual: vec![] });
        assert_eq!(action_name(&a), format!("save {i}"));
        let (n, a) = chunk_step(n, ChunkEvent::Saved);
        s = n;
        match i {
            0 => assert_eq!(action_name(&a), "process 1 true"),
            1 => assert_eq!(action_name(&a), "process 2 false"),
            _ => assert_eq!(action_name(&a), "finish"),
        }
    }
    assert_eq!(s.phase, Phase::Done);
}

#[test]
fn events_out_of_turn_are_ignored() {
    let (s, a) = chunk_step(state(false, false), ChunkEvent::Saved);
    assert_eq!(action_name(&a), "ignore");
    assert_eq!(s.phase, Phase::Start);
    let (s, _) = chunk_step(s, ChunkEvent::Begin);
    let (s, a) = chunk_step(s, ChunkEvent::Loaded(vec![]));
    assert_eq!(action_name(&a), "process 0 true");
    // a chunk that is to be processed cannot be restored
    let (s, a) = chunk_step(s, ChunkEvent::Restored(vec![]));
    assert_eq!(action_name(&a), "ignore");
    assert_eq!(s.position, 0);
    assert!(s.done.is_empty());
}

#[test]
fn job_without_chunks_finishes_empty() {
    let s = PipelineState::new(false, true, false, "e.mp4".to_string(), 0, vec![]);
    let (s, _) = chunk_step(s, ChunkEvent::Begin);
    let (_, a) = chunk_step(s, ChunkEvent::Loaded(vec![]));
    match a {
        ChunkAction::Finish(t) => assert!(t.segments.is_empty()),
        other => panic!("expected the timeline, got {}", action_name(&other)),
    }
}
