use vtt::ffmpeg::{
    apply_frame_cap,
    check_frame_counts, compute_chunks, pair_fault_error, pair_frame_metadata, scan_frame_metadata,
    build_audio_command, build_frames_command, seconds_string, version_line, MetaKind, PairFault,
};
use vtt::config::FfmpegConfig;
use vtt::types::Chunk;

#[test]
fn test_compute_chunks_short_video() {
    let chunks = compute_chunks(10_000, 180);
    assert_eq!(chunks.len(), 1);
    assert_eq!(chunks[0].index, 0);
    assert_eq!(chunks[0].start_ms, 0);
    assert_eq!(chunks[0].end_ms, 10_000);
}

#[test]
fn test_compute_chunks_exact_multiple() {
    let chunks = compute_chunks(360_000, 180);
    assert_eq!(chunks.len(), 2);
    assert_eq!(chunks[0].index, 0);
    assert_eq!(chunks[0].end_ms, 180_000);
    assert_eq!(chunks[1].index, 1);
    assert_eq!(chunks[1].start_ms, 180_000);
    assert_eq!(chunks[1].end_ms, 360_000);
}

#[test]
fn test_compute_chunks_with_remainder() {
    let chunks = compute_chunks(400_000, 180);
    assert_eq!(chunks.len(), 3);
    assert_eq!(chunks[2].index, 2);
    assert_eq!(chunks[2].start_ms, 360_000);
    assert_eq!(chunks[2].end_ms, 400_000);
}

#[test]
fn test_compute_chunks_zero_duration() {
    assert!(compute_chunks(0, 180).is_empty());
}

#[test]
fn test_compute_chunks_zero_chunk_size() {
    assert!(compute_chunks(100_000, 0).is_empty());
}

#[test]
fn test_compute_chunks_very_short_video() {
    let chunks = compute_chunks(500, 180);
    assert_eq!(chunks.len(), 1);
    assert_eq!(chunks[0].end_ms, 500);
}

#[test]
fn test_compute_chunks_long_video() {
    let chunks = compute_chunks(36_000_000, 180);
    assert_eq!(chunks.len(), 200);
    assert_eq!(chunks[199].index, 199);
    assert_eq!(chunks[199].end_ms, 36_000_000);
}

#[test]
fn test_compute_chunks_duration_equals_chunk() {
    let chunks = compute_chunks(180_000, 180);
    assert_eq!(chunks.len(), 1);
    assert_eq!(chunks[0].end_ms, 180_000);
}

#[test]
fn test_compute_chunks_contiguous() {
    let chunks = compute_chunks(500_000, 180);
    for i in 1..chunks.len() {
        assert_eq!(chunks[i].start_ms, chunks[i - 1].end_ms, "gap between chunk {} and {}", i - 1, i);
    }
}

#[test]
fn tiny_remainders_are_dropped() {
    let chunks = compute_chunks(180_010, 180);
    assert_eq!(chunks.len(), 1);
    let chunks = compute_chunks(180_011, 180);
    assert_eq!(chunks.len(), 2);
    assert_eq!(chunks[1].end_ms, 180_011);
    assert!(compute_chunks(10, 180).is_empty());
}

fn parse_log(log: &str) -> Result<Vec<(f64, f64)>, String> {
    let entries = scan_frame_metadata(log);
    let values: Vec<Option<f64>> = entries.iter().map(|e| e.token.parse::<f64>().ok()).collect();
    let kinds: Vec<MetaKind> = entries.iter().map(|e| e.kind).collect();
    let ok: Vec<bool> = values.iter().map(|v| v.is_some()).collect();
    match pair_frame_metadata(&kinds, &ok) {
        Ok(pairs) => Ok(pairs.iter().map(|&(t, s)| (values[t].unwrap(), values[s].unwrap())).collect()),
        Err(PairFault::BadPtsTime(i)) => Err(format!("bad pts_time '{}'", entries[i].token)),
        Err(PairFault::BadSceneScore(i)) => Err(format!("bad scene_score '{}'", entries[i].token)),
        Err(f) => Err(pair_fault_error(f).message()),
    }
}

#[test]
fn test_parse_frame_metadata_real_log() {
    let log = "[Parsed_metadata_2 @ 0x59cb] frame:0    pts:0       pts_time:0\n\
[Parsed_metadata_2 @ 0x59cb] lavfi.scene_score=0.000000\n\
frame=    1 fps=0.0 q=0.0 size=N/A time=00:00:00.00 bitrate=N/A speed=   0x    [Parsed_metadata_2 @ 0x59cb] frame:1    pts:25      pts_time:12.5\n\
[Parsed_metadata_2 @ 0x59cb] lavfi.scene_score=0.447830\n\
video:0kB audio:0kB subtitle:0kB other streams:0kB global headers:0kB muxing overhead: unknown\n";
    let parsed = parse_log(log).unwrap();
    assert_eq!(parsed.len(), 2);
    assert_eq!(parsed[0], (0.0, 0.0));
    assert!((parsed[1].0 - 12.5).abs() < 1e-9);
    assert!((parsed[1].1 - 0.447830).abs() < 1e-9);
}

#[test]
fn test_parse_frame_metadata_rejects_orphans() {
    assert!(parse_log("x pts_time:1.0\nx pts_time:2.0\nx lavfi.scene_score=0.1\n").is_err());
    assert!(parse_log("x lavfi.scene_score=0.1\n").is_err());
    assert!(parse_log("x pts_time:1.0\n").is_err());
    assert!(parse_log("").unwrap().is_empty());
}

#[test]
fn metadata_faults_are_named() {
    assert_eq!(
        parse_log("x pts_time:1.0\nx pts_time:2.0\n").unwrap_err(),
        "ffmpeg error: frame metadata: pts_time line without a following scene score"
    );
    assert_eq!(
        parse_log("x lavfi.scene_score=0.1\n").unwrap_err(),
        "ffmpeg error: frame metadata: scene score without a preceding pts_time"
    );
    assert_eq!(
        parse_log("x pts_time:1.0\n").unwrap_err(),
        "ffmpeg error: frame metadata: trailing pts_time line without a scene score"
    );
    assert_eq!(parse_log("x pts_time:abc\n").unwrap_err(), "bad pts_time 'abc'");
    assert_eq!(parse_log("x pts_time:1\ny lavfi.scene_score=\n").unwrap_err(), "bad scene_score ''");
}

#[test]
fn test_pair_frames_offsets_by_chunk_start_and_rejects_mismatch() {
    assert!(check_frame_counts(2, 2).is_ok());
    let err = check_frame_counts(2, 1).unwrap_err().message();
    assert!(err.contains("2 image file(s)") && err.contains("1 frame(s)"), "{err}");
}

#[test]
fn version_line_is_the_first_line() {
    assert_eq!(version_line("ffmpeg version 4.4.2\nbuilt with gcc\n"), "ffmpeg version 4.4.2");
    assert_eq!(version_line("v1\r\nrest"), "v1");
    assert_eq!(version_line(""), "unknown");
    assert_eq!(version_line("only"), "only");
}

fn fk(t_secs: u64, score_ppm: u64) -> vtt::ffmpeg::FrameKey {
    vtt::ffmpeg::FrameKey { timestamp_us: t_secs * 1_000_000, score_ppm }
}

#[test]
fn test_apply_frame_cap_drops_lowest_triggers_never_floor() {
    let frames = vec![fk(0, 0), fk(10, 500_000), fk(12, 100_000), fk(42, 0), fk(50, 300_000), fk(80, 0)];
    let gap = 30_000_000;
    let kept = apply_frame_cap(&frames, 4, gap);
    let ts: Vec<u64> = kept.iter().map(|&i| frames[i].timestamp_us / 1_000_000).collect();
    assert_eq!(ts, vec![0, 10, 42, 80], "drops 12 (0.1) then 50 (0.3), keeps all floor frames");
    assert_eq!(apply_frame_cap(&frames, 6, gap), vec![0, 1, 2, 3, 4, 5]);
    let kept = apply_frame_cap(&frames, 3, gap);
    let ts: Vec<u64> = kept.iter().map(|&i| frames[i].timestamp_us / 1_000_000).collect();
    assert_eq!(ts, vec![0, 42, 80]);
}

#[test]
fn frame_cap_sorts_by_time_first() {
    let frames = vec![fk(20, 0), fk(0, 0), fk(5, 900_000), fk(6, 100_000)];
    let kept = apply_frame_cap(&frames, 3, 15_000_000);
    assert_eq!(kept, vec![1, 2, 3]);
    // frames that fit the cap come back in time order too, ties as given
    assert_eq!(apply_frame_cap(&frames, 4, 15_000_000), vec![1, 2, 3, 0]);
    let ties = vec![fk(7, 0), fk(3, 0), fk(7, 500_000)];
    assert_eq!(apply_frame_cap(&ties, 10, 15_000_000), vec![1, 0, 2]);
}

#[test]
fn seek_times_print_as_seconds() {
    assert_eq!(seconds_string(12_500), "12.5");
    assert_eq!(seconds_string(30_000), "30");
    assert_eq!(seconds_string(40), "0.04");
    assert_eq!(seconds_string(1_001), "1.001");
    assert_eq!(seconds_string(0), "0");
    for ms in (0..20_000u64).chain([3_600_000, 86_399_999, 123_456_789_012]) {
        assert_eq!(seconds_string(ms), (ms as f64 / 1000.0).to_string(), "{ms} ms");
    }
}

#[test]
fn frame_cap_keeps_cap_frames_unless_floors_exceed_it() {
    let frames = vec![fk(0, 0), fk(10, 500_000), fk(12, 100_000), fk(42, 0), fk(50, 300_000), fk(80, 0)];
    let gap = 30_000_000;
    for cap in 0..8usize {
        let kept = apply_frame_cap(&frames, cap, gap);
        let expected = if cap >= frames.len() { frames.len() } else { cap.max(3) };
        assert_eq!(kept.len(), expected, "cap {cap}");
    }
    assert_eq!(apply_frame_cap(&frames, 1, gap), vec![0, 3, 5], "only the floor frames are left");
}

#[test]
fn test_build_audio_command_args() {
    let config = FfmpegConfig::default();
    let chunk = Chunk { index: 0, start_ms: 0, end_ms: 180_000 };
    let cmd = build_audio_command(&config, "/tmp/video.mp4", &chunk, "/tmp/out/audio.wav");
    let prog = cmd.program.clone();
    let args = cmd.args.clone();
    assert_eq!(prog, "ffmpeg");
    assert!(args.contains(&"-y".to_string()));
    assert!(args.contains(&"-vn".to_string()));
    assert!(args.contains(&"-acodec".to_string()));
    assert!(args.contains(&"pcm_s16le".to_string()));
    assert!(args.contains(&"-ar".to_string()));
    assert!(args.contains(&"16000".to_string()));
    assert!(args.contains(&"-ac".to_string()));
    assert!(args.contains(&"1".to_string()));
    assert!(args.contains(&"/tmp/video.mp4".to_string()));
    assert!(args.contains(&"/tmp/out/audio.wav".to_string()));
}

#[test]
fn audio_command_in_order() {
    let config = FfmpegConfig::default();
    let chunk = Chunk { index: 1, start_ms: 180_000, end_ms: 272_500 };
    let cmd = build_audio_command(&config, "v.mp4", &chunk, "a.wav");
    let expected: Vec<&str> = vec![
        "-y", "-ss", "180", "-to", "272.5", "-i", "v.mp4", "-vn", "-acodec", "pcm_s16le", "-ar",
        "16000", "-ac", "1", "a.wav",
    ];
    assert_eq!(cmd.args, expected);
}

#[test]
fn frames_command_in_order() {
    let mut config = FfmpegConfig::default();
    config.frame_format = "png".to_string();
    let chunk = Chunk { index: 0, start_ms: 0, end_ms: 60_000 };
    let filter = "fps=1,select='gte(scene,0)',metadata=print";
    let cmd = build_frames_command(&config, filter, "/tmp/video.mp4", &chunk, "/tmp/out/frames");
    assert_eq!(cmd.program, "ffmpeg");
    let expected: Vec<String> = vec![
        "-y".to_string(),
        "-ss".to_string(),
        "0".to_string(),
        "-to".to_string(),
        "60".to_string(),
        "-i".to_string(),
        "/tmp/video.mp4".to_string(),
        "-nostats".to_string(),
        "-vf".to_string(),
        filter.to_string(),
        "-vsync".to_string(),
        "vfr".to_string(),
        "-q:v".to_string(),
        config.frame_quality.to_string(),
        "/tmp/out/frames/frame_%06d.png".to_string(),
    ];
    assert_eq!(cmd.args, expected);
}
