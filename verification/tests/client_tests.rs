use vtt::cache::{cache_hit, cache_lookup, cache_title, hash_source, looks_like_hash, resolution, resolve_input};
use vtt::client::{
    apply_cli_overrides, batch_outcome, compute_format_output_path, compute_output_path,
    job_outcome, list_title, poll_deadline, server_error_text, url_output_path,
};
use vtt::config::ClientConfig;

#[test]
fn test_hash_source_consistent() {
    let h1 = hash_source("https://youtube.com/watch?v=abc");
    let h2 = hash_source("https://youtube.com/watch?v=abc");
    assert_eq!(h1, h2);
    assert_eq!(h1.len(), 8);
}

#[test]
fn test_hash_source_different() {
    let h1 = hash_source("https://youtube.com/watch?v=abc");
    let h2 = hash_source("https://youtube.com/watch?v=def");
    assert_ne!(h1, h2);
}

#[test]
fn hash_source_is_the_sha256_prefix() {
    assert_eq!(hash_source(""), "e3b0c442");
    assert_eq!(hash_source("abc"), "ba7816bf");
    assert!(looks_like_hash(&hash_source("anything at all")));
}

#[test]
fn test_resolve_input_hash_not_found() {
    let result = resolve_input("deadbeef");
    assert!(result.is_err());
}

#[test]
fn test_resolve_input_file_not_found() {
    let result = resolve_input("/nonexistent/file.json");
    assert!(result.is_err());
    assert_eq!(result.unwrap_err(), "file not found: /nonexistent/file.json");
}

#[test]
fn resolve_input_accepts_an_existing_file() {
    assert_eq!(resolve_input("/"), Ok("/".to_string()));
}

#[test]
fn hash_detection_needs_eight_hex_digits() {
    assert!(looks_like_hash("deadBEEF"));
    assert!(!looks_like_hash("deadbee"));
    assert!(!looks_like_hash("deadbeeg"));
    assert!(!looks_like_hash("deadbeef0"));
}

#[test]
fn cache_lookup_points_into_the_cache() {
    if let Some(p) = cache_lookup("https://example.invalid/never-cached") {
        assert!(p.ends_with("/timeline.json"));
    }
}

#[test]
fn cache_titles_drop_mp4_suffixes() {
    assert_eq!(cache_title("talk.mp4"), "talk");
    assert_eq!(cache_title("talk.mp4.mp4"), "talk");
    assert_eq!(cache_title("talk.mkv"), "talk.mkv");
}

#[test]
fn test_compute_output_path_alongside_input() {
    assert_eq!(compute_output_path("/videos/test.mp4", None), "/videos/test.json");
}

#[test]
fn test_compute_output_path_with_output_dir() {
    assert_eq!(compute_output_path("/videos/test.mp4", Some("/output")), "/output/test.json");
}

#[test]
fn output_path_of_a_bare_file_name() {
    assert_eq!(compute_output_path("clip.mp4", None), "clip.json");
    assert_eq!(url_output_path("My Talk.mp4", None), "My Talk.json");
    assert_eq!(url_output_path("My Talk.mp4", Some("out")), "out/My Talk.json");
}

#[test]
fn test_compute_format_output_path() {
    assert_eq!(compute_format_output_path("/output/video.json"), "/output/video_formatted.md");
}

#[test]
fn test_compute_format_output_path_nested() {
    assert_eq!(compute_format_output_path("results/my video.json"), "results/my video_formatted.md");
}

#[test]
fn test_load_system_prompt_default() {
    assert!(vtt::config::default_system_prompt().contains("Format this video timeline"));
    assert_eq!(vtt::config::prompt_file(None), None);
}

#[test]
fn cli_server_override_splits_host_and_port() {
    let mut c = ClientConfig::default();
    apply_cli_overrides(&mut c, Some("example.com:8080"), Some("/out"));
    assert_eq!(c.server.host, "example.com");
    assert_eq!(c.server.port, 8080);
    assert_eq!(c.output.dir, Some("/out".to_string()));

    let mut c = ClientConfig::default();
    apply_cli_overrides(&mut c, Some("example.com:notaport"), None);
    assert_eq!(c.server.host, "example.com:notaport");
    assert_eq!(c.server.port, 3001);
    assert_eq!(c.output.dir, None);

    let mut c = ClientConfig::default();
    apply_cli_overrides(&mut c, Some("plainhost"), None);
    assert_eq!(c.server.host, "plainhost");

    let mut c = ClientConfig::default();
    apply_cli_overrides(&mut c, Some("[::1]:+9000"), None);
    assert_eq!(c.server.host, "[::1]");
    assert_eq!(c.server.port, 9000);

    let mut c = ClientConfig::default();
    apply_cli_overrides(&mut c, Some("h:70000"), None);
    assert_eq!(c.server.host, "h:70000");
    assert_eq!(c.server.port, 3001);
}

#[test]
fn polling_reads_job_states() {
    assert_eq!(job_outcome("completed", None), Some(Ok(())));
    assert_eq!(job_outcome("failed", Some("boom")), Some(Err("job failed: boom".to_string())));
    assert_eq!(job_outcome("failed", None), Some(Err("job failed: unknown error".to_string())));
    assert_eq!(job_outcome("processing", None), None);
    assert!(poll_deadline(10, 10, "j").is_ok());
    assert_eq!(poll_deadline(11, 10, "j"), Err("timed out after 10s waiting for job j".to_string()));
}

#[test]
fn client_messages() {
    assert_eq!(server_error_text("400 Bad Request", "raw", Some("bad")), "server error (400 Bad Request): bad");
    assert_eq!(server_error_text("500", "raw", None), "server error (500): raw");
    assert_eq!(batch_outcome(3, 3), Ok(()));
    assert_eq!(batch_outcome(1, 3), Err("2 file(s) failed".to_string()));
}

#[test]
fn long_titles_are_cut_for_the_listing() {
    assert_eq!(list_title("short"), "short");
    let long = "t".repeat(49);
    assert_eq!(list_title(&long), format!("{}...", "t".repeat(45)));
    let exact = "t".repeat(48);
    assert_eq!(list_title(&exact), exact);
    let wide = "\u{4e16}".repeat(20);
    assert_eq!(list_title(&wide), format!("{}...", "\u{4e16}".repeat(15)));
}

#[test]
fn resolution_decides_from_the_answers() {
    let home = Some("/home/a".to_string());
    assert_eq!(
        resolution("abcd1234", home.clone(), true),
        Ok("/home/a/.vid-to-text/cache/abcd1234/timeline.json".to_string())
    );
    assert_eq!(
        resolution("abcd1234", home.clone(), false),
        Err("no cached video found with hash: abcd1234".to_string())
    );
    assert_eq!(resolution("abcd1234", None, true), Err("could not determine home directory".to_string()));
    assert_eq!(resolution("video.mp4", None, true), Ok("video.mp4".to_string()));
    assert_eq!(resolution("video.mp4", home, false), Err("file not found: video.mp4".to_string()));
}

#[test]
fn cache_hit_decides_from_the_answers() {
    let h = hash_source("https://youtube.com/watch?v=abc");
    assert_eq!(
        cache_hit("https://youtube.com/watch?v=abc", Some("/home/a".to_string()), true),
        Some(format!("/home/a/.vid-to-text/cache/{h}/timeline.json"))
    );
    assert_eq!(cache_hit("https://youtube.com/watch?v=abc", Some("/home/a".to_string()), false), None);
    assert_eq!(cache_hit("https://youtube.com/watch?v=abc", None, true), None);
}
