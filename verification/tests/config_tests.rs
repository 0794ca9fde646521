use vtt::config::{
    ClientConfig, ClientPollingConfig, FfmpegConfig, FractionalChecks, ProcessingConfig,
    ServerSettings, YtDlpConfig,
};

fn fractional_ok() -> FractionalChecks {
    FractionalChecks { fps_positive: true, adaptive_problem: None, repetition_window_positive: true }
}

fn server_error(s: &ServerSettings, f: &FractionalChecks) -> String {
    match s.validate(f) {
        Err(e) => e.message(),
        Ok(()) => panic!("expected a validation error"),
    }
}

#[test]
fn test_client_config_defaults_are_valid() {
    let config = ClientConfig::default();
    assert!(config.validate().is_ok());
}

#[test]
fn test_server_config_defaults_are_valid() {
    let config = ServerSettings::default();
    assert!(config.validate(&fractional_ok()).is_ok());
}

#[test]
fn test_client_config_default_values() {
    let config = ClientConfig::default();
    assert_eq!(config.server.host, "localhost");
    assert_eq!(config.server.port, 3001);
    assert_eq!(config.output.dir, None);
}

#[test]
fn test_server_config_default_values() {
    let config = ServerSettings::default();
    assert_eq!(config.server.listen_address, "0.0.0.0");
    assert_eq!(config.server.listen_port, 3001);
    assert_eq!(config.ffmpeg.path, "ffmpeg");
    assert_eq!(config.ffmpeg.chunk_duration_secs, 180);
    assert_eq!(config.ollama_endpoint, "http://localhost:11434");
    assert_eq!(config.ollama_model, "qwen3-vl:8b");
    assert_eq!(config.vision_max_tokens, 4096);
    assert_eq!(config.processing.temp_dir, "/tmp/vtt-jobs");
}

#[test]
fn test_client_validation_rejects_empty_host() {
    let mut config = ClientConfig::default();
    config.server.host = String::new();
    assert!(config.validate().is_err());
}

#[test]
fn test_client_validation_rejects_zero_port() {
    let mut config = ClientConfig::default();
    config.server.port = 0;
    assert!(config.validate().is_err());
}

#[test]
fn test_server_validation_rejects_zero_port() {
    let mut config = ServerSettings::default();
    config.server.listen_port = 0;
    assert!(config.validate(&fractional_ok()).is_err());
}

#[test]
fn test_server_validation_rejects_zero_chunk_duration() {
    let mut config = ServerSettings::default();
    config.ffmpeg.chunk_duration_secs = 0;
    assert!(config.validate(&fractional_ok()).is_err());
}

#[test]
fn test_server_validation_rejects_zero_fps() {
    let config = ServerSettings::default();
    let f = FractionalChecks { fps_positive: false, ..fractional_ok() };
    assert!(config.validate(&f).is_err());
}

#[test]
fn test_server_validation_rejects_negative_fps() {
    let config = ServerSettings::default();
    let f = FractionalChecks { fps_positive: false, ..fractional_ok() };
    assert!(server_error(&config, &f).contains("fps"));
}

#[test]
fn test_server_validation_rejects_empty_ollama_endpoint() {
    let mut config = ServerSettings::default();
    config.ollama_endpoint = String::new();
    assert!(config.validate(&fractional_ok()).is_err());
}

#[test]
fn test_server_validation_rejects_zero_max_tokens() {
    let mut config = ServerSettings::default();
    config.vision_max_tokens = 0;
    assert!(config.validate(&fractional_ok()).is_err());
}

#[test]
fn test_client_server_url() {
    let config = ClientConfig::default();
    assert_eq!(config.server_url(), "http://localhost:3001");
}

#[test]
fn test_server_bind_address() {
    let config = ServerSettings::default();
    assert_eq!(config.bind_address(), "0.0.0.0:3001");
}

#[test]
fn test_ffprobe_path_from_bare_ffmpeg() {
    let config = FfmpegConfig::default();
    assert_eq!(config.ffprobe_path(), "ffprobe");
}

#[test]
fn test_ffprobe_path_from_absolute_path() {
    let mut config = FfmpegConfig::default();
    config.path = "/usr/local/bin/ffmpeg".to_string();
    assert_eq!(config.ffprobe_path(), "/usr/local/bin/ffprobe");
}

#[test]
fn ffprobe_path_skips_dot_components_as_paths_do() {
    let mut config = FfmpegConfig::default();
    for (ffmpeg, ffprobe) in [
        ("a/./ffmpeg", "a/ffprobe"),
        ("a/././/ffmpeg", "a/ffprobe"),
        ("./ffmpeg", "./ffprobe"),
        ("bin/ffmpeg/.", "bin/ffprobe"),
        ("a/./b/ffmpeg", "a/./b/ffprobe"),
        ("/ffmpeg", "/ffprobe"),
        ("bin/ffmpeg", "bin/ffprobe"),
    ] {
        config.path = ffmpeg.to_string();
        assert_eq!(config.ffprobe_path(), ffprobe, "{ffmpeg}");
        assert_eq!(
            config.ffprobe_path(),
            std::path::Path::new(ffmpeg).parent().unwrap().join("ffprobe").display().to_string()
        );
    }
}

#[test]
fn test_server_validation_rejects_invalid_frame_format() {
    let mut config = ServerSettings::default();
    config.ffmpeg.frame_format = "gif".to_string();
    assert!(config.validate(&fractional_ok()).is_err());
}

#[test]
fn test_validation_rejects_deliberately_unset_fps_with_actionable_message() {
    let config = ServerSettings::default();
    let f = FractionalChecks { fps_positive: false, ..fractional_ok() };
    let msg = server_error(&config, &f);
    assert!(msg.contains("vision.fps"), "message must name the key: {msg}");
    assert!(msg.contains("deliberately unset") || msg.contains("PR-022"), "{msg}");
}

#[test]
fn test_server_validation_rejects_zero_frame_quality() {
    let mut config = ServerSettings::default();
    config.ffmpeg.frame_quality = 0;
    assert!(config.validate(&fractional_ok()).is_err());
}

#[test]
fn test_server_validation_rejects_high_frame_quality() {
    let mut config = ServerSettings::default();
    config.ffmpeg.frame_quality = 32;
    assert!(config.validate(&fractional_ok()).is_err());
}

#[test]
fn test_whisper_n_threads_default() {
    let config = ServerSettings::default();
    assert_eq!(config.whisper_n_threads, 8);
}

#[test]
fn test_server_validation_rejects_zero_n_threads() {
    let mut config = ServerSettings::default();
    config.whisper_n_threads = 0;
    assert!(config.validate(&fractional_ok()).is_err());
}

#[test]
fn test_ollama_timeout_default() {
    let config = ServerSettings::default();
    assert_eq!(config.ollama_timeout_seconds, 300);
}

#[test]
fn test_vision_max_frames_default() {
    let config = ServerSettings::default();
    assert_eq!(config.vision_max_frames_per_request, 15);
}

#[test]
fn test_server_validation_rejects_zero_timeout() {
    let mut config = ServerSettings::default();
    config.ollama_timeout_seconds = 0;
    assert!(config.validate(&fractional_ok()).is_err());
}

#[test]
fn test_server_validation_rejects_zero_max_frames() {
    let mut config = ServerSettings::default();
    config.vision_max_frames_per_request = 0;
    assert!(config.validate(&fractional_ok()).is_err());
}

#[test]
fn test_polling_config_defaults() {
    let config = ClientPollingConfig::default();
    assert_eq!(config.poll_interval_secs, 3);
    assert_eq!(config.timeout_secs, 1800);
}

#[test]
fn test_client_validation_rejects_zero_poll_interval() {
    let mut config = ClientConfig::default();
    config.polling.poll_interval_secs = 0;
    assert!(config.validate().is_err());
}

#[test]
fn test_client_validation_rejects_zero_timeout() {
    let mut config = ClientConfig::default();
    config.polling.timeout_secs = 0;
    assert!(config.validate().is_err());
}

#[test]
fn test_max_upload_bytes_default() {
    let config = ProcessingConfig::default();
    assert_eq!(config.max_upload_bytes, 4_294_967_296);
}

#[test]
fn test_ytdlp_config_defaults() {
    let config = YtDlpConfig::default();
    assert_eq!(config.path, "yt-dlp");
    assert_eq!(config.max_resolution, "1080");
    assert_eq!(config.max_fps, 30);
    assert_eq!(config.timeout_seconds, 600);
}

#[test]
fn test_server_validation_rejects_zero_ytdlp_fps() {
    let mut config = ServerSettings::default();
    config.ytdlp.max_fps = 0;
    assert!(config.validate(&fractional_ok()).is_err());
}

#[test]
fn test_server_validation_rejects_zero_ytdlp_timeout() {
    let mut config = ServerSettings::default();
    config.ytdlp.timeout_seconds = 0;
    assert!(config.validate(&fractional_ok()).is_err());
}

#[test]
fn test_new_ollama_and_whisper_fields_default_and_validate() {
    let config = ServerSettings::default();
    assert_eq!(config.ollama_vision_patch_px, 32);
    let f = FractionalChecks { repetition_window_positive: false, ..fractional_ok() };
    assert!(server_error(&config, &f).contains("repetition_window_secs"));
    let mut bad = config.clone();
    bad.ollama_vision_patch_px = 0;
    assert!(server_error(&bad, &fractional_ok()).contains("vision_patch_px"));
}

#[test]
fn server_rules_are_checked_in_order() {
    let mut config = ServerSettings::default();
    config.server.listen_port = 0;
    config.ytdlp.max_fps = 0;
    assert_eq!(
        server_error(&config, &fractional_ok()),
        "config error: server.listen_port must be greater than 0"
    );
}

#[test]
fn adaptive_problem_is_reported_after_the_fps_rule() {
    let config = ServerSettings::default();
    let f = FractionalChecks {
        adaptive_problem: Some("vision.adaptive.max_gap_secs must be greater than 0".to_string()),
        ..fractional_ok()
    };
    assert_eq!(
        server_error(&config, &f),
        "config error: vision.adaptive.max_gap_secs must be greater than 0"
    );
    let f = FractionalChecks { fps_positive: false, ..f };
    assert!(server_error(&config, &f).starts_with("config error: vision.fps must be greater than 0."));
}

#[test]
fn frame_format_png_is_accepted() {
    let mut config = ServerSettings::default();
    config.ffmpeg.frame_format = "png".to_string();
    assert!(config.validate(&fractional_ok()).is_ok());
    config.ffmpeg.frame_format = "gif".to_string();
    assert_eq!(
        server_error(&config, &fractional_ok()),
        "config error: ffmpeg.frame_format must be \"jpg\" or \"png\""
    );
}

#[test]
fn client_rules_report_the_first_broken_one() {
    let mut config = ClientConfig::default();
    config.openai.max_tokens = 0;
    config.polling.timeout_secs = 0;
    match config.validate() {
        Err(e) => assert_eq!(e.message(), "config error: polling.timeout_secs must be greater than 0"),
        Ok(()) => panic!("expected an error"),
    }
}

#[test]
fn profile_names_keep_toml_files_only() {
    let entries = vec![
        "charts.toml".to_string(),
        "notes.txt".to_string(),
        "lectures.toml.toml".to_string(),
        "x.tomlx".to_string(),
    ];
    let names = vtt::config::profile_names(&entries);
    assert_eq!(names, vec!["charts".to_string(), "lectures".to_string()]);
}

#[test]
fn prompt_file_ignores_empty_paths() {
    assert_eq!(vtt::config::prompt_file(None), None);
    assert_eq!(vtt::config::prompt_file(Some("")), None);
    assert_eq!(vtt::config::prompt_file(Some("prompts/vision.txt")), Some("prompts/vision.txt".to_string()));
}

#[test]
fn config_file_path_is_under_the_config_dir() {
    if let Some(p) = vtt::config::config_file_path("client.toml") {
        assert!(p.ends_with("/.vid-to-text/config/client.toml"), "{p}");
    }
    if let Some(p) = vtt::config::profiles_dir() {
        assert!(p.ends_with("/.vid-to-text/config/profiles"), "{p}");
    }
}

#[test]
fn results_dir_defaults() {
    assert_eq!(vtt::config::results_dir_for(None), "/tmp/vtt-results");
    assert_eq!(vtt::config::results_dir_for(Some("/home/u")), "/home/u/.vid-to-text/server/results");
}
