use vtt::config::YtDlpConfig;
use vtt::ytdlp::{build_format_selector, build_format_selector_with_overrides, download_source_name, download_title};

#[test]
fn test_build_format_selector_defaults() {
    let config = YtDlpConfig::default();
    assert_eq!(build_format_selector(&config), "bestvideo[height<=1080][fps<=30]+bestaudio/best[height<=1080]");
}

#[test]
fn test_build_format_selector_custom() {
    let config = YtDlpConfig { max_resolution: "720".to_string(), max_fps: 60, ..YtDlpConfig::default() };
    assert_eq!(build_format_selector(&config), "bestvideo[height<=720][fps<=60]+bestaudio/best[height<=720]");
}

#[test]
fn test_build_format_selector_with_overrides() {
    let config = YtDlpConfig::default();
    assert_eq!(
        build_format_selector_with_overrides(&config, Some("480"), Some(24)),
        "bestvideo[height<=480][fps<=24]+bestaudio/best[height<=480]"
    );
}

#[test]
fn test_build_format_selector_partial_override() {
    let config = YtDlpConfig::default();
    assert_eq!(
        build_format_selector_with_overrides(&config, Some("720"), None),
        "bestvideo[height<=720][fps<=30]+bestaudio/best[height<=720]"
    );
}

#[test]
fn no_override_gives_the_configured_selector() {
    let config = YtDlpConfig { max_resolution: "360".to_string(), max_fps: 25, ..YtDlpConfig::default() };
    assert_eq!(build_format_selector_with_overrides(&config, None, None), build_format_selector(&config));
}

#[test]
fn download_title_is_the_file_stem() {
    assert_eq!(download_title("/tmp/job/My Talk.mp4"), "My Talk");
    assert_eq!(download_title("clip.final.mp4"), "clip.final");
    assert_eq!(download_source_name("My Talk"), "My Talk.mp4");
}
