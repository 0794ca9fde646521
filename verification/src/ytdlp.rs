//! Choosing what yt-dlp downloads and naming what it produced.

use vstd::prelude::*;
use crate::config::YtDlpConfig;
use crate::digits::{decimal, push_decimal};
use crate::paths::{path_stem, stem_of_path};
use crate::text::{push_str_chars, str_chars, string_from_chars};

verus! {

/// A finished download: where the video is and what it is called.
#[derive(Debug, Clone)]
pub struct DownloadResult {
    pub video_path: String,
    pub title: String,
}

/// The yt-dlp format selector for a resolution cap and a frame-rate cap:
/// the best video within both plus the best audio, else the best single file
/// within the resolution.
pub open spec fn format_selector(resolution: Seq<char>, fps: nat) -> Seq<char> {
    "bestvideo[height<="@ + resolution + "][fps<="@ + decimal(fps) + "]+bestaudio/best[height<="@
        + resolution + "]"@
}

fn selector(resolution: &str, fps: u32) -> (s: String)
    ensures
        s@ == format_selector(resolution@, fps as nat),
{
    let mut s = String::new();
    push_str_chars(&mut s, "bestvideo[height<=");
    push_str_chars(&mut s, resolution);
    push_str_chars(&mut s, "][fps<=");
    push_decimal(&mut s, fps as u64);
    push_str_chars(&mut s, "]+bestaudio/best[height<=");
    push_str_chars(&mut s, resolution);
    push_str_chars(&mut s, "]");
    s
}

/// The format selector for the configured caps.
pub fn build_format_selector(config: &YtDlpConfig) -> (s: String)
    ensures
        s@ == format_selector(config.max_resolution@, config.max_fps as nat),
{
    selector(config.max_resolution.as_str(), config.max_fps)
}

/// The format selector for a request's caps, each falling back to the
/// configured one when the request leaves it out.
pub fn build_format_selector_with_overrides(
    config: &YtDlpConfig,
    max_resolution: Option<&str>,
    max_fps: Option<u32>,
) -> (s: String)
    ensures
        s@ == format_selector(
            match max_resolution {
                Some(r) => r@,
                None => config.max_resolution@,
            },
            match max_fps {
                Some(f) => f as nat,
                None => config.max_fps as nat,
            },
        ),
{
    let resolution = match max_resolution {
        Some(r) => r,
        None => config.max_resolution.as_str(),
    };
    let fps = match max_fps {
        Some(f) => f,
        None => config.max_fps,
    };
    selector(resolution, fps)
}

/// A request that overrides nothing gets the configured selector.
pub proof fn lemma_no_override_is_configured(config: YtDlpConfig)
    ensures
        format_selector(config.max_resolution@, config.max_fps as nat) == format_selector(
            match None::<&str> {
                Some(r) => r@,
                None => config.max_resolution@,
            },
            match None::<u32> {
                Some(f) => f as nat,
                None => config.max_fps as nat,
            },
        ),
{
}

/// The title of a download: the stem of the file name yt-dlp reported.
pub fn download_title(filename: &str) -> (t: String)
    ensures
        t@ == path_stem(filename@),
{
    let cs = str_chars(filename);
    let st = stem_of_path(cs.as_slice());
    string_from_chars(st.as_slice())
}

/// The source name a downloaded video is processed under.
pub fn download_source_name(title: &str) -> (s: String)
    ensures
        s@ == title@ + ".mp4"@,
{
    let mut s = title.to_owned();
    push_str_chars(&mut s, ".mp4");
    s
}

} // verus!
