//! Client and server settings: defaults, validation, derived addresses, and
//! where the configuration files live.

use vstd::prelude::*;
use crate::digits::{decimal, push_decimal};
use crate::error::VttError;
use crate::paths::{
    final_component, join_path, parent_chars, parent_path, path_join,
};
use crate::cache::{strip_suffixes, strip_suffixes_of};
use crate::checkpoint::{ends_with, ends_with_str};
use crate::text::{push_str_chars, str_chars, string_from_chars, string_views};

verus! {

// ---------------------------------------------------------------- client

#[derive(Debug, Clone)]
pub struct ClientConfig {
    pub server: ClientServerConfig,
    pub output: ClientOutputConfig,
    pub polling: ClientPollingConfig,
    pub openai: OpenAIConfig,
}

#[derive(Debug, Clone)]
pub struct ClientServerConfig {
    pub host: String,
    pub port: u16,
}

#[derive(Debug, Clone)]
pub struct ClientOutputConfig {
    pub dir: Option<String>,
}

#[derive(Debug, Clone)]
pub struct ClientPollingConfig {
    pub poll_interval_secs: u64,
    pub timeout_secs: u64,
}

#[derive(Debug, Clone)]
pub struct OpenAIConfig {
    pub model: String,
    pub endpoint: String,
    pub max_tokens: u32,
    pub format_prompt_path: Option<String>,
}

impl Default for ClientPollingConfig {
    fn default() -> (r: Self)
        ensures
            r.poll_interval_secs == 3,
            r.timeout_secs == 1800,
    {
        ClientPollingConfig { poll_interval_secs: 3, timeout_secs: 1800 }
    }
}

impl Default for OpenAIConfig {
    fn default() -> (r: Self)
        ensures
            r.model@ == "gpt-5.4"@,
            r.endpoint@ == "https://api.openai.com/v1/chat/completions"@,
            r.max_tokens == 4096,
            r.format_prompt_path matches Some(p) && p@ == "prompts/format.txt"@,
    {
        OpenAIConfig {
            model: "gpt-5.4".to_owned(),
            endpoint: "https://api.openai.com/v1/chat/completions".to_owned(),
            max_tokens: 4096,
            format_prompt_path: Some("prompts/format.txt".to_owned()),
        }
    }
}

impl Default for ClientServerConfig {
    fn default() -> (r: Self)
        ensures
            r.host@ == "localhost"@,
            r.port == 3001,
    {
        ClientServerConfig { host: "localhost".to_owned(), port: 3001 }
    }
}

impl Default for ClientOutputConfig {
    fn default() -> (r: Self)
        ensures
            r.dir is None,
    {
        ClientOutputConfig { dir: None }
    }
}

impl Default for ClientConfig {
    fn default() -> (r: Self)
        ensures
            r.server.host@ == "localhost"@,
            r.server.port == 3001,
            r.output.dir is None,
            r.polling.poll_interval_secs == 3,
            r.polling.timeout_secs == 1800,
            r.openai.model@ == "gpt-5.4"@,
            r.openai.endpoint@ == "https://api.openai.com/v1/chat/completions"@,
            r.openai.max_tokens == 4096,
            r.openai.format_prompt_path matches Some(p) && p@ == "prompts/format.txt"@,
    {
        ClientConfig {
            server: ClientServerConfig::default(),
            output: ClientOutputConfig::default(),
            polling: ClientPollingConfig::default(),
            openai: OpenAIConfig::default(),
        }
    }
}

/// The first rule a client configuration breaks, by its message.
pub open spec fn client_config_problem(c: ClientConfig) -> Option<Seq<char>> {
    if c.server.host@.len() == 0 {
        Some("server.host must not be empty"@)
    } else if c.server.port == 0 {
        Some("server.port must be greater than 0"@)
    } else if c.polling.poll_interval_secs == 0 {
        Some("polling.poll_interval_secs must be greater than 0"@)
    } else if c.polling.timeout_secs == 0 {
        Some("polling.timeout_secs must be greater than 0"@)
    } else if c.openai.model@.len() == 0 {
        Some("openai.model must not be empty"@)
    } else if c.openai.endpoint@.len() == 0 {
        Some("openai.endpoint must not be empty"@)
    } else if c.openai.max_tokens == 0 {
        Some("openai.max_tokens must be greater than 0"@)
    } else {
        None
    }
}

/// `Err(Config(message))` naming the broken rule, or `Ok` when none is.
pub open spec fn config_verdict(problem: Option<Seq<char>>, r: Result<(), VttError>) -> bool {
    match problem {
        None => r is Ok,
        Some(m) => r matches Err(VttError::Config(msg)) && msg@ == m,
    }
}

fn config_err(msg: &str) -> (r: Result<(), VttError>)
    ensures
        r matches Err(VttError::Config(m)) && m@ == msg@,
{
    Err(VttError::Config(msg.to_owned()))
}

impl ClientConfig {
    /// Checks every client setting; the first broken rule is reported.
    pub fn validate(&self) -> (r: Result<(), VttError>)
        ensures
            config_verdict(client_config_problem(*self), r),
    {
        if self.server.host.as_str().is_empty() {
            return config_err("server.host must not be empty");
        }
        if self.server.port == 0 {
            return config_err("server.port must be greater than 0");
        }
        if self.polling.poll_interval_secs == 0 {
            return config_err("polling.poll_interval_secs must be greater than 0");
        }
        if self.polling.timeout_secs == 0 {
            return config_err("polling.timeout_secs must be greater than 0");
        }
        if self.openai.model.as_str().is_empty() {
            return config_err("openai.model must not be empty");
        }
        if self.openai.endpoint.as_str().is_empty() {
            return config_err("openai.endpoint must not be empty");
        }
        if self.openai.max_tokens == 0 {
            return config_err("openai.max_tokens must be greater than 0");
        }
        Ok(())
    }

    /// `http://host:port`.
    pub fn server_url(&self) -> (s: String)
        ensures
            s@ == "http://"@ + self.server.host@ + ":"@ + decimal(self.server.port as nat),
    {
        let mut s = String::new();
        push_str_chars(&mut s, "http://");
        push_str_chars(&mut s, self.server.host.as_str());
        push_str_chars(&mut s, ":");
        push_decimal(&mut s, self.server.port as u64);
        s
    }
}

/// The defaults satisfy every client rule.
pub proof fn lemma_client_defaults_valid(c: ClientConfig)
    requires
        c.server.host@ == "localhost"@,
        c.server.port == 3001,
        c.polling.poll_interval_secs == 3,
        c.polling.timeout_secs == 1800,
        c.openai.model@ == "gpt-5.4"@,
        c.openai.endpoint@ == "https://api.openai.com/v1/chat/completions"@,
        c.openai.max_tokens == 4096,
    ensures
        client_config_problem(c) is None,
{
    reveal_strlit("localhost");
    reveal_strlit("gpt-5.4");
    reveal_strlit("https://api.openai.com/v1/chat/completions");
}

// ---------------------------------------------------------------- server parts

#[derive(Debug, Clone)]
pub struct ServerListenConfig {
    pub listen_address: String,
    pub listen_port: u16,
    pub max_concurrent_jobs: u32,
}

#[derive(Debug, Clone)]
pub struct FfmpegConfig {
    pub path: String,
    pub chunk_duration_secs: u32,
    pub frame_format: String,
    pub frame_quality: u32,
}

/// Scope of speech made visible to the vision model for a batch.
#[derive(Debug, Clone, Copy, PartialEq, Eq, Structural)]
pub enum TranscriptWindow {
    /// Entire chunk.
    Full,
    /// Speech overlapping the batch window.
    Concurrent,
    /// Only speech that ended before the batch began.
    Causal,
}

#[derive(Debug, Clone)]
pub struct ProcessingConfig {
    pub temp_dir: String,
    pub results_dir: String,
    pub max_upload_bytes: u64,
    pub cleanup_checkpoints: bool,
}

#[derive(Debug, Clone)]
pub struct YtDlpConfig {
    pub path: String,
    pub max_resolution: String,
    pub max_fps: u32,
    pub timeout_seconds: u64,
}

impl Default for TranscriptWindow {
    fn default() -> (r: Self)
        ensures
            r == TranscriptWindow::Full,
    {
        TranscriptWindow::Full
    }
}

impl Default for ServerListenConfig {
    fn default() -> (r: Self)
        ensures
            r.listen_address@ == "0.0.0.0"@,
            r.listen_port == 3001,
            r.max_concurrent_jobs == 1,
    {
        ServerListenConfig {
            listen_address: "0.0.0.0".to_owned(),
            listen_port: 3001,
            max_concurrent_jobs: 1,
        }
    }
}

impl Default for FfmpegConfig {
    fn default() -> (r: Self)
        ensures
            r.path@ == "ffmpeg"@,
            r.chunk_duration_secs == 180,
            r.frame_format@ == "jpg"@,
            r.frame_quality == 2,
    {
        FfmpegConfig {
            path: "ffmpeg".to_owned(),
            chunk_duration_secs: 180,
            frame_format: "jpg".to_owned(),
            frame_quality: 2,
        }
    }
}

impl Default for YtDlpConfig {
    fn default() -> (r: Self)
        ensures
            r.path@ == "yt-dlp"@,
            r.max_resolution@ == "1080"@,
            r.max_fps == 30,
            r.timeout_seconds == 600,
    {
        YtDlpConfig {
            path: "yt-dlp".to_owned(),
            max_resolution: "1080".to_owned(),
            max_fps: 30,
            timeout_seconds: 600,
        }
    }
}

/// Where server results go by default: under the home directory when there
/// is one, else a fixed temporary directory.
pub open spec fn default_results_dir(home: Option<Seq<char>>) -> Seq<char> {
    match home {
        Some(h) => path_join(path_join(path_join(h, ".vid-to-text"@), "server"@), "results"@),
        None => "/tmp/vtt-results"@,
    }
}

/// The results directory for an optional home directory.
pub fn results_dir_for(home: Option<&str>) -> (r: String)
    ensures
        r@ == default_results_dir(
            match home {
                Some(h) => Some(h@),
                None => None,
            },
        ),
{
    match home {
        Some(h) => {
            let a = join_path(h, ".vid-to-text");
            let b = join_path(a.as_str(), "server");
            join_path(b.as_str(), "results")
        },
        None => "/tmp/vtt-results".to_owned(),
    }
}

impl Default for ProcessingConfig {
    fn default() -> (r: Self)
        ensures
            r.temp_dir@ == "/tmp/vtt-jobs"@,
            exists|h: Option<Seq<char>>| r.results_dir@ == default_results_dir(h),
            r.max_upload_bytes == 4294967296,
            r.cleanup_checkpoints,
    {
        let home = home_dir();
        let results_dir = match &home {
            Some(h) => results_dir_for(Some(h.as_str())),
            None => results_dir_for(None),
        };
        ProcessingConfig {
            temp_dir: "/tmp/vtt-jobs".to_owned(),
            results_dir,
            max_upload_bytes: 4294967296,
            cleanup_checkpoints: true,
        }
    }
}

/// Where the `ffprobe` that sits beside `ffmpeg_path` is: the same
/// directory, or the bare name when the path has no directory part.
pub open spec fn ffprobe_for(ffmpeg_path: Seq<char>) -> Seq<char> {
    if final_component(ffmpeg_path).len() > 0 && parent_path(ffmpeg_path).len() > 0 {
        path_join(parent_path(ffmpeg_path), "ffprobe"@)
    } else {
        "ffprobe"@
    }
}

impl FfmpegConfig {
    /// The ffprobe binary path derived from the ffmpeg path.
    pub fn ffprobe_path(&self) -> (r: String)
        ensures
            r@ == ffprobe_for(self.path@),
    {
        let p = str_chars(self.path.as_str());
        let fin = final_component_chars(p.as_slice());
        let parent = parent_chars(p.as_slice());
        if fin.len() > 0 && parent.len() > 0 {
            let ps = string_from_chars(parent.as_slice());
            join_path(ps.as_str(), "ffprobe")
        } else {
            "ffprobe".to_owned()
        }
    }
}

fn final_component_chars(p: &[char]) -> (r: Vec<char>)
    ensures
        r@ == final_component(p@),
{
    crate::paths::final_component_of(p)
}

// ---------------------------------------------------------------- locations

/// Calls `dirs::home_dir`. Nothing is promised of the result: it depends on
/// the environment the program runs in.
#[verifier::external_body]
pub(crate) fn home_dir() -> Option<String> {
    match dirs::home_dir() {
        Some(p) => Some(p.display().to_string()),
        None => None,
    }
}

pub open spec fn config_dir_in(home: Seq<char>) -> Seq<char> {
    path_join(path_join(home, ".vid-to-text"@), "config"@)
}

/// The configuration directory under `home`.
pub fn config_dir_under(home: &str) -> (r: String)
    ensures
        r@ == config_dir_in(home@),
{
    let a = join_path(home, ".vid-to-text");
    join_path(a.as_str(), "config")
}

/// `~/.vid-to-text/config`, or `None` when no home directory is known.
pub fn config_dir() -> (r: Option<String>)
    ensures
        r matches Some(d) ==> exists|h: Seq<char>| d@ == config_dir_in(h),
{
    match home_dir() {
        Some(h) => Some(config_dir_under(h.as_str())),
        None => None,
    }
}

/// A file in the configuration directory.
pub fn config_file_path(filename: &str) -> (r: Option<String>)
    ensures
        r matches Some(p) ==> exists|h: Seq<char>| p@ == path_join(config_dir_in(h), filename@),
{
    match config_dir() {
        Some(d) => Some(join_path(d.as_str(), filename)),
        None => None,
    }
}

/// The profiles directory inside the configuration directory.
pub fn profiles_dir() -> (r: Option<String>)
    ensures
        r matches Some(p) ==> exists|h: Seq<char>| p@ == path_join(config_dir_in(h), "profiles"@),
{
    match config_dir() {
        Some(d) => Some(join_path(d.as_str(), "profiles")),
        None => None,
    }
}

/// Calls `std::path::Path::exists`. Nothing is promised of the result: it
/// depends on what is on disk.
#[verifier::external_body]
pub(crate) fn path_exists(path: &str) -> bool {
    std::path::Path::new(path).exists()
}

/// Whether the named configuration file exists; `false` without a home
/// directory.
pub fn config_file_exists(filename: &str) -> bool {
    match config_file_path(filename) {
        Some(p) => path_exists(p.as_str()),
        None => false,
    }
}

} // verus!

verus! {

// ---------------------------------------------------------------- server rules

/// The server settings held as whole numbers and text. The sampling and
/// decoding settings given as fractions are judged by the caller, which
/// reports its verdicts in `FractionalChecks`.
#[derive(Debug, Clone)]
pub struct ServerSettings {
    pub server: ServerListenConfig,
    pub ffmpeg: FfmpegConfig,
    pub whisper_model_path: String,
    pub whisper_n_threads: u16,
    pub ollama_endpoint: String,
    pub ollama_model: String,
    pub ollama_timeout_seconds: u64,
    pub ollama_vision_patch_px: u32,
    pub vision_max_tokens: u32,
    pub vision_max_frames_per_request: u32,
    pub processing: ProcessingConfig,
    pub ytdlp: YtDlpConfig,
}

/// Verdicts on the fractional settings: whether the frame rate is positive,
/// the first adaptive-sampling rule broken (when adaptive sampling is on),
/// and whether the repetition window is positive.
#[derive(Debug, Clone)]
pub struct FractionalChecks {
    pub fps_positive: bool,
    pub adaptive_problem: Option<String>,
    pub repetition_window_positive: bool,
}

/// The message for a frame rate that is not positive.
pub open spec fn fps_text() -> Seq<char> {
    "vision.fps must be greater than 0. If a profile set it to 0, that is the deliberately unset sentinel PR-020 shipped while the sampling mechanism was undecided; PR-022 decided it (see docs/ARCHITECTURE.md, Frame Sampling). Set vision.fps explicitly in the profile before running."@
}

/// The first rule a server configuration breaks, by its message, in the
/// order the rules are checked.
pub open spec fn server_config_problem(c: ServerSettings, f: FractionalChecks) -> Option<Seq<char>> {
    if c.server.listen_address@.len() == 0 {
        Some("server.listen_address must not be empty"@)
    } else if c.server.listen_port == 0 {
        Some("server.listen_port must be greater than 0"@)
    } else if c.server.max_concurrent_jobs == 0 {
        Some("server.max_concurrent_jobs must be greater than 0"@)
    } else if c.ffmpeg.path@.len() == 0 {
        Some("ffmpeg.path must not be empty"@)
    } else if c.ffmpeg.chunk_duration_secs == 0 {
        Some("ffmpeg.chunk_duration_secs must be greater than 0"@)
    } else if c.ffmpeg.frame_format@ != "jpg"@ && c.ffmpeg.frame_format@ != "png"@ {
        Some("ffmpeg.frame_format must be \"jpg\" or \"png\""@)
    } else if c.ffmpeg.frame_quality == 0 || c.ffmpeg.frame_quality > 31 {
        Some("ffmpeg.frame_quality must be between 1 and 31"@)
    } else if c.whisper_model_path@.len() == 0 {
        Some("whisper.model_path must not be empty"@)
    } else if c.whisper_n_threads == 0 {
        Some("whisper.n_threads must be greater than 0"@)
    } else if c.ollama_endpoint@.len() == 0 {
        Some("ollama.endpoint must not be empty"@)
    } else if c.ollama_model@.len() == 0 {
        Some("ollama.model must not be empty"@)
    } else if c.ollama_timeout_seconds == 0 {
        Some("ollama.timeout_seconds must be greater than 0"@)
    } else if !f.fps_positive {
        Some(fps_text())
    } else if f.adaptive_problem is Some {
        Some(f.adaptive_problem->0@)
    } else if c.ollama_vision_patch_px == 0 {
        Some("ollama.vision_patch_px must be greater than 0"@)
    } else if !f.repetition_window_positive {
        Some("whisper.repetition_window_secs must be greater than 0"@)
    } else if c.vision_max_tokens == 0 {
        Some("vision.max_tokens must be greater than 0"@)
    } else if c.vision_max_frames_per_request == 0 {
        Some("vision.max_frames_per_request must be greater than 0"@)
    } else if c.processing.temp_dir@.len() == 0 {
        Some("processing.temp_dir must not be empty"@)
    } else if c.processing.results_dir@.len() == 0 {
        Some("processing.results_dir must not be empty"@)
    } else if c.ytdlp.path@.len() == 0 {
        Some("ytdlp.path must not be empty"@)
    } else if c.ytdlp.max_fps == 0 {
        Some("ytdlp.max_fps must be greater than 0"@)
    } else if c.ytdlp.timeout_seconds == 0 {
        Some("ytdlp.timeout_seconds must be greater than 0"@)
    } else {
        None
    }
}

/// Whether `a` and `b` hold the same text.
pub fn str_eq(a: &str, b: &str) -> (r: bool)
    ensures
        r == (a@ == b@),
{
    let x = str_chars(a);
    let y = str_chars(b);
    crate::text::chars_eq(x.as_slice(), y.as_slice())
}

impl ServerSettings {
    /// Checks every server setting; the first broken rule is reported.
    pub fn validate(&self, fractional: &FractionalChecks) -> (r: Result<(), VttError>)
        ensures
            config_verdict(server_config_problem(*self, *fractional), r),
    {
        if self.server.listen_address.as_str().is_empty() {
            return config_err("server.listen_address must not be empty");
        }
        if self.server.listen_port == 0 {
            return config_err("server.listen_port must be greater than 0");
        }
        if self.server.max_concurrent_jobs == 0 {
            return config_err("server.max_concurrent_jobs must be greater than 0");
        }
        if self.ffmpeg.path.as_str().is_empty() {
            return config_err("ffmpeg.path must not be empty");
        }
        if self.ffmpeg.chunk_duration_secs == 0 {
            return config_err("ffmpeg.chunk_duration_secs must be greater than 0");
        }
        if !str_eq(self.ffmpeg.frame_format.as_str(), "jpg") && !str_eq(
            self.ffmpeg.frame_format.as_str(),
            "png",
        ) {
            return config_err("ffmpeg.frame_format must be \"jpg\" or \"png\"");
        }
        if self.ffmpeg.frame_quality == 0 || self.ffmpeg.frame_quality > 31 {
            return config_err("ffmpeg.frame_quality must be between 1 and 31");
        }
        if self.whisper_model_path.as_str().is_empty() {
            return config_err("whisper.model_path must not be empty");
        }
        if self.whisper_n_threads == 0 {
            return config_err("whisper.n_threads must be greater than 0");
        }
        if self.ollama_endpoint.as_str().is_empty() {
            return config_err("ollama.endpoint must not be empty");
        }
        if self.ollama_model.as_str().is_empty() {
            return config_err("ollama.model must not be empty");
        }
        if self.ollama_timeout_seconds == 0 {
            return config_err("ollama.timeout_seconds must be greater than 0");
        }
        if !fractional.fps_positive {
            return config_err(
                "vision.fps must be greater than 0. If a profile set it to 0, that is the deliberately unset sentinel PR-020 shipped while the sampling mechanism was undecided; PR-022 decided it (see docs/ARCHITECTURE.md, Frame Sampling). Set vision.fps explicitly in the profile before running.",
            );
        }
        match &fractional.adaptive_problem {
            Some(m) => {
                return config_err(m.as_str());
            },
            None => {},
        }
        if self.ollama_vision_patch_px == 0 {
            return config_err("ollama.vision_patch_px must be greater than 0");
        }
        if !fractional.repetition_window_positive {
            return config_err("whisper.repetition_window_secs must be greater than 0");
        }
        if self.vision_max_tokens == 0 {
            return config_err("vision.max_tokens must be greater than 0");
        }
        if self.vision_max_frames_per_request == 0 {
            return config_err("vision.max_frames_per_request must be greater than 0");
        }
        if self.processing.temp_dir.as_str().is_empty() {
            return config_err("processing.temp_dir must not be empty");
        }
        if self.processing.results_dir.as_str().is_empty() {
            return config_err("processing.results_dir must not be empty");
        }
        if self.ytdlp.path.as_str().is_empty() {
            return config_err("ytdlp.path must not be empty");
        }
        if self.ytdlp.max_fps == 0 {
            return config_err("ytdlp.max_fps must be greater than 0");
        }
        if self.ytdlp.timeout_seconds == 0 {
            return config_err("ytdlp.timeout_seconds must be greater than 0");
        }
        Ok(())
    }

    /// `listen_address:listen_port`, the address the server binds.
    pub fn bind_address(&self) -> (s: String)
        ensures
            s@ == self.server.listen_address@ + ":"@ + decimal(self.server.listen_port as nat),
    {
        let mut s = self.server.listen_address.clone();
        push_str_chars(&mut s, ":");
        push_decimal(&mut s, self.server.listen_port as u64);
        s
    }
}

} // verus!

verus! {

// ---------------------------------------------------------------- profiles and prompts

/// The profile names among a directory's entries: every `.toml` file, with
/// the extension (repeated or not) removed, in order.
pub open spec fn profile_names_of(names: Seq<Seq<char>>) -> Seq<Seq<char>>
    decreases names.len(),
{
    if names.len() == 0 {
        Seq::<Seq<char>>::empty()
    } else {
        let rest = profile_names_of(names.drop_last());
        if ends_with(names.last(), ".toml"@) {
            rest.push(strip_suffixes(names.last(), ".toml"@))
        } else {
            rest
        }
    }
}

/// The profiles named by a directory's entries.
pub fn profile_names(entries: &Vec<String>) -> (r: Vec<String>)
    ensures
        string_views(r@) == profile_names_of(string_views(entries@)),
{
    let ghost es = string_views(entries@);
    let mut r: Vec<String> = Vec::new();
    let mut i: usize = 0;
    while i < entries.len()
        invariant
            i <= entries@.len(),
            es == string_views(entries@),
            string_views(r@) == profile_names_of(es.take(i as int)),
        decreases entries@.len() - i,
    {
        assert(es.take(i + 1).drop_last() == es.take(i as int));
        assert(es.take(i + 1).last() == entries@[i as int]@);
        if ends_with_str(entries[i].as_str(), ".toml") {
            let ghost before = r@;
            r.push(strip_suffixes_of(entries[i].as_str(), ".toml"));
            assert(string_views(r@) =~= string_views(before).push(r@.last()@));
        }
        i = i + 1;
    }
    assert(es.take(entries@.len() as int) == es);
    r
}

/// The file a prompt is read from: the configured path unless it is absent
/// or empty, in which case the built-in prompt is used.
pub fn prompt_file(path: Option<&str>) -> (r: Option<String>)
    ensures
        match path {
            Some(p) => if p@.len() > 0 {
                r matches Some(q) && q@ == p@
            } else {
                r is None
            },
            None => r is None,
        },
{
    match path {
        Some(p) => if p.is_empty() {
            None
        } else {
            Some(p.to_owned())
        },
        None => None,
    }
}

/// The system prompt the formatter uses when none is configured.
pub fn default_system_prompt() -> (s: String)
    ensures
        s@ == "Format this video timeline JSON into a human-readable Markdown document with a summary, character identification, and scene-by-scene transcript."@,
{
    "Format this video timeline JSON into a human-readable Markdown document with a summary, character identification, and scene-by-scene transcript.".to_owned()
}

/// The vision prompt used when no template file is configured.
pub fn default_vision_prompt() -> (s: String)
    ensures
        s@ == "Describe the visual content of these video frames in detail."@,
{
    "Describe the visual content of these video frames in detail.".to_owned()
}

// ---------------------------------------------------------------- server defaults

impl Default for ServerSettings {
    fn default() -> (s: Self)
        ensures
            s.server.listen_address@ == "0.0.0.0"@,
            s.server.listen_port == 3001,
            s.server.max_concurrent_jobs == 1,
            s.ffmpeg.path@ == "ffmpeg"@,
            s.ffmpeg.chunk_duration_secs == 180,
            s.ffmpeg.frame_format@ == "jpg"@,
            s.ffmpeg.frame_quality == 2,
            s.whisper_model_path@ == "models/ggml-large-v3-turbo.bin"@,
            s.whisper_n_threads == 8,
            s.ollama_endpoint@ == "http://localhost:11434"@,
            s.ollama_model@ == "qwen3-vl:8b"@,
            s.ollama_timeout_seconds == 300,
            s.ollama_vision_patch_px == 32,
            s.vision_max_tokens == 4096,
            s.vision_max_frames_per_request == 15,
            s.processing.temp_dir@ == "/tmp/vtt-jobs"@,
            exists|h: Option<Seq<char>>| s.processing.results_dir@ == default_results_dir(h),
            s.processing.max_upload_bytes == 4294967296,
            s.processing.cleanup_checkpoints,
            s.ytdlp.path@ == "yt-dlp"@,
            s.ytdlp.max_resolution@ == "1080"@,
            s.ytdlp.max_fps == 30,
            s.ytdlp.timeout_seconds == 600,
    {
        ServerSettings {
            server: ServerListenConfig::default(),
            ffmpeg: FfmpegConfig::default(),
            whisper_model_path: "models/ggml-large-v3-turbo.bin".to_owned(),
            whisper_n_threads: 8,
            ollama_endpoint: "http://localhost:11434".to_owned(),
            ollama_model: "qwen3-vl:8b".to_owned(),
            ollama_timeout_seconds: 300,
            ollama_vision_patch_px: 32,
            vision_max_tokens: 4096,
            vision_max_frames_per_request: 15,
            processing: ProcessingConfig::default(),
            ytdlp: YtDlpConfig::default(),
        }
    }
}

/// The default server settings break no rule, given the default fractional
/// settings (a positive frame rate, adaptive sampling off, a positive
/// repetition window).
pub proof fn lemma_server_defaults_valid(c: ServerSettings, f: FractionalChecks)
    requires
        c.server.listen_address@ == "0.0.0.0"@,
        c.server.listen_port == 3001,
        c.server.max_concurrent_jobs == 1,
        c.ffmpeg.path@ == "ffmpeg"@,
        c.ffmpeg.chunk_duration_secs == 180,
        c.ffmpeg.frame_format@ == "jpg"@,
        c.ffmpeg.frame_quality == 2,
        c.whisper_model_path@ == "models/ggml-large-v3-turbo.bin"@,
        c.whisper_n_threads == 8,
        c.ollama_endpoint@ == "http://localhost:11434"@,
        c.ollama_model@ == "qwen3-vl:8b"@,
        c.ollama_timeout_seconds == 300,
        c.ollama_vision_patch_px == 32,
        c.vision_max_tokens == 4096,
        c.vision_max_frames_per_request == 15,
        c.processing.temp_dir@ == "/tmp/vtt-jobs"@,
        exists|h: Option<Seq<char>>| c.processing.results_dir@ == default_results_dir(h),
        c.ytdlp.path@ == "yt-dlp"@,
        c.ytdlp.max_fps == 30,
        c.ytdlp.timeout_seconds == 600,
        f.fps_positive,
        f.adaptive_problem is None,
        f.repetition_window_positive,
    ensures
        server_config_problem(c, f) is None,
{
    reveal_strlit("0.0.0.0");
    reveal_strlit("ffmpeg");
    reveal_strlit("jpg");
    reveal_strlit("models/ggml-large-v3-turbo.bin");
    reveal_strlit("http://localhost:11434");
    reveal_strlit("qwen3-vl:8b");
    reveal_strlit("/tmp/vtt-jobs");
    reveal_strlit("yt-dlp");
    reveal_strlit("/tmp/vtt-results");
    reveal_strlit(".vid-to-text");
    reveal_strlit("server");
    reveal_strlit("results");
    let h = choose|h: Option<Seq<char>>| c.processing.results_dir@ == default_results_dir(h);
    match h {
        Some(hh) => {
            let a = path_join(hh, ".vid-to-text"@);
            let b = path_join(a, "server"@);
            assert(path_join(b, "results"@).len() > 0);
        },
        None => {},
    }
}

} // verus!
