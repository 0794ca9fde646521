//! The library's error type.

use vstd::prelude::*;
use crate::text::push_str_chars;

verus! {

/// What went wrong, by the stage that failed.
#[derive(Debug, Clone)]
pub enum VttError {
    Ffmpeg(String),
    Whisper(String),
    Vision(String),
    Config(String),
    /// A failed file-system operation, with the operating system's report.
    Io(String),
    /// Malformed JSON, with the parser's report.
    Json(String),
    Server(String),
    Client(String),
    Download(String),
    Cancelled,
}

/// The prefix each kind of error is reported with.
pub open spec fn error_prefix(e: VttError) -> Seq<char> {
    match e {
        VttError::Ffmpeg(_) => "ffmpeg error: "@,
        VttError::Whisper(_) => "whisper error: "@,
        VttError::Vision(_) => "vision model error: "@,
        VttError::Config(_) => "config error: "@,
        VttError::Io(_) => "io error: "@,
        VttError::Json(_) => "json error: "@,
        VttError::Server(_) => "server error: "@,
        VttError::Client(_) => "client error: "@,
        VttError::Download(_) => "download error: "@,
        VttError::Cancelled => "job cancelled"@,
    }
}

/// The detail an error carries, empty for `Cancelled`.
pub open spec fn error_detail(e: VttError) -> Seq<char> {
    match e {
        VttError::Ffmpeg(m) => m@,
        VttError::Whisper(m) => m@,
        VttError::Vision(m) => m@,
        VttError::Config(m) => m@,
        VttError::Io(m) => m@,
        VttError::Json(m) => m@,
        VttError::Server(m) => m@,
        VttError::Client(m) => m@,
        VttError::Download(m) => m@,
        VttError::Cancelled => Seq::<char>::empty(),
    }
}

impl VttError {
    /// The human-readable report: the kind's prefix followed by the detail.
    pub fn message(&self) -> (s: String)
        ensures
            s@ == error_prefix(*self) + error_detail(*self),
    {
        let mut s = String::new();
        match self {
            VttError::Ffmpeg(m) => {
                push_str_chars(&mut s, "ffmpeg error: ");
                push_str_chars(&mut s, m.as_str());
            },
            VttError::Whisper(m) => {
                push_str_chars(&mut s, "whisper error: ");
                push_str_chars(&mut s, m.as_str());
            },
            VttError::Vision(m) => {
                push_str_chars(&mut s, "vision model error: ");
                push_str_chars(&mut s, m.as_str());
            },
            VttError::Config(m) => {
                push_str_chars(&mut s, "config error: ");
                push_str_chars(&mut s, m.as_str());
            },
            VttError::Io(m) => {
                push_str_chars(&mut s, "io error: ");
                push_str_chars(&mut s, m.as_str());
            },
            VttError::Json(m) => {
                push_str_chars(&mut s, "json error: ");
                push_str_chars(&mut s, m.as_str());
            },
            VttError::Server(m) => {
                push_str_chars(&mut s, "server error: ");
                push_str_chars(&mut s, m.as_str());
            },
            VttError::Client(m) => {
                push_str_chars(&mut s, "client error: ");
                push_str_chars(&mut s, m.as_str());
            },
            VttError::Download(m) => {
                push_str_chars(&mut s, "download error: ");
                push_str_chars(&mut s, m.as_str());
            },
            VttError::Cancelled => {
                push_str_chars(&mut s, "job cancelled");
            },
        }
        s
    }
}

} // verus!
