//! Verified core of a video-to-text pipeline: timestamps, chunk planning,
//! prompt and context assembly, configuration rules and profile merging, job
//! bookkeeping, and the facts a visual description states and how they are
//! reviewed.

pub mod text;
pub mod digits;
pub mod types;
pub mod error;
pub mod paths;
pub mod config;
pub mod pipeline;
pub mod ffmpeg;
pub mod vision;
pub mod whisper;
pub mod ytdlp;
pub mod checkpoint;
pub mod jobs;
pub mod cache;
pub mod client;
pub mod review;
pub mod fidelity;
pub mod prominence;
pub mod config_tree;
