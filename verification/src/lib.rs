//! Verified analysis of H.264 elementary streams and MP4 containers.

pub mod text;
pub mod model;
pub mod h264;
pub mod mp4;
pub mod commands;
pub mod ffmpeg;
pub mod update;
pub mod cache;
