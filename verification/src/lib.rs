//! Verified core of a video-clipping backend: subtitle cue construction,
//! cue condensing, caption position remapping, styled-subtitle post-processing,
//! and ffmpeg filter-graph compilation.

pub mod condense;
pub mod cue;
pub mod errors;
pub mod filter;
pub mod media;
pub mod numbers;
pub mod paths;
pub mod remap;
pub mod style;
pub mod text;
pub mod time;
