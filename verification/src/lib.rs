//! Speaker-attributed transcription: audio normalisation, speech regions,
//! speaker clustering, chunked transcription and the pipeline that runs them.

pub mod audio;
pub mod chunk;
pub mod cli;
pub mod cluster;
pub mod diarize;
pub mod journal;
pub mod logging;
pub mod pipeline;
pub mod segment;
pub mod text;
pub mod tray;
pub mod voices;
pub mod words;
pub mod ytdlp;
