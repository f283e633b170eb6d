//! The vocabulary every module shares: formats, blocks, time and errors.

pub mod error;
pub mod pcm;
pub mod time;
