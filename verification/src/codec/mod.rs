//! Framing and conversion: IMA ADPCM blocks, WAV headers, FLAC streams and
//! sample formats.

pub mod adpcm_ima;
pub mod flac;
pub mod pcm;
pub mod wav;
pub mod wav_laws;
