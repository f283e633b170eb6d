//! Audio for small devices: fixed-block elements, codecs, framing and codec
//! chips over caller-owned memory.
//!
//! Blocks and buffers are borrowed; no element allocates. What every function
//! does is stated in its contract, over byte and sample sequences, and proved.
//!
//! | module | contents |
//! |---|---|
//! | [`esp_core`] | errors, time, PCM formats and blocks |
//! | [`bytes`] | little-endian samples in byte buffers |
//! | [`level`] | peaks, and RMS levels in dBFS |
//! | [`source`] | `AudioSource` / `AudioSink`, a tone, a counting sink |
//! | [`ring`] | `RingBuffer`: a whole-frame ring over a caller slice |
//! | [`pipeline`] | `Element` and `Pipeline<N>`: the fixed-block graph |
//! | [`elements`] | gain, channel operations, linear resampler, format conversion, energy VAD, the walk of a filter |
//! | [`codec`] | `pcm` conversions, `adpcm_ima`, `wav` headers, `flac` streams |
//! | [`chip`] | codec chips as register data over a bus |
//! | [`net`] | raw PCM in datagrams |
//! | [`wavfile`] | what goes into a WAV file and comes out of one |
//! | [`pdm`] | blocks from a PDM microphone |
//! | [`bench`] | counting and dumping for a microphone bench |
//! | [`pipeline_laws`] | what a chain does, stage by stage |
//! | [`calls`] | what every call comes to, in the terms of what it was handed |

use vstd::prelude::*;

pub mod bench;
pub mod bytes;
pub mod calls;
pub mod chip;
pub mod codec;
pub mod elements;
pub mod esp_core;
pub mod level;
pub mod net;
pub mod pdm;
pub mod pipeline;
pub mod pipeline_laws;
pub mod prelude;
pub mod ring;
pub mod source;
pub mod wavfile;

pub use bytes::{get_i16, put_i16, sat16};
pub use level::{peak_abs_i16, rms_dbfs_i16};
pub use pipeline::{Element, Pipeline};
pub use ring::RingBuffer;
pub use source::{AudioSink, AudioSource};

verus! {

/// Crate version, for capability manifests and logs.
pub const VERSION: &'static str = "0.1.0";

} // verus!
