//! The names a sketch or firmware wants in scope.

pub use crate::codec::pcm::convert as convert_pcm;
pub use crate::elements::{
    Convert, EnergyVad, Gain, LinearResampler, MonoToStereo, StereoToMono, VadConfig,
};
pub use crate::esp_core::error::{Error, Result};
pub use crate::esp_core::pcm::{PcmBlock, PcmFormat, SampleFormat};
pub use crate::esp_core::time::Micros;
pub use crate::pipeline::{Element, Pipeline};
pub use crate::ring::RingBuffer;
pub use crate::source::{AudioSink, AudioSource, CountingSink};
