//! The pipeline.

use rusty_esp_audio::elements::{Convert, Gain, MonoToStereo};
use rusty_esp_audio::esp_core::error::{Error, Result};
use rusty_esp_audio::esp_core::pcm::{PcmBlock, PcmFormat, SampleFormat};
use rusty_esp_audio::esp_core::time::Micros;
use rusty_esp_audio::{get_i16, put_i16, Element, Pipeline};

/// Doubles every sample; the simplest stateful-looking stage.
struct Double;
impl Element for Double {
    fn output_format(&self, input: PcmFormat) -> Result<PcmFormat> {
        Ok(input)
    }
    fn max_output_bytes(&self, _input: PcmFormat, input_bytes: usize) -> usize {
        input_bytes
    }
    fn reset(&mut self) {}
    fn process(&mut self, input: PcmBlock<'_>, out: &mut [u8]) -> Result<usize> {
        for (i, o) in input.data.chunks_exact(2).zip(out.chunks_exact_mut(2)) {
            put_i16(o, get_i16(i).saturating_mul(2));
        }
        Ok(input.data.len())
    }
}

/// Emits nothing on odd blocks.
struct Gate(u64);
impl Element for Gate {
    fn output_format(&self, input: PcmFormat) -> Result<PcmFormat> {
        Ok(input)
    }
    fn max_output_bytes(&self, _input: PcmFormat, input_bytes: usize) -> usize {
        input_bytes
    }
    fn reset(&mut self) {}
    fn process(&mut self, input: PcmBlock<'_>, out: &mut [u8]) -> Result<usize> {
        self.0 += 1;
        if self.0 % 2 == 0 {
            return Ok(0);
        }
        out[..input.data.len()].copy_from_slice(input.data);
        Ok(input.data.len())
    }
}

#[test]
fn three_stages_ping_pong_and_change_format() {
    let f = PcmFormat::pcm16_16k_mono();
    let mut d1 = Double;
    let mut d2 = Double;
    let mut up = MonoToStereo;
    let mut p = Pipeline::new([&mut d1 as &mut dyn Element, &mut d2, &mut up]);
    let out_fmt = p.output_format(f).unwrap();
    assert_eq!(out_fmt.channels, 2);
    let mut input = [0u8; 8];
    for (i, s) in input.chunks_exact_mut(2).enumerate() {
        put_i16(s, i as i16 + 1);
    }
    let need = p.scratch_bytes(f, input.len()).unwrap();
    assert_eq!(need, 32);
    let mut scratch = [0u8; 32];
    let blk = PcmBlock::new(f, Micros(5), &input).unwrap();
    let out = p.process(blk, &mut scratch).unwrap().unwrap();
    assert_eq!(out.format, out_fmt);
    assert_eq!(out.timestamp, Micros(5));
    let v: [i16; 8] = core::array::from_fn(|i| get_i16(&out.data[i * 2..]));
    assert_eq!(v, [4, 4, 8, 8, 12, 12, 16, 16]);
    assert_eq!(p.blocks, 1);
}

#[test]
fn empty_output_and_small_scratch_are_reported() {
    let f = PcmFormat::pcm16_16k_mono();
    let mut g = Gate(0);
    let mut unity = Gain::unity();
    let mut p = Pipeline::new([&mut g as &mut dyn Element, &mut unity]);
    let input = [1u8, 0, 2, 0];
    let mut scratch = [0u8; 8];
    let blk = PcmBlock::new(f, Micros(0), &input).unwrap();
    assert!(p.process(blk, &mut scratch).unwrap().is_some());
    assert!(p.process(blk, &mut scratch).unwrap().is_none());
    assert_eq!(p.empty_blocks, 1);
    let mut tiny = [0u8; 6];
    assert_eq!(
        p.process(blk, &mut tiny).err(),
        Some(Error::BufferTooSmall { needed: 8 })
    );
}

#[test]
fn zero_stages_copies() {
    let f = PcmFormat::pcm16_16k_mono();
    let mut p: Pipeline<'_, 0> = Pipeline::new([]);
    let input = [1u8, 0, 2, 0];
    let mut scratch = [0u8; 8];
    let blk = PcmBlock::new(f, Micros(0), &input).unwrap();
    let out = p.process(blk, &mut scratch).unwrap().unwrap();
    assert_eq!(out.data, &input);
}

/// Refuses stereo, and answers with a length that is no whole frame.
struct Odd;
impl Element for Odd {
    fn output_format(&self, input: PcmFormat) -> Result<PcmFormat> {
        if input.channels != 1 {
            return Err(Error::Unsupported);
        }
        Ok(input)
    }
    fn max_output_bytes(&self, _input: PcmFormat, input_bytes: usize) -> usize {
        input_bytes
    }
    fn reset(&mut self) {}
    fn process(&mut self, _input: PcmBlock<'_>, _out: &mut [u8]) -> Result<usize> {
        Ok(3)
    }
}

#[test]
fn refusals_and_unsound_answers_stop_the_chain() {
    let mono = PcmFormat::pcm16_16k_mono();
    let stereo = PcmFormat::pcm16_48k_stereo();
    let mut odd = Odd;
    let mut unity = Gain::unity();
    let mut p = Pipeline::new([&mut unity as &mut dyn Element, &mut odd]);
    assert_eq!(p.output_format(stereo).err(), Some(Error::Unsupported));
    assert_eq!(p.scratch_bytes(stereo, 8).err(), Some(Error::Unsupported));
    let data = [1u8, 0, 2, 0];
    let mut scratch = [0u8; 8];
    let block = PcmBlock::new(mono, Micros(0), &data).unwrap();
    assert_eq!(
        p.process(block, &mut scratch).err(),
        Some(Error::InvalidGeometry)
    );
    p.reset();
    assert_eq!((p.blocks, p.empty_blocks), (1, 0));
}

#[test]
fn the_scratch_asked_for_is_enough() {
    let mono = PcmFormat::pcm16_16k_mono();
    for n in [2usize, 4, 10, 64] {
        let mut up = MonoToStereo;
        let mut g = Gain::from_q15(16_384);
        let mut wide = Convert::to(SampleFormat::I32);
        let mut p = Pipeline::new([&mut up as &mut dyn Element, &mut g, &mut wide]);
        let need = p.scratch_bytes(mono, n).unwrap();
        assert_eq!(need, 8 * n);
        let data = vec![7u8; n];
        let mut scratch = vec![0u8; need];
        let block = PcmBlock::new(mono, Micros(3), &data).unwrap();
        let out = p.process(block, &mut scratch).unwrap().unwrap();
        assert_eq!((out.data.len(), out.timestamp), (4 * n, Micros(3)));
        let mut short = vec![0u8; need - 2];
        assert_eq!(
            p.process(block, &mut short).err(),
            Some(Error::BufferTooSmall { needed: need })
        );
    }
}
