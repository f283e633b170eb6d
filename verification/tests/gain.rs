//! Gain.

use rusty_esp_audio::elements::Gain;
use rusty_esp_audio::esp_core::error::Error;
use rusty_esp_audio::esp_core::pcm::{PcmBlock, PcmFormat, SampleFormat};
use rusty_esp_audio::esp_core::time::Micros;
use rusty_esp_audio::{get_i16, put_i16, Element};

/// The gain for a linear factor.
fn linear(factor: f32) -> Gain {
    Gain::from_q15(libm::roundf(factor * 32768.0) as i32)
}

/// The gain for a level in dB.
fn from_db(db: f32) -> Gain {
    linear(libm::powf(10.0, db / 20.0))
}

#[test]
fn unity_is_exact_and_half_rounds() {
    assert_eq!(linear(1.0), Gain::unity());
    assert_eq!(Gain::unity().apply(-12345), -12345);
    let half = from_db(-6.0206);
    assert_eq!(half.q15(), 16384);
    assert_eq!(half.apply(3), 2); // 1.5 rounds up
    assert_eq!(half.apply(-3), -1); // -1.5 rounds up (toward +inf)
    assert_eq!(half.apply(i16::MIN), -16384);
}

#[test]
fn saturates() {
    let loud = from_db(20.0);
    assert_eq!(loud.q15(), 327_680);
    assert_eq!(loud.apply(20_000), i16::MAX);
    assert_eq!(loud.apply(-20_000), i16::MIN);
    assert_eq!(loud.apply(100), 1000);
    let inv = linear(-1.0);
    assert_eq!(inv.apply(5), -5);
}

#[test]
fn processes_blocks() {
    let mut g = from_db(6.0206);
    let f = PcmFormat::pcm16_48k_stereo();
    let mut input = [0u8; 8];
    put_i16(&mut input[0..], 100);
    put_i16(&mut input[2..], -100);
    put_i16(&mut input[4..], 16384);
    put_i16(&mut input[6..], -16385);
    let blk = PcmBlock::new(f, Micros(0), &input).unwrap();
    let mut out = [0u8; 8];
    assert_eq!(g.process(blk, &mut out).unwrap(), 8);
    assert_eq!(get_i16(&out[0..]), 200);
    assert_eq!(get_i16(&out[2..]), -200);
    assert_eq!(get_i16(&out[4..]), i16::MAX);
    assert_eq!(get_i16(&out[6..]), i16::MIN);
}

#[test]
fn aligned_and_misaligned_buffers_agree() {
    let samples: Vec<u8> = (0..64u16).flat_map(|i| (i.wrapping_mul(2_113)).to_le_bytes()).collect();
    for q15 in [0, 1, -1, 16_384, 32_768, 40_000, 65_535, 65_536, -70_000] {
        let mut g = Gain::from_q15(q15);
        for shift in 0..3 {
            let mut input = vec![0u8; shift];
            input.extend_from_slice(&samples);
            let mut out = vec![0u8; samples.len() + 4];
            let block = PcmBlock::new(PcmFormat::pcm16_16k_mono(), Micros(0), &input[shift..]).unwrap();
            let n = g.process(block, &mut out[shift..]).unwrap();
            assert_eq!(n, samples.len());
            for (i, o) in samples.chunks_exact(2).zip(out[shift..].chunks_exact(2)) {
                assert_eq!(get_i16(o), g.apply(get_i16(i)));
            }
        }
    }
}

#[test]
fn gain_refuses_other_samples_and_small_buffers() {
    let mut g = Gain::unity();
    let wide = PcmFormat::new(16_000, 1, SampleFormat::I32).unwrap();
    let mut out = [0u8; 4];
    assert_eq!(g.output_format(wide).err(), Some(Error::Unsupported));
    let block = PcmBlock::new(wide, Micros(0), &[0u8; 4]).unwrap();
    assert_eq!(g.process(block, &mut out).err(), Some(Error::Unsupported));
    let block = PcmBlock::new(PcmFormat::pcm16_16k_mono(), Micros(0), &[0u8; 6]).unwrap();
    assert_eq!(
        g.process(block, &mut out).err(),
        Some(Error::BufferTooSmall { needed: 6 })
    );
    assert_eq!(Gain::from_q15(i32::MAX).q15(), 65_536 * 512);
    assert_eq!(Gain::from_q15(i32::MIN).q15(), -65_536 * 512);
}
