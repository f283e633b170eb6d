//! The linear resampler.

use rusty_esp_audio::elements::LinearResampler;
use rusty_esp_audio::esp_core::error::Error;
use rusty_esp_audio::esp_core::pcm::{PcmBlock, PcmFormat, SampleFormat};
use rusty_esp_audio::esp_core::time::Micros;
use rusty_esp_audio::{get_i16, put_i16, Element};

fn run(rs: &mut LinearResampler, fmt: PcmFormat, samples: &[i16]) -> Vec<i16> {
    let mut bytes = vec![0u8; samples.len() * 2];
    for (b, s) in bytes.chunks_exact_mut(2).zip(samples) {
        put_i16(b, *s);
    }
    let blk = PcmBlock::new(fmt, Micros(0), &bytes).unwrap();
    let mut out = vec![0u8; rs.max_output_bytes(fmt, bytes.len())];
    let n = rs.process(blk, &mut out).unwrap();
    out[..n].chunks_exact(2).map(get_i16).collect()
}

#[test]
fn upsampling_a_ramp_interpolates_exactly() {
    let f = PcmFormat::pcm16_16k_mono();
    let mut rs = LinearResampler::new(16_000, 48_000).unwrap();
    // 0, 300, 600, 900 → every third output lands on an input; the two
    // outputs after 900 need the next block.
    let out = run(&mut rs, f, &[0, 300, 600, 900]);
    assert_eq!(out, [0, 100, 200, 300, 400, 500, 600, 700, 800]);
    // The next block continues from 900 without a seam.
    let out2 = run(&mut rs, f, &[1200, 1500]);
    assert_eq!(out2, [900, 1000, 1100, 1200, 1300, 1400]);
}

#[test]
fn awkward_ratio_has_no_long_run_drift() {
    // 44.1 k → 16 k reduces to 441 : 160.
    let f = PcmFormat::new(44_100, 1, SampleFormat::I16).unwrap();
    let mut rs = LinearResampler::new(44_100, 16_000).unwrap();
    let mut total = 0usize;
    let block: Vec<i16> = (0..441).map(|i| (i % 7) as i16).collect();
    for _ in 0..100 {
        total += run(&mut rs, f, &block).len();
    }
    // 44 100 frames in → 16 000 out, minus the tail waiting for more input.
    assert!((15_999..=16_000).contains(&total), "{total}");
}

#[test]
fn downsampling_a_constant_is_constant_and_counts_frames() {
    let f = PcmFormat::pcm16_48k_stereo();
    let mut rs = LinearResampler::new(48_000, 16_000).unwrap();
    let mut total = 0usize;
    for _ in 0..10 {
        let block: Vec<i16> = (0..96)
            .map(|i| if i % 2 == 0 { 1000 } else { -1000 })
            .collect();
        let out = run(&mut rs, f, &block);
        assert!(out.chunks_exact(2).all(|p| p == [1000, -1000]), "{out:?}");
        total += out.len() / 2;
    }
    assert_eq!(total, 160); // 480 stereo frames in → 160 out, exactly
    assert_eq!(rs.output_format(f).unwrap().sample_rate_hz, 16_000);
}

#[test]
fn same_rate_is_a_copy_and_wrong_rate_is_refused() {
    let f = PcmFormat::pcm16_16k_mono();
    let mut rs = LinearResampler::new(16_000, 16_000).unwrap();
    assert_eq!(run(&mut rs, f, &[1, -1, 7]), [1, -1, 7]);
    let bad = LinearResampler::new(8_000, 16_000).unwrap();
    assert_eq!(bad.output_format(f).err(), Some(Error::Unsupported));
    assert_eq!(LinearResampler::new(0, 1).err(), Some(Error::InvalidFormat));
}

#[test]
fn a_stream_may_be_cut_anywhere() {
    let f = PcmFormat::new(44_100, 1, SampleFormat::I16).unwrap();
    let samples: Vec<i16> = (0..300).map(|i| ((i * 7_919) % 60_000 - 30_000) as i16).collect();
    let mut whole = LinearResampler::new(44_100, 48_000).unwrap();
    let all = run(&mut whole, f, &samples);
    for cut in [1, 2, 7, 150, 299] {
        let mut parts = LinearResampler::new(44_100, 48_000).unwrap();
        let mut got = run(&mut parts, f, &samples[..cut]);
        got.extend(run(&mut parts, f, &samples[cut..]));
        assert_eq!(got, all);
    }
}

#[test]
fn a_reset_starts_the_stream_again() {
    let f = PcmFormat::pcm16_16k_mono();
    let mut rs = LinearResampler::new(16_000, 44_100).unwrap();
    let first = run(&mut rs, f, &[5, -7, 900]);
    rs.reset();
    assert_eq!(run(&mut rs, f, &[5, -7, 900]), first);
}

#[test]
fn a_small_buffer_is_refused_and_nothing_moves() {
    let f = PcmFormat::pcm16_16k_mono();
    let mut rs = LinearResampler::new(16_000, 48_000).unwrap();
    let data = [1u8, 0, 2, 0];
    let block = PcmBlock::new(f, Micros(0), &data).unwrap();
    let mut out = [0u8; 13];
    assert_eq!(
        rs.process(block, &mut out).err(),
        Some(Error::BufferTooSmall { needed: 14 })
    );
    assert_eq!(rs.max_output_frames(2), 7);
    assert_eq!(rs.max_output_bytes(f, 4), 14);
    assert_eq!(run(&mut rs, f, &[0, 300]), [0, 100, 200]);
}
