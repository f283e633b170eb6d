//! Formats, blocks, samples in bytes, the frame walk and the counting sink.

use rusty_esp_audio::elements::filter::{filter_i16, Tap, Tick};
use rusty_esp_audio::esp_core::error::Error;
use rusty_esp_audio::esp_core::pcm::{PcmBlock, PcmFormat, SampleFormat};
use rusty_esp_audio::esp_core::time::Micros;
use rusty_esp_audio::source::{fill_frames, CountingSink, Ramp, Tone, Voice};
use rusty_esp_audio::{get_i16, put_i16, sat16, AudioSink, AudioSource};

#[test]
fn rounding_and_saturation() {
    let round_sat16 = rusty_esp_core::pcm::round_sat_i16;
    assert_eq!(round_sat16(0.4), 0);
    assert_eq!(round_sat16(0.5), 1);
    assert_eq!(round_sat16(-0.5), -1);
    assert_eq!(round_sat16(40000.0), i16::MAX);
    assert_eq!(round_sat16(-40000.0), i16::MIN);
    assert_eq!(sat16(70000), i16::MAX);
    assert_eq!(sat16(-70000), i16::MIN);
}

#[test]
fn counting_sink_holds_its_format() {
    let mut sink = CountingSink::new();
    let f = PcmFormat::pcm16_16k_mono();
    let data = [0u8; 64];
    sink.write(PcmBlock::new(f, Micros(0), &data).unwrap())
        .unwrap();
    let other = PcmFormat::pcm16_48k_stereo();
    assert_eq!(
        sink.write(PcmBlock::new(other, Micros(0), &data).unwrap())
            .err(),
        Some(Error::InvalidFormat)
    );
    assert_eq!((sink.blocks, sink.frames, sink.rejected), (1, 32, 1));
    assert_eq!(sink.last_end, Micros(2_000));
    assert_eq!(sink.format(), f);
    assert_eq!(sink.bytes, 64);
}

#[test]
fn the_version_is_told() {
    assert_eq!(rusty_esp_audio::VERSION, "0.1.0");
}

#[test]
fn samples_survive_their_bytes() {
    for v in i16::MIN..=i16::MAX {
        let mut b = [0u8; 2];
        put_i16(&mut b, v);
        assert_eq!(b, v.to_le_bytes());
        assert_eq!(get_i16(&b), v);
    }
}

#[test]
fn formats_and_blocks_check_their_geometry() {
    assert_eq!(
        PcmFormat::new(0, 1, SampleFormat::I16).err(),
        Some(Error::InvalidGeometry)
    );
    assert_eq!(
        PcmFormat::new(1, 0, SampleFormat::I16).err(),
        Some(Error::InvalidGeometry)
    );
    let f = PcmFormat::new(48_000, 2, SampleFormat::I24In32).unwrap();
    assert_eq!(f.frame_bytes(), 8);
    assert_eq!(f.bytes_for_micros(20_000), 7680);
    assert_eq!(f.micros_for_frames(48), 1000);
    assert_eq!(
        PcmBlock::new(f, Micros(0), &[]).err(),
        Some(Error::InvalidGeometry)
    );
    assert_eq!(
        PcmBlock::new(f, Micros(0), &[0u8; 12]).err(),
        Some(Error::InvalidGeometry)
    );
    let data = [0u8; 16];
    let block = PcmBlock::new(f, Micros(100), &data).unwrap();
    assert_eq!((block.frames(), block.duration_micros()), (2, 41));
    assert_eq!(block.end(), Micros(141));
}

/// Running sums, one for each channel.
struct Sums([i16; 2]);

impl Tick for Sums {
    fn tick(&mut self, c: usize, x: i16) -> i16 {
        self.0[c] += x;
        self.0[c]
    }
}

#[test]
fn a_filter_sees_every_sample_with_its_channel() {
    let f = PcmFormat::pcm16_48k_stereo();
    let data = [1u8, 0, 2, 0, 3, 0, 4, 0];
    let block = PcmBlock::new(f, Micros(0), &data).unwrap();
    let mut out = [9u8; 10];
    let mut sums = Sums([0; 2]);
    let n = filter_i16(block, &mut out, &mut sums).unwrap();
    assert_eq!(n, 8);
    assert_eq!(out, [1, 0, 2, 0, 4, 0, 6, 0, 9, 9]);
    assert_eq!(sums.0, [4, 6]);
    let mut tap = Tap::new();
    assert_eq!(
        filter_i16(block, &mut out[..7], &mut tap).err(),
        Some(Error::BufferTooSmall { needed: 8 })
    );
    let three = PcmFormat::new(16_000, 3, SampleFormat::I16).unwrap();
    let wide = PcmBlock::new(three, Micros(0), &[0u8; 6]).unwrap();
    assert_eq!(
        filter_i16(wide, &mut out, &mut tap).err(),
        Some(Error::Unsupported)
    );
    assert!(tap.passed.is_empty());
    assert_eq!(filter_i16(block, &mut out, &mut tap), Ok(8));
    assert_eq!(tap.passed, [(0, 1), (1, 2), (0, 3), (1, 4)]);
    assert_eq!(out[..8], data);
}

#[test]
fn one_block_at_once_is_one_frame_at_a_time() {
    let f = PcmFormat::pcm16_48k_stereo();
    let data: Vec<u8> = (0..20i16).flat_map(|v| (37 * v - 300).to_le_bytes()).collect();
    let mut at_once = vec![0u8; 40];
    let mut sums = Sums([0; 2]);
    let block = PcmBlock::new(f, Micros(0), &data).unwrap();
    filter_i16(block, &mut at_once, &mut sums).unwrap();
    let mut tap = Tap::new();
    filter_i16(block, &mut [0u8; 40], &mut tap).unwrap();
    let mut by_frame = vec![0u8; 40];
    let mut again = Sums([0; 2]);
    let mut other = Tap::new();
    for (frame, out) in data.chunks_exact(4).zip(by_frame.chunks_exact_mut(4)) {
        let block = PcmBlock::new(f, Micros(0), frame).unwrap();
        filter_i16(block, &mut [0u8; 4], &mut other).unwrap();
        filter_i16(block, out, &mut again).unwrap();
    }
    assert_eq!(at_once, by_frame);
    assert_eq!(sums.0, again.0);
    assert_eq!(tap.passed, other.passed);
}

/// Counts down from zero.
struct Down(i16);

impl Voice for Down {
    fn next(&mut self) -> i16 {
        self.0 -= 1;
        self.0
    }
}

#[test]
fn frames_are_filled_alike_on_every_channel() {
    let f = PcmFormat::pcm16_48k_stereo();
    let mut out = [0u8; 12];
    let mut voice = Down(0);
    fill_frames(f, &mut out, &mut voice).unwrap();
    let samples: Vec<i16> = out.chunks_exact(2).map(get_i16).collect();
    assert_eq!(samples, [-1, -1, -2, -2, -3, -3]);
    assert_eq!(
        fill_frames(f, &mut out[..10], &mut voice),
        Err(Error::InvalidGeometry)
    );
    assert_eq!(
        fill_frames(f, &mut [], &mut voice),
        Err(Error::InvalidGeometry)
    );
    assert_eq!(voice.0, -3);
}

#[test]
fn a_tone_goes_on_where_it_stopped() {
    let f = PcmFormat::pcm16_16k_mono();
    let mut tone = Tone::new(f, Ramp::new(32_000, 500)).unwrap();
    assert_eq!(tone.format(), f);
    let mut buf = [0u8; 4];
    let b = tone.read(&mut buf).unwrap();
    assert_eq!((b.timestamp, b.end()), (Micros(0), Micros(125)));
    assert_eq!((get_i16(b.data), get_i16(&b.data[2..])), (32_000, 32_500));
    assert_eq!(
        tone.read(&mut [0u8; 3]).err(),
        Some(Error::InvalidGeometry)
    );
    let b = tone.read(&mut buf).unwrap();
    assert_eq!(b.timestamp, Micros(125));
    assert_eq!((get_i16(b.data), get_i16(&b.data[2..])), (-32_536, -32_036));
    tone.restart(Ramp::new(7, 0));
    let b = tone.read(&mut buf).unwrap();
    assert_eq!((b.timestamp, get_i16(b.data)), (Micros(0), 7));
    let floats = PcmFormat::new(16_000, 1, SampleFormat::F32).unwrap();
    assert_eq!(
        Tone::new(floats, Ramp::new(0, 1)).err(),
        Some(Error::Unsupported)
    );
}

/// A sine, its phase in cycles.
struct Sine {
    phase: f32,
    step: f32,
}

impl Voice for Sine {
    fn next(&mut self) -> i16 {
        let v = libm::roundf(10_000.0 * libm::sinf(core::f32::consts::TAU * self.phase)) as i16;
        self.phase += self.step;
        if self.phase >= 1.0 {
            self.phase -= 1.0;
        }
        v
    }
}

#[test]
fn sine_is_periodic_and_timestamped() {
    let f = PcmFormat::pcm16_16k_mono();
    let sine = Sine {
        phase: 0.0,
        step: 1000.0 / 16_000.0,
    };
    let mut src = Tone::new(f, sine).unwrap();
    let mut buf = [0u8; 640]; // 20 ms
    let b = src.read(&mut buf).unwrap();
    assert_eq!(b.timestamp, Micros(0));
    assert_eq!(b.end(), Micros(20_000));
    // 1 kHz at 16 kHz: 16 samples per cycle; sample 4 is the peak.
    assert_eq!(get_i16(&buf[8..]), 10_000);
    assert_eq!(get_i16(&buf[24..]), -10_000);
    assert_eq!(get_i16(&buf[0..]), 0);
    let b2 = src.read(&mut buf).unwrap();
    assert_eq!(b2.timestamp, Micros(20_000));
    // 20 ms is a whole number of cycles, so the block repeats exactly.
    assert_eq!(get_i16(&buf[8..]), 10_000);
}
