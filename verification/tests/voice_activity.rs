//! The voice activity detector.

use rusty_esp_audio::elements::{EnergyVad, VadConfig};
use rusty_esp_audio::esp_core::error::Error;
use rusty_esp_audio::esp_core::pcm::{PcmBlock, PcmFormat, SampleFormat};
use rusty_esp_audio::esp_core::time::Micros;
use rusty_esp_audio::level::{is_measurable, Level};
use rusty_esp_audio::{peak_abs_i16, put_i16, rms_dbfs_i16, Element};

/// A sine tone, block by block.
struct Tone {
    freq_hz: f32,
    amplitude: i16,
    phase: f32,
}

impl Tone {
    fn new(freq_hz: f32, amplitude: i16) -> Self {
        Tone { freq_hz, amplitude, phase: 0.0 }
    }

    fn read(&mut self, out: &mut [u8]) {
        let step = self.freq_hz / 16_000.0;
        for sample in out.chunks_exact_mut(2) {
            let angle = core::f32::consts::TAU * self.phase;
            let v = libm::roundf(f32::from(self.amplitude) * libm::sinf(angle)) as i16;
            put_i16(sample, v);
            self.phase += step;
            if self.phase >= 1.0 {
                self.phase -= 1.0;
            }
        }
    }
}

#[test]
fn tone_then_silence_with_hangover() {
    let f = PcmFormat::pcm16_16k_mono();
    let mut vad = EnergyVad::new(VadConfig {
        hangover_blocks: 3,
        gate: true,
        ..VadConfig::voice()
    });
    let mut src = Tone::new(440.0, 3000); // about -24 dBFS
    let mut buf = [0u8; 640];
    let mut out = [0u8; 640];
    let silence = [0u8; 640];
    for _ in 0..5 {
        src.read(&mut buf);
        let blk = PcmBlock::new(f, Micros(0), &buf).unwrap();
        vad.process(blk, &mut out).unwrap();
        assert!(vad.is_speech());
        assert_eq!(out, buf);
    }
    let mut decisions = [false; 6];
    for d in decisions.iter_mut() {
        let blk = PcmBlock::new(f, Micros(0), &silence).unwrap();
        vad.process(blk, &mut out).unwrap();
        *d = vad.is_speech();
    }
    assert_eq!(decisions, [true, true, true, false, false, false]);
    assert_eq!(out, silence);
    assert_eq!(vad.blocks, 11);
    assert_eq!(vad.speech_blocks, 8);
}

#[test]
fn quiet_noise_stays_below_threshold() {
    let f = PcmFormat::pcm16_16k_mono();
    let mut vad = EnergyVad::default();
    let mut src = Tone::new(440.0, 100); // about -53 dBFS
    let mut buf = [0u8; 640];
    let mut out = [0u8; 640];
    src.read(&mut buf);
    let blk = PcmBlock::new(f, Micros(0), &buf).unwrap();
    vad.process(blk, &mut out).unwrap();
    assert!(!vad.is_speech());
    let level = f32::from_bits(vad.last_level_dbfs.bits);
    assert!(level < -50.0 && level > -56.0);
    // Ungated: the block passes through untouched.
    assert_eq!(out, buf);
}

fn dbfs(level: f32) -> Level {
    Level { bits: level.to_bits() }
}

#[test]
fn the_hangover_lasts_as_many_blocks_as_it_says() {
    for hangover_blocks in [0u32, 1, 5] {
        let mut vad = EnergyVad::new(VadConfig { hangover_blocks, ..VadConfig::voice() });
        assert!(!vad.judge(dbfs(-60.0)));
        assert!(vad.judge(dbfs(-45.0)));
        for k in 0..8 {
            assert_eq!(vad.judge(dbfs(-45.1)), k < hangover_blocks);
        }
        vad.judge(dbfs(0.0));
        vad.reset();
        assert!(!vad.is_speech());
        assert!(!vad.judge(dbfs(-80.0)));
        assert_eq!(vad.config().hangover_blocks, hangover_blocks);
    }
}

#[test]
fn levels_compare_as_numbers() {
    let numbers = [f32::NEG_INFINITY, -120.0, -45.5, -0.0, 0.0, 1e-45, 3.0, f32::INFINITY, f32::NAN];
    for a in numbers {
        for b in numbers {
            assert_eq!(dbfs(a).at_least(dbfs(b)), a >= b, "{a} {b}");
        }
    }
    assert_eq!(Level::silence(), dbfs(-120.0));
    assert_eq!(VadConfig::default().threshold_dbfs, dbfs(-45.0));
}

#[test]
fn levels_of_blocks() {
    assert_eq!(rms_dbfs_i16(&[]), dbfs(-120.0));
    assert_eq!(rms_dbfs_i16(&[0u8; 9]), dbfs(-120.0));
    let half = [0x00u8, 0x40, 0x00, 0xC0];
    let level = f32::from_bits(rms_dbfs_i16(&half).bits);
    assert!((level + 6.0206).abs() < 0.001, "{level}");
    assert!(is_measurable(&half));
    assert_eq!(peak_abs_i16(&[]), 0);
    assert_eq!(peak_abs_i16(&[3, -7, 5]), 7);
    assert_eq!(peak_abs_i16(&[i16::MAX, i16::MIN, 0, 1, 2, 3, 4, 5, 6]), 32_768);
}

#[test]
fn the_detector_wants_room_and_few_channels() {
    let f = PcmFormat::pcm16_16k_mono();
    let mut vad = EnergyVad::default();
    let data = [1u8, 0, 2, 0];
    let mut out = [0u8; 3];
    let block = PcmBlock::new(f, Micros(0), &data).unwrap();
    assert_eq!(
        vad.process(block, &mut out).err(),
        Some(Error::BufferTooSmall { needed: 4 })
    );
    let three = PcmFormat::new(16_000, 3, SampleFormat::I16).unwrap();
    assert_eq!(vad.output_format(three).err(), Some(Error::Unsupported));
    // A refused block is not counted.
    assert_eq!(vad.blocks, 0);
    let mut room = [9u8; 6];
    assert_eq!(vad.process_at(block, dbfs(-50.0), &mut room).unwrap(), 4);
    assert_eq!(room, [1, 0, 2, 0, 9, 9]);
    assert_eq!(vad.blocks, 1);
}

#[test]
fn speech_is_a_loud_block_within_the_hangover() {
    let loud_at = [3usize, 4, 11, 19];
    for hangover_blocks in 0..6u32 {
        let mut vad = EnergyVad::new(VadConfig { hangover_blocks, ..VadConfig::voice() });
        for n in 0..30usize {
            let level = if loud_at.contains(&n) { -10.0 } else { -90.0 };
            let lately = loud_at.iter().any(|&i| i <= n && n - i <= hangover_blocks as usize);
            assert_eq!(vad.judge(dbfs(level)), lately);
        }
    }
}

#[test]
fn the_detector_counts_from_the_start() {
    let cfg = VadConfig {
        threshold_dbfs: dbfs(-40.0),
        hangover_blocks: 2,
        gate: false,
    };
    let mut vad = EnergyVad::new(cfg);
    let levels = [-60.0, -10.0, -60.0, -60.0, -60.0, -39.0, -40.0, -41.0];
    let expected = [false, true, true, true, false, true, true, true];
    for (n, (level, speech)) in levels.iter().zip(expected).enumerate() {
        assert_eq!(vad.judge(dbfs(*level)), speech);
        assert_eq!(vad.is_speech(), speech);
        assert_eq!(vad.blocks, n as u64 + 1);
    }
    assert_eq!(vad.speech_blocks, 6);
}
