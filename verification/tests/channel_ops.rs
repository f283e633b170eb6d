//! Channel operations.

use rusty_esp_audio::elements::{mix_i16, MonoToStereo, StereoToMono};
use rusty_esp_audio::esp_core::error::Error;
use rusty_esp_audio::esp_core::pcm::{PcmBlock, PcmFormat};
use rusty_esp_audio::esp_core::time::Micros;
use rusty_esp_audio::{get_i16, put_i16, Element};

#[test]
fn up_and_down_round_trip() {
    let mono = PcmFormat::pcm16_16k_mono();
    let input = [1u8, 0, 0xFF, 0x7F, 0x00, 0x80];
    let blk = PcmBlock::new(mono, Micros(0), &input).unwrap();
    let mut st = [0u8; 12];
    assert_eq!(MonoToStereo.process(blk, &mut st).unwrap(), 12);
    assert_eq!(st, [1, 0, 1, 0, 0xFF, 0x7F, 0xFF, 0x7F, 0, 0x80, 0, 0x80]);
    let stereo = PcmFormat::new(16_000, 2, mono.sample).unwrap();
    let blk2 = PcmBlock::new(stereo, Micros(0), &st).unwrap();
    let mut back = [0u8; 6];
    assert_eq!(StereoToMono.process(blk2, &mut back).unwrap(), 6);
    assert_eq!(back, input);
}

#[test]
fn downmix_floors_and_mix_saturates() {
    let stereo = PcmFormat::pcm16_48k_stereo();
    let mut input = [0u8; 8];
    put_i16(&mut input[0..], 3);
    put_i16(&mut input[2..], -2); // (3 + -2) >> 1 = 0
    put_i16(&mut input[4..], -3);
    put_i16(&mut input[6..], 2); // (-3 + 2) >> 1 = -1 (floor)
    let blk = PcmBlock::new(stereo, Micros(0), &input).unwrap();
    let mut out = [0u8; 4];
    StereoToMono.process(blk, &mut out).unwrap();
    assert_eq!(get_i16(&out[0..]), 0);
    assert_eq!(get_i16(&out[2..]), -1);

    let mut a = [0u8; 4];
    let mut b = [0u8; 4];
    put_i16(&mut a[0..], 30_000);
    put_i16(&mut b[0..], 10_000);
    put_i16(&mut a[2..], -30_000);
    put_i16(&mut b[2..], -10_000);
    let mut m = [0u8; 4];
    mix_i16(&a, &b, &mut m).unwrap();
    assert_eq!(get_i16(&m[0..]), i16::MAX);
    assert_eq!(get_i16(&m[2..]), i16::MIN);
    assert_eq!(
        mix_i16(&a, &b[..2], &mut m).err(),
        Some(Error::InvalidGeometry)
    );
}

#[test]
fn wrong_channel_counts_are_refused() {
    assert_eq!(
        MonoToStereo
            .output_format(PcmFormat::pcm16_48k_stereo())
            .err(),
        Some(Error::Unsupported)
    );
    assert_eq!(
        StereoToMono.output_format(PcmFormat::pcm16_16k_mono()).err(),
        Some(Error::Unsupported)
    );
}

#[test]
fn channel_ops_want_room_and_16_bits() {
    let f = PcmFormat::pcm16_16k_mono();
    let data = [1u8, 0, 2, 0];
    let mut out = [0u8; 7];
    assert_eq!(
        MonoToStereo
            .process(PcmBlock::new(f, Micros(0), &data).unwrap(), &mut out)
            .err(),
        Some(Error::BufferTooSmall { needed: 8 })
    );
    assert_eq!(out, [0; 7]);
    assert_eq!(MonoToStereo.max_output_bytes(f, 4), 8);
    assert_eq!(StereoToMono.max_output_bytes(f, 8), 4);
    let mut m = [0u8; 2];
    assert_eq!(
        mix_i16(&data, &data, &mut m).err(),
        Some(Error::BufferTooSmall { needed: 4 })
    );
    assert_eq!(
        mix_i16(&data[..3], &data[..3], &mut out).err(),
        Some(Error::InvalidGeometry)
    );
}

#[test]
fn mixing_commutes_and_silence_changes_nothing() {
    let a: Vec<u8> = (0..64u8).map(|i| i.wrapping_mul(37)).collect();
    let b: Vec<u8> = (0..64u8).map(|i| i.wrapping_mul(91)).collect();
    let (mut ab, mut ba) = (vec![0u8; 64], vec![0u8; 64]);
    mix_i16(&a, &b, &mut ab).unwrap();
    mix_i16(&b, &a, &mut ba).unwrap();
    assert_eq!(ab, ba);
    mix_i16(&a, &[0u8; 64], &mut ab).unwrap();
    assert_eq!(ab, a);
}
