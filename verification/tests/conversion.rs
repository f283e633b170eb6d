//! Sample-format conversion.

use rusty_esp_audio::codec::pcm::{convert, output_bytes};
use rusty_esp_audio::elements::Convert;
use rusty_esp_audio::esp_core::error::Error;
use rusty_esp_audio::esp_core::pcm::{PcmBlock, PcmFormat, SampleFormat};
use rusty_esp_audio::esp_core::time::Micros;
use rusty_esp_audio::{put_i16, Element, Pipeline};

#[test]
fn converts_inside_a_pipeline() {
    let f = PcmFormat::pcm16_16k_mono();
    let mut c = Convert::to(SampleFormat::I32);
    let mut p = Pipeline::new([&mut c as &mut dyn Element]);
    let mut input = [0u8; 4];
    put_i16(&mut input[0..], 1);
    put_i16(&mut input[2..], -1);
    let need = p.scratch_bytes(f, 4).unwrap();
    assert_eq!(need, 16);
    let mut scratch = [0u8; 16];
    let out = p
        .process(
            PcmBlock::new(f, Micros(0), &input).unwrap(),
            &mut scratch,
        )
        .unwrap()
        .unwrap();
    assert_eq!(out.format.sample, SampleFormat::I32);
    assert_eq!(out.data, [0, 0, 1, 0, 0, 0, 0xFF, 0xFF]);
}

fn block(sample: SampleFormat, data: &[u8]) -> PcmBlock<'_> {
    PcmBlock::new(PcmFormat::new(16_000, 1, sample).unwrap(), Micros(0), data).unwrap()
}

#[test]
fn integer_widths() {
    let mut out = [0u8; 8];
    let i16s = [0x01, 0x00, 0x00, 0x80]; // 1, -32768
    assert_eq!(
        convert(block(SampleFormat::I16, &i16s), SampleFormat::I32, &mut out).unwrap(),
        8
    );
    assert_eq!(out, [0, 0, 1, 0, 0, 0, 0, 0x80]);
    let mut back = [0u8; 4];
    convert(block(SampleFormat::I32, &out), SampleFormat::I16, &mut back).unwrap();
    assert_eq!(back, i16s);
    // Truncation: 0x0000_FFFF >> 16 = 0; 0xFFFF_0001 (negative) >> 16 = -1.
    let odd = [0xFF, 0xFF, 0x00, 0x00, 0x01, 0x00, 0xFF, 0xFF];
    convert(block(SampleFormat::I32, &odd), SampleFormat::I16, &mut back).unwrap();
    assert_eq!(back, [0, 0, 0xFF, 0xFF]);
    // I32 to I24In32 clears the low byte; I24In32 to I32 is a copy.
    let mut o24 = [0u8; 8];
    convert(block(SampleFormat::I32, &odd), SampleFormat::I24In32, &mut o24).unwrap();
    assert_eq!(o24, [0, 0xFF, 0, 0, 0, 0, 0xFF, 0xFF]);
    let mut o32 = [0u8; 8];
    convert(block(SampleFormat::I24In32, &o24), SampleFormat::I32, &mut o32).unwrap();
    assert_eq!(o32, o24);
}

#[test]
fn float_rounds_ties_even_and_clamps() {
    let f = [1.0f32, -1.0, 0.5, 1.5 / 32768.0, 2.5 / 32768.0, -0.00001];
    let bytes: Vec<u8> = f.iter().flat_map(|v| v.to_le_bytes()).collect();
    let mut out = [0u8; 12];
    convert(block(SampleFormat::F32, &bytes), SampleFormat::I16, &mut out).unwrap();
    let v: Vec<i16> = out
        .chunks_exact(2)
        .map(|b| i16::from_le_bytes([b[0], b[1]]))
        .collect();
    assert_eq!(v, [32767, -32768, 16384, 2, 2, 0]);
    let mut o32 = [0u8; 24];
    convert(block(SampleFormat::F32, &bytes), SampleFormat::I32, &mut o32).unwrap();
    assert_eq!(o32[8..12], (1i32 << 30).to_le_bytes());
    assert_eq!(o32[0..4], i32::MAX.to_le_bytes());
    assert_eq!(o32[4..8], i32::MIN.to_le_bytes());
}

#[test]
fn every_16_bit_sample_survives_floating_point_and_wider_integers() {
    let data: Vec<u8> = (i16::MIN..=i16::MAX).flat_map(|v| v.to_le_bytes()).collect();
    for wide in [SampleFormat::F32, SampleFormat::I32, SampleFormat::I24In32] {
        let mut up = vec![0u8; 2 * data.len()];
        let n = convert(block(SampleFormat::I16, &data), wide, &mut up).unwrap();
        assert_eq!(n, up.len());
        let mut back = vec![0u8; data.len()];
        convert(block(wide, &up), SampleFormat::I16, &mut back).unwrap();
        assert_eq!(back, data);
    }
}

#[test]
fn same_format_copies_and_small_out_is_reported() {
    let data = [1u8, 2, 3, 4];
    let mut out = [9u8; 6];
    assert_eq!(
        convert(block(SampleFormat::I16, &data), SampleFormat::I16, &mut out).unwrap(),
        4
    );
    assert_eq!(out, [1, 2, 3, 4, 9, 9]);
    let mut tiny = [0u8; 2];
    assert_eq!(
        convert(block(SampleFormat::I16, &data), SampleFormat::I32, &mut tiny).err(),
        Some(Error::BufferTooSmall { needed: 8 })
    );
    assert_eq!(output_bytes(SampleFormat::I16, SampleFormat::F32, 6), 12);
    assert_eq!(output_bytes(SampleFormat::I32, SampleFormat::I16, 6), 2);
}
