//! IMA ADPCM blocks.

use rusty_esp_audio::codec::adpcm_ima::{
    block_align, ffmpeg_block_align, frames_per_block, ChannelState, Decoder, Encoder, PredictionRule,
    STEP_TABLE,
};
use rusty_esp_audio::esp_core::error::Error;

fn pcm_of(samples: &[i16]) -> Vec<u8> {
    samples.iter().flat_map(|s| s.to_le_bytes()).collect()
}

fn i16s(bytes: &[u8]) -> Vec<i16> {
    bytes
        .chunks_exact(2)
        .map(|b| i16::from_le_bytes([b[0], b[1]]))
        .collect()
}

#[test]
fn sizes_match_the_wav_convention() {
    assert_eq!(block_align(1, 2041), 1024);
    assert_eq!(block_align(2, 2041), 2048);
    assert_eq!(frames_per_block(1, 1024), 2041);
    assert_eq!(frames_per_block(2, 2048), 2041);
    assert_eq!(frames_per_block(2, ffmpeg_block_align()), 1017);
    assert_eq!(block_align(2, 1017), 1024);
    assert_eq!(Encoder::new(3, 2041).err(), Some(Error::Unsupported));
    assert_eq!(Encoder::new(1, 2040).err(), Some(Error::InvalidFormat));
    assert_eq!(Decoder::new(1, 8).err(), Some(Error::InvalidFormat));
}

#[test]
fn the_two_expansions_differ_by_truncation_only() {
    // step 7, nibble 1: reference 0 + (7>>2) = 1; ffmpeg encoder (3·7)>>3 = 2.
    assert_eq!(ChannelState::diff_reference(7, 1), 1);
    assert_eq!(ChannelState::diff_ffmpeg_encoder(7, 1), 2);
    // Multiples of 8 agree exactly.
    for n in 0..16u8 {
        assert_eq!(
            ChannelState::diff_reference(1024, n),
            ChannelState::diff_ffmpeg_encoder(1024, n)
        );
    }
    for step in STEP_TABLE {
        for n in 0..16u8 {
            let d = (ChannelState::diff_reference(step, n)
                - ChannelState::diff_ffmpeg_encoder(step, n))
            .abs();
            assert!(d <= 2, "step {step} nibble {n}: {d}");
        }
    }
}

#[test]
fn round_trip_tracks_a_ramp_closely() {
    // 17 frames per block (header + 16), mono.
    let mut enc = Encoder::new(1, 17).unwrap();
    let mut dec = Decoder::new(1, 17).unwrap();
    let samples: Vec<i16> = (0..17).map(|i| (i * 100 - 800) as i16).collect();
    let pcm = pcm_of(&samples);
    let mut blk = [0u8; 12];
    assert_eq!(enc.encode_block(&pcm, &mut blk).unwrap(), 12);
    assert_eq!(&blk[..2], &(-800i16).to_le_bytes());
    assert_eq!(blk[2], 0);
    let mut out = [0u8; 34];
    assert_eq!(dec.decode_block(&blk, &mut out).unwrap(), 34);
    let got = i16s(&out);
    assert_eq!(got[0], -800);
    // ADPCM from step index 0 needs a few samples to catch a 100/sample
    // ramp; by the end it is within one step.
    for (i, (g, s)) in got.iter().zip(&samples).enumerate().skip(8) {
        assert!(
            (i32::from(*g) - i32::from(*s)).abs() <= 60,
            "sample {i}: {g} vs {s}"
        );
    }
    assert_eq!(enc.blocks, 1);
    assert_eq!(dec.blocks, 1);
}

#[test]
fn closed_loop_encoder_predictor_equals_decoder_output() {
    let mut enc = Encoder::new(1, 41).unwrap();
    let mut dec = Decoder::new(1, 41).unwrap();
    let samples: Vec<i16> = (0..41)
        .map(|i| ((i * 977) % 20_000 - 10_000) as i16)
        .collect();
    let pcm = pcm_of(&samples);
    let mut blk = [0u8; 24];
    enc.encode_block(&pcm, &mut blk).unwrap();
    let mut out = [0u8; 82];
    dec.decode_block(&blk, &mut out).unwrap();
    // The encoder's final predictor is exactly the decoder's last sample.
    assert_eq!(enc.state[0].predictor, i32::from(i16s(&out)[40]));
}

#[test]
fn stereo_interleaves_by_word_and_step_index_carries() {
    let mut enc = Encoder::new(2, 9).unwrap();
    let mut dec = Decoder::new(2, 9).unwrap();
    // Left: a loud alternating signal; right: silence.
    let mut frames = Vec::new();
    for i in 0..9 {
        frames.push(if i % 2 == 0 { 20_000 } else { -20_000 });
        frames.push(0);
    }
    let pcm = pcm_of(&frames);
    let mut blk = [0u8; 16];
    assert_eq!(enc.encode_block(&pcm, &mut blk).unwrap(), 16);
    // Header: L first sample, idx 0; R first sample 0, idx 0.
    assert_eq!(&blk[..4], &[0x20, 0x4E, 0, 0]);
    assert_eq!(&blk[4..8], &[0, 0, 0, 0]);
    // Right channel word is all zero nibbles (silence codes as 0 each).
    assert_eq!(&blk[12..16], &[0, 0, 0, 0]);
    let mut out = [0u8; 36];
    dec.decode_block(&blk, &mut out).unwrap();
    let got = i16s(&out);
    assert!(got.iter().skip(1).step_by(2).all(|&r| r == 0));
    // A second block starts from the carried step index, which grew.
    let mut blk2 = [0u8; 16];
    enc.encode_block(&pcm, &mut blk2).unwrap();
    assert!(blk2[2] > 0, "left step index should have climbed");
    assert_eq!(blk2[6], 0, "right stayed at 0 (nibble 0 is -1 clamped)");
}

#[test]
fn decoder_rejects_bad_headers_and_sizes() {
    let mut dec = Decoder::new(1, 9).unwrap();
    let mut out = [0u8; 18];
    let mut blk = [0u8; 8];
    blk[2] = 89;
    assert_eq!(dec.decode_block(&blk, &mut out).err(), Some(Error::Corrupt));
    assert_eq!(
        dec.decode_block(&blk[..7], &mut out).err(),
        Some(Error::InvalidGeometry)
    );
    blk[2] = 0;
    assert_eq!(
        dec.decode_block(&blk, &mut out[..10]).err(),
        Some(Error::BufferTooSmall { needed: 18 })
    );
}

#[test]
fn encoder_refuses_sizes_and_small_buffers() {
    let mut enc = Encoder::new(1, 17).unwrap();
    let mut blk = [0u8; 12];
    assert_eq!(
        enc.encode_block(&[0u8; 33], &mut blk).err(),
        Some(Error::InvalidGeometry)
    );
    assert_eq!(
        enc.encode_block(&[0u8; 34], &mut blk[..11]).err(),
        Some(Error::BufferTooSmall { needed: 12 })
    );
    assert_eq!(Decoder::new(0, 9).err(), Some(Error::Unsupported));
    assert_eq!(enc.frames_per_block(), 17);
    assert_eq!(enc.block_align(), 12);
    let dec = Decoder::new(2, 9).unwrap();
    assert_eq!((dec.block_align(), dec.pcm_bytes_per_block()), (16, 36));
}

#[test]
fn rules_and_sizes_of_the_compatible_encoder() {
    let enc = Encoder::ffmpeg_compatible(2, 1017).unwrap();
    assert_eq!(enc.rule(), PredictionRule::FfmpegEncoder);
    assert_eq!(enc.frames_per_block(), 1017);
    assert_eq!(enc.block_align(), 1024);
    let plain = Encoder::new(1, 9).unwrap();
    assert_eq!(plain.rule(), PredictionRule::DecoderExact);
    let other = Encoder::with_rule(1, 9, PredictionRule::FfmpegEncoder).unwrap();
    assert_eq!(other.rule(), PredictionRule::FfmpegEncoder);
}

#[test]
fn every_encoded_block_is_accepted() {
    let mut seed = 7u32;
    for channels in [1u8, 2] {
        let mut enc = Encoder::new(channels, 41).unwrap();
        let mut dec = Decoder::new(channels, 41).unwrap();
        let mut blk = vec![0u8; enc.block_align()];
        let mut out = vec![0u8; dec.pcm_bytes_per_block()];
        for _ in 0..50 {
            let pcm: Vec<u8> = (0..out.len())
                .map(|_| {
                    seed = seed.wrapping_mul(1_664_525).wrapping_add(1_013_904_223);
                    (seed >> 24) as u8
                })
                .collect();
            enc.encode_block(&pcm, &mut blk).unwrap();
            dec.decode_block(&blk, &mut out).unwrap();
            // The first frame travels in the header, exactly.
            assert_eq!(out[..2 * channels as usize], pcm[..2 * channels as usize]);
        }
    }
}

#[test]
fn the_next_header_has_the_index_the_nibbles_lead_to() {
    let index_table = [-1i32, -1, -1, -1, 2, 4, 6, 8];
    let mut enc = Encoder::new(2, 17).unwrap();
    let mut index = [0i32; 2];
    for block in 0..20i32 {
        let samples: Vec<i16> = (0..34).map(|i| ((i * 7919 + block * 104_729) % 30_000) as i16).collect();
        let mut blk = [0u8; 24];
        enc.encode_block(&pcm_of(&samples), &mut blk).unwrap();
        for c in 0..2usize {
            assert_eq!(i32::from(blk[4 * c + 2]), index[c]);
            assert_eq!(blk[4 * c + 3], 0);
            for word in 0..2 {
                for byte in &blk[8 + 8 * word + 4 * c..8 + 8 * word + 4 * c + 4] {
                    for nibble in [byte & 15, byte >> 4] {
                        index[c] = (index[c] + index_table[usize::from(nibble & 7)]).clamp(0, 88);
                    }
                }
            }
        }
    }
    assert!(index[0] > 0);
}

#[test]
fn a_decoder_starts_anywhere() {
    let mut enc = Encoder::new(1, 17).unwrap();
    let mut seasoned = Decoder::new(1, 17).unwrap();
    for block in 0..5i32 {
        let samples: Vec<i16> = (0..17).map(|i| (i * 900 - block * 3000) as i16).collect();
        let (mut blk, mut a, mut b) = ([0u8; 12], [0u8; 34], [0u8; 34]);
        enc.encode_block(&pcm_of(&samples), &mut blk).unwrap();
        seasoned.decode_block(&blk, &mut a).unwrap();
        Decoder::new(1, 17).unwrap().decode_block(&blk, &mut b).unwrap();
        assert_eq!(a, b);
        assert_eq!(a[..2], blk[..2]);
    }
}
