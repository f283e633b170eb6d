//! FLAC streams.

use rusty_esp_audio::codec::flac::{
    append_frame, decode_pcm16, encode_pcm16, interleave_pcm16, Decoded, FlacEncoder, Frame,
    STREAM_HEADER_LEN,
};
use rusty_esp_audio::esp_core::error::Error;
use rusty_esp_audio::esp_core::pcm::{PcmBlock, PcmFormat, SampleFormat};
use rusty_esp_audio::esp_core::time::Micros;
use rusty_esp_audio::put_i16;

/// A sine tone, block by block.
struct Tone {
    freq_hz: f32,
    amplitude: i16,
    phase: f32,
}

impl Tone {
    fn new(freq_hz: f32, amplitude: i16) -> Self {
        Tone { freq_hz, amplitude, phase: 0.0 }
    }

    fn read(&mut self, out: &mut [u8]) {
        let step = self.freq_hz / 16_000.0;
        for sample in out.chunks_exact_mut(2) {
            let angle = core::f32::consts::TAU * self.phase;
            let v = libm::roundf(f32::from(self.amplitude) * libm::sinf(angle)) as i16;
            put_i16(sample, v);
            self.phase += step;
            if self.phase >= 1.0 {
                self.phase -= 1.0;
            }
        }
    }
}

#[test]
fn round_trips_and_is_deterministic() {
    let f = PcmFormat::pcm16_16k_mono();
    let mut src = Tone::new(440.0, 12_000);
    let mut buf = [0u8; 640];
    let mut pcm = Vec::new();
    let mut enc = FlacEncoder::new(f, 5).unwrap();
    for _ in 0..50 {
        src.read(&mut buf);
        let blk = PcmBlock::new(f, Micros(0), &buf).unwrap();
        enc.push(blk).unwrap();
        pcm.extend_from_slice(&buf);
    }
    assert_eq!(enc.pending_frames, 16_000);
    let stream = enc.finish().unwrap();
    assert!(enc.finish().is_none());
    assert_eq!(&stream[..4], b"fLaC");
    assert!(
        stream.len() > STREAM_HEADER_LEN && stream.len() < pcm.len() / 2,
        "{}",
        stream.len()
    );
    let (back_f, back) = decode_pcm16(&stream).unwrap();
    assert_eq!(back_f, f);
    assert_eq!(back, pcm);
    // Same samples, same bytes.
    let again = encode_pcm16(PcmBlock::new(f, Micros(0), &pcm).unwrap(), 5).unwrap();
    assert_eq!(again, stream);
    assert_eq!(enc.chunks, 1);
    assert_eq!(enc.bytes_out, stream.len() as u64);
}

#[test]
fn refuses_the_wrong_format() {
    let f32fmt = PcmFormat::new(16_000, 1, SampleFormat::F32).unwrap();
    assert_eq!(FlacEncoder::new(f32fmt, 5).err(), Some(Error::Unsupported));
    let mut e = FlacEncoder::new(PcmFormat::pcm16_16k_mono(), 5).unwrap();
    let stereo = PcmBlock::new(PcmFormat::pcm16_48k_stereo(), Micros(0), &[0u8; 8]).unwrap();
    assert_eq!(e.push(stereo).err(), Some(Error::InvalidFormat));
    assert_eq!(decode_pcm16(b"not flac at all").err(), Some(Error::Corrupt));
}

/// Interleaved noise that does not repeat.
fn noise(bytes: usize, seed: u32) -> Vec<u8> {
    let mut state = seed;
    (0..bytes)
        .map(|_| {
            state = state.wrapping_mul(1_664_525).wrapping_add(1_013_904_223);
            (state >> 24) as u8
        })
        .collect()
}

#[test]
fn decoding_gives_back_every_byte() {
    for channels in [1u8, 2, 3, 8] {
        let f = PcmFormat::new(44_100, channels, SampleFormat::I16).unwrap();
        for frames in [1usize, 5, 4096, 4097, 9000] {
            let pcm = noise(frames * f.frame_bytes(), u32::from(channels) + frames as u32);
            for level in [0, 5, 8, 99] {
                let stream =
                    encode_pcm16(PcmBlock::new(f, Micros(0), &pcm).unwrap(), level).unwrap();
                let (back_f, back) = decode_pcm16(&stream).unwrap();
                assert_eq!((back_f, &back), (f, &pcm));
            }
        }
    }
}

#[test]
fn the_cut_into_blocks_does_not_show() {
    let f = PcmFormat::pcm16_48k_stereo();
    let pcm = noise(4000, 1);
    let whole = encode_pcm16(PcmBlock::new(f, Micros(0), &pcm).unwrap(), 5).unwrap();
    let mut enc = FlacEncoder::new(f, 5).unwrap();
    for part in pcm.chunks(80) {
        enc.push(PcmBlock::new(f, Micros(0), part).unwrap()).unwrap();
    }
    assert_eq!((enc.pending_frames, enc.bytes_in), (1000, 4000));
    assert_eq!(enc.finish().unwrap(), whole);
    assert_eq!((enc.pending_frames, enc.chunks), (0, 1));
    assert_eq!(enc.format(), f);
    // The levels above 5 search other predictors than those below.
    let tone: Vec<u8> = (0..8000i32).flat_map(|i| ((i * i % 501) as i16).to_le_bytes()).collect();
    let mono = PcmFormat::pcm16_16k_mono();
    let fast = encode_pcm16(PcmBlock::new(mono, Micros(0), &tone).unwrap(), 0).unwrap();
    let slow = encode_pcm16(PcmBlock::new(mono, Micros(0), &tone).unwrap(), 8).unwrap();
    assert_ne!(fast, slow);
}

#[test]
fn encoder_refusals() {
    let nine = PcmFormat::new(16_000, 9, SampleFormat::I16).unwrap();
    assert_eq!(FlacEncoder::new(nine, 5).err(), Some(Error::Unsupported));
    let fast = PcmFormat::new(1 << 20, 1, SampleFormat::I16).unwrap();
    assert_eq!(FlacEncoder::new(fast, 5).err(), Some(Error::InvalidFormat));
    // A block whose bytes are no whole frames, past its own check.
    let f = PcmFormat::pcm16_48k_stereo();
    let ragged = PcmBlock { format: f, timestamp: Micros(0), data: &[1, 2, 3] };
    let mut enc = FlacEncoder::new(f, 5).unwrap();
    assert_eq!(enc.push(ragged).err(), Some(Error::InvalidGeometry));
    // Nothing was pushed.
    assert!(enc.finish().is_none());
    let nothing = PcmBlock { format: f, timestamp: Micros(0), data: &[] };
    enc.push(nothing).unwrap();
    assert_eq!(enc.push(ragged).err(), Some(Error::InvalidGeometry));
    let empty = enc.finish().unwrap();
    assert_eq!(empty.len(), STREAM_HEADER_LEN);
    assert_eq!(decode_pcm16(&empty).unwrap(), (f, Vec::new()));
}

#[test]
fn a_lying_sample_count_is_corrupt() {
    let f = PcmFormat::pcm16_16k_mono();
    let pcm = noise(200, 3);
    let stream = encode_pcm16(PcmBlock::new(f, Micros(0), &pcm).unwrap(), 5).unwrap();
    // The 36-bit count in STREAMINFO.
    let mut lie = stream.clone();
    lie[8 + 13] |= 0x0F;
    assert_eq!(decode_pcm16(&lie).err(), Some(Error::Corrupt));
    // The lie in a second STREAMINFO.
    let mut twice = stream[..4].to_vec();
    twice.extend_from_slice(&[0x00, 0, 0, 34]);
    twice.extend_from_slice(&stream[8..42]);
    twice.extend_from_slice(&[0x80, 0, 0, 34]);
    twice.extend_from_slice(&lie[8..42]);
    twice.extend_from_slice(&stream[42..]);
    assert_eq!(decode_pcm16(&twice).err(), Some(Error::Corrupt));
    // A damaged frame.
    let mut damaged = stream.clone();
    let last = damaged.len() - 1;
    damaged[last] ^= 1;
    assert_eq!(decode_pcm16(&damaged).err(), Some(Error::Corrupt));
    assert_eq!(decode_pcm16(&stream[..41]).err(), Some(Error::Corrupt));
}

#[test]
fn decoded_audio_becomes_pcm_or_is_refused() {
    let audio = |bits, channels, rate, planes: Vec<Vec<i32>>| Decoded {
        sample_rate: rate,
        channels,
        bits_per_sample: bits,
        planes,
    };
    let (f, pcm) = interleave_pcm16(&audio(16, 2, 8000, vec![vec![1, -2], vec![3, 70_000]])).unwrap();
    assert_eq!((f.sample_rate_hz, f.channels), (8000, 2));
    // 70 000 keeps its low sixteen bits.
    assert_eq!(pcm, [1, 0, 3, 0, 0xFE, 0xFF, 0x70, 0x11]);
    let refusal = |a: Decoded| interleave_pcm16(&a).err();
    assert_eq!(
        refusal(audio(24, 1, 8000, vec![vec![1]])),
        Some(Error::Unsupported)
    );
    assert_eq!(refusal(audio(16, 0, 8000, vec![])), Some(Error::Unsupported));
    assert_eq!(refusal(audio(16, 9, 8000, vec![])), Some(Error::Unsupported));
    assert_eq!(
        refusal(audio(16, 1, 0, vec![vec![1]])),
        Some(Error::InvalidGeometry)
    );
    assert_eq!(
        refusal(audio(16, 2, 8000, vec![vec![1, 2], vec![3]])),
        Some(Error::Corrupt)
    );
}

#[test]
fn a_33_bit_side_channel_is_refused_before_it_is_decoded() {
    let f = PcmFormat::pcm16_48k_stereo();
    let stream = encode_pcm16(PcmBlock::new(f, Micros(0), &noise(400, 5)).unwrap(), 5).unwrap();
    for assignment in 8..=10u8 {
        // The frame gives 32 bits itself, in a stream of 16 bits.
        let mut wide = stream.clone();
        wide[42 + 3] = assignment * 16 + 7 * 2;
        assert_eq!(decode_pcm16(&wide).err(), Some(Error::Corrupt));
        // The stream gives 32 bits, and the frame goes by that.
        wide[8 + 12] |= 0x01;
        wide[8 + 13] |= 0xF0;
        wide[42 + 3] = assignment * 16;
        assert_eq!(decode_pcm16(&wide).err(), Some(Error::Unsupported));
        // What does not begin as a frame has no channels.
        wide[42 + 1] = 0;
        assert_eq!(decode_pcm16(&wide).err(), Some(Error::Corrupt));
    }
}

#[test]
fn a_stream_cut_short_is_corrupt() {
    let f = PcmFormat::pcm16_16k_mono();
    let pcm = noise(9000, 8);
    let stream = encode_pcm16(PcmBlock::new(f, Micros(0), &pcm).unwrap(), 5).unwrap();
    for cut in 1..40 {
        assert_eq!(decode_pcm16(&stream[..stream.len() - cut]).err(), Some(Error::Corrupt));
    }
    // Bytes behind the last frame are no frame.
    let mut longer = stream.clone();
    longer.extend_from_slice(&[0, 0, 0, 0, 0, 0, 0, 1]);
    assert_eq!(decode_pcm16(&longer).err(), Some(Error::Corrupt));
}

#[test]
fn frames_go_behind_each_other() {
    let mut audio = Decoded {
        sample_rate: 8000,
        channels: 2,
        bits_per_sample: 16,
        planes: vec![vec![1], vec![2]],
    };
    let frame = Frame { planes: vec![vec![3, 4], vec![5, 6]], used: 9 };
    append_frame(&mut audio, &frame);
    assert_eq!(audio.planes, [[1, 3, 4], [2, 5, 6]]);
}
