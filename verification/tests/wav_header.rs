//! WAV headers.

use rusty_esp_audio::codec::wav::{WavCodec, WavHeader, MAX_HEADER_LEN};
use rusty_esp_audio::esp_core::error::Error;
use rusty_esp_audio::esp_core::pcm::{PcmFormat, SampleFormat};

#[test]
fn pcm16_header_is_the_canonical_44_bytes() {
    let h = WavHeader::pcm(PcmFormat::pcm16_16k_mono(), 32_000);
    let mut buf = [0u8; 44];
    assert_eq!(h.write(&mut buf).unwrap(), 44);
    assert_eq!(&buf[..4], b"RIFF");
    assert_eq!(
        u32::from_le_bytes([buf[4], buf[5], buf[6], buf[7]]),
        36 + 32_000
    );
    assert_eq!(&buf[8..16], b"WAVEfmt ");
    assert_eq!(buf[16], 16);
    assert_eq!(&buf[20..24], &[1, 0, 1, 0]); // PCM, mono
    assert_eq!(
        u32::from_le_bytes([buf[24], buf[25], buf[26], buf[27]]),
        16_000
    );
    assert_eq!(
        u32::from_le_bytes([buf[28], buf[29], buf[30], buf[31]]),
        32_000
    );
    assert_eq!(&buf[32..36], &[2, 0, 16, 0]);
    assert_eq!(&buf[36..40], b"data");
    assert_eq!(h.size_field_offsets(), (4, 40));
    let (back, off) = WavHeader::parse(&buf).unwrap();
    assert_eq!(back, h);
    assert_eq!(off, 44);
}

#[test]
fn float_and_ima_headers_round_trip() {
    let f = PcmFormat::new(48_000, 2, SampleFormat::F32).unwrap();
    let h = WavHeader::pcm(f, 800);
    let mut buf = [0u8; MAX_HEADER_LEN];
    let n = h.write(&mut buf).unwrap();
    assert_eq!(n, 58);
    let (back, off) = WavHeader::parse(&buf[..n]).unwrap();
    assert_eq!(back, h);
    assert_eq!(off, n);
    assert_eq!(back.total_frames, 100);

    let ima = WavHeader::ima_adpcm(16_000, 1, 1024, 2041, 8192, 16_328);
    let n = ima.write(&mut buf).unwrap();
    assert_eq!(n, 60);
    // avg bytes/s = 16000·1024/2041 = 8027
    assert_eq!(
        u32::from_le_bytes([buf[28], buf[29], buf[30], buf[31]]),
        8027
    );
    let (back, off) = WavHeader::parse(&buf[..n]).unwrap();
    assert_eq!(back, ima);
    assert_eq!(off, 60);
}

#[test]
fn parse_skips_unknown_chunks_and_rejects_garbage() {
    let h = WavHeader::pcm(PcmFormat::pcm16_48k_stereo(), 4);
    let mut buf = [0u8; 44];
    h.write(&mut buf).unwrap();
    // Splice a LIST chunk (odd size, padded) between fmt and data.
    let mut with_list = Vec::new();
    with_list.extend_from_slice(&buf[..36]);
    with_list.extend_from_slice(b"LIST");
    with_list.extend_from_slice(&3u32.to_le_bytes());
    with_list.extend_from_slice(&[1, 2, 3, 0]);
    with_list.extend_from_slice(&buf[36..]);
    let (back, off) = WavHeader::parse(&with_list).unwrap();
    assert_eq!(back, h);
    assert_eq!(off, 56);
    assert_eq!(WavHeader::parse(b"RIFX").err(), Some(Error::InvalidFormat));
    let mut tiny = [0u8; 10];
    assert_eq!(
        h.write(&mut tiny).err(),
        Some(Error::BufferTooSmall { needed: 44 })
    );
}

#[test]
fn a_header_of_unknown_length_reads_back() {
    let f = PcmFormat::pcm16_16k_mono();
    let h = WavHeader::pcm(f, u32::MAX);
    let mut buf = [0u8; MAX_HEADER_LEN];
    let n = h.write(&mut buf).unwrap();
    assert_eq!(buf[4..8], [0xFF; 4]);
    let (back, off) = WavHeader::parse(&buf[..n]).unwrap();
    assert_eq!((back.codec, back.data_len, off), (WavCodec::Pcm(f), u32::MAX, 44));
    assert_eq!(back.total_frames, 0);
    assert!(!h.is_empty());
    assert_eq!(h.len(), 44);
}

#[test]
fn parse_names_what_it_refuses() {
    let h = WavHeader::pcm(PcmFormat::pcm16_16k_mono(), 4);
    let mut buf = [0u8; 44];
    h.write(&mut buf).unwrap();
    let mut eight_bit = buf;
    eight_bit[34] = 8;
    assert_eq!(WavHeader::parse(&eight_bit).err(), Some(Error::Unsupported));
    let mut no_channels = buf;
    no_channels[22] = 0;
    assert_eq!(WavHeader::parse(&no_channels).err(), Some(Error::InvalidFormat));
    let mut short_fmt = buf;
    short_fmt[16] = 8;
    assert_eq!(WavHeader::parse(&short_fmt).err(), Some(Error::InvalidFormat));
    // No data chunk at all.
    assert_eq!(WavHeader::parse(&buf[..36]).err(), Some(Error::InvalidFormat));
    // 24-bit samples in 32-bit words read back as 32-bit samples.
    let deep = PcmFormat::new(48_000, 2, SampleFormat::I24In32).unwrap();
    WavHeader::pcm(deep, 16).write(&mut buf).unwrap();
    let wide = PcmFormat::new(48_000, 2, SampleFormat::I32).unwrap();
    assert_eq!(WavHeader::parse(&buf).unwrap().0, WavHeader::pcm(wide, 16));
}
