//! The microphone bench.

use rusty_esp_audio::bench::{
    collect, dump_bytes, hex_line, hex_lines, Reading, StreamTally, Tally,
};
use rusty_esp_audio::esp_core::pcm::PcmFormat;
use rusty_esp_audio::level::{peak_of_bytes, peak_of_view, Level};

fn dbfs(level: f32) -> Level {
    Level { bits: level.to_bits() }
}

#[test]
fn a_pass_counts_what_it_sees() {
    let mut t = Tally::new();
    assert_eq!((t.level_min, t.level_max), (dbfs(f32::INFINITY), dbfs(f32::NEG_INFINITY)));
    t.note(Reading::Failed);
    t.note(Reading::Empty);
    t.note(Reading::Block { level: dbfs(-30.0), peak: 900 });
    t.note(Reading::Block { level: dbfs(-62.5), peak: 12 });
    t.note(Reading::Block { level: dbfs(-41.0), peak: 32_768 });
    assert_eq!((t.blocks, t.errors, t.empty, t.peak_max), (3, 1, 1, 32_768));
    assert_eq!((t.level_min, t.level_max), (dbfs(-62.5), dbfs(-30.0)));
    assert_eq!(t.samples(640, PcmFormat::pcm16_16k_mono()), 960);
}

#[test]
fn a_stream_reports_every_fifty_blocks() {
    let mut s = StreamTally { blocks: 0, dropped: 0 };
    for k in 1..=120u64 {
        assert_eq!(s.note(k % 7 != 0), k % 50 == 0);
    }
    assert_eq!((s.blocks, s.dropped), (120, 17));
}

#[test]
fn a_dump_collects_and_shows_its_bytes() {
    let want = dump_bytes(2, PcmFormat::pcm16_16k_mono());
    assert_eq!(want, 64_000);
    let mut pcm = Vec::new();
    collect(&mut pcm, 5, &[1, 2, 3]);
    collect(&mut pcm, 5, &[4, 5, 6]);
    collect(&mut pcm, 5, &[7]);
    assert_eq!(pcm, [1, 2, 3, 4, 5]);
    assert_eq!(hex_line(&[0x00, 0x9F, 0xA0, 0xff]), b"009fa0ff");
    let bytes: Vec<u8> = (0..150).collect();
    let lines = hex_lines(&bytes);
    assert_eq!(lines.iter().map(Vec::len).collect::<Vec<_>>(), [128, 128, 44]);
    assert_eq!(&lines[1][..4], b"4041");
    assert!(hex_lines(&[]).is_empty());
}

#[test]
fn the_peak_of_a_block() {
    assert_eq!(peak_of_view(Some(&[3, -7, 5])), 7);
    assert_eq!(peak_of_view(Some(&[0, i16::MIN])), 32_768);
    assert_eq!(peak_of_view(Some(&[])), 0);
    assert_eq!(peak_of_view(None), 0);
    // Of three bytes there is no view. Of these two slices one is aligned, on a
    // little-endian machine, and the other is not.
    assert_eq!(peak_of_bytes(&[1, 2, 3]), 0);
    let bytes = [0x00u8, 0x80, 0x00, 0x80, 0x00];
    let peaks = (peak_of_bytes(&bytes[..4]), peak_of_bytes(&bytes[1..]));
    assert!(peaks == (32_768, 0) || peaks == (0, 128));
}
