//! The ring buffer.

use rusty_esp_audio::RingBuffer;
use rusty_esp_audio::esp_core::error::Error;
use rusty_esp_audio::esp_core::pcm::PcmFormat;

fn fmt() -> PcmFormat {
    PcmFormat::pcm16_48k_stereo() // 4-byte frames
}

#[test]
fn wraps_and_counts() {
    let mut mem = [0u8; 18]; // 4 frames usable, 2 bytes spare
    let mut r = RingBuffer::new(&mut mem, fmt()).unwrap();
    assert_eq!(r.capacity_frames(), 4);
    r.push(&[1, 1, 1, 1, 2, 2, 2, 2, 3, 3, 3, 3]).unwrap();
    let mut out = [0u8; 8];
    assert_eq!(r.pop(&mut out), 8);
    assert_eq!(out, [1, 1, 1, 1, 2, 2, 2, 2]);
    // Now head is at frame 2; pushing 3 frames wraps around the end.
    r.push(&[4, 4, 4, 4, 5, 5, 5, 5, 6, 6, 6, 6]).unwrap();
    assert_eq!(r.available_frames(), 4);
    assert_eq!(r.free_frames(), 0);
    assert_eq!(r.high_water_frames, 4);
    // Full: a push drops and reports Busy without storing anything.
    assert_eq!(r.push(&[9, 9, 9, 9]).err(), Some(Error::Busy));
    assert_eq!(r.dropped_frames, 1);
    let mut all = [0u8; 16];
    assert_eq!(r.pop(&mut all), 16);
    assert_eq!(all, [3, 3, 3, 3, 4, 4, 4, 4, 5, 5, 5, 5, 6, 6, 6, 6]);
    assert!(r.is_empty());
    assert_eq!(r.pop(&mut all), 0);
}

#[test]
fn overwrite_discards_oldest() {
    let mut mem = [0u8; 12];
    let mut r = RingBuffer::new(&mut mem, fmt()).unwrap();
    r.push(&[1, 1, 1, 1, 2, 2, 2, 2]).unwrap();
    assert_eq!(r.push_overwrite(&[3, 3, 3, 3, 4, 4, 4, 4]).unwrap(), 1);
    assert_eq!(r.dropped_frames, 1);
    let mut out = [0u8; 12];
    assert_eq!(r.pop(&mut out), 12);
    assert_eq!(out, [2, 2, 2, 2, 3, 3, 3, 3, 4, 4, 4, 4]);
}

#[test]
fn pop_exact_waits_for_a_block() {
    let mut mem = [0u8; 16];
    let mut r = RingBuffer::new(&mut mem, fmt()).unwrap();
    r.push(&[7; 4]).unwrap();
    let mut out = [0u8; 8];
    assert!(!r.pop_exact(&mut out));
    r.push(&[8; 4]).unwrap();
    assert!(r.pop_exact(&mut out));
    assert_eq!(out, [7, 7, 7, 7, 8, 8, 8, 8]);
}

#[test]
fn rejects_misaligned_and_oversize() {
    let mut mem = [0u8; 16];
    let mut r = RingBuffer::new(&mut mem, fmt()).unwrap();
    assert_eq!(r.push(&[0; 6]).err(), Some(Error::InvalidGeometry));
    assert_eq!(
        r.push(&[0; 20]).err(),
        Some(Error::BufferTooSmall { needed: 20 })
    );
    let mut tiny = [0u8; 3];
    assert_eq!(
        RingBuffer::new(&mut tiny, fmt()).err(),
        Some(Error::BufferTooSmall { needed: 4 })
    );
}

#[test]
fn what_goes_in_first_comes_out_first() {
    let mut mem = [0u8; 28];
    let mut r = RingBuffer::new(&mut mem, fmt()).unwrap();
    let (mut pushed, mut popped) = (Vec::new(), Vec::new());
    let mut next = 0u8;
    for round in 0..200usize {
        let n = 4 * (round % 4);
        let data: Vec<u8> = (0..n as u8).map(|i| next.wrapping_add(i)).collect();
        if r.push(&data).is_ok() {
            next = next.wrapping_add(n as u8);
            pushed.extend_from_slice(&data);
        }
        let mut out = [0u8; 5];
        let n = r.pop(&mut out);
        assert_eq!(n % 4, 0);
        popped.extend_from_slice(&out[..n]);
        assert_eq!(
            r.available_frames() + r.free_frames(),
            r.capacity_frames()
        );
    }
    let mut rest = [0u8; 28];
    let n = r.pop(&mut rest);
    popped.extend_from_slice(&rest[..n]);
    assert_eq!(popped, pushed);
    assert!(r.dropped_frames > 0);
}

#[test]
fn clear_forgets_the_contents_only() {
    let mut mem = [0u8; 16];
    let mut r = RingBuffer::new(&mut mem, fmt()).unwrap();
    r.push(&[1; 12]).unwrap();
    r.clear();
    assert!(r.is_empty());
    assert_eq!(r.high_water_frames, 3);
    assert_eq!(r.push_overwrite(&[2; 20]).err(), Some(Error::BufferTooSmall { needed: 20 }));
    assert_eq!(r.push_overwrite(&[2; 5]).err(), Some(Error::InvalidGeometry));
}

#[test]
fn the_high_water_mark_is_the_largest_fill() {
    let mut mem = [0u8; 24];
    let mut r = RingBuffer::new(&mut mem, fmt()).unwrap();
    let mut most = 0;
    for (round, frames) in [1usize, 3, 2, 0, 4, 1, 5, 2].into_iter().enumerate() {
        let _ = r.push_overwrite(&vec![round as u8; 4 * frames]);
        most = most.max(r.available_frames());
        assert_eq!(r.high_water_frames, most);
        let mut out = [0u8; 8];
        r.pop(&mut out);
        if round == 5 {
            r.clear();
        }
        assert_eq!(r.high_water_frames, most);
        assert!(most <= r.capacity_frames());
    }
    // Frames fit exactly while they are no more than the free ones.
    r.clear();
    r.push(&[0; 8]).unwrap();
    assert_eq!(r.free_frames(), 4);
    assert_eq!(r.push(&[0; 20]).err(), Some(Error::Busy));
    assert!(r.push(&[0; 16]).is_ok());
}
