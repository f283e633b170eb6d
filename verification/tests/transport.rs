//! Datagrams, WAV recordings and microphone blocks, with buffers in place of
//! sockets, files and drivers.

use rusty_esp_audio::codec::wav::WavHeader;
use rusty_esp_audio::esp_core::error::Error;
use rusty_esp_audio::esp_core::pcm::{PcmBlock, PcmFormat, SampleFormat};
use rusty_esp_audio::esp_core::time::Micros;
use rusty_esp_audio::net::{BlockFill, PcmReceiver, PcmSender, DEFAULT_DATAGRAM_BYTES};
use rusty_esp_audio::pdm::PdmStream;
use rusty_esp_audio::wavfile::{payload, WavRecording};

/// Send a block into a list of datagrams.
fn send(tx: &mut PcmSender, block: PcmBlock<'_>) -> Result<Vec<Vec<u8>>, Error> {
    tx.carries(block)?;
    let mut sent = Vec::new();
    let mut done = 0;
    while let Some(part) = tx.next_datagram(block.data, done) {
        sent.push(part.to_vec());
        tx.sent(part.len(), Some(part.len()))?;
        done += part.len();
    }
    Ok(sent)
}

#[test]
fn a_block_splits_into_frame_aligned_datagrams() {
    let f = PcmFormat::pcm16_16k_mono();
    let mut tx = PcmSender::new(f).with_datagram_bytes(301); // 150 frames = 300 bytes
    assert_eq!(tx.datagram_frames(), 150);
    let data: Vec<u8> = (0..640u32).map(|i| (i * 7) as u8).collect();
    let sent = send(&mut tx, PcmBlock::new(f, Micros(0), &data).unwrap()).unwrap();
    assert_eq!(
        sent.iter().map(Vec::len).collect::<Vec<_>>(),
        [300, 300, 40]
    );
    assert_eq!(sent.concat(), data);
    assert_eq!((tx.datagrams, tx.bytes, tx.failed), (3, 640, 0));
    assert_eq!(tx.sent(40, Some(39)), Err(Error::Busy));
    assert_eq!(tx.sent(40, None), Err(Error::Busy));
    assert_eq!(tx.failed, 2);
    // A ceiling below one frame still sends one.
    let one = PcmSender::new(PcmFormat::pcm16_48k_stereo()).with_datagram_bytes(1);
    assert_eq!((one.datagram_frames(), one.datagram_bytes), (1, 4));
    assert_eq!(PcmSender::new(f).datagram_bytes, DEFAULT_DATAGRAM_BYTES);
}

#[test]
fn a_block_is_put_together_from_datagrams() {
    let f = PcmFormat::pcm16_48k_stereo();
    let mut tx = PcmSender::new(f);
    let data: Vec<u8> = (0..3840u32).map(|i| i as u8).collect(); // 20 ms
    let sent = send(&mut tx, PcmBlock::new(f, Micros(0), &data).unwrap()).unwrap();
    assert_eq!(tx.datagrams, 4); // 1200 x 3 + 240
    let mut rx = PcmReceiver::new(f);
    let mut fill = BlockFill::begin(f, 3840).unwrap();
    let mut out = vec![0u8; 3840];
    fill.arrived(&mut rx, 3, Micros(1)); // no whole frame
    fill.arrived(&mut rx, 0, Micros(2));
    for (k, part) in sent.iter().enumerate() {
        assert!(!fill.is_full());
        out[fill.filled..fill.filled + part.len()].copy_from_slice(part);
        fill.arrived(&mut rx, part.len(), Micros(10 + k as u64));
    }
    assert!(fill.is_full());
    assert_eq!((&out, fill.stamp()), (&data, Micros(10)));
    assert_eq!((rx.datagrams, rx.bytes, rx.misaligned), (4, 3840, 2));
    fill.arrived(&mut rx, 4, Micros(99)); // more than the room left
    assert_eq!(rx.misaligned, 3);
    let other = PcmBlock::new(PcmFormat::pcm16_16k_mono(), Micros(0), &data).unwrap();
    assert_eq!(send(&mut tx, other).err(), Some(Error::InvalidFormat));
    assert_eq!(BlockFill::begin(f, 0).err(), Some(Error::InvalidGeometry));
    assert_eq!(BlockFill::begin(f, 6).err(), Some(Error::InvalidGeometry));
}

/// A recording in memory.
struct Recorder {
    log: WavRecording,
    file: Vec<u8>,
}

impl Recorder {
    fn create(format: PcmFormat) -> Self {
        let log = WavRecording::create(format);
        let mut file = vec![0u8; log.header.len()];
        log.header.write(&mut file).unwrap();
        Recorder { log, file }
    }

    fn write(&mut self, block: PcmBlock<'_>) -> Result<(), Error> {
        self.log.may_write(block)?;
        self.file.extend_from_slice(block.data);
        self.log.appended(block.data.len());
        self.log.block_written();
        Ok(())
    }

    fn finish(&mut self) -> Result<u64, Error> {
        let sizes = self.log.close()?;
        self.file[sizes.riff_at..sizes.riff_at + 4].copy_from_slice(&sizes.riff_len.to_le_bytes());
        self.file[sizes.data_at..sizes.data_at + 4].copy_from_slice(&sizes.data_len.to_le_bytes());
        Ok(sizes.total)
    }
}

#[test]
fn writes_patches_and_reads_back() {
    let f = PcmFormat::pcm16_16k_mono();
    let data: Vec<u8> = (0..640u32).map(|i| (i * 7) as u8).collect();
    let mut w = Recorder::create(f);
    w.write(PcmBlock::new(f, Micros(0), &data).unwrap()).unwrap();
    w.write(PcmBlock::new(f, Micros(0), &data).unwrap()).unwrap();
    // Until it is closed, the file says nothing of its length.
    assert_eq!(payload(&w.file).unwrap().1.len(), 1280);
    assert_eq!(w.finish().unwrap(), 44 + 1280);
    assert_eq!(w.finish().err(), Some(Error::Busy));
    let block = PcmBlock::new(f, Micros(0), &data).unwrap();
    assert_eq!(w.write(block).err(), Some(Error::Busy));
    assert_eq!(w.log.may_append().err(), Some(Error::Busy));
    let (h, d) = payload(&w.file).unwrap();
    assert_eq!(h, WavHeader::pcm(f, 1280));
    assert_eq!(d.len(), 1280);
    assert_eq!(&d[..640], &data[..]);
    assert_eq!((w.log.blocks, w.log.data_len), (2, 1280));
}

#[test]
fn recordings_hold_their_format_and_saturate_their_length() {
    let f = PcmFormat::pcm16_16k_mono();
    let mut w = Recorder::create(f);
    let other = PcmBlock::new(PcmFormat::pcm16_48k_stereo(), Micros(0), &[0u8; 4]).unwrap();
    assert_eq!(w.write(other).err(), Some(Error::InvalidFormat));
    assert_eq!(w.log.format(), f);
    w.log.data_len = 5_000_000_000;
    let sizes = w.log.close().unwrap();
    assert_eq!((sizes.data_len, sizes.riff_len), (u32::MAX - 1, u32::MAX));
    assert_eq!(sizes.total, 5_000_000_044);
    // A file longer than its header declares is cut, a shorter one is not.
    let mut file = vec![0u8; 44];
    WavHeader::pcm(f, 4).write(&mut file).unwrap();
    file.extend_from_slice(&[1, 2, 3, 4, 5, 6]);
    assert_eq!(payload(&file).unwrap().1, [1, 2, 3, 4]);
    assert_eq!(payload(&file[..46]).unwrap().1, [1, 2]);
    assert_eq!(payload(b"RIFX").err(), Some(Error::InvalidFormat));
}

#[test]
fn driver_reads_add_up_to_blocks() {
    let mut mic = PdmStream::new(16_000).unwrap();
    assert_eq!(
        mic.format,
        PcmFormat::new(16_000, 1, SampleFormat::I16).unwrap()
    );
    assert_eq!(PdmStream::new(0).err(), Some(Error::InvalidGeometry));
    assert_eq!(mic.begin(641).err(), Some(Error::InvalidGeometry));
    assert_eq!(mic.begin(0).err(), Some(Error::InvalidGeometry));
    let mut fill = mic.begin(640).unwrap();
    mic.took(&mut fill, 400).unwrap();
    assert!(!fill.is_full());
    assert_eq!(mic.took(&mut fill, 0), Err(Error::Timeout));
    mic.took(&mut fill, 240).unwrap();
    assert!(fill.is_full());
    assert_eq!((mic.blocks, mic.short_reads, mic.timeout_ms), (1, 1, 1000));
    mic.set_timeout_ms(50);
    assert_eq!(mic.timeout_ms, 50);
}
