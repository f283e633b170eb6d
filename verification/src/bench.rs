//! The microphone bench: what a measuring pass counts, what a dump collects,
//! and the lines it is dumped as.

use vstd::prelude::*;

use crate::esp_core::pcm::PcmFormat;
use crate::level::Level;
use crate::net::pieces;

verus! {

/// Bytes that one line of a dump shows.
pub const BYTES_PER_LINE: usize = 64;

/// Blocks between two reports of a stream.
pub const REPORT_EVERY: u64 = 50;

/// The bits of plus infinity.
pub const ABOVE_ALL: u32 = 0x7F80_0000;

/// The bits of minus infinity.
pub const BELOW_ALL: u32 = 0xFF80_0000;

/// What came of reading one block and running it through the front end.
#[derive(Debug, Clone, Copy, PartialEq, Eq, Structural)]
pub enum Reading {
    /// The microphone reported an error.
    Failed,
    /// The front end produced nothing for the block.
    Empty,
    /// A block of this level and peak.
    Block {
        /// RMS level.
        level: Level,
        /// Largest magnitude; 32 768 is full scale.
        peak: u16,
    },
}

/// What a measuring pass has seen. Counts wrap.
#[derive(Debug, Clone, Copy, PartialEq, Eq, Structural)]
pub struct Tally {
    /// Blocks that came out of the front end.
    pub blocks: u64,
    /// Reads that failed.
    pub errors: u64,
    /// Blocks for which nothing came out.
    pub empty: u64,
    /// The quietest level.
    pub level_min: Level,
    /// The loudest level.
    pub level_max: Level,
    /// The highest peak. RMS hides clipping, and make-up gain is where clipping
    /// appears.
    pub peak_max: u16,
}

impl Tally {
    /// Nothing seen.
    pub open spec fn fresh() -> Tally {
        Tally {
            blocks: 0,
            errors: 0,
            empty: 0,
            level_min: Level { bits: ABOVE_ALL },
            level_max: Level { bits: BELOW_ALL },
            peak_max: 0,
        }
    }

    /// The tally after one more reading.
    pub open spec fn after(self, reading: Reading) -> Tally {
        match reading {
            Reading::Failed => Tally { errors: self.errors.wrapping_add(1), ..self },
            Reading::Empty => Tally { empty: self.empty.wrapping_add(1), ..self },
            Reading::Block { level, peak } => Tally {
                blocks: self.blocks.wrapping_add(1),
                level_min: if self.level_min.reaches(level) {
                    level
                } else {
                    self.level_min
                },
                level_max: if level.reaches(self.level_max) {
                    level
                } else {
                    self.level_max
                },
                peak_max: if peak > self.peak_max {
                    peak
                } else {
                    self.peak_max
                },
                ..self
            },
        }
    }

    /// The tally after these readings.
    pub open spec fn after_all(self, readings: Seq<Reading>) -> Tally
        decreases readings.len(),
    {
        if readings.len() == 0 {
            self
        } else {
            self.after_all(readings.drop_last()).after(readings.last())
        }
    }

    /// Nothing seen.
    pub fn new() -> (r: Self)
        ensures
            r == Tally::fresh(),
    {
        Tally {
            blocks: 0,
            errors: 0,
            empty: 0,
            level_min: Level { bits: ABOVE_ALL },
            level_max: Level { bits: BELOW_ALL },
            peak_max: 0,
        }
    }

    /// Count one reading.
    pub fn note(&mut self, reading: Reading)
        ensures
            *final(self) == old(self).after(reading),
    {
        match reading {
            Reading::Failed => {
                self.errors = self.errors.wrapping_add(1);
            },
            Reading::Empty => {
                self.empty = self.empty.wrapping_add(1);
            },
            Reading::Block { level, peak } => {
                if self.level_min.at_least(level) {
                    self.level_min = level;
                }
                if level.at_least(self.level_max) {
                    self.level_max = level;
                }
                if peak > self.peak_max {
                    self.peak_max = peak;
                }
                self.blocks = self.blocks.wrapping_add(1);
            },
        }
    }

    /// Sample frames in the blocks counted, each of `block_bytes`.
    pub fn samples(&self, block_bytes: usize, format: PcmFormat) -> (r: u64)
        requires
            format.channels > 0,
            self.blocks * block_bytes <= u64::MAX,
        ensures
            r == self.blocks * block_bytes / format.frame_width() as int,
    {
        self.blocks * block_bytes as u64 / format.frame_bytes() as u64
    }
}

/// Every level that was a number lies between the extremes, and no peak is
/// above the highest.
pub proof fn lemma_extremes(readings: Seq<Reading>, k: int)
    requires
        0 <= k < readings.len(),
        readings[k] is Block,
        readings[k]->level.is_number(),
    ensures
        ({
            let tally = Tally::fresh().after_all(readings);
            &&& readings[k]->level.reaches(tally.level_min)
            &&& tally.level_max.reaches(readings[k]->level)
            &&& tally.peak_max >= readings[k]->peak
        }),
    decreases readings.len(),
{
    lemma_extremes_are_numbers(readings.drop_last());
    if k < readings.len() - 1 {
        assert(readings.drop_last()[k] == readings[k]);
        lemma_extremes(readings.drop_last(), k);
    }
}

proof fn lemma_extremes_are_numbers(readings: Seq<Reading>)
    ensures
        Tally::fresh().after_all(readings).level_min.is_number(),
        Tally::fresh().after_all(readings).level_max.is_number(),
    decreases readings.len(),
{
    if readings.len() > 0 {
        lemma_extremes_are_numbers(readings.drop_last());
    }
}

/// What a live stream has sent. Counts wrap.
#[derive(Debug, Clone, Copy, PartialEq, Eq, Structural)]
pub struct StreamTally {
    /// Blocks handed to the sender.
    pub blocks: u64,
    /// Blocks it did not send.
    pub dropped: u64,
}

impl StreamTally {
    /// Count one block; whether a report is due.
    pub fn note(&mut self, sent: bool) -> (r: bool)
        ensures
            final(self).blocks == old(self).blocks.wrapping_add(1),
            final(self).dropped == (if sent {
                old(self).dropped
            } else {
                old(self).dropped.wrapping_add(1)
            }),
            r <==> final(self).blocks % REPORT_EVERY == 0,
    {
        if !sent {
            self.dropped = self.dropped.wrapping_add(1);
        }
        self.blocks = self.blocks.wrapping_add(1);
        self.blocks % REPORT_EVERY == 0
    }
}

/// Bytes in `secs` seconds of `format`.
pub fn dump_bytes(secs: usize, format: PcmFormat) -> (r: usize)
    requires
        secs * format.sample_rate_hz <= usize::MAX,
        format.sample_rate_hz <= usize::MAX,
        secs * format.sample_rate_hz * format.frame_width() <= usize::MAX,
    ensures
        r == secs * format.sample_rate_hz * format.frame_width(),
{
    secs * format.sample_rate_hz as usize * format.frame_bytes()
}

/// Append as much of `data` as is still wanted.
pub fn collect(pcm: &mut Vec<u8>, want: usize, data: &[u8])
    requires
        old(pcm)@.len() <= want,
    ensures
        final(pcm)@ == old(pcm)@ + data@.take(
            if want - old(pcm)@.len() < data@.len() {
                want - old(pcm)@.len()
            } else {
                data@.len() as int
            },
        ),
{
    let ghost before = pcm@;
    let missing: usize = want - pcm.len();
    let n: usize = if missing < data.len() {
        missing
    } else {
        data.len()
    };
    let mut i: usize = 0;
    while i < n
        invariant
            i <= n <= data@.len(),
            pcm@ == before + data@.take(i as int),
        decreases n - i,
    {
        pcm.push(data[i]);
        assert(data@.take(i + 1) =~= data@.take(i as int).push(data@[i as int]));
        i += 1;
    }
}

/// The lower-case hexadecimal digit of a number below sixteen, in ASCII.
pub open spec fn digit(v: int) -> u8 {
    if v < 10 {
        (48 + v) as u8
    } else {
        (87 + v) as u8
    }
}

/// What a lower-case hexadecimal digit stands for.
pub open spec fn digit_value(d: u8) -> int {
    if d < 58 {
        d - 48
    } else {
        d - 87
    }
}

/// Two digits for every byte.
pub open spec fn hex(bytes: Seq<u8>) -> Seq<u8> {
    Seq::new(
        2 * bytes.len(),
        |i: int|
            if i % 2 == 0 {
                digit(bytes[i / 2] as int / 16)
            } else {
                digit(bytes[i / 2] as int % 16)
            },
    )
}

/// The bytes that lines of digits show.
pub open spec fn unhex(line: Seq<u8>) -> Seq<u8> {
    Seq::new(
        line.len() / 2,
        |i: int| (16 * digit_value(line[2 * i]) + digit_value(line[2 * i + 1])) as u8,
    )
}

/// A line of a dump tells its bytes.
pub proof fn lemma_hex_tells_the_bytes(bytes: Seq<u8>)
    ensures
        unhex(hex(bytes)) == bytes,
{
    assert forall|i: int| 0 <= i < bytes.len() implies unhex(hex(bytes))[i] == bytes[i] by {
        assert((2 * i) % 2 == 0 && (2 * i) / 2 == i);
        assert((2 * i + 1) % 2 == 1 && (2 * i + 1) / 2 == i);
        assert(hex(bytes)[2 * i] == digit(bytes[i] as int / 16));
        assert(hex(bytes)[2 * i + 1] == digit(bytes[i] as int % 16));
    }
    assert(unhex(hex(bytes)) =~= bytes);
}

fn hex_digit(v: u8) -> (r: u8)
    requires
        v < 16,
    ensures
        r == digit(v as int),
{
    if v < 10 {
        48 + v
    } else {
        87 + v
    }
}

/// `bytes` as lower-case hexadecimal digits.
pub fn hex_line(bytes: &[u8]) -> (r: Vec<u8>)
    ensures
        r@ == hex(bytes@),
{
    let mut line: Vec<u8> = Vec::new();
    let mut i: usize = 0;
    while i < bytes.len()
        invariant
            i <= bytes@.len(),
            line@ == hex(bytes@.take(i as int)),
        decreases bytes@.len() - i,
    {
        let b: u8 = bytes[i];
        line.push(hex_digit(b / 16));
        line.push(hex_digit(b % 16));
        proof {
            let longer = hex(bytes@.take(i + 1));
            assert forall|k: int| 0 <= k < longer.len() implies longer[k] == line@[k] by {
                assert(k / 2 < i || k == 2 * i || k == 2 * i + 1);
            }
            assert(line@ =~= longer);
        }
        i += 1;
    }
    assert(bytes@.take(i as int) =~= bytes@);
    line
}

/// `bytes` as lines of hexadecimal digits, [`BYTES_PER_LINE`] bytes each.
pub fn hex_lines(bytes: &[u8]) -> (r: Vec<Vec<u8>>)
    ensures
        r@.len() == pieces(bytes@, BYTES_PER_LINE as nat).len(),
        forall|k: int|
            0 <= k < r@.len() ==> (#[trigger] r@[k])@ == hex(
                pieces(bytes@, BYTES_PER_LINE as nat)[k],
            ),
{
    let mut lines: Vec<Vec<u8>> = Vec::new();
    let mut at: usize = 0;
    let ghost all = pieces(bytes@, BYTES_PER_LINE as nat);
    proof {
        assert(bytes@.skip(0) =~= bytes@);
        assert(all.skip(0) =~= all);
    }
    while at < bytes.len()
        invariant
            at <= bytes@.len(),
            all == pieces(bytes@, BYTES_PER_LINE as nat),
            lines@.len() <= all.len(),
            all.skip(lines@.len() as int) == pieces(bytes@.skip(at as int), BYTES_PER_LINE as nat),
            forall|k: int| 0 <= k < lines@.len() ==> (#[trigger] lines@[k])@ == hex(all[k]),
        decreases bytes@.len() - at,
    {
        let left: usize = bytes.len() - at;
        let n: usize = if left < BYTES_PER_LINE {
            left
        } else {
            BYTES_PER_LINE
        };
        let ghost rest = bytes@.skip(at as int);
        let ghost done = lines@.len() as int;
        let part: &[u8] = vstd::slice::slice_subrange(bytes, at, at + n);
        proof {
            let behind = pieces(rest, BYTES_PER_LINE as nat);
            assert(part@ =~= rest.take(n as int));
            assert(bytes@.skip(at + n) =~= rest.skip(n as int));
            assert(behind.len() > 0 && behind[0] =~= part@);
            assert(all[done] == behind[0]);
            assert(all.skip(done + 1) =~= behind.skip(1));
            if left <= BYTES_PER_LINE {
                assert(behind.skip(1) =~= Seq::<Seq<u8>>::empty());
                assert(rest.skip(n as int).len() == 0);
            } else {
                assert(behind.skip(1) =~= pieces(rest.skip(n as int), BYTES_PER_LINE as nat));
            }
        }
        lines.push(hex_line(part));
        at = at + n;
    }
    assert(bytes@.skip(at as int).len() == 0);
    lines
}

/// How many of the readings were blocks, failures, or blocks of which nothing
/// came.
pub open spec fn how_many(readings: Seq<Reading>, which: spec_fn(Reading) -> bool) -> nat {
    readings.filter(which).len()
}

/// A pass counts every reading once, as what it was. The extremes are levels and
/// peaks that occurred, or what they began as.
pub proof fn lemma_pass_counts(readings: Seq<Reading>)
    requires
        readings.len() < u64::MAX,
    ensures
        ({
            let tally = Tally::fresh().after_all(readings);
            &&& tally.blocks == how_many(readings, |r: Reading| r is Block)
            &&& tally.errors == how_many(readings, |r: Reading| r is Failed)
            &&& tally.empty == how_many(readings, |r: Reading| r is Empty)
            &&& tally.blocks + tally.errors + tally.empty == readings.len()
            &&& tally.level_min.bits == 0x7F80_0000 || exists|k: int|
                0 <= k < readings.len() && (#[trigger] readings[k]) is Block && readings[k]->level
                    == tally.level_min
            &&& tally.level_max.bits == 0xFF80_0000 || exists|k: int|
                0 <= k < readings.len() && (#[trigger] readings[k]) is Block && readings[k]->level
                    == tally.level_max
            &&& tally.peak_max == 0 || exists|k: int|
                0 <= k < readings.len() && (#[trigger] readings[k]) is Block && readings[k]->peak
                    == tally.peak_max
        }),
    decreases readings.len(),
{
    reveal(Seq::filter);
    if readings.len() > 0 {
        let fewer = readings.drop_last();
        lemma_pass_counts(fewer);
        let before = Tally::fresh().after_all(fewer);
        let tally = Tally::fresh().after_all(readings);
        let n = readings.len() - 1;
        assert(readings[n] == readings.last());
        if exists|k: int|
            0 <= k < fewer.len() && (#[trigger] fewer[k]) is Block && fewer[k]->level
                == before.level_min {
            let k = choose|k: int|
                0 <= k < fewer.len() && (#[trigger] fewer[k]) is Block && fewer[k]->level
                    == before.level_min;
            assert(readings[k] == fewer[k]);
        }
        if exists|k: int|
            0 <= k < fewer.len() && (#[trigger] fewer[k]) is Block && fewer[k]->level
                == before.level_max {
            let k = choose|k: int|
                0 <= k < fewer.len() && (#[trigger] fewer[k]) is Block && fewer[k]->level
                    == before.level_max;
            assert(readings[k] == fewer[k]);
        }
        if exists|k: int|
            0 <= k < fewer.len() && (#[trigger] fewer[k]) is Block && fewer[k]->peak
                == before.peak_max {
            let k = choose|k: int|
                0 <= k < fewer.len() && (#[trigger] fewer[k]) is Block && fewer[k]->peak
                    == before.peak_max;
            assert(readings[k] == fewer[k]);
        }
    }
}

/// The digits of a line: for every byte first its sixteens and then its units,
/// each as a digit from `0` to `9` or a letter from `a` to `f`.
pub proof fn lemma_digits_of_a_line(bytes: Seq<u8>, i: int)
    requires
        0 <= i < bytes.len(),
    ensures
        ({
            let line = hex(bytes);
            let (high, low) = (line[2 * i], line[2 * i + 1]);
            let (sixteens, units) = (bytes[i] / 16, bytes[i] % 16);
            &&& line.len() == 2 * bytes.len()
            &&& sixteens < 10 ==> high == '0' as u8 + sixteens
            &&& sixteens >= 10 ==> high == 'a' as u8 + (sixteens - 10)
            &&& units < 10 ==> low == '0' as u8 + units
            &&& units >= 10 ==> low == 'a' as u8 + (units - 10)
        }),
{
    assert((2 * i) % 2 == 0 && (2 * i) / 2 == i);
    assert((2 * i + 1) % 2 == 1 && (2 * i + 1) / 2 == i);
}

} // verus!
