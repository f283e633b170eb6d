//! [`EnergyVad`]: a block-energy voice activity detector with hangover.

use vstd::prelude::*;

use super::{i16_few_channels, require_i16, require_room, room_for, wrote};
use crate::bytes::{copy_front, overwritten};
use crate::esp_core::error::{Error, Result};
use crate::esp_core::pcm::{BlockView, PcmBlock, PcmFormat, SampleFormat};
use crate::level::{is_measurable, measurable, rms_bits, rms_dbfs_i16, Level};
use crate::pipeline::{act_alike, keeps_its_bound, Element};

verus! {

/// The bits of -45, the voice threshold.
pub const VOICE_THRESHOLD: u32 = 0xC234_0000;

/// How the detector decides.
#[derive(Debug, Clone, Copy, PartialEq, Eq, Structural)]
pub struct VadConfig {
    /// A block at or above this RMS level (dBFS) is speech.
    pub threshold_dbfs: Level,
    /// After the last speech block, stay "speaking" for this many more blocks.
    pub hangover_blocks: u32,
    /// When true, blocks judged silent are emitted as digital silence;
    /// otherwise every block passes through unchanged.
    pub gate: bool,
}

impl VadConfig {
    /// -45 dBFS, 10 blocks of hangover (200 ms at 20 ms), no gating.
    pub open spec fn for_voice() -> VadConfig {
        VadConfig {
            threshold_dbfs: Level { bits: VOICE_THRESHOLD },
            hangover_blocks: 10,
            gate: false,
        }
    }

    /// -45 dBFS, 10 blocks of hangover (200 ms at 20 ms), no gating.
    pub fn voice() -> (r: VadConfig)
        ensures
            r == VadConfig::for_voice(),
    {
        VadConfig {
            threshold_dbfs: Level { bits: VOICE_THRESHOLD },
            hangover_blocks: 10,
            gate: false,
        }
    }
}

impl Default for VadConfig {
    fn default() -> (r: Self)
        ensures
            r == VadConfig::for_voice(),
    {
        VadConfig::voice()
    }
}

/// The detector. Read [`is_speech`](Self::is_speech) after each block.
#[derive(Debug, Clone, Copy, PartialEq, Eq, Structural)]
pub struct EnergyVad {
    /// The configuration.
    pub cfg: VadConfig,
    /// Blocks of hangover left.
    pub hang: u32,
    /// Whether the last block was judged speech.
    pub speech: bool,
    /// Level of the last block in dBFS.
    pub last_level_dbfs: Level,
    /// Blocks seen; the count wraps.
    pub blocks: u64,
    /// Blocks reported as speech (including hangover); the count wraps.
    pub speech_blocks: u64,
}

/// One more, wrapping.
pub open spec fn counted(n: u64) -> u64 {
    if n == u64::MAX {
        0
    } else {
        (n + 1) as u64
    }
}

impl EnergyVad {
    /// A detector that has seen nothing.
    pub open spec fn fresh(cfg: VadConfig) -> EnergyVad {
        EnergyVad {
            cfg,
            hang: 0,
            speech: false,
            last_level_dbfs: Level::floor(),
            blocks: 0,
            speech_blocks: 0,
        }
    }

    /// Whether a block of this level is reported as speech: it is loud, or the
    /// hangover of a loud one is not over.
    pub open spec fn hears(self, level_dbfs: Level) -> bool {
        level_dbfs.reaches(self.cfg.threshold_dbfs) || self.hang > 0
    }

    /// The detector after a block of this level.
    pub open spec fn after(self, level_dbfs: Level) -> EnergyVad {
        EnergyVad {
            cfg: self.cfg,
            hang: if level_dbfs.reaches(self.cfg.threshold_dbfs) {
                self.cfg.hangover_blocks
            } else if self.hang > 0 {
                (self.hang - 1) as u32
            } else {
                0
            },
            speech: self.hears(level_dbfs),
            last_level_dbfs: level_dbfs,
            blocks: counted(self.blocks),
            speech_blocks: if self.hears(level_dbfs) {
                counted(self.speech_blocks)
            } else {
                self.speech_blocks
            },
        }
    }

    /// The detector after blocks of these levels.
    pub open spec fn after_all(self, levels: Seq<Level>) -> EnergyVad
        decreases levels.len(),
    {
        if levels.len() == 0 {
            self
        } else {
            self.after_all(levels.drop_last()).after(levels.last())
        }
    }

    /// A detector with `cfg`.
    pub fn new(cfg: VadConfig) -> (r: Self)
        ensures
            r == EnergyVad::fresh(cfg),
    {
        EnergyVad {
            cfg,
            hang: 0,
            speech: false,
            last_level_dbfs: Level::silence(),
            blocks: 0,
            speech_blocks: 0,
        }
    }

    /// Whether the last block was judged speech (or inside the hangover).
    pub fn is_speech(&self) -> (r: bool)
        ensures
            r == self.speech,
    {
        self.speech
    }

    /// The configuration.
    pub fn config(&self) -> (r: &VadConfig)
        ensures
            *r == self.cfg,
    {
        &self.cfg
    }

    /// Judge one block's level; returns the decision.
    pub fn judge(&mut self, level_dbfs: Level) -> (r: bool)
        ensures
            *final(self) == old(self).after(level_dbfs),
            r == old(self).hears(level_dbfs),
    {
        self.blocks = self.blocks.wrapping_add(1);
        self.last_level_dbfs = level_dbfs;
        if level_dbfs.at_least(self.cfg.threshold_dbfs) {
            self.hang = self.cfg.hangover_blocks;
            self.speech = true;
        } else if self.hang > 0 {
            self.hang -= 1;
            self.speech = true;
        } else {
            self.speech = false;
        }
        if self.speech {
            self.speech_blocks = self.speech_blocks.wrapping_add(1);
        }
        self.speech
    }

    /// What is written for a block of this level: the block itself, or silence
    /// where the detector gates and heard none.
    pub open spec fn passes(self, data: Seq<u8>, level_dbfs: Level) -> Seq<u8> {
        if self.cfg.gate && !self.hears(level_dbfs) {
            Seq::new(data.len(), |i: int| 0u8)
        } else {
            data
        }
    }

    /// What the element writes for `input` of a given level into a buffer of
    /// `room` bytes.
    pub open spec fn emits(self, input: BlockView, level_dbfs: Level, room: nat) -> Result<
        Seq<u8>,
    > {
        match i16_few_channels(input.format) {
            Err(e) => Err(e),
            Ok(_) => match room_for(room, input.data.len()) {
                Err(e) => Err(e),
                Ok(_) => Ok(self.passes(input.data, level_dbfs)),
            },
        }
    }

    /// Judge a block of the given level and pass it on or gate it.
    pub fn process_at(&mut self, input: PcmBlock<'_>, level_dbfs: Level, out: &mut [u8]) -> (r:
        Result<usize>)
        ensures
            wrote(
                old(self).emits(input@, level_dbfs, old(out)@.len()),
                old(out)@,
                r,
                final(out)@,
            ),
            *final(self) == (if r is Ok {
                old(self).after(level_dbfs)
            } else {
                *old(self)
            }),
    {
        require_i16(input.format)?;
        require_room(out, input.data.len())?;
        let speech: bool = self.judge(level_dbfs);
        let n: usize = input.data.len();
        if self.cfg.gate && !speech {
            fill_silence(out, n);
        } else {
            copy_front(out, input.data);
        }
        Ok(n)
    }
}

/// Clear the first `n` bytes.
fn fill_silence(out: &mut [u8], n: usize)
    requires
        n <= old(out)@.len(),
    ensures
        final(out)@ == overwritten(old(out)@, Seq::new(n as nat, |i: int| 0u8)),
{
    let ghost before = out@;
    let mut i: usize = 0;
    while i < n
        invariant
            i <= n,
            n <= out@.len() == before.len(),
            forall|j: int| 0 <= j < i ==> out@[j] == 0,
            forall|j: int| i <= j < out@.len() ==> out@[j] == before[j],
        decreases n - i,
    {
        out[i] = 0;
        i += 1;
    }
    assert(out@ =~= overwritten(before, Seq::new(n as nat, |i: int| 0u8)));
}

impl Default for EnergyVad {
    fn default() -> (r: Self)
        ensures
            r == EnergyVad::fresh(VadConfig::for_voice()),
    {
        EnergyVad::new(VadConfig::voice())
    }
}

impl EnergyVad {
    /// What the element writes for `input` into a buffer of `room` bytes, and
    /// whether it hears it: a block too long and loud to be measured is refused.
    pub open spec fn hears_block(self, input: BlockView, room: nat) -> Result<Seq<u8>> {
        match self.emits(input, level_of(input), room) {
            Err(e) => Err(e),
            Ok(bytes) => if measurable(input.data) {
                Ok(bytes)
            } else {
                Err(Error::Unsupported)
            },
        }
    }
}

/// The level of a block.
pub open spec fn level_of(input: BlockView) -> Level {
    Level { bits: rms_bits(input.data) }
}

impl Element for EnergyVad {
    open spec fn settings(&self) -> Seq<int> {
        seq![
            self.cfg.threshold_dbfs.bits as int,
            self.cfg.hangover_blocks as int,
            self.cfg.gate as int,
        ]
    }

    open spec fn format_out(&self, input: PcmFormat) -> Result<PcmFormat> {
        match i16_few_channels(input) {
            Err(e) => Err(e),
            Ok(_) => Ok(input),
        }
    }

    open spec fn room(&self, input: PcmFormat, input_bytes: usize) -> usize {
        input_bytes
    }

    open spec fn memory(&self) -> Seq<int> {
        seq![
            self.hang as int,
            self.speech as int,
            self.last_level_dbfs.bits as int,
            self.blocks as int,
            self.speech_blocks as int,
        ]
    }

    open spec fn fresh_memory(&self) -> Seq<int> {
        self.memory().update(0, 0).update(1, 0)
    }

    open spec fn step(
        &self,
        input: BlockView,
        before: Seq<u8>,
        r: Result<usize>,
        after: Seq<u8>,
        memory: Seq<int>,
    ) -> bool {
        &&& wrote(self.hears_block(input, before.len()), before, r, after)
        &&& memory == if r is Ok {
            self.after(level_of(input)).memory()
        } else {
            self.memory()
        }
    }

    fn output_format(&self, input: PcmFormat) -> (r: Result<PcmFormat>) {
        require_i16(input)?;
        Ok(input)
    }

    fn max_output_bytes(&self, _input: PcmFormat, input_bytes: usize) -> (r: usize) {
        input_bytes
    }

    fn process(&mut self, input: PcmBlock<'_>, out: &mut [u8]) -> (r: Result<usize>)
        ensures
            *final(self) == (if r is Ok {
                old(self).after(level_of(input@))
            } else {
                *old(self)
            }),
    {
        require_i16(input.format)?;
        require_room(out, input.data.len())?;
        if !is_measurable(input.data) {
            return Err(Error::Unsupported);
        }
        let level: Level = rms_dbfs_i16(input.data);
        self.process_at(input, level, out)
    }

    fn reset(&mut self)
        ensures
            *final(self) == (EnergyVad { hang: 0, speech: false, ..*old(self) }),
    {
        self.hang = 0;
        self.speech = false;
    }
}

/// After a loud block the detector reports speech for exactly as many quiet
/// blocks as the hangover says, and silence from then on.
pub proof fn lemma_hangover(vad: EnergyVad, loud: Level, quiet: Seq<Level>, next: Level)
    requires
        loud.reaches(vad.cfg.threshold_dbfs),
        forall|i: int| 0 <= i < quiet.len() ==> !(#[trigger] quiet[i]).reaches(
            vad.cfg.threshold_dbfs,
        ),
        !next.reaches(vad.cfg.threshold_dbfs),
    ensures
        vad.after(loud).speech,
        vad.after(loud).after_all(quiet).hears(next) <==> quiet.len() < vad.cfg.hangover_blocks,
{
    lemma_hangover_left(vad.after(loud), quiet);
}

/// Quiet blocks use the hangover up one by one.
proof fn lemma_hangover_left(vad: EnergyVad, quiet: Seq<Level>)
    requires
        forall|i: int| 0 <= i < quiet.len() ==> !(#[trigger] quiet[i]).reaches(
            vad.cfg.threshold_dbfs,
        ),
    ensures
        vad.after_all(quiet).cfg == vad.cfg,
        vad.after_all(quiet).hang == (if quiet.len() >= vad.hang {
            0
        } else {
            vad.hang - quiet.len()
        }),
    decreases quiet.len(),
{
    if quiet.len() > 0 {
        lemma_hangover_left(vad, quiet.drop_last());
    }
}

/// One of the last `d` of the first `n` blocks was loud.
pub open spec fn loud_lately(levels: Seq<Level>, threshold: Level, n: int, d: int) -> bool {
    exists|i: int|
        0 <= i && n - d <= i < n && #[trigger] levels[i].reaches(threshold)
}

/// From the start or a reset on, a block is reported as speech exactly if it or one of the
/// blocks before it, no more of them than the hangover says, was loud.
pub proof fn lemma_speech_is_loud_lately(vad: EnergyVad, levels: Seq<Level>)
    requires
        vad.hang == 0,
        levels.len() > 0,
    ensures
        vad.after_all(levels).speech <==> loud_lately(
            levels,
            vad.cfg.threshold_dbfs,
            levels.len() as int,
            vad.cfg.hangover_blocks + 1,
        ),
{
    let n = levels.len() as int;
    let fewer = levels.drop_last();
    let h = vad.cfg.hangover_blocks as int;
    let t = vad.cfg.threshold_dbfs;
    lemma_hangover_counts(vad, fewer);
    if loud_lately(fewer, t, n - 1, h) {
        let i = choose|i: int| 0 <= i && n - 1 - h <= i < n - 1 && #[trigger] fewer[i].reaches(t);
        assert(levels[i].reaches(t));
    }
    if loud_lately(levels, t, n, h + 1) {
        let i = choose|i: int| 0 <= i && n - (h + 1) <= i < n && #[trigger] levels[i].reaches(t);
        if i < n - 1 {
            assert(fewer[i].reaches(t));
        }
    }
    if levels.last().reaches(t) {
        assert(levels[n - 1].reaches(t));
    }
}

/// The hangover left tells how long ago a block was loud.
proof fn lemma_hangover_counts(vad: EnergyVad, levels: Seq<Level>)
    requires
        vad.hang == 0,
    ensures
        ({
            let now = vad.after_all(levels);
            &&& now.cfg == vad.cfg
            &&& now.hang <= vad.cfg.hangover_blocks
            &&& forall|d: int|
                0 < d <= vad.cfg.hangover_blocks ==> (now.hang > vad.cfg.hangover_blocks - d
                    <==> #[trigger] loud_lately(
                    levels,
                    vad.cfg.threshold_dbfs,
                    levels.len() as int,
                    d,
                ))
        }),
    decreases levels.len(),
{
    let h = vad.cfg.hangover_blocks as int;
    let t = vad.cfg.threshold_dbfs;
    let n = levels.len() as int;
    if n > 0 {
        let fewer = levels.drop_last();
        lemma_hangover_counts(vad, fewer);
        let before = vad.after_all(fewer);
        let now = vad.after_all(levels);
        assert forall|d: int| 0 < d <= h implies (now.hang > h - d <==> #[trigger] loud_lately(
            levels,
            t,
            n,
            d,
        )) by {
            if levels.last().reaches(t) {
                assert(levels[n - 1].reaches(t));
            } else {
                if loud_lately(levels, t, n, d) {
                    let i = choose|i: int|
                        0 <= i && n - d <= i < n && #[trigger] levels[i].reaches(t);
                    assert(fewer[i].reaches(t));
                    assert(d > 1);
                    assert(loud_lately(fewer, t, n - 1, d - 1));
                }
                if d > 1 && loud_lately(fewer, t, n - 1, d - 1) {
                    let i = choose|i: int|
                        0 <= i && n - 1 - (d - 1) <= i < n - 1 && #[trigger] fewer[i].reaches(t);
                    assert(levels[i].reaches(t));
                }
                if d > 1 {
                    assert(before.hang > h - (d - 1) <==> loud_lately(fewer, t, n - 1, d - 1));
                }
            }
        }
    }
}

/// How many of the first `n` blocks are, or come no more than `d` blocks after, a
/// loud one.
pub open spec fn loud_lately_among(levels: Seq<Level>, threshold: Level, n: nat, d: int) -> nat
    decreases n,
{
    if n == 0 {
        0
    } else {
        loud_lately_among(levels, threshold, (n - 1) as nat, d) + if loud_lately(
            levels,
            threshold,
            n as int,
            d + 1,
        ) {
            1nat
        } else {
            0nat
        }
    }
}

/// From a fresh start the detector counts every block, and as speech exactly
/// those that are loud or follow a loud one within the hangover.
pub proof fn lemma_counts_from_the_start(cfg: VadConfig, levels: Seq<Level>)
    requires
        levels.len() <= u64::MAX,
    ensures
        EnergyVad::fresh(cfg).after_all(levels).blocks == levels.len(),
        EnergyVad::fresh(cfg).after_all(levels).speech_blocks == loud_lately_among(
            levels,
            cfg.threshold_dbfs,
            levels.len(),
            cfg.hangover_blocks as int,
        ),
        loud_lately_among(
            levels,
            cfg.threshold_dbfs,
            levels.len(),
            cfg.hangover_blocks as int,
        ) <= levels.len(),
    decreases levels.len(),
{
    if levels.len() > 0 {
        let vad = EnergyVad::fresh(cfg);
        let fewer = levels.drop_last();
        lemma_counts_from_the_start(cfg, fewer);
        lemma_speech_is_loud_lately(vad, levels);
        lemma_later_blocks_do_not_count(
            levels,
            cfg.threshold_dbfs,
            fewer.len(),
            cfg.hangover_blocks as int,
        );
    }
}

/// What is loud among the first blocks does not depend on the last one.
proof fn lemma_later_blocks_do_not_count(levels: Seq<Level>, threshold: Level, n: nat, d: int)
    requires
        n < levels.len(),
    ensures
        loud_lately_among(levels.drop_last(), threshold, n, d) == loud_lately_among(
            levels,
            threshold,
            n,
            d,
        ),
    decreases n,
{
    if n > 0 {
        let fewer = levels.drop_last();
        let m = n as int;
        lemma_later_blocks_do_not_count(levels, threshold, (n - 1) as nat, d);
        if loud_lately(levels, threshold, m, d + 1) {
            let i = choose|i: int|
                0 <= i && m - (d + 1) <= i < m && #[trigger] levels[i].reaches(threshold);
            assert(fewer[i].reaches(threshold));
        }
        if loud_lately(fewer, threshold, m, d + 1) {
            let i = choose|i: int|
                0 <= i && m - (d + 1) <= i < m && #[trigger] fewer[i].reaches(threshold);
            assert(levels[i].reaches(threshold));
        }
    }
}

/// Where the detector does not gate, and on every block reported as speech, the block passes
/// through unchanged.
pub proof fn lemma_speech_passes(vad: EnergyVad, data: Seq<u8>, level: Level)
    requires
        !vad.cfg.gate || vad.hears(level),
    ensures
        vad.passes(data, level) == data,
{
}

/// No block comes out larger than it went in.
pub proof fn lemma_vad_keeps_its_bound(vad: EnergyVad)
    ensures
        keeps_its_bound(&vad),
{
}

/// What the element does with a block is settled by its settings and memory.
pub proof fn lemma_vad_acts_by_its_settings(a: EnergyVad, b: EnergyVad)
    requires
        a.settings() == b.settings(),
        a.memory() == b.memory(),
    ensures
        act_alike(&a, &b),
{
    assert(a.settings()[0] == b.settings()[0]);
    assert(a.settings()[1] == b.settings()[1]);
    assert(a.settings()[2] == b.settings()[2]);
    assert(a.memory()[0] == b.memory()[0]);
    assert(a.memory()[1] == b.memory()[1]);
    assert(a.memory()[2] == b.memory()[2]);
    assert(a.memory()[3] == b.memory()[3]);
    assert(a.memory()[4] == b.memory()[4]);
    assert(a == b);
}

/// What comes of a block that the detector judged. Where it gates, and neither
/// this block nor one of the last few within the hangover was loud, every byte
/// written is zero; otherwise every byte written is the block's. What lies behind
/// them in the buffer stays.
pub proof fn lemma_gated_or_passed(
    vad: EnergyVad,
    input: BlockView,
    level: Level,
    before: Seq<u8>,
    r: Result<usize>,
    after: Seq<u8>,
)
    requires
        wrote(vad.emits(input, level, before.len()), before, r, after),
    ensures
        r is Ok <==> input.format.sample == SampleFormat::I16 && input.format.channels <= 2
            && before.len() >= input.data.len(),
        r is Err ==> after == before,
        r is Ok ==> after.len() == before.len() && (input.data.len() <= usize::MAX ==> r == Ok::<
            usize,
            Error,
        >(input.data.len() as usize)),
        r is Ok && vad.cfg.gate && vad.hang == 0 && !level.reaches(vad.cfg.threshold_dbfs)
            ==> forall|i: int| 0 <= i < input.data.len() ==> #[trigger] after[i] == 0,
        r is Ok && (!vad.cfg.gate || vad.hang > 0 || level.reaches(vad.cfg.threshold_dbfs))
            ==> forall|i: int| 0 <= i < input.data.len() ==> #[trigger] after[i] == input.data[i],
        r is Ok ==> forall|i: int|
            input.data.len() <= i < before.len() ==> #[trigger] after[i] == before[i],
{
}

/// A detector that gates emits silence for exactly the blocks that it does not
/// report as speech, and reports a block as speech exactly if it or one of the
/// blocks before it, no more of them than the hangover says, was loud. So from a
/// start or a reset on, the last of `levels` is silenced if no loud block is that
/// near, and else passes.
pub proof fn lemma_gate_closes_on_silence(
    vad: EnergyVad,
    levels: Seq<Level>,
    input: BlockView,
    before: Seq<u8>,
    r: Result<usize>,
    after: Seq<u8>,
)
    requires
        vad.hang == 0,
        vad.cfg.gate,
        levels.len() > 0,
        wrote(
            vad.after_all(levels.drop_last()).emits(input, levels.last(), before.len()),
            before,
            r,
            after,
        ),
        r is Ok,
    ensures
        ({
            let n = levels.len() as int;
            let near = exists|i: int|
                0 <= i < n && n - 1 - i <= vad.cfg.hangover_blocks && (
                #[trigger] levels[i]).reaches(vad.cfg.threshold_dbfs);
            &&& near <==> vad.after_all(levels).speech
            &&& !near ==> forall|i: int| 0 <= i < input.data.len() ==> #[trigger] after[i] == 0
            &&& near ==> forall|i: int|
                0 <= i < input.data.len() ==> #[trigger] after[i] == input.data[i]
        }),
{
    let n = levels.len() as int;
    let t = vad.cfg.threshold_dbfs;
    let h = vad.cfg.hangover_blocks as int;
    lemma_speech_is_loud_lately(vad, levels);
    lemma_hangover_counts(vad, levels.drop_last());
    let now = vad.after_all(levels.drop_last());
    lemma_gated_or_passed(now, input, levels.last(), before, r, after);
    if loud_lately(levels, t, n, h + 1) {
        let i = choose|i: int| 0 <= i && n - (h + 1) <= i < n && #[trigger] levels[i].reaches(t);
        assert(0 <= i < n && n - 1 - i <= h && levels[i].reaches(t));
    }
}

/// How the detector moves: a loud block fills the hangover, a quiet one uses one
/// block of it up, and a block is speech if it is loud or some hangover was left.
pub proof fn lemma_detector_moves(vad: EnergyVad, level: Level)
    ensures
        ({
            let next = vad.after(level);
            let loud = level.reaches(vad.cfg.threshold_dbfs);
            &&& next.cfg == vad.cfg
            &&& next.last_level_dbfs == level
            &&& loud ==> next.hang == vad.cfg.hangover_blocks && next.speech
            &&& !loud && vad.hang > 0 ==> next.hang == vad.hang - 1 && next.speech
            &&& !loud && vad.hang == 0 ==> next.hang == 0 && !next.speech
            &&& vad.hears(level) == next.speech
            &&& vad.blocks < u64::MAX ==> next.blocks == vad.blocks + 1
            &&& vad.speech_blocks < u64::MAX ==> next.speech_blocks == vad.speech_blocks + (
            if next.speech {
                1int
            } else {
                0
            })
        }),
{
}

/// What the element does with a block: a block of 16-bit samples in one or two
/// channels, with room for it, is judged by its own level; all else is refused and
/// leaves the detector as it was.
pub proof fn lemma_vad_block(
    vad: EnergyVad,
    input: BlockView,
    before: Seq<u8>,
    r: Result<usize>,
    after: Seq<u8>,
    memory: Seq<int>,
)
    requires
        vad.step(input, before, r, after, memory),
    ensures
        r is Ok <==> input.format.sample == SampleFormat::I16 && input.format.channels <= 2
            && before.len() >= input.data.len() && measurable(input.data),
        r is Err ==> after == before && memory == vad.memory(),
        r is Ok ==> wrote(
            vad.emits(input, Level { bits: rms_bits(input.data) }, before.len()),
            before,
            r,
            after,
        ),
        r is Ok ==> memory == vad.after(Level { bits: rms_bits(input.data) }).memory(),
{
}

/// The voice defaults: -45 dBFS, as the bits of that number, ten blocks, no gate.
pub proof fn lemma_voice_defaults()
    ensures
        ({
            let bits = VadConfig::for_voice().threshold_dbfs.bits as int;
            // -(1 + fraction / 2^23) * 2^(exponent - 127)
            &&& bits / 0x8000_0000 == 1
            &&& (0x80_0000 + bits % 0x80_0000) * 0x20 == 45 * 0x80_0000
            &&& (bits / 0x80_0000) % 256 == 127 + 5
        }),
        VadConfig::for_voice().hangover_blocks == 10,
        !VadConfig::for_voice().gate,
{
}

} // verus!
