//! `Element` and `Pipeline`: a fixed-block chain over two halves of one caller
//! scratch buffer.
//!
//! Every element takes one block and writes its result into caller memory. The
//! pipeline ping-pongs between the two halves of `scratch`, so a chain of any
//! length needs exactly two blocks of scratch and no heap. An element may
//! change the format and may produce zero bytes for a block; the pipeline
//! reports `Ok(None)` for that block and the caller moves on.

use vstd::prelude::*;

use crate::bytes::{copy_front, overwritten};
use crate::esp_core::error::{Error, Result};
use crate::esp_core::pcm::{BlockView, PcmBlock, PcmFormat};
use crate::esp_core::time::Micros;

verus! {

/// One processing stage.
///
/// The spec functions are the stage's own account of itself; the contracts of
/// the executable methods tie the code to that account.
pub trait Element {
    /// What [`output_format`](Self::output_format) answers.
    open spec fn format_out(&self, input: PcmFormat) -> Result<PcmFormat> {
        Ok(input)
    }

    /// What [`max_output_bytes`](Self::max_output_bytes) answers.
    open spec fn room(&self, input: PcmFormat, input_bytes: usize) -> usize {
        input_bytes
    }

    /// What the stage remembers between blocks (filter memories, phases).
    open spec fn memory(&self) -> Seq<int> {
        Seq::empty()
    }

    /// The memory of the stage when it has been reset.
    open spec fn fresh_memory(&self) -> Seq<int> {
        Seq::empty()
    }

    /// What the stage was set up with (a gain, rates, a configuration): neither
    /// processing nor a reset changes it.
    open spec fn settings(&self) -> Seq<int> {
        Seq::empty()
    }

    /// Whether processing `input` into a buffer holding `before` may answer
    /// `r`, leaving the buffer holding `after` and the stage remembering
    /// `memory`. A stage that does not say may do anything.
    open spec fn step(
        &self,
        input: BlockView,
        before: Seq<u8>,
        r: Result<usize>,
        after: Seq<u8>,
        memory: Seq<int>,
    ) -> bool {
        true
    }

    /// The format this element emits for blocks in `input`, or
    /// `Err(Unsupported)` if it cannot take `input` at all.
    fn output_format(&self, input: PcmFormat) -> (r: Result<PcmFormat>)
        ensures
            r == self.format_out(input),
    ;

    /// Upper bound on the bytes [`process`](Self::process) writes for an input
    /// block of `input_bytes` bytes in `input`.
    fn max_output_bytes(&self, input: PcmFormat, input_bytes: usize) -> (r: usize)
        ensures
            r == self.room(input, input_bytes),
    ;

    /// Process one block into `out`, returning the bytes written: a whole
    /// number of output frames, possibly zero.
    fn process(&mut self, input: PcmBlock<'_>, out: &mut [u8]) -> (r: Result<usize>)
        requires
            input@.well_formed(),
        ensures
            final(out)@.len() == old(out)@.len(),
            old(self).step(input@, old(out)@, r, final(out)@, final(self).memory()),
            final(self).settings() == old(self).settings(),
            forall|f: PcmFormat| #[trigger] final(self).format_out(f) == old(self).format_out(f),
            forall|f: PcmFormat, n: usize| #[trigger]
                final(self).room(f, n) == old(self).room(f, n),
    ;

    /// Forget all state (filter memories, gains, phases).
    fn reset(&mut self)
        ensures
            final(self).memory() == old(self).fresh_memory(),
            final(self).settings() == old(self).settings(),
            forall|f: PcmFormat| #[trigger] final(self).format_out(f) == old(self).format_out(f),
            forall|f: PcmFormat, n: usize| #[trigger]
                final(self).room(f, n) == old(self).room(f, n),
    ;
}

/// One call of one stage: what it was handed and what it left.
pub struct Call {
    /// The block handed to the stage.
    pub input: BlockView,
    /// The output half before the call.
    pub before: Seq<u8>,
    /// What the call answered.
    pub result: Result<usize>,
    /// The output half after the call.
    pub after: Seq<u8>,
    /// What the stage remembers after the call.
    pub memory: Seq<int>,
}

/// How a run over the stages ended.
pub enum Ending {
    /// A block came out of the last stage.
    Block(BlockView),
    /// A stage produced nothing.
    Empty,
    /// A stage refused or failed.
    Failed(Error),
}

/// Twice `n`, or the largest size there is.
pub open spec fn twice(n: usize) -> usize {
    if 2 * n > usize::MAX {
        usize::MAX
    } else {
        (2 * n) as usize
    }
}

/// What stage `k` remembers.
pub open spec fn memory_of<'e>(stages: Seq<&'e mut dyn Element>, k: int) -> Seq<int> {
    stages[k].memory()
}

/// Stage `k` is set up as it was: its settings, the formats it emits and the
/// room it asks for are the same.
pub open spec fn same_stage<'e>(
    now: Seq<&'e mut dyn Element>,
    before: Seq<&'e mut dyn Element>,
    k: int,
) -> bool {
    &&& now[k].settings() == before[k].settings()
    &&& forall|f: PcmFormat| #[trigger] now[k].format_out(f) == before[k].format_out(f)
    &&& forall|f: PcmFormat, n: usize| #[trigger] now[k].room(f, n) == before[k].room(f, n)
}

/// The format entering stage `k` of a chain fed with `input`: each stage is
/// asked in turn, and the first refusal stands.
pub open spec fn format_at<'e>(
    stages: Seq<&'e mut dyn Element>,
    input: PcmFormat,
    k: nat,
) -> Result<PcmFormat>
    decreases k,
{
    if k == 0 {
        Ok(input)
    } else {
        match format_at(stages, input, (k - 1) as nat) {
            Ok(format) => stages[k - 1].format_out(format),
            Err(e) => Err(e),
        }
    }
}

/// The block handed to stage `k`: the input itself, or what the stage before
/// wrote.
pub open spec fn handed<'e>(
    stages: Seq<&'e mut dyn Element>,
    input: BlockView,
    calls: Seq<Call>,
    k: int,
) -> BlockView {
    if k == 0 {
        input
    } else {
        BlockView {
            format: format_at(stages, input.format, k as nat)->Ok_0,
            timestamp: input.timestamp,
            data: calls[k - 1].after.take(calls[k - 1].result->Ok_0 as int),
        }
    }
}

/// What the half that stage `k` writes holds before it does: the stages write
/// the first and the second half in turn.
pub open spec fn half_before(first: Seq<u8>, second: Seq<u8>, calls: Seq<Call>, k: int) -> Seq<u8> {
    if k == 0 {
        first
    } else if k == 1 {
        second
    } else {
        calls[k - 2].after
    }
}

/// Stage `k` takes the block handed to it: it has a format for it, and its
/// bound fits the half.
pub open spec fn admitted<'e>(
    stages: Seq<&'e mut dyn Element>,
    input: BlockView,
    calls: Seq<Call>,
    half: nat,
    k: int,
) -> bool {
    &&& format_at(stages, input.format, (k + 1) as nat) is Ok
    &&& stages[k].room(
        handed(stages, input, calls, k).format,
        handed(stages, input, calls, k).data.len() as usize,
    ) <= half
}

/// The answer of the call of stage `k` is a whole number of output frames
/// inside the half.
pub open spec fn sound_answer<'e>(
    stages: Seq<&'e mut dyn Element>,
    input: BlockView,
    calls: Seq<Call>,
    half: nat,
    k: int,
) -> bool {
    let format = format_at(stages, input.format, (k + 1) as nat)->Ok_0;
    &&& calls[k].result is Ok
    &&& calls[k].result->Ok_0 <= half
    &&& format.channels > 0
    &&& calls[k].result->Ok_0 as nat % format.frame_width() == 0
}

/// Call `k` is one of stage `k`, which took the block handed to it and wrote
/// its half; unless it is the last one, it passed a block on.
pub open spec fn call_fits<'e>(
    stages: Seq<&'e mut dyn Element>,
    input: BlockView,
    first: Seq<u8>,
    second: Seq<u8>,
    calls: Seq<Call>,
    k: int,
) -> bool {
    let call = calls[k];
    &&& call.input == handed(stages, input, calls, k)
    &&& call.before == half_before(first, second, calls, k)
    &&& admitted(stages, input, calls, first.len(), k)
    &&& stages[k].step(call.input, call.before, call.result, call.after, call.memory)
    &&& call.after.len() == call.before.len()
    &&& k + 1 < calls.len() ==> sound_answer(stages, input, calls, first.len(), k)
        && call.result->Ok_0 > 0
}

/// The calls are those of the first stages in order, each handed what the one
/// before left, and all but the last one passed a block on.
pub open spec fn connected<'e>(
    stages: Seq<&'e mut dyn Element>,
    input: BlockView,
    first: Seq<u8>,
    second: Seq<u8>,
    calls: Seq<Call>,
) -> bool {
    &&& calls.len() <= stages.len()
    &&& forall|k: int|
        0 <= k < calls.len() ==> #[trigger] call_fits(stages, input, first, second, calls, k)
}

/// The two halves after `calls`.
pub open spec fn halves(first: Seq<u8>, second: Seq<u8>, calls: Seq<Call>) -> Seq<u8> {
    let made = calls.len() as int;
    if made % 2 == 0 {
        half_before(first, second, calls, made) + half_before(first, second, calls, made + 1)
    } else {
        half_before(first, second, calls, made + 1) + half_before(first, second, calls, made)
    }
}

/// The calls are connected, and the last one passed a block on too.
#[verifier::opaque]
pub open spec fn flowing<'e>(
    stages: Seq<&'e mut dyn Element>,
    input: BlockView,
    first: Seq<u8>,
    second: Seq<u8>,
    calls: Seq<Call>,
) -> bool {
    let made = calls.len() as int;
    &&& connected(stages, input, first, second, calls)
    &&& made > 0 ==> sound_answer(stages, input, calls, first.len(), made - 1)
        && calls[made - 1].result->Ok_0 > 0
}

/// How a run that made `calls` ends.
pub open spec fn ending<'e>(
    stages: Seq<&'e mut dyn Element>,
    input: BlockView,
    calls: Seq<Call>,
    half: nat,
) -> Ending {
    let made = calls.len() as int;
    if made > 0 && calls[made - 1].result is Err {
        Ending::Failed(calls[made - 1].result->Err_0)
    } else if made > 0 && !sound_answer(stages, input, calls, half, made - 1) {
        Ending::Failed(Error::InvalidGeometry)
    } else if made > 0 && calls[made - 1].result->Ok_0 == 0 {
        Ending::Empty
    } else if made == stages.len() {
        if made == 0 && input.data.len() > half {
            Ending::Failed(Error::BufferTooSmall { needed: twice(input.data.len() as usize) })
        } else {
            Ending::Block(handed(stages, input, calls, made))
        }
    } else {
        match format_at(stages, input.format, (made + 1) as nat) {
            Err(e) => Ending::Failed(e),
            Ok(_) => Ending::Failed(
                Error::BufferTooSmall {
                    needed: twice(
                        stages[made].room(
                            handed(stages, input, calls, made).format,
                            handed(stages, input, calls, made).data.len() as usize,
                        ),
                    ),
                },
            ),
        }
    }
}

/// A run stops early only where a stage failed, answered nothing sound or
/// nothing at all, or where the next stage does not take the block.
pub open spec fn complete<'e>(
    stages: Seq<&'e mut dyn Element>,
    input: BlockView,
    calls: Seq<Call>,
    half: nat,
) -> bool {
    let made = calls.len() as int;
    ||| made == stages.len()
    ||| made > 0 && !(sound_answer(stages, input, calls, half, made - 1)
        && calls[made - 1].result->Ok_0 > 0)
    ||| !admitted(stages, input, calls, half, made)
}

/// The scratch buffer after `calls`: the two halves as the last calls left
/// them. A chain of no stages copies the input into the first half.
pub open spec fn scratch_after<'e>(
    stages: Seq<&'e mut dyn Element>,
    input: BlockView,
    first: Seq<u8>,
    second: Seq<u8>,
    calls: Seq<Call>,
) -> Seq<u8> {
    if stages.len() == 0 && input.data.len() <= first.len() {
        overwritten(first, input.data) + second
    } else {
        halves(first, second, calls)
    }
}

/// `calls` is what running `input` over `stages` with `scratch` did.
pub open spec fn ran<'e>(
    stages: Seq<&'e mut dyn Element>,
    input: BlockView,
    scratch: Seq<u8>,
    calls: Seq<Call>,
) -> bool {
    let half = scratch.len() / 2;
    &&& connected(stages, input, scratch.take(half as int), scratch.skip(half as int), calls)
    &&& complete(stages, input, calls, half)
}

/// The stages after `calls`: those called remember what the calls left, the
/// others are as they were, and all are set up as they were.
#[verifier::opaque]
pub open spec fn remembers<'e>(
    stages: Seq<&'e mut dyn Element>,
    left_stages: Seq<&'e mut dyn Element>,
    calls: Seq<Call>,
) -> bool {
    &&& left_stages.len() == stages.len()
    &&& forall|k: int|
        0 <= k < calls.len() ==> #[trigger] memory_of(left_stages, k) == calls[k].memory
    &&& forall|k: int|
        calls.len() <= k < stages.len() ==> #[trigger] left_stages[k] == stages[k]
    &&& forall|k: int| 0 <= k < stages.len() ==> #[trigger] same_stage(left_stages, stages, k)
}

/// `calls` explains an outcome: the run that made them ends so, leaves this
/// scratch buffer, and leaves the stages remembering what they do.
#[verifier::opaque]
pub open spec fn explains<'e>(
    stages: Seq<&'e mut dyn Element>,
    input: BlockView,
    scratch: Seq<u8>,
    calls: Seq<Call>,
    outcome: Ending,
    left_scratch: Seq<u8>,
    left_stages: Seq<&'e mut dyn Element>,
) -> bool {
    let half = scratch.len() / 2;
    &&& ran(stages, input, scratch, calls)
    &&& outcome == ending(stages, input, calls, half)
    &&& left_scratch == scratch_after(
        stages,
        input,
        scratch.take(half as int),
        scratch.skip(half as int),
        calls,
    )
    &&& remembers(stages, left_stages, calls)
}

/// The ending that an answer of [`Pipeline::process`] reports.
pub open spec fn reported<'b>(r: Result<Option<PcmBlock<'b>>>) -> Ending {
    match r {
        Ok(Some(block)) => Ending::Block(block@),
        Ok(None) => Ending::Empty,
        Err(e) => Ending::Failed(e),
    }
}

/// The bound on the bytes entering stage `k` of a chain fed with
/// `input_bytes` bytes of `input`.
pub open spec fn bound_at<'e>(
    stages: Seq<&'e mut dyn Element>,
    input: PcmFormat,
    input_bytes: usize,
    k: nat,
) -> usize
    decreases k,
{
    if k == 0 {
        input_bytes
    } else {
        stages[k - 1].room(
            format_at(stages, input, (k - 1) as nat)->Ok_0,
            bound_at(stages, input, input_bytes, (k - 1) as nat),
        )
    }
}

/// The largest of the first `k + 1` bounds.
pub open spec fn largest_bound<'e>(
    stages: Seq<&'e mut dyn Element>,
    input: PcmFormat,
    input_bytes: usize,
    k: nat,
) -> usize
    decreases k,
{
    let here = bound_at(stages, input, input_bytes, k);
    if k == 0 {
        here
    } else {
        let before = largest_bound(stages, input, input_bytes, (k - 1) as nat);
        if before < here {
            here
        } else {
            before
        }
    }
}

/// The ending that an answer of [`Pipeline::run_stages`] tells, over the halves
/// that it left.
pub open spec fn told(
    r: Result<Option<(PcmFormat, bool, usize)>>,
    timestamp: Micros,
    a: Seq<u8>,
    b: Seq<u8>,
) -> Ending {
    match r {
        Ok(Some((format, in_a, len))) => Ending::Block(
            BlockView {
                format,
                timestamp,
                data: if in_a {
                    a.take(len as int)
                } else {
                    b.take(len as int)
                },
            },
        ),
        Ok(None) => Ending::Empty,
        Err(e) => Ending::Failed(e),
    }
}

/// A fixed chain of `N` elements.
pub struct Pipeline<'e, const N: usize> {
    /// The stages, in the order in which they run.
    pub stages: [&'e mut dyn Element; N],
    /// Blocks processed.
    pub blocks: u64,
    /// Blocks that produced no output.
    pub empty_blocks: u64,
}

impl<'e, const N: usize> Pipeline<'e, N> {
    /// Chain `stages` in order.
    pub fn new(stages: [&'e mut dyn Element; N]) -> (r: Self)
        ensures
            r.stages == stages,
            r.blocks == 0,
            r.empty_blocks == 0,
    {
        Pipeline { stages, blocks: 0, empty_blocks: 0 }
    }

    /// The format that comes out for blocks in `input`.
    pub fn output_format(&self, input: PcmFormat) -> (r: Result<PcmFormat>)
        ensures
            r == format_at(self.stages@, input, N as nat),
    {
        let mut format: PcmFormat = input;
        let mut k: usize = 0;
        while k < N
            invariant
                k <= N,
                format_at(self.stages@, input, k as nat) == Ok::<PcmFormat, Error>(format),
            decreases N - k,
        {
            match self.stages[k].output_format(format) {
                Ok(next) => {
                    format = next;
                },
                Err(e) => {
                    proof {
                        lemma_refusal_stands(self.stages@, input, (k + 1) as nat, N as nat);
                    }
                    return Err(e);
                },
            }
            k += 1;
        }
        Ok(format)
    }

    /// Bytes of `scratch` needed for an input of `input_bytes` bytes in
    /// `input`: twice the largest intermediate block.
    pub fn scratch_bytes(&self, input: PcmFormat, input_bytes: usize) -> (r: Result<usize>)
        ensures
            r == (match format_at(self.stages@, input, N as nat) {
                Ok(_) => Ok(twice(largest_bound(self.stages@, input, input_bytes, N as nat))),
                Err(e) => Err(e),
            }),
    {
        let mut format: PcmFormat = input;
        let mut bytes: usize = input_bytes;
        let mut largest: usize = input_bytes;
        let mut k: usize = 0;
        while k < N
            invariant
                k <= N,
                format_at(self.stages@, input, k as nat) == Ok::<PcmFormat, Error>(format),
                bytes == bound_at(self.stages@, input, input_bytes, k as nat),
                largest == largest_bound(self.stages@, input, input_bytes, k as nat),
            decreases N - k,
        {
            bytes = self.stages[k].max_output_bytes(format, bytes);
            match self.stages[k].output_format(format) {
                Ok(next) => {
                    format = next;
                },
                Err(e) => {
                    proof {
                        lemma_refusal_stands(self.stages@, input, (k + 1) as nat, N as nat);
                    }
                    return Err(e);
                },
            }
            if largest < bytes {
                largest = bytes;
            }
            k += 1;
        }
        Ok(double(largest))
    }

    /// Run one block through every stage. The result borrows `scratch`;
    /// `Ok(None)` means a stage produced nothing for this block.
    pub fn process<'b>(&mut self, input: PcmBlock<'_>, scratch: &'b mut [u8]) -> (r: Result<
        Option<PcmBlock<'b>>,
    >)
        requires
            input@.well_formed(),
            old(self).blocks < u64::MAX,
            old(self).empty_blocks < u64::MAX,
        ensures
            final(self).blocks == old(self).blocks + 1,
            final(self).empty_blocks == old(self).empty_blocks + (if r == Ok::<
                Option<PcmBlock<'b>>,
                Error,
            >(None) {
                1int
            } else {
                0int
            }),
            exists|calls: Seq<Call>| #[trigger]
                explains(
                    old(self).stages@,
                    input@,
                    old(scratch)@,
                    calls,
                    reported(r),
                    final(scratch)@,
                    final(self).stages@,
                ),
    {
        self.blocks = self.blocks + 1;
        let total: usize = scratch.len();
        let half: usize = total / 2;
        let ghost stages = self.stages@;
        let ghost given = scratch@;
        let ghost first = scratch@.take(half as int);
        let ghost second = scratch@.skip(half as int);
        let (a, b) = scratch.split_at_mut(half);
        assert(given =~= first + second);
        if N == 0 {
            if a.len() < input.data.len() {
                proof {
                    lemma_no_stages(stages, input@, given, a@ + b@, self.stages@);
                }
                return Err(Error::BufferTooSmall { needed: double(input.data.len()) });
            }
            copy_front(a, input.data);
            assert(a@.subrange(0, input.data@.len() as int) =~= input.data@);
            proof {
                lemma_no_stages(stages, input@, given, a@ + b@, self.stages@);
            }
            let data: &'b [u8] = vstd::slice::slice_subrange(a, 0, input.data.len());
            return Ok(Some(PcmBlock { format: input.format, timestamp: input.timestamp, data }));
        }
        match self.run_stages(input, a, b) {
            Err(e) => Err(e),
            Ok(None) => Ok(None),
            Ok(Some((format, in_a, len))) => {
                let data: &'b [u8] = if in_a {
                    vstd::slice::slice_subrange(a, 0, len)
                } else {
                    vstd::slice::slice_subrange(b, 0, len)
                };
                Ok(Some(PcmBlock { format, timestamp: input.timestamp, data }))
            },
        }
    }

    /// Run `input` through every stage, writing `a` and `b` in turn. A block
    /// that comes out is told by its format, whether it lies in `a`, and its
    /// length.
    fn run_stages(&mut self, input: PcmBlock<'_>, a: &mut [u8], b: &mut [u8]) -> (r: Result<
        Option<(PcmFormat, bool, usize)>,
    >)
        requires
            N > 0,
            input@.well_formed(),
            old(self).empty_blocks < u64::MAX,
            old(a)@.len() == (old(a)@ + old(b)@).len() / 2,
        ensures
            final(a)@.len() == old(a)@.len(),
            final(b)@.len() == old(b)@.len(),
            final(self).blocks == old(self).blocks,
            final(self).empty_blocks == old(self).empty_blocks + (if r == Ok::<
                Option<(PcmFormat, bool, usize)>,
                Error,
            >(None) {
                1int
            } else {
                0int
            }),
            r matches Ok(Some((_, in_a, len))) ==> len <= (if in_a {
                final(a)@.len()
            } else {
                final(b)@.len()
            }),
            exists|calls: Seq<Call>| #[trigger]
                explains(
                    old(self).stages@,
                    input@,
                    old(a)@ + old(b)@,
                    calls,
                    told(r, input.timestamp, final(a)@, final(b)@),
                    final(a)@ + final(b)@,
                    final(self).stages@,
                ),
    {
        let half: usize = a.len();
        let ghost stages = self.stages@;
        let ghost first = a@;
        let ghost second = b@;
        let ghost given = first + second;
        assert(given.take(half as int) =~= first);
        assert(given.skip(half as int) =~= second);
        let mut format: PcmFormat = input.format;
        let mut in_a: bool = false;
        let mut len: usize = input.data.len();
        let mut i: usize = 0;
        let ghost mut calls: Seq<Call> = Seq::empty();
        proof {
            lemma_start(stages, input@, first, second, self.stages@);
        }
        while i < N
            invariant
                N > 0,
                i <= N,
                stages.len() == N,
                first == old(a)@,
                second == old(b)@,
                stages == old(self).stages@,
                given == first + second,
                half == first.len(),
                half == given.len() / 2,
                first == given.take(half as int),
                second == given.skip(half as int),
                input@.well_formed(),
                self.blocks == old(self).blocks,
                self.empty_blocks == old(self).empty_blocks,
                old(self).empty_blocks < u64::MAX,
                flowing(stages, input@, first, second, calls),
                remembers(stages, self.stages@, calls),
                calls.len() == i,
                at_stage(stages, input@, calls, i as int, format, len as nat),
                i > 0 ==> len <= half,
                in_a == (i % 2 == 1),
                a@.len() == half,
                b@.len() == second.len(),
                a@ == (if in_a {
                    half_before(first, second, calls, i + 1)
                } else {
                    half_before(first, second, calls, i as int)
                }),
                b@ == (if in_a {
                    half_before(first, second, calls, i as int)
                } else {
                    half_before(first, second, calls, i + 1)
                }),
            decreases N - i,
        {
            proof {
                lemma_untouched(stages, self.stages@, calls, i as int);
            }
            let out_format: PcmFormat = match self.stages[i].output_format(format) {
                Ok(f) => f,
                Err(e) => {
                    proof {
                        lemma_stop_before(stages, input@, given, calls, format, len, self.stages@);
                    }
                    return Err(e);
                },
            };
            let need: usize = self.stages[i].max_output_bytes(format, len);
            if half < need {
                proof {
                    lemma_stop_before(stages, input@, given, calls, format, len, self.stages@);
                }
                return Err(Error::BufferTooSmall { needed: double(need) });
            }
            let ghost held = self.stages@;
            let ghost handed_block = handed(stages, input@, calls, i as int);
            let ghost before = half_before(first, second, calls, i as int);
            let ghost other = half_before(first, second, calls, i + 1);
            let result: Result<usize> = if i == 0 {
                self.stages[i].process(input, a)
            } else if in_a {
                let block = PcmBlock {
                    format,
                    timestamp: input.timestamp,
                    data: vstd::slice::slice_subrange(a, 0, len),
                };
                assert(block.data@ =~= handed_block.data);
                self.stages[i].process(block, b)
            } else {
                let block = PcmBlock {
                    format,
                    timestamp: input.timestamp,
                    data: vstd::slice::slice_subrange(b, 0, len),
                };
                assert(block.data@ =~= handed_block.data);
                self.stages[i].process(block, a)
            };
            let ghost call = Call {
                input: handed_block,
                before,
                result,
                after: if in_a {
                    b@
                } else {
                    a@
                },
                memory: memory_of(self.stages@, i as int),
            };
            proof {
                lemma_remembers_push(stages, held, self.stages@, calls, call);
                lemma_connected_push(stages, input@, given, calls, format, len, call);
            }
            let n: usize = match result {
                Ok(n) => n,
                Err(e) => {
                    proof {
                        lemma_stop_at(stages, input@, given, calls, call, self.stages@);
                    }
                    return Err(e);
                },
            };
            let fb: usize = out_format.frame_bytes();
            if fb == 0 || n % fb != 0 || n > half {
                proof {
                    lemma_stop_at(stages, input@, given, calls, call, self.stages@);
                }
                return Err(Error::InvalidGeometry);
            }
            assert(sound_answer(stages, input@, calls.push(call), given.len() / 2, i as int));
            if n == 0 {
                self.empty_blocks = self.empty_blocks + 1;
                proof {
                    lemma_stop_at(stages, input@, given, calls, call, self.stages@);
                    assert(explains(
                        stages,
                        input@,
                        given,
                        calls.push(call),
                        Ending::Empty,
                        halves(first, second, calls.push(call)),
                        self.stages@,
                    ));
                    assert(a@ + b@ == halves(first, second, calls.push(call)));
                }
                return Ok(None);
            }
            proof {
                lemma_flowing_push(stages, input@, given, calls, call);
                calls = calls.push(call);
            }
            in_a = !in_a;
            format = out_format;
            len = n;
            i += 1;
        }
        proof {
            lemma_finish(stages, input@, given, calls, self.stages@);
        }
        Ok(Some((format, in_a, len)))
    }

    /// Reset every stage.
    pub fn reset(&mut self)
        ensures
            final(self).blocks == old(self).blocks,
            final(self).empty_blocks == old(self).empty_blocks,
            forall|k: int|
                0 <= k < N ==> #[trigger] memory_of(final(self).stages@, k)
                    == old(self).stages@[k].fresh_memory(),
            forall|k: int|
                0 <= k < N ==> #[trigger] same_stage(final(self).stages@, old(self).stages@, k),
    {
        let ghost stages = self.stages@;
        let mut k: usize = 0;
        while k < N
            invariant
                k <= N,
                stages.len() == N,
                self.blocks == old(self).blocks,
                self.empty_blocks == old(self).empty_blocks,
                forall|j: int|
                    0 <= j < k ==> #[trigger] memory_of(self.stages@, j)
                        == stages[j].fresh_memory(),
                forall|j: int| 0 <= j < k ==> #[trigger] same_stage(self.stages@, stages, j),
                forall|j: int| k <= j < N ==> #[trigger] self.stages@[j] == stages[j],
            decreases N - k,
        {
            let ghost before = self.stages@;
            self.stages[k].reset();
            assert forall|j: int| 0 <= j < k + 1 implies #[trigger] same_stage(
                self.stages@,
                stages,
                j,
            ) by {
                if j < k {
                    assert(same_stage(before, stages, j));
                    assert(self.stages@[j] == before[j]);
                } else {
                    assert(before[j] == stages[j]);
                }
            }
            assert forall|j: int| 0 <= j < k + 1 implies #[trigger] memory_of(self.stages@, j)
                == stages[j].fresh_memory() by {
                if j < k {
                    assert(memory_of(before, j) == stages[j].fresh_memory());
                    assert(self.stages@[j] == before[j]);
                } else {
                    assert(before[j] == stages[j]);
                }
            }
            k += 1;
        }
    }
}

/// The stage about to run: what it is handed has this format and length.
pub open spec fn at_stage<'e>(
    stages: Seq<&'e mut dyn Element>,
    input: BlockView,
    calls: Seq<Call>,
    k: int,
    format: PcmFormat,
    len: nat,
) -> bool {
    &&& format_at(stages, input.format, k as nat) == Ok::<PcmFormat, Error>(format)
    &&& handed(stages, input, calls, k).format == format
    &&& handed(stages, input, calls, k).data.len() == len
    &&& k > 0 ==> calls[k - 1].result->Ok_0 == len
    &&& handed(stages, input, calls, k).well_formed()
}

proof fn lemma_start<'e>(
    stages: Seq<&'e mut dyn Element>,
    input: BlockView,
    first: Seq<u8>,
    second: Seq<u8>,
    left_stages: Seq<&'e mut dyn Element>,
)
    requires
        left_stages == stages,
    ensures
        flowing(stages, input, first, second, Seq::empty()),
        remembers(stages, left_stages, Seq::empty()),
{
    reveal(flowing);
    reveal(remembers);
}

proof fn lemma_untouched<'e>(
    stages: Seq<&'e mut dyn Element>,
    left_stages: Seq<&'e mut dyn Element>,
    calls: Seq<Call>,
    k: int,
)
    requires
        remembers(stages, left_stages, calls),
        calls.len() <= k < stages.len(),
    ensures
        left_stages[k] == stages[k],
{
    reveal(remembers);
}

/// A run ends before a stage that does not take the block.
proof fn lemma_stop_before<'e>(
    stages: Seq<&'e mut dyn Element>,
    input: BlockView,
    scratch: Seq<u8>,
    calls: Seq<Call>,
    format: PcmFormat,
    len: usize,
    left_stages: Seq<&'e mut dyn Element>,
)
    requires
        calls.len() < stages.len(),
        flowing(
            stages,
            input,
            scratch.take(scratch.len() as int / 2),
            scratch.skip(scratch.len() as int / 2),
            calls,
        ),
        remembers(stages, left_stages, calls),
        at_stage(stages, input, calls, calls.len() as int, format, len as nat),
        stages[calls.len() as int].format_out(format) is Err
            || stages[calls.len() as int].room(format, len) > scratch.len() / 2,
    ensures
        explains(
            stages,
            input,
            scratch,
            calls,
            Ending::Failed(
                match stages[calls.len() as int].format_out(format) {
                    Err(e) => e,
                    Ok(_) => Error::BufferTooSmall {
                        needed: twice(stages[calls.len() as int].room(format, len)),
                    },
                },
            ),
            halves(
                scratch.take(scratch.len() as int / 2),
                scratch.skip(scratch.len() as int / 2),
                calls,
            ),
            left_stages,
        ),
{
    reveal(flowing);
    reveal(explains);
}

/// Calling stage `calls.len()` changes that stage alone.
proof fn lemma_remembers_push<'e>(
    stages: Seq<&'e mut dyn Element>,
    held: Seq<&'e mut dyn Element>,
    left_stages: Seq<&'e mut dyn Element>,
    calls: Seq<Call>,
    call: Call,
)
    requires
        remembers(stages, held, calls),
        calls.len() < stages.len(),
        left_stages.len() == held.len(),
        forall|j: int| 0 <= j < held.len() && j != calls.len() ==> left_stages[j] == held[j],
        memory_of(left_stages, calls.len() as int) == call.memory,
        same_stage(left_stages, held, calls.len() as int),
    ensures
        remembers(stages, left_stages, calls.push(call)),
{
    reveal(remembers);
    assert forall|k: int| 0 <= k < stages.len() implies #[trigger] same_stage(
        left_stages,
        stages,
        k,
    ) by {
        assert(same_stage(held, stages, k));
        if k != calls.len() {
            assert(left_stages[k] == held[k]);
        }
    }
    assert forall|k: int| 0 <= k < calls.push(call).len() implies #[trigger] memory_of(
        left_stages,
        k,
    ) == calls.push(call)[k].memory by {
        if k < calls.len() {
            assert(memory_of(held, k) == calls[k].memory);
            assert(left_stages[k] == held[k]);
        }
    }
    assert forall|k: int| calls.push(call).len() <= k < stages.len() implies #[trigger]
    left_stages[k] == stages[k] by {
        assert(held[k] == stages[k]);
    }
}

/// A call of the next stage, admitted and handed what it should be, extends
/// the connected calls.
proof fn lemma_connected_push<'e>(
    stages: Seq<&'e mut dyn Element>,
    input: BlockView,
    scratch: Seq<u8>,
    calls: Seq<Call>,
    format: PcmFormat,
    len: usize,
    call: Call,
)
    requires
        calls.len() < stages.len(),
        flowing(
            stages,
            input,
            scratch.take(scratch.len() as int / 2),
            scratch.skip(scratch.len() as int / 2),
            calls,
        ),
        at_stage(stages, input, calls, calls.len() as int, format, len as nat),
        stages[calls.len() as int].format_out(format) is Ok,
        stages[calls.len() as int].room(format, len) <= scratch.len() / 2,
        call.input == handed(stages, input, calls, calls.len() as int),
        call.before == half_before(
            scratch.take(scratch.len() as int / 2),
            scratch.skip(scratch.len() as int / 2),
            calls,
            calls.len() as int,
        ),
        stages[calls.len() as int].step(
            call.input,
            call.before,
            call.result,
            call.after,
            call.memory,
        ),
        call.after.len() == call.before.len(),
    ensures
        connected(
            stages,
            input,
            scratch.take(scratch.len() as int / 2),
            scratch.skip(scratch.len() as int / 2),
            calls.push(call),
        ),
        format_at(stages, input.format, calls.len() + 1) == stages[calls.len() as int].format_out(
            format,
        ),
{
    reveal(flowing);
    let first = scratch.take(scratch.len() as int / 2);
    let second = scratch.skip(scratch.len() as int / 2);
    let more = calls.push(call);
    assert forall|k: int| 0 <= k < more.len() implies #[trigger] call_fits(
        stages,
        input,
        first,
        second,
        more,
        k,
    ) by {
        assert(handed(stages, input, more, k) == handed(stages, input, calls, k));
        assert(half_before(first, second, more, k) == half_before(first, second, calls, k));
        if k < calls.len() {
            assert(call_fits(stages, input, first, second, calls, k));
            assert(calls[k] == more[k]);
        }
    }
}

/// A sound, non-empty answer lets the run go on.
proof fn lemma_flowing_push<'e>(
    stages: Seq<&'e mut dyn Element>,
    input: BlockView,
    scratch: Seq<u8>,
    calls: Seq<Call>,
    call: Call,
)
    requires
        call.after.len() >= scratch.len() / 2,
        connected(
            stages,
            input,
            scratch.take(scratch.len() as int / 2),
            scratch.skip(scratch.len() as int / 2),
            calls.push(call),
        ),
        sound_answer(stages, input, calls.push(call), scratch.len() / 2, calls.len() as int),
        call.result->Ok_0 > 0,
    ensures
        flowing(
            stages,
            input,
            scratch.take(scratch.len() as int / 2),
            scratch.skip(scratch.len() as int / 2),
            calls.push(call),
        ),
        at_stage(
            stages,
            input,
            calls.push(call),
            calls.len() as int + 1,
            format_at(stages, input.format, calls.len() + 1)->Ok_0,
            call.result->Ok_0 as nat,
        ),
{
    reveal(flowing);
    let first = scratch.take(scratch.len() as int / 2);
    let second = scratch.skip(scratch.len() as int / 2);
    assert(call_fits(stages, input, first, second, calls.push(call), calls.len() as int));
    assert(calls.push(call)[calls.len() as int] == call);
}

/// A run ends at a call that failed, answered nothing sound or nothing.
proof fn lemma_stop_at<'e>(
    stages: Seq<&'e mut dyn Element>,
    input: BlockView,
    scratch: Seq<u8>,
    calls: Seq<Call>,
    call: Call,
    left_stages: Seq<&'e mut dyn Element>,
)
    requires
        stages.len() > 0,
        connected(
            stages,
            input,
            scratch.take(scratch.len() as int / 2),
            scratch.skip(scratch.len() as int / 2),
            calls.push(call),
        ),
        remembers(stages, left_stages, calls.push(call)),
        !sound_answer(stages, input, calls.push(call), scratch.len() / 2, calls.len() as int)
            || call.result->Ok_0 == 0,
    ensures
        explains(
            stages,
            input,
            scratch,
            calls.push(call),
            match call.result {
                Err(e) => Ending::Failed(e),
                Ok(_) => if sound_answer(
                    stages,
                    input,
                    calls.push(call),
                    scratch.len() / 2,
                    calls.len() as int,
                ) {
                    Ending::Empty
                } else {
                    Ending::Failed(Error::InvalidGeometry)
                },
            },
            halves(
                scratch.take(scratch.len() as int / 2),
                scratch.skip(scratch.len() as int / 2),
                calls.push(call),
            ),
            left_stages,
        ),
{
    reveal(explains);
    assert(calls.push(call)[calls.len() as int] == call);
}

/// A run over all the stages ends with the block that the last one wrote.
proof fn lemma_finish<'e>(
    stages: Seq<&'e mut dyn Element>,
    input: BlockView,
    scratch: Seq<u8>,
    calls: Seq<Call>,
    left_stages: Seq<&'e mut dyn Element>,
)
    requires
        stages.len() > 0,
        calls.len() == stages.len(),
        flowing(
            stages,
            input,
            scratch.take(scratch.len() as int / 2),
            scratch.skip(scratch.len() as int / 2),
            calls,
        ),
        remembers(stages, left_stages, calls),
    ensures
        explains(
            stages,
            input,
            scratch,
            calls,
            Ending::Block(handed(stages, input, calls, calls.len() as int)),
            halves(
                scratch.take(scratch.len() as int / 2),
                scratch.skip(scratch.len() as int / 2),
                calls,
            ),
            left_stages,
        ),
{
    reveal(flowing);
    reveal(explains);
}

/// A chain of no stages copies the block, where the half can hold it.
proof fn lemma_no_stages<'e>(
    stages: Seq<&'e mut dyn Element>,
    input: BlockView,
    scratch: Seq<u8>,
    left_scratch: Seq<u8>,
    left_stages: Seq<&'e mut dyn Element>,
)
    requires
        stages.len() == 0,
        left_stages.len() == 0,
        ({
            let half = scratch.len() / 2;
            let first = scratch.take(half as int);
            let second = scratch.skip(half as int);
            left_scratch == (if input.data.len() <= half {
                overwritten(first, input.data) + second
            } else {
                first + second
            })
        }),
    ensures
        explains(
            stages,
            input,
            scratch,
            Seq::empty(),
            if input.data.len() <= scratch.len() / 2 {
                Ending::Block(input)
            } else {
                Ending::Failed(Error::BufferTooSmall { needed: twice(input.data.len() as usize) })
            },
            left_scratch,
            left_stages,
        ),
{
    reveal(explains);
    reveal(remembers);
}

/// Twice `n`, or the largest size there is.
fn double(n: usize) -> (r: usize)
    ensures
        r == twice(n),
{
    if n > usize::MAX / 2 {
        usize::MAX
    } else {
        n * 2
    }
}

/// Once a stage has refused a format, the chain refuses it.
proof fn lemma_refusal_stands<'e>(
    stages: Seq<&'e mut dyn Element>,
    input: PcmFormat,
    k: nat,
    n: nat,
)
    requires
        k <= n,
        format_at(stages, input, k) is Err,
    ensures
        format_at(stages, input, n) == format_at(stages, input, k),
    decreases n,
{
    if k < n {
        lemma_refusal_stands(stages, input, k, (n - 1) as nat);
    }
}

/// Two stages do the same with every block.
pub open spec fn act_alike<E: Element + ?Sized>(a: &E, b: &E) -> bool {
    forall|input: BlockView, before: Seq<u8>, r: Result<usize>, after: Seq<u8>, memory: Seq<int>|
        #[trigger] a.step(input, before, r, after, memory) == b.step(
            input,
            before,
            r,
            after,
            memory,
        )
}

/// What a stage promises of [`max_output_bytes`](Element::max_output_bytes): no
/// block comes out larger, and the bound of a larger block is no smaller.
pub open spec fn keeps_its_bound<E: Element + ?Sized>(stage: &E) -> bool {
    &&& forall|format: PcmFormat, fewer: usize, more: usize|
        fewer <= more ==> #[trigger] stage.room(format, fewer) <= #[trigger] stage.room(format, more)
    &&& forall|input: BlockView, before: Seq<u8>, n: usize, after: Seq<u8>, memory: Seq<int>|
        input.data.len() <= usize::MAX && #[trigger] stage.step(
            input,
            before,
            Ok(n),
            after,
            memory,
        ) ==> n <= stage.room(input.format, input.data.len() as usize)
}

/// Stage `k` keeps its bound.
pub open spec fn bounded<'e>(stages: Seq<&'e mut dyn Element>, k: int) -> bool {
    keeps_its_bound(stages[k])
}

/// Where every stage keeps its bound, the scratch that
/// [`scratch_bytes`](Pipeline::scratch_bytes) asks for is enough: a run over it
/// stops before the last stage only where a stage failed, answered no whole
/// frames, or nothing.
pub proof fn lemma_scratch_suffices<'e>(
    stages: Seq<&'e mut dyn Element>,
    input: BlockView,
    scratch: Seq<u8>,
    calls: Seq<Call>,
    input_bytes: usize,
)
    requires
        forall|k: int| 0 <= k < stages.len() ==> #[trigger] bounded(stages, k),
        format_at(stages, input.format, stages.len()) is Ok,
        input.data.len() <= input_bytes,
        2 * largest_bound(stages, input.format, input_bytes, stages.len()) <= scratch.len(),
        scratch.len() <= usize::MAX,
        ran(stages, input, scratch, calls),
    ensures
        ({
            let made = calls.len() as int;
            ||| made == stages.len() && (made > 0 || input.data.len() <= scratch.len() / 2)
            ||| made > 0 && !(sound_answer(stages, input, calls, scratch.len() / 2, made - 1)
                && calls[made - 1].result->Ok_0 > 0)
        }),
{
    let made = calls.len() as int;
    let half = scratch.len() / 2;
    let first = scratch.take(half as int);
    let second = scratch.skip(half as int);
    lemma_bounds_below_largest(stages, input.format, input_bytes, 0, stages.len());
    if made < stages.len() && (made == 0 || (sound_answer(stages, input, calls, half, made - 1)
        && calls[made - 1].result->Ok_0 > 0)) {
        lemma_handed_within_bound(stages, input, first, second, calls, input_bytes, made);
        lemma_formats_up_to(stages, input.format, (made + 1) as nat, stages.len());
        lemma_formats_up_to(stages, input.format, made as nat, stages.len());
        let block = handed(stages, input, calls, made);
        assert(bounded(stages, made));
        assert(stages[made].room(block.format, block.data.len() as usize) <= stages[made].room(
            block.format,
            bound_at(stages, input.format, input_bytes, made as nat),
        ));
        lemma_bounds_below_largest(
            stages,
            input.format,
            input_bytes,
            (made + 1) as nat,
            stages.len(),
        );
        assert(admitted(stages, input, calls, half, made));
    }
}

/// With that scratch a chain never answers `BufferTooSmall` for want of scratch:
/// only where a stage itself answered so.
pub proof fn lemma_never_short_of_scratch<'e>(
    stages: Seq<&'e mut dyn Element>,
    input: BlockView,
    scratch: Seq<u8>,
    calls: Seq<Call>,
    outcome: Ending,
    left_scratch: Seq<u8>,
    left_stages: Seq<&'e mut dyn Element>,
    input_bytes: usize,
)
    requires
        forall|k: int| 0 <= k < stages.len() ==> #[trigger] bounded(stages, k),
        format_at(stages, input.format, stages.len()) is Ok,
        input.data.len() <= input_bytes,
        2 * largest_bound(stages, input.format, input_bytes, stages.len()) <= scratch.len(),
        scratch.len() <= usize::MAX,
        explains(stages, input, scratch, calls, outcome, left_scratch, left_stages),
    ensures
        outcome matches Ending::Failed(e) ==> e is BufferTooSmall ==> {
            &&& calls.len() > 0
            &&& calls[calls.len() - 1].result == Err::<usize, Error>(e)
        },
{
    reveal(explains);
    lemma_scratch_suffices(stages, input, scratch, calls, input_bytes);
}

/// A block that reaches stage `k` is within the bound computed for it.
proof fn lemma_handed_within_bound<'e>(
    stages: Seq<&'e mut dyn Element>,
    input: BlockView,
    first: Seq<u8>,
    second: Seq<u8>,
    calls: Seq<Call>,
    input_bytes: usize,
    k: int,
)
    requires
        forall|j: int| 0 <= j < stages.len() ==> #[trigger] bounded(stages, j),
        input.data.len() <= input_bytes,
        first.len() <= usize::MAX,
        first.len() <= second.len(),
        connected(stages, input, first, second, calls),
        0 <= k <= calls.len(),
        k < stages.len(),
        k > 0 ==> sound_answer(stages, input, calls, first.len(), k - 1),
        format_at(stages, input.format, stages.len()) is Ok,
    ensures
        handed(stages, input, calls, k).data.len() <= bound_at(
            stages,
            input.format,
            input_bytes,
            k as nat,
        ),
        handed(stages, input, calls, k).format == format_at(stages, input.format, k as nat)->Ok_0,
    decreases k,
{
    if k > 0 {
        assert(call_fits(stages, input, first, second, calls, k - 1));
        if k > 1 {
            assert(call_fits(stages, input, first, second, calls, k - 2));
        }
        lemma_handed_within_bound(stages, input, first, second, calls, input_bytes, k - 1);
        assert(bounded(stages, k - 1));
        let call = calls[k - 1];
        assert(call.result == Ok::<usize, Error>(call.result->Ok_0));
        assert(stages[k - 1].room(call.input.format, call.input.data.len() as usize)
            <= stages[k - 1].room(
            call.input.format,
            bound_at(stages, input.format, input_bytes, (k - 1) as nat),
        ));
        lemma_half_lengths(stages, input, first, second, calls, k - 1);
    }
}

/// No half is shorter than the first one.
proof fn lemma_half_lengths<'e>(
    stages: Seq<&'e mut dyn Element>,
    input: BlockView,
    first: Seq<u8>,
    second: Seq<u8>,
    calls: Seq<Call>,
    k: int,
)
    requires
        first.len() <= second.len(),
        connected(stages, input, first, second, calls),
        0 <= k <= calls.len(),
    ensures
        half_before(first, second, calls, k).len() >= first.len(),
    decreases k,
{
    if k >= 2 {
        assert(call_fits(stages, input, first, second, calls, k - 2));
        lemma_half_lengths(stages, input, first, second, calls, k - 2);
    }
}

/// A format that comes out of a chain came out of every stage before.
proof fn lemma_formats_up_to<'e>(
    stages: Seq<&'e mut dyn Element>,
    input: PcmFormat,
    k: nat,
    n: nat,
)
    requires
        k <= n,
        format_at(stages, input, n) is Ok,
    ensures
        format_at(stages, input, k) is Ok,
    decreases n,
{
    if k < n {
        lemma_formats_up_to(stages, input, k, (n - 1) as nat);
    }
}

/// No bound is above the largest.
proof fn lemma_bounds_below_largest<'e>(
    stages: Seq<&'e mut dyn Element>,
    input: PcmFormat,
    input_bytes: usize,
    k: nat,
    n: nat,
)
    requires
        k <= n,
    ensures
        bound_at(stages, input, input_bytes, k) <= largest_bound(stages, input, input_bytes, n),
    decreases n,
{
    if k < n {
        lemma_bounds_below_largest(stages, input, input_bytes, k, (n - 1) as nat);
    }
}

/// A block that comes out of a chain has the format that
/// [`output_format`](Pipeline::output_format) tells and the timestamp of the
/// block that went in.
pub proof fn lemma_block_out<'e>(
    stages: Seq<&'e mut dyn Element>,
    input: BlockView,
    scratch: Seq<u8>,
    calls: Seq<Call>,
)
    requires
        ran(stages, input, scratch, calls),
        ending(stages, input, calls, scratch.len() / 2) is Block,
    ensures
        ({
            let out = ending(stages, input, calls, scratch.len() / 2)->Block_0;
            &&& format_at(stages, input.format, stages.len()) == Ok::<PcmFormat, Error>(out.format)
            &&& out.timestamp == input.timestamp
        }),
{
    let made = calls.len() as int;
    if made > 0 {
        let half = scratch.len() / 2;
        assert(call_fits(
            stages,
            input,
            scratch.take(half as int),
            scratch.skip(half as int),
            calls,
            made - 1,
        ));
    }
}

/// A chain of no stages hands the block on unchanged, if it fits half of the
/// scratch.
pub proof fn lemma_no_stages_copy<'e>(
    stages: Seq<&'e mut dyn Element>,
    input: BlockView,
    scratch: Seq<u8>,
    calls: Seq<Call>,
)
    requires
        stages.len() == 0,
        input.data.len() <= scratch.len() / 2,
        ran(stages, input, scratch, calls),
    ensures
        ending(stages, input, calls, scratch.len() / 2) == Ending::Block(input),
{
}

} // verus!
