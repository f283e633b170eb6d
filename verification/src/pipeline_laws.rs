//! What a chain does, stage by stage.

use vstd::prelude::*;

use crate::esp_core::error::Error;
use crate::esp_core::pcm::{BlockView, PcmFormat};
use crate::pipeline::{
    bound_at, call_fits, explains, format_at, largest_bound, memory_of, remembers, twice, Call,
    Element, Ending,
};

verus! {

/// Each stage is asked in turn: the format that comes out of stage `k` is the one
/// it gives for the format that went in, and a refusal stands to the end.
pub proof fn lemma_formats_stage_by_stage<'e>(
    stages: Seq<&'e mut dyn Element>,
    input: PcmFormat,
    k: nat,
)
    ensures
        format_at(stages, input, 0) == Ok::<PcmFormat, Error>(input),
        format_at(stages, input, k) is Err ==> format_at(stages, input, k + 1) == format_at(
            stages,
            input,
            k,
        ),
        format_at(stages, input, k) is Ok ==> format_at(stages, input, k + 1)
            == stages[k as int].format_out(format_at(stages, input, k)->Ok_0),
{
}

/// The scratch for a chain is twice the largest block there may be on the way:
/// no stage's bound, of what the stage before may put out, exceeds the half, and
/// one of them is the half.
pub proof fn lemma_half_is_the_largest_bound<'e>(
    stages: Seq<&'e mut dyn Element>,
    input: PcmFormat,
    input_bytes: usize,
    n: nat,
)
    ensures
        ({
            let half = largest_bound(stages, input, input_bytes, n);
            &&& forall|k: nat|
                k <= n ==> #[trigger] bound_at(stages, input, input_bytes, k) <= half
            &&& exists|k: nat|
                k <= n && #[trigger] bound_at(stages, input, input_bytes, k) == half
        }),
        2 * largest_bound(stages, input, input_bytes, n) <= usize::MAX ==> twice(
            largest_bound(stages, input, input_bytes, n),
        ) == 2 * largest_bound(stages, input, input_bytes, n),
        bound_at(stages, input, input_bytes, 0) == input_bytes,
        forall|k: nat|
            #![trigger bound_at(stages, input, input_bytes, k)]
            bound_at(stages, input, input_bytes, k + 1) == stages[k as int].room(
                format_at(stages, input, k)->Ok_0,
                bound_at(stages, input, input_bytes, k),
            ),
    decreases n,
{
    let half = largest_bound(stages, input, input_bytes, n);
    if n > 0 {
        let m = (n - 1) as nat;
        lemma_half_is_the_largest_bound(stages, input, input_bytes, m);
        let before = largest_bound(stages, input, input_bytes, m);
        assert forall|k: nat| k <= n implies #[trigger] bound_at(stages, input, input_bytes, k)
            <= half by {
            if k < n {
                assert(k <= m);
            }
        }
        let reached = choose|k: nat|
            k <= m && #[trigger] bound_at(stages, input, input_bytes, k) == before;
        if half == before {
            assert(bound_at(stages, input, input_bytes, reached) == half);
        } else {
            assert(bound_at(stages, input, input_bytes, n) == half);
        }
    } else {
        assert(bound_at(stages, input, input_bytes, 0) == half);
    }
}

/// The stages run in order, each once: the first is handed the block that went in,
/// every other what the one before wrote, as many bytes as it answered, in the
/// format it gives and with the timestamp of the block that went in. A stage is
/// reached only if those before it all put something out.
pub proof fn lemma_stages_run_in_order<'e>(
    stages: Seq<&'e mut dyn Element>,
    input: BlockView,
    scratch: Seq<u8>,
    calls: Seq<Call>,
    outcome: Ending,
    left_scratch: Seq<u8>,
    left_stages: Seq<&'e mut dyn Element>,
    k: int,
)
    requires
        explains(stages, input, scratch, calls, outcome, left_scratch, left_stages),
        0 <= k < calls.len(),
    ensures
        calls.len() <= stages.len(),
        k == 0 ==> calls[k].input == input,
        k > 0 ==> {
            let before = calls[k - 1];
            &&& before.result is Ok
            &&& 0 < before.result->Ok_0 <= scratch.len() / 2
            &&& calls[k].input.data == before.after.take(before.result->Ok_0 as int)
            &&& calls[k].input.timestamp == input.timestamp
            &&& stages[k - 1].format_out(before.input.format) == Ok::<PcmFormat, Error>(
                calls[k].input.format,
            )
        },
        stages[k].step(
            calls[k].input,
            calls[k].before,
            calls[k].result,
            calls[k].after,
            calls[k].memory,
        ),
        calls[k].after.len() == calls[k].before.len(),
        left_stages[k].memory() == calls[k].memory,
        left_stages[k].settings() == stages[k].settings(),
    decreases k,
{
    reveal(explains);
    reveal(remembers);
    let half = (scratch.len() / 2) as int;
    let (first, second) = (scratch.take(half), scratch.skip(half));
    assert(call_fits(stages, input, first, second, calls, k));
    assert(memory_of(left_stages, k) == calls[k].memory);
    assert(crate::pipeline::same_stage(left_stages, stages, k));
    if k > 0 {
        assert(call_fits(stages, input, first, second, calls, k - 1));
    }
}

/// How a chain ends. It puts a block out exactly if every stage ran and the last
/// one put something out: the bytes the last stage wrote, in the format it gives.
/// It puts nothing out exactly if the last stage that ran put nothing out. It
/// fails as the stage failed; or because a stage's answer was no whole number of
/// frames inside its half; or because the next stage refuses the format, or asks
/// for more room than the half.
pub proof fn lemma_how_a_chain_ends<'e>(
    stages: Seq<&'e mut dyn Element>,
    input: BlockView,
    scratch: Seq<u8>,
    calls: Seq<Call>,
    outcome: Ending,
    left_scratch: Seq<u8>,
    left_stages: Seq<&'e mut dyn Element>,
)
    requires
        explains(stages, input, scratch, calls, outcome, left_scratch, left_stages),
        stages.len() > 0,
        scratch.len() <= usize::MAX,
    ensures
        ({
            let made = calls.len() as int;
            let half = (scratch.len() / 2) as int;
            let last = calls[made - 1];
            let told = stages[made - 1].format_out(last.input.format);
            let whole = last.result is Ok && last.result->Ok_0 <= half && told is Ok
                && told->Ok_0.channels > 0 && last.result->Ok_0 as int
                % told->Ok_0.frame_width() as int == 0;
            &&& made > 0 && last.result is Err ==> outcome == Ending::Failed(last.result->Err_0)
            &&& made > 0 && last.result is Ok && !whole ==> outcome == Ending::Failed(
                Error::InvalidGeometry,
            )
            &&& made > 0 && whole && last.result->Ok_0 == 0 ==> outcome == Ending::Empty
            &&& made > 0 && whole && last.result->Ok_0 > 0 && made == stages.len() ==> {
                &&& outcome is Block
                &&& outcome->Block_0.data == last.after.take(last.result->Ok_0 as int)
                &&& outcome->Block_0.format == told->Ok_0
                &&& outcome->Block_0.timestamp == input.timestamp
            }
            &&& made < stages.len() && (made == 0 || whole && last.result->Ok_0 > 0) ==> {
                let format = if made == 0 {
                    input.format
                } else {
                    told->Ok_0
                };
                let bytes = if made == 0 {
                    input.data.len() as int
                } else {
                    last.result->Ok_0 as int
                };
                let room = stages[made].room(format, bytes as usize) as int;
                match stages[made].format_out(format) {
                    Err(e) => outcome == Ending::Failed(e),
                    Ok(_) => {
                        &&& room > half
                        &&& outcome is Failed
                        &&& 2 * room <= usize::MAX ==> outcome == Ending::Failed(
                            Error::BufferTooSmall { needed: (2 * room) as usize },
                        )
                    },
                }
            }
        }),
{
    reveal(explains);
    let made = calls.len() as int;
    let half = (scratch.len() / 2) as int;
    let (first, second) = (scratch.take(half), scratch.skip(half));
    if made > 0 {
        assert(call_fits(stages, input, first, second, calls, made - 1));
        let last = calls[made - 1];
        assert(last.after.len() == half || last.after.len() == scratch.len() - half) by {
            lemma_half_len(stages, input, first, second, calls, made - 1);
        }
    }
}

proof fn lemma_half_len<'e>(
    stages: Seq<&'e mut dyn Element>,
    input: BlockView,
    first: Seq<u8>,
    second: Seq<u8>,
    calls: Seq<Call>,
    k: int,
)
    requires
        forall|j: int|
            0 <= j < calls.len() ==> #[trigger] call_fits(stages, input, first, second, calls, j),
        0 <= k < calls.len(),
    ensures
        calls[k].after.len() == (if k % 2 == 0 {
            first.len()
        } else {
            second.len()
        }),
    decreases k,
{
    assert(call_fits(stages, input, first, second, calls, k));
    if k >= 2 {
        lemma_half_len(stages, input, first, second, calls, k - 2);
    }
}

/// Where the block lies that comes out: at the front of the half that the last
/// stage wrote, which is the first one after an odd number of stages.
pub proof fn lemma_block_lies_in_the_scratch<'e>(
    stages: Seq<&'e mut dyn Element>,
    input: BlockView,
    scratch: Seq<u8>,
    calls: Seq<Call>,
    outcome: Ending,
    left_scratch: Seq<u8>,
    left_stages: Seq<&'e mut dyn Element>,
)
    requires
        explains(stages, input, scratch, calls, outcome, left_scratch, left_stages),
        outcome is Block,
        stages.len() > 0,
    ensures
        ({
            let data = outcome->Block_0.data;
            let at = if stages.len() % 2 == 1 {
                0
            } else {
                scratch.len() as int / 2
            };
            &&& left_scratch.len() == scratch.len()
            &&& at + data.len() <= scratch.len()
            &&& left_scratch.subrange(at, at + data.len()) == data
        }),
{
    reveal(explains);
    let made = calls.len() as int;
    let half = (scratch.len() / 2) as int;
    let (first, second) = (scratch.take(half), scratch.skip(half));
    assert(made > 0);
    assert(call_fits(stages, input, first, second, calls, made - 1));
    lemma_half_len(stages, input, first, second, calls, made - 1);
    if made > 1 {
        lemma_half_len(stages, input, first, second, calls, made - 2);
    }
    let last = calls[made - 1];
    let data = outcome->Block_0.data;
    assert(last.result->Ok_0 <= half);
    let at = if stages.len() % 2 == 1 {
        0
    } else {
        half
    };
    assert(left_scratch.subrange(at, at + data.len()) =~= data);
}

} // verus!
