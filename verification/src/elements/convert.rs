//! [`Convert`]: sample-format conversion as an element.

use vstd::prelude::*;

use super::{sized, wrote};
use crate::codec::pcm;
use crate::codec::pcm::{conversion, converted_len};
use crate::esp_core::error::Result;
use crate::esp_core::pcm::{whole_frames, BlockView, PcmBlock, PcmFormat, SampleFormat};
use crate::pipeline::{act_alike, keeps_its_bound, Element};

verus! {

/// Re-encode every sample to `to` (see [`pcm::convert`] for the exact rules).
/// Same-format input is a byte copy.
#[derive(Debug, Clone, Copy, PartialEq, Eq, Structural)]
pub struct Convert {
    /// The encoding of the output.
    pub to: SampleFormat,
}

impl Convert {
    /// Convert to `to`.
    pub fn to(to: SampleFormat) -> (r: Self)
        ensures
            r.to == to,
    {
        Convert { to }
    }

    /// What the element writes for `input` into a buffer of `room` bytes.
    pub open spec fn emits(self, input: BlockView, room: nat) -> Result<Seq<u8>> {
        conversion(input, self.to, room)
    }
}

/// A number for each encoding.
pub open spec fn format_number(format: SampleFormat) -> int {
    match format {
        SampleFormat::I16 => 0,
        SampleFormat::I24In32 => 1,
        SampleFormat::I32 => 2,
        SampleFormat::F32 => 3,
    }
}

/// A block holds whole samples.
proof fn lemma_whole_samples_of(format: PcmFormat, len: nat)
    requires
        whole_frames(format, len),
    ensures
        len % format.sample.width() == 0,
{
    let fw = format.frame_width() as int;
    let w = format.sample.width() as int;
    let channels = format.channels as int;
    let frames = len as int / fw;
    vstd::arithmetic::div_mod::lemma_fundamental_div_mod(len as int, fw);
    assert(len == w * (channels * frames)) by (nonlinear_arith)
        requires
            len == fw * frames,
            fw == w * channels,
    ;
    vstd::arithmetic::div_mod::lemma_fundamental_div_mod_converse(
        len as int,
        w,
        channels * frames,
        0,
    );
}

impl Element for Convert {
    open spec fn settings(&self) -> Seq<int> {
        seq![format_number(self.to)]
    }

    open spec fn format_out(&self, input: PcmFormat) -> Result<PcmFormat> {
        PcmFormat::checked(input.sample_rate_hz, input.channels, self.to)
    }

    open spec fn room(&self, input: PcmFormat, input_bytes: usize) -> usize {
        sized(converted_len(input.sample, self.to, input_bytes as nat))
    }

    open spec fn memory(&self) -> Seq<int> {
        Seq::empty()
    }

    open spec fn fresh_memory(&self) -> Seq<int> {
        Seq::empty()
    }

    open spec fn step(
        &self,
        input: BlockView,
        before: Seq<u8>,
        r: Result<usize>,
        after: Seq<u8>,
        memory: Seq<int>,
    ) -> bool {
        wrote(self.emits(input, before.len()), before, r, after)
    }

    fn output_format(&self, input: PcmFormat) -> (r: Result<PcmFormat>) {
        PcmFormat::new(input.sample_rate_hz, input.channels, self.to)
    }

    fn max_output_bytes(&self, input: PcmFormat, input_bytes: usize) -> (r: usize) {
        pcm::output_bytes_bounded(input.sample, self.to, input_bytes)
    }

    fn process(&mut self, input: PcmBlock<'_>, out: &mut [u8]) -> (r: Result<usize>) {
        proof {
            lemma_whole_samples_of(input.format, input.data@.len());
        }
        pcm::convert(input, self.to, out)
    }

    fn reset(&mut self) {
    }
}

/// No block comes out larger than its samples take.
pub proof fn lemma_convert_keeps_its_bound(stage: Convert)
    ensures
        keeps_its_bound(&stage),
{
    assert forall|format: PcmFormat, fewer: usize, more: usize| fewer
        <= more implies #[trigger] stage.room(format, fewer) <= #[trigger] stage.room(
        format,
        more,
    ) by {
        let (w, t) = (format.sample.width() as int, stage.to.width() as int);
        vstd::arithmetic::div_mod::lemma_div_is_ordered(fewer as int, more as int, w);
        assert(fewer as int / w * t <= more as int / w * t) by (nonlinear_arith)
            requires
                fewer as int / w <= more as int / w,
                t > 0,
        ;
    }
}

/// What the element does with a block is settled by its settings and memory.
pub proof fn lemma_convert_acts_by_its_settings(a: Convert, b: Convert)
    requires
        a.settings() == b.settings(),
        a.memory() == b.memory(),
    ensures
        act_alike(&a, &b),
{
    assert(a.settings()[0] == format_number(a.to) && b.settings()[0] == format_number(b.to));
    assert(a.to == b.to);
}

/// What the element does with a block: it puts out exactly what conversion makes
/// of it, leaves the rest of the buffer, keeps rate and channels, and refuses
/// nothing but a buffer without room.
pub proof fn lemma_convert_block(
    stage: Convert,
    input: BlockView,
    before: Seq<u8>,
    r: Result<usize>,
    after: Seq<u8>,
    memory: Seq<int>,
)
    requires
        stage.step(input, before, r, after, memory),
    ensures
        r is Err ==> after == before,
        r is Ok ==> {
            let bytes = pcm::converted(input.format.sample, stage.to, input.data);
            &&& bytes.len() <= before.len()
            &&& after == bytes + before.skip(bytes.len() as int)
            &&& bytes.len() <= usize::MAX ==> r->Ok_0 == bytes.len()
        },
        r is Ok <==> before.len() >= pcm::converted(
            input.format.sample,
            stage.to,
            input.data,
        ).len(),
        ({
            let f = stage.format_out(input.format);
            input.format.sample_rate_hz > 0 && input.format.channels > 0 ==> f is Ok
                && f->Ok_0.sample == stage.to && f->Ok_0.channels == input.format.channels
                && f->Ok_0.sample_rate_hz == input.format.sample_rate_hz
        }),
{
}

} // verus!
