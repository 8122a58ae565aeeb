//! The bookkeeping of the noise-suppression stage.
//!
//! The suppressor works on frames of 480 samples at 48 kHz, scaled to the
//! range of 16-bit PCM. Its first output frame is not yet settled and would
//! be heard as a click, so the stage throws it away and passes on every
//! frame after it.

use crate::frame::{frames_drained, law_whole_frames_only, left_over, push_frame, push_outcome};
use crate::ring::SampleProducer;
use vstd::prelude::*;

verus! {

/// The number of samples in one frame of the suppressor.
pub const DENOISE_FRAME: usize = 480;

/// The factor between a sample in [-1, 1] and the suppressor's 16-bit range.
pub const PCM_SCALE: u16 = 32767;

/// The number of whole suppressor frames in `samples` samples.
pub open spec fn whole_frames(samples: nat) -> nat {
    samples / (DENOISE_FRAME as nat)
}

/// The output side of the noise-suppression stage.
#[derive(Clone, Copy, Debug, PartialEq, Eq, Structural)]
pub struct DenoiseStage {
    /// Whether the stage has yet to see, and discard, its first frame.
    pub warming: bool,
}

impl DenoiseStage {
    /// The stage after one more frame has come out of the suppressor.
    pub open spec fn settled(self) -> DenoiseStage {
        DenoiseStage { warming: false }
    }

    /// Of the frames that come out of the suppressor from here on, in their
    /// order, those that the stage passes on.
    pub open spec fn passed_on(self, frames: Seq<Seq<u32>>) -> Seq<Seq<u32>>
        decreases frames.len(),
    {
        if frames.len() == 0 {
            Seq::empty()
        } else if self.warming {
            self.settled().passed_on(frames.skip(1))
        } else {
            seq![frames[0]] + self.settled().passed_on(frames.skip(1))
        }
    }

    /// A stage that has not seen a frame yet.
    pub fn new() -> (stage: DenoiseStage)
        ensures
            stage.warming,
    {
        DenoiseStage { warming: true }
    }

    /// Takes one frame from the suppressor. The first frame is discarded and
    /// the ring is not touched; every later frame is pushed to the ring under
    /// the drop-newest policy. Returns how many samples got in.
    pub fn emit(&mut self, producer: &mut SampleProducer, frame: &[u32]) -> (count: usize)
        ensures
            *final(self) == old(self).settled(),
            old(self).warming ==> count == 0 && *final(producer) == *old(producer),
            !old(self).warming ==> count <= frame@.len() && exists|accepted: Seq<u32>|
                accepted.len() == count && #[trigger] push_outcome(
                    old(producer)@,
                    frame@,
                    accepted,
                    final(producer)@,
                ),
            !old(self).warming && frame@.len() <= old(producer)@.room() ==> count == frame@.len(),
    {
        if self.warming {
            self.warming = false;
            0
        } else {
            push_frame(producer, frame)
        }
    }
}

/// A settled stage passes on every frame.
pub proof fn lemma_settled_passes_all(stage: DenoiseStage, frames: Seq<Seq<u32>>)
    requires
        !stage.warming,
    ensures
        stage.passed_on(frames) == frames,
    decreases frames.len(),
{
    if frames.len() > 0 {
        lemma_settled_passes_all(stage.settled(), frames.skip(1));
        assert(seq![frames[0]] + frames.skip(1) =~= frames);
    } else {
        assert(frames =~= Seq::<Seq<u32>>::empty());
    }
}

/// A new stage passes on every frame but the first, in order.
pub proof fn law_first_frame_discarded(stage: DenoiseStage, frames: Seq<Seq<u32>>)
    requires
        stage.warming,
        frames.len() >= 1,
    ensures
        stage.passed_on(frames) == frames.skip(1),
        stage.passed_on(frames).len() == frames.len() - 1,
{
    lemma_settled_passes_all(stage.settled(), frames.skip(1));
}

/// From an input of `samples` samples, of which there are enough for one
/// frame at least, a new stage that is fed the frames that `take_frame`'s
/// rule drains from that input passes on `samples / 480 - 1` frames: one
/// fewer than the whole frames in the input.
pub proof fn law_frames_passed_on(stage: DenoiseStage, samples: nat, frames: Seq<Seq<u32>>)
    requires
        stage.warming,
        samples >= DENOISE_FRAME,
        frames.len() == frames_drained(samples, DENOISE_FRAME as nat),
    ensures
        frames.len() == whole_frames(samples),
        stage.passed_on(frames).len() == samples / (DENOISE_FRAME as nat) - 1,
        left_over(samples, DENOISE_FRAME as nat) == samples % (DENOISE_FRAME as nat),
{
    law_whole_frames_only(samples, DENOISE_FRAME as nat);
    assert(whole_frames(samples) >= 1) by {
        vstd::arithmetic::div_mod::lemma_div_is_ordered(
            DENOISE_FRAME as int,
            samples as int,
            DENOISE_FRAME as int,
        );
    }
    law_first_frame_discarded(stage, frames);
}

} // verus!
