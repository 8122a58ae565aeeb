//! Filling a device's output buffer from the last ring of the pipeline.
//!
//! The pipeline is mono. For every frame of the interleaved output buffer
//! one sample is taken from the ring and written to each channel of the
//! frame. Where the ring is drained the frame is silent: playback neither
//! waits for samples nor skips ahead.

use crate::layout::{deinterleaved, lemma_place, lemma_position};
use crate::ring::{pop, sample_or_silence, SampleConsumer};
use crate::ring_model::RingView;
use crate::stream::{
    found, least, lemma_found_first, lemma_prefix_append, lemma_prefix_chain, or_silence, played,
    SILENCE,
};
use vstd::prelude::*;

verus! {

/// The number of frames that an interleaved buffer of `len` samples begins:
/// `len / channels`, rounded up.
pub open spec fn frames_begun(len: nat, channels: nat) -> nat {
    if len % channels == 0 {
        len / channels
    } else {
        len / channels + 1
    }
}

/// The interleaved buffer of `len` samples in which every channel of frame
/// `s` holds `mono[s]`.
pub open spec fn upmixed(mono: Seq<u32>, channels: nat, len: nat) -> Seq<u32> {
    Seq::new(len, |i: int| mono[i / (channels as int)])
}

/// What filling an output buffer can come to, when `popped` is what the pops
/// returned, one pop for each frame that the buffer begins. The buffer is the
/// upmix of what is played for those pops: the sample that a pop found, and
/// silence for a pop that found none. The samples found are the oldest of the
/// ring, in their order, and a pop that found none took nothing. The samples
/// that were ready at the start are taken first, one after the other. Where
/// the last pop found none, the ring is left drained.
pub open spec fn playback_outcome(
    before: RingView,
    channels: nat,
    data: Seq<u32>,
    popped: Seq<Option<u32>>,
    after: RingView,
) -> bool {
    let sure = least(before.samples.len(), popped.len());
    &&& after.wf()
    &&& after.capacity == before.capacity
    &&& popped.len() == frames_begun(data.len(), channels)
    &&& data == upmixed(played(popped), channels, data.len())
    &&& before.filled_to(
        RingView { samples: found(popped) + after.samples, capacity: after.capacity },
    )
    &&& sure <= found(popped).len()
    &&& forall|s: int| 0 <= s < sure ==> #[trigger] popped[s] == Some(before.samples[s])
    &&& popped.len() > 0 && popped.last() is None ==> after.is_empty()
}

/// Fills the interleaved output buffer `data` of `channels` channels from the
/// ring: one pop per frame, and what `sample_or_silence` makes of it copied
/// to every channel of the frame. Returns how many samples were taken from
/// the ring. Where that is no more than were ready at the start, no sample
/// arrived in time to be played, and every frame beyond those is silent.
pub fn playback_block(consumer: &mut SampleConsumer, channels: usize, data: &mut [u32]) -> (taken:
    usize)
    requires
        channels >= 1,
    ensures
        final(data)@.len() == old(data)@.len(),
        exists|popped: Seq<Option<u32>>|
            taken == found(popped).len() && #[trigger] playback_outcome(
                old(consumer)@,
                channels as nat,
                final(data)@,
                popped,
                final(consumer)@,
            ),
        least(old(consumer)@.samples.len(), frames_begun(old(data)@.len(), channels as nat))
            <= taken <= frames_begun(old(data)@.len(), channels as nat),
        forall|i: int|
            0 <= i < old(data)@.len() && i / (channels as int) < old(consumer)@.samples.len()
                ==> #[trigger] final(data)@[i] == old(consumer)@.samples[i / (channels as int)],
        frames_begun(old(data)@.len(), channels as nat) <= old(consumer)@.samples.len()
            ==> final(consumer)@.samples == old(consumer)@.samples.skip(
            frames_begun(old(data)@.len(), channels as nat) as int,
        ),
        taken <= old(consumer)@.samples.len() ==> forall|i: int|
            0 <= i < old(data)@.len() && i / (channels as int) >= old(consumer)@.samples.len()
                ==> #[trigger] final(data)@[i] == SILENCE,
        taken <= old(consumer)@.samples.len() < frames_begun(old(data)@.len(), channels as nat)
            ==> final(consumer)@.is_empty(),
{
    let ghost before = consumer@;
    let ghost mut popped: Seq<Option<u32>> = Seq::empty();
    let len: usize = data.len();
    let mut held: u32 = SILENCE;
    let mut taken: usize = 0;
    let mut i: usize = 0;
    proof {
        use_type_invariant(&*consumer);
        assert(found(popped) + consumer@.samples =~= before.samples);
        assert(before.samples.skip(0) =~= before.samples);
    }
    while i < len
        invariant
            channels >= 1,
            before == old(consumer)@,
            len == data@.len(),
            len == old(data)@.len(),
            i <= len,
            consumer@.wf(),
            consumer@.capacity == before.capacity,
            popped.len() == frames_begun(i as nat, channels as nat),
            popped.len() <= i,
            popped.len() > 0 ==> held == or_silence(popped.last()),
            forall|j: int|
                0 <= j < i ==> #[trigger] data@[j] == or_silence(popped[j / (channels as int)]),
            taken == found(popped).len(),
            taken <= popped.len(),
            least(before.samples.len(), popped.len()) <= taken,
            before.samples.is_prefix_of(found(popped) + consumer@.samples),
            forall|s: int|
                0 <= s < least(before.samples.len(), popped.len()) ==> #[trigger] popped[s]
                    == Some(before.samples[s]),
            popped.len() <= before.samples.len() ==> consumer@.samples == before.samples.skip(
                popped.len() as int,
            ),
            popped.len() > 0 && popped.last() is None ==> consumer@.is_empty(),
        decreases len - i,
    {
        proof {
            lemma_position(i as int, channels as int);
        }
        if i % channels == 0 {
            let ghost view = consumer@;
            let ghost earlier = popped;
            let popped_now = pop(consumer);
            held = sample_or_silence(popped_now);
            proof {
                let later = consumer@;
                let frames = earlier.len();
                popped = earlier.push(popped_now);
                assert(popped.drop_last() =~= earlier);
                if frames < before.samples.len() {
                    assert(!view.is_empty());
                    assert(popped_now == Some(before.samples[frames as int]));
                    assert(before.samples.skip(frames as int).skip(1) =~= before.samples.skip(
                        (frames + 1) as int,
                    ));
                }
                match popped_now {
                    Some(sample) => {
                        let grown = later.with_front(sample).samples;
                        assert(found(popped) + later.samples =~= found(earlier) + grown);
                        lemma_prefix_append(view.samples, grown, found(earlier));
                        lemma_prefix_chain(
                            before.samples,
                            found(earlier) + view.samples,
                            found(earlier) + grown,
                        );
                    },
                    None => {
                        assert(view.samples =~= later.samples);
                    },
                }
                assert forall|s: int|
                    0 <= s < least(before.samples.len(), popped.len()) implies #[trigger] popped[s]
                    == Some(before.samples[s]) by {
                    if s < frames {
                        assert(popped[s] == earlier[s]);
                    }
                }
                assert(frames_begun((i + 1) as nat, channels as nat) == frames + 1) by {
                    lemma_next_position(i as int, channels as int);
                }
            }
            if popped_now.is_some() {
                taken += 1;
            }
        } else {
            proof {
                assert(frames_begun((i + 1) as nat, channels as nat) == popped.len()) by {
                    lemma_next_position(i as int, channels as int);
                }
            }
        }
        let ghost filled = data@;
        data[i] = held;
        proof {
            assert forall|j: int| 0 <= j < i + 1 implies #[trigger] data@[j] == or_silence(
                popped[j / (channels as int)],
            ) by {
                if j < i {
                    lemma_frame_of_earlier(j, i as int, channels as int);
                    assert(data@[j] == filled[j]);
                }
            }
        }
        i += 1;
    }
    proof {
        let sure = least(before.samples.len(), popped.len());
        let mono = played(popped);
        assert forall|j: int| 0 <= j < data@.len() implies data@[j] == upmixed(
            mono,
            channels as nat,
            data@.len(),
        )[j] by {
            lemma_position(j, channels as int);
            lemma_frame_of_earlier(j, len as int, channels as int);
        }
        assert(data@ =~= upmixed(mono, channels as nat, data@.len()));
        assert(playback_outcome(before, channels as nat, data@, popped, consumer@));
        assert forall|j: int|
            0 <= j < data@.len() && j / (channels as int)
                < before.samples.len() implies #[trigger] data@[j] == before.samples[j / (
            channels as int)] by {
            lemma_position(j, channels as int);
            lemma_frame_of_earlier(j, len as int, channels as int);
            assert(popped[j / (channels as int)] == Some(before.samples[j / (channels as int)]));
        }
        if taken <= before.samples.len() {
            assert forall|s: int| 0 <= s < sure implies (#[trigger] popped[s]) is Some by {
                assert(popped[s] == Some(before.samples[s]));
            }
            lemma_found_first(popped, sure);
            if before.samples.len() < popped.len() {
                assert(popped[popped.len() - 1] is None);
            }
            assert forall|j: int|
                0 <= j < data@.len() && j / (channels as int)
                    >= before.samples.len() implies #[trigger] data@[j] == SILENCE by {
                lemma_position(j, channels as int);
                lemma_frame_of_earlier(j, len as int, channels as int);
                assert(popped[j / (channels as int)] is None);
            }
        }
    }
    taken
}

/// A position before `i` lies in one of the frames that `i` samples begin.
pub proof fn lemma_frame_of_earlier(j: int, i: int, channels: int)
    requires
        0 <= j < i,
        channels >= 1,
    ensures
        j / channels < frames_begun(i as nat, channels as nat),
{
    vstd::arithmetic::div_mod::lemma_div_is_ordered(j, i - 1, channels);
    lemma_next_position(i - 1, channels);
}

/// How channel and slot move from one interleaved position to the next.
pub proof fn lemma_next_position(i: int, channels: int)
    requires
        0 <= i,
        channels >= 1,
    ensures
        i % channels == channels - 1 ==> (i + 1) % channels == 0 && (i + 1) / channels == i
            / channels + 1,
        i % channels != channels - 1 ==> (i + 1) % channels == i % channels + 1 && (i + 1)
            / channels == i / channels,
{
    lemma_position(i, channels);
    let c = i % channels;
    let s = i / channels;
    if c == channels - 1 {
        assert((s + 1) * channels == s * channels + channels) by (nonlinear_arith);
        lemma_place(0, s + 1, channels);
    } else {
        lemma_place(c + 1, s, channels);
    }
}

/// Every channel of an upmixed buffer carries the mono stream: its planar
/// layout has `channels` rows, each equal to `mono`.
pub proof fn law_upmix_fills_every_channel(mono: Seq<u32>, channels: nat)
    requires
        channels >= 1,
    ensures
        deinterleaved(upmixed(mono, channels, mono.len() * channels), channels) == Seq::new(
            channels,
            |c: int| mono,
        ),
{
    let len = mono.len() * channels;
    let data = upmixed(mono, channels, len);
    let rows = deinterleaved(data, channels);
    let want = Seq::new(channels, |c: int| mono);
    assert(len / channels == mono.len()) by {
        assert(mono.len() * channels == channels * mono.len()) by (nonlinear_arith);
        vstd::arithmetic::div_mod::lemma_div_multiples_vanish(mono.len() as int, channels as int);
    }
    assert forall|c: int| 0 <= c < channels implies rows[c] =~= want[c] by {
        assert forall|s: int| 0 <= s < mono.len() implies rows[c][s] == mono[s] by {
            lemma_place(c, s, channels as int);
            assert(s * channels + c < mono.len() * channels) by (nonlinear_arith)
                requires
                    0 <= s < mono.len(),
                    0 <= c < channels,
            ;
        }
    }
    assert(rows =~= want);
}

} // verus!
