//! Moving whole frames between a stage and its rings.
//!
//! A stage waits until its input ring holds a full frame, takes exactly that
//! frame, and hands what it made of it to its output ring sample by sample
//! under the drop-newest policy.

use crate::ring::{available, pop_or_silence, push_or_drop, SampleConsumer, SampleProducer};
use crate::ring_model::RingView;
use crate::stream::{is_thinning, least, lemma_suffix_chain, lemma_suffix_push};
use vstd::prelude::*;

verus! {

/// The number of samples in an interleaved frame of `slots` slots on
/// `channels` channels, where that number can be held.
pub fn frame_len(slots: usize, channels: usize) -> (len: Option<usize>)
    ensures
        slots * channels <= usize::MAX ==> len == Some((slots * channels) as usize),
        slots * channels > usize::MAX ==> len is None,
{
    slots.checked_mul(channels)
}

/// What pushing the samples `offered`, one by one and each under drop-newest,
/// can come to when `accepted` are the samples that got in. The samples that
/// got in are a thinning of those offered; the producer's view is what it
/// was, then those samples, less what the consumer took meanwhile; and the
/// samples for which the view had room at the start all got in.
pub open spec fn push_outcome(
    before: RingView,
    offered: Seq<u32>,
    accepted: Seq<u32>,
    after: RingView,
) -> bool {
    let sure = least(before.room(), offered.len());
    &&& after.wf()
    &&& after.capacity == before.capacity
    &&& is_thinning(accepted, offered)
    &&& after.samples.is_suffix_of(before.samples + accepted)
    &&& sure <= accepted.len()
    &&& accepted.take(sure as int) == offered.take(sure as int)
}

/// Offers every sample of `samples` to the ring, oldest first, dropping each
/// one that finds the ring full, and returns how many got in.
pub fn push_frame(producer: &mut SampleProducer, samples: &[u32]) -> (count: usize)
    ensures
        count <= samples@.len(),
        exists|accepted: Seq<u32>|
            accepted.len() == count && #[trigger] push_outcome(
                old(producer)@,
                samples@,
                accepted,
                final(producer)@,
            ),
        samples@.len() <= old(producer)@.room() ==> count == samples@.len(),
        samples@.len() <= old(producer)@.room() ==> final(producer)@.samples.is_suffix_of(
            old(producer)@.samples + samples@,
        ),
        samples@.len() == 0 ==> final(producer)@ == old(producer)@,
{
    let ghost before = producer@;
    let ghost sure = least(before.room(), samples@.len());
    let ghost mut accepted: Seq<u32> = Seq::empty();
    let mut count: usize = 0;
    let mut i: usize = 0;
    proof {
        use_type_invariant(&*producer);
        assert(before.samples + accepted =~= before.samples);
        assert(before.samples.is_suffix_of(before.samples));
    }
    while i < samples.len()
        invariant
            before == old(producer)@,
            sure == least(before.room(), samples@.len()),
            i <= samples@.len(),
            count == accepted.len(),
            count <= i,
            producer@.capacity == before.capacity,
            producer@.wf(),
            i == 0 ==> producer@ == before,
            is_thinning(accepted, samples@.take(i as int)),
            producer@.samples.is_suffix_of(before.samples + accepted),
            least(sure, i as nat) <= accepted.len(),
            accepted.take(least(sure, i as nat) as int) == samples@.take(
                least(sure, i as nat) as int,
            ),
            i <= sure ==> accepted.len() == i,
        decreases samples@.len() - i,
    {
        let ghost earlier = producer@;
        let ghost had = accepted;
        let sample = samples[i];
        let got_in = push_or_drop(producer, sample);
        proof {
            let so_far = samples@.take(i as int);
            let next = samples@.take(i + 1);
            assert(next.drop_last() =~= so_far);
            assert(next.last() == sample);
            let whole = before.samples + had;
            if got_in {
                accepted = had.push(sample);
                assert(accepted.drop_last() =~= had);
                let looked = producer@.without_back();
                assert(looked.samples.is_suffix_of(earlier.samples));
                lemma_suffix_chain(looked.samples, earlier.samples, whole);
                lemma_suffix_push(looked.samples, whole, sample);
                assert(producer@.samples =~= looked.samples.push(sample));
                assert(before.samples + accepted =~= whole.push(sample));
                if i < sure {
                    assert(accepted.take(i + 1) =~= accepted);
                    assert(had.take(i as int) =~= had);
                    assert(accepted =~= samples@.take(i as int).push(sample));
                    assert(accepted.take(i + 1) =~= next);
                } else {
                    assert(accepted.take(sure as int) =~= had.take(sure as int));
                    assert(next.take(sure as int) =~= so_far.take(sure as int));
                }
            } else {
                lemma_suffix_chain(producer@.samples, earlier.samples, whole);
                if i < sure {
                    assert(earlier.samples.len() <= whole.len());
                    assert(producer@.samples.len() <= before.samples.len() + i);
                    assert(false);
                }
                assert(next.take(sure as int) =~= so_far.take(sure as int));
            }
        }
        if got_in {
            count += 1;
        }
        i += 1;
    }
    proof {
        assert(samples@.take(i as int) =~= samples@);
        assert(accepted.take(sure as int) =~= samples@.take(sure as int));
        assert(push_outcome(before, samples@, accepted, producer@));
        if samples@.len() <= before.room() {
            assert(accepted =~= accepted.take(sure as int));
        }
    }
    count
}

/// Whether a ring in which `ready` samples are ready holds a whole frame of
/// `size` samples.
pub open spec fn is_ready(ready: nat, size: nat) -> bool {
    ready >= size
}

/// The number of frames that a stage takes from `ready` samples when no more
/// arrive: it takes one as long as `is_ready` says that a whole one is there.
pub open spec fn frames_drained(ready: nat, size: nat) -> nat
    decreases ready,
{
    if size > 0 && is_ready(ready, size) {
        1 + frames_drained((ready - size) as nat, size)
    } else {
        0
    }
}

/// The number of samples that such a stage leaves in its ring.
pub open spec fn left_over(ready: nat, size: nat) -> nat
    decreases ready,
{
    if size > 0 && is_ready(ready, size) {
        left_over((ready - size) as nat, size)
    } else {
        ready
    }
}

/// A stage that takes a frame only when a whole one is ready takes
/// `ready / size` frames from `ready` samples and leaves the `ready % size`
/// samples that make no whole frame.
pub proof fn law_whole_frames_only(ready: nat, size: nat)
    requires
        size > 0,
    ensures
        frames_drained(ready, size) == ready / size,
        left_over(ready, size) == ready % size,
        left_over(ready, size) < size,
        frames_drained(ready, size) * size + left_over(ready, size) == ready,
    decreases ready,
{
    if is_ready(ready, size) {
        let rest = (ready - size) as nat;
        law_whole_frames_only(rest, size);
        let q = (rest / size) as int;
        let r = (rest % size) as int;
        vstd::arithmetic::div_mod::lemma_fundamental_div_mod(rest as int, size as int);
        assert(ready == (size as int) * (q + 1) + r) by (nonlinear_arith)
            requires
                rest == (size as int) * q + r,
                ready == rest + size,
        ;
        vstd::arithmetic::div_mod::lemma_fundamental_div_mod_converse(
            ready as int,
            size as int,
            q + 1,
            r,
        );
        assert((q + 1) * size + r == ready) by (nonlinear_arith)
            requires
                ready == (size as int) * (q + 1) + r,
        ;
    } else {
        vstd::arithmetic::div_mod::lemma_small_mod(ready, size);
        vstd::arithmetic::div_mod::lemma_basic_div(ready as int, size as int);
    }
}

/// What waiting for a frame of `size` samples can come to. The ring is looked
/// at afresh, and samples that were ready before stay the oldest. If the look
/// finds a whole frame, its `size` oldest samples are taken in their order
/// and the rest stays; if it finds less, nothing is taken.
pub open spec fn frame_outcome(
    before: RingView,
    size: nat,
    taken: bool,
    frame: Seq<u32>,
    after: RingView,
) -> bool {
    let looked = if taken {
        RingView { samples: frame + after.samples, capacity: after.capacity }
    } else {
        after
    };
    &&& after.wf()
    &&& after.capacity == before.capacity
    &&& before.filled_to(looked)
    &&& taken == is_ready(looked.samples.len(), size)
    &&& taken ==> frame.len() == size
}

/// Decides from the count of samples that a look found ready whether a frame
/// of `size` samples is taken: only a whole frame is.
pub fn frame_is_ready(ready: usize, size: usize) -> (go: bool)
    ensures
        go == is_ready(ready as nat, size as nat),
        go == (ready >= size),
{
    ready >= size
}

/// Takes a frame that is known to be ready: `frame` is filled with the oldest
/// samples of the ring, oldest first, and exactly those leave the ring.
pub fn take_ready_frame(consumer: &mut SampleConsumer, frame: &mut [u32])
    requires
        old(consumer)@.samples.len() >= old(frame)@.len(),
    ensures
        final(frame)@ == old(consumer)@.samples.take(old(frame)@.len() as int),
        final(consumer)@.samples == old(consumer)@.samples.skip(old(frame)@.len() as int),
        final(consumer)@.capacity == old(consumer)@.capacity,
{
    let size: usize = frame.len();
    let ghost looked = consumer@;
    let mut i: usize = 0;
    proof {
        assert(looked.samples.skip(0) =~= looked.samples);
    }
    while i < size
        invariant
            size == frame@.len(),
            size == old(frame)@.len(),
            looked == old(consumer)@,
            i <= size <= looked.samples.len(),
            consumer@.capacity == looked.capacity,
            consumer@.samples == looked.samples.skip(i as int),
            frame@.take(i as int) == looked.samples.take(i as int),
        decreases size - i,
    {
        let sample = pop_or_silence(consumer);
        frame[i] = sample;
        proof {
            assert(looked.samples.skip(i as int).skip(1) =~= looked.samples.skip(i + 1));
            assert(frame@.take(i + 1) =~= frame@.take(i as int).push(sample));
            assert(looked.samples.take(i + 1) =~= looked.samples.take(i as int).push(
                looked.samples[i as int],
            ));
        }
        i += 1;
    }
    proof {
        assert(frame@.take(size as int) =~= frame@);
    }
}

/// Takes one frame from the ring if the ring holds a whole one: one look at
/// the ring, the decision of `frame_is_ready` on what the look found, and
/// `take_ready_frame` where that says so. Otherwise nothing is taken and
/// `frame` is left as it was.
pub fn take_frame(consumer: &mut SampleConsumer, frame: &mut [u32]) -> (taken: bool)
    ensures
        final(frame)@.len() == old(frame)@.len(),
        !taken ==> final(frame)@ == old(frame)@,
        frame_outcome(
            old(consumer)@,
            old(frame)@.len(),
            taken,
            final(frame)@,
            final(consumer)@,
        ),
        is_ready(old(consumer)@.samples.len(), old(frame)@.len()) ==> taken,
        is_ready(old(consumer)@.samples.len(), old(frame)@.len()) ==> final(frame)@ == old(
            consumer,
        )@.samples.take(old(frame)@.len() as int),
{
    let ready = available(consumer);
    if !frame_is_ready(ready, frame.len()) {
        return false;
    }
    let ghost looked = consumer@;
    take_ready_frame(consumer, frame);
    proof {
        use_type_invariant(&*consumer);
        assert(frame@ + consumer@.samples =~= looked.samples);
    }
    true
}

/// `count`, or `limit` where `count` is beyond it.
pub fn capped(count: usize, limit: usize) -> (len: usize)
    ensures
        len == least(count as nat, limit as nat),
{
    if count <= limit {
        count
    } else {
        limit
    }
}

/// The number of samples that a stage made of `frames` frames on `channels`
/// channels and that lie within a buffer of `limit` samples.
pub fn samples_made(frames: usize, channels: usize, limit: usize) -> (len: usize)
    ensures
        len == least((frames * channels) as nat, limit as nat),
{
    match frame_len(frames, channels) {
        Some(made) => capped(made, limit),
        None => limit,
    }
}

} // verus!
