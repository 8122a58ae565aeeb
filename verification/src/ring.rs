//! The two ends of a lock-free single-producer/single-consumer sample ring.
//!
//! A sample travels through the rings as the bit pattern of a 32-bit float,
//! so silence is the word zero. Each end is used from one thread while the
//! other end may be at work in another. An end therefore knows the ring only
//! as far as it has looked: the producer knows the samples it has pushed and
//! not yet seen consumed, the consumer the samples it has seen arrive and not
//! yet popped. Looking again can only take samples from the front of the
//! producer's view and only add samples to the back of the consumer's view.
//! The contracts below state what holds whatever the other end does.

use ringbuf::traits::{Consumer, Observer, Producer, Split};
use ringbuf::{HeapCons, HeapProd, HeapRb};
use crate::ring_model::{RingView, RING_CAPACITY};
use crate::stream::{or_silence, SILENCE};
use vstd::prelude::*;

verus! {

/// The producing end of a ring of samples. It holds ringbuf's caching
/// producer of a heap ring, which Verus cannot be shown.
#[verifier::external_body]
pub struct SampleProducer {
    inner: HeapProd<u32>,
}

/// The consuming end of a ring of samples. It holds ringbuf's caching
/// consumer of a heap ring, which Verus cannot be shown.
#[verifier::external_body]
pub struct SampleConsumer {
    inner: HeapCons<u32>,
}

/// The samples between the read index that the producer last fetched and its
/// write index, oldest first.
pub uninterp spec fn producer_samples(producer: SampleProducer) -> Seq<u32>;

/// The capacity that the producer's ring was made with.
pub uninterp spec fn producer_capacity(producer: SampleProducer) -> nat;

/// The samples between the consumer's read index and the write index that it
/// last fetched, oldest first.
pub uninterp spec fn consumer_samples(consumer: SampleConsumer) -> Seq<u32>;

/// The capacity that the consumer's ring was made with.
pub uninterp spec fn consumer_capacity(consumer: SampleConsumer) -> nat;

impl SampleProducer {
    /// An end never sees more samples than its ring can hold.
    #[verifier::type_invariant]
    pub open spec fn within_capacity(self) -> bool {
        0 < producer_capacity(self) && producer_samples(self).len() <= producer_capacity(self)
    }
}

impl SampleConsumer {
    /// An end never sees more samples than its ring can hold.
    #[verifier::type_invariant]
    pub open spec fn within_capacity(self) -> bool {
        0 < consumer_capacity(self) && consumer_samples(self).len() <= consumer_capacity(self)
    }
}

impl View for SampleProducer {
    type V = RingView;

    open spec fn view(&self) -> RingView {
        RingView { samples: producer_samples(*self), capacity: producer_capacity(*self) }
    }
}

impl View for SampleConsumer {
    type V = RingView;

    open spec fn view(&self) -> RingView {
        RingView { samples: consumer_samples(*self), capacity: consumer_capacity(*self) }
    }
}

/// `HeapRb::<u32>::new` followed by `Split::split`. `new` panics on a capacity
/// of zero and on one whose bytes exceed `isize::MAX`; both are left out. The
/// ring starts empty with exactly the capacity asked for, and `split` hands
/// out one producer and one consumer of it, each with its indices at the
/// ring's.
#[verifier::external_body]
fn split_heap_ring(capacity: usize) -> (ends: (SampleProducer, SampleConsumer))
    requires
        0 < capacity <= isize::MAX / 4,
    ensures
        producer_samples(ends.0) == Seq::<u32>::empty(),
        producer_capacity(ends.0) == capacity,
        consumer_samples(ends.1) == Seq::<u32>::empty(),
        consumer_capacity(ends.1) == capacity,
{
    let (producer, consumer) = HeapRb::<u32>::new(capacity).split();
    (SampleProducer { inner: producer }, SampleConsumer { inner: consumer })
}

/// `Observer::is_full` on the caching producer. It fetches the ring's read
/// index, which only moves forward, into the producer's cell for it, and
/// compares the occupancy between it and the producer's write index with the
/// capacity. The fetch changes what the producer knows, so the end is taken
/// by `&mut` here.
#[verifier::external_body]
fn producer_is_full(producer: &mut SampleProducer) -> (full: bool)
    ensures
        producer_capacity(*final(producer)) == producer_capacity(*old(producer)),
        producer_samples(*final(producer)).is_suffix_of(producer_samples(*old(producer))),
        producer_samples(*final(producer)).len() <= producer_capacity(*final(producer)),
        0 < producer_capacity(*final(producer)),
        full == (producer_samples(*final(producer)).len() == producer_capacity(*final(producer))),
{
    producer.inner.is_full()
}

/// `Producer::try_push` on the caching producer. Where the producer's view
/// has room the sample is appended. Where it is full the read index is
/// fetched first; the sample is appended if that made room, and handed back
/// with nothing changed if it did not.
#[verifier::external_body]
fn producer_try_push(producer: &mut SampleProducer, sample: u32) -> (pushed: Result<(), u32>)
    ensures
        producer_capacity(*final(producer)) == producer_capacity(*old(producer)),
        producer_samples(*final(producer)).len() <= producer_capacity(*final(producer)),
        producer_samples(*old(producer)).len() < producer_capacity(*old(producer)) ==> pushed is Ok,
        producer_samples(*old(producer)).len() < producer_capacity(*old(producer))
            ==> producer_samples(*final(producer)) == producer_samples(*old(producer)).push(sample),
        pushed is Ok ==> producer_samples(*final(producer)).len() > 0,
        pushed is Ok ==> producer_samples(*final(producer)).last() == sample,
        pushed is Ok ==> producer_samples(*final(producer)).drop_last().is_suffix_of(
            producer_samples(*old(producer)),
        ),
        pushed is Err ==> pushed->Err_0 == sample,
        pushed is Err ==> producer_samples(*final(producer)) == producer_samples(*old(producer)),
{
    producer.inner.try_push(sample)
}

/// `Observer::occupied_len` on the caching consumer. It fetches the ring's
/// write index, which only moves forward, into the consumer's cell for it,
/// and returns the occupancy between the consumer's read index and it. The
/// fetch changes what the consumer knows, so the end is taken by `&mut` here.
#[verifier::external_body]
fn consumer_occupied_len(consumer: &mut SampleConsumer) -> (len: usize)
    ensures
        consumer_capacity(*final(consumer)) == consumer_capacity(*old(consumer)),
        consumer_samples(*old(consumer)).is_prefix_of(consumer_samples(*final(consumer))),
        consumer_samples(*final(consumer)).len() <= consumer_capacity(*final(consumer)),
        0 < consumer_capacity(*final(consumer)),
        len == consumer_samples(*final(consumer)).len(),
{
    consumer.inner.occupied_len()
}

/// `Consumer::try_pop` on the caching consumer. Where the consumer's view
/// holds a sample its oldest is removed and returned. Where it is empty the
/// write index is fetched first; `None` comes back only if the view is still
/// empty then. A view that has just lost a sample is not full.
#[verifier::external_body]
fn consumer_try_pop(consumer: &mut SampleConsumer) -> (popped: Option<u32>)
    ensures
        consumer_capacity(*final(consumer)) == consumer_capacity(*old(consumer)),
        consumer_samples(*final(consumer)).len() <= consumer_capacity(*final(consumer)),
        0 < consumer_capacity(*final(consumer)),
        consumer_samples(*old(consumer)).len() > 0 ==> popped == Some(
            consumer_samples(*old(consumer))[0],
        ) && consumer_samples(*final(consumer)) == consumer_samples(*old(consumer)).skip(1),
        popped is None ==> consumer_samples(*old(consumer)).len() == 0 && consumer_samples(
            *final(consumer),
        ).len() == 0,
        popped is Some ==> consumer_samples(*final(consumer)).len() < consumer_capacity(
            *final(consumer),
        ),
{
    consumer.inner.try_pop()
}

/// Makes a ring of `capacity` samples and hands out its two ends, both of
/// which see it empty.
pub fn sample_ring(capacity: usize) -> (ends: (SampleProducer, SampleConsumer))
    requires
        0 < capacity <= isize::MAX / 4,
    ensures
        ends.0@ == (RingView { samples: Seq::empty(), capacity: capacity as nat }),
        ends.1@ == (RingView { samples: Seq::empty(), capacity: capacity as nat }),
{
    split_heap_ring(capacity)
}

/// Makes a ring of the capacity that the pipeline gives each of its rings.
pub fn pipeline_ring() -> (ends: (SampleProducer, SampleConsumer))
    ensures
        ends.0@ == (RingView { samples: Seq::empty(), capacity: RING_CAPACITY as nat }),
        ends.1@ == (RingView { samples: Seq::empty(), capacity: RING_CAPACITY as nat }),
{
    sample_ring(RING_CAPACITY)
}

/// Offers one sample to the ring. A full ring drops it: the producer neither
/// waits nor makes room.
pub fn push_or_drop(producer: &mut SampleProducer, sample: u32) -> (accepted: bool)
    ensures
        old(producer)@.offer_outcome(sample, accepted, final(producer)@),
{
    if producer_is_full(producer) {
        return false;
    }
    let ghost looked = producer@;
    match producer_try_push(producer, sample) {
        Ok(()) => {
            proof {
                assert(producer@.samples.drop_last() =~= looked.samples);
                assert(producer@.without_back() == looked);
            }
            true
        },
        Err(_) => false,
    }
}

/// Pops the oldest sample from the ring. `None` comes back only from a ring
/// that a fresh look found drained.
pub fn pop(consumer: &mut SampleConsumer) -> (popped: Option<u32>)
    ensures
        old(consumer)@.pop_outcome(popped, final(consumer)@),
        !old(consumer)@.is_empty() ==> popped == Some(old(consumer)@.samples[0]),
        !old(consumer)@.is_empty() ==> final(consumer)@ == old(consumer)@.without_front(),
{
    let popped = consumer_try_pop(consumer);
    proof {
        let before = old(consumer)@;
        let after = consumer@;
        if let Some(sample) = popped {
            if before.samples.len() > 0 {
                assert(after.with_front(sample).samples =~= before.samples);
            }
            assert(before.samples.is_prefix_of(after.with_front(sample).samples));
        }
    }
    popped
}

/// What is played for what a pop returned: the sample, or silence where the
/// ring was drained.
pub fn sample_or_silence(popped: Option<u32>) -> (sample: u32)
    ensures
        sample == or_silence(popped),
        sample == (match popped {
            Some(taken) => taken,
            None => SILENCE,
        }),
{
    match popped {
        Some(taken) => taken,
        None => SILENCE,
    }
}

/// Takes the oldest sample from the ring, or silence where the ring is
/// drained: what `sample_or_silence` makes of one `pop`.
pub fn pop_or_silence(consumer: &mut SampleConsumer) -> (sample: u32)
    ensures
        exists|popped: Option<u32>|
            sample == or_silence(popped) && #[trigger] old(consumer)@.pop_outcome(
                popped,
                final(consumer)@,
            ),
        !old(consumer)@.is_empty() ==> sample == old(consumer)@.samples[0],
        !old(consumer)@.is_empty() ==> final(consumer)@ == old(consumer)@.without_front(),
{
    let popped = pop(consumer);
    sample_or_silence(popped)
}

/// The number of samples that are ready to be taken, after a fresh look at
/// the ring. The producer may add more at any time, so it is a lower bound.
pub fn available(consumer: &mut SampleConsumer) -> (len: usize)
    ensures
        old(consumer)@.filled_to(final(consumer)@),
        final(consumer)@.wf(),
        len == final(consumer)@.samples.len(),
{
    consumer_occupied_len(consumer)
}

} // verus!
