//! A ring of samples as a bounded queue, and the laws of that queue.
//!
//! The queue is what the contracts of the pipeline speak of. Seen from one
//! end of a ring it is what that end knows; in the laws at the end of this
//! file it is one ring seen whole, with offers and takes coming one after the
//! other in any order.

use crate::stream::{
    is_thinning, least, lemma_thinning_extends, lemma_thinning_length, lemma_thinning_prefix,
    or_silence, SILENCE,
};
use vstd::prelude::*;

verus! {

/// The capacity, in samples, of each ring of the pipeline.
pub const RING_CAPACITY: usize = 16384;

/// A bounded queue of samples, oldest first: what one end knows of its ring.
pub struct RingView {
    pub samples: Seq<u32>,
    pub capacity: nat,
}

impl RingView {
    /// The occupancy lies between zero and the capacity, which is not zero.
    pub open spec fn wf(self) -> bool {
        0 < self.capacity && self.samples.len() <= self.capacity
    }

    pub open spec fn is_full(self) -> bool {
        self.samples.len() >= self.capacity
    }

    pub open spec fn is_empty(self) -> bool {
        self.samples.len() == 0
    }

    /// The free places.
    pub open spec fn room(self) -> nat {
        if self.is_full() {
            0
        } else {
            (self.capacity - self.samples.len()) as nat
        }
    }

    /// The queue with `sample` added as its newest.
    pub open spec fn with_back(self, sample: u32) -> RingView {
        RingView { samples: self.samples.push(sample), capacity: self.capacity }
    }

    /// The queue with `sample` added as its oldest.
    pub open spec fn with_front(self, sample: u32) -> RingView {
        RingView { samples: seq![sample] + self.samples, capacity: self.capacity }
    }

    /// Drop-newest: the sample joins the queue unless the queue is full.
    pub open spec fn offer(self, sample: u32) -> RingView {
        if self.is_full() {
            self
        } else {
            self.with_back(sample)
        }
    }

    /// The oldest sample, or silence where there is none.
    pub open spec fn front_or_silence(self) -> u32 {
        if self.is_empty() {
            SILENCE
        } else {
            self.samples[0]
        }
    }

    /// The queue without its oldest sample.
    pub open spec fn without_front(self) -> RingView {
        if self.is_empty() {
            self
        } else {
            RingView { samples: self.samples.skip(1), capacity: self.capacity }
        }
    }

    /// The queue without its newest sample.
    pub open spec fn without_back(self) -> RingView {
        if self.is_empty() {
            self
        } else {
            RingView { samples: self.samples.drop_last(), capacity: self.capacity }
        }
    }

    /// `later` is this queue after the consumer took some samples, or none,
    /// from its front: how a producer's view changes when it looks again.
    pub open spec fn drained_to(self, later: RingView) -> bool {
        later.capacity == self.capacity && later.samples.is_suffix_of(self.samples)
    }

    /// `later` is this queue after the producer added some samples, or none,
    /// at its back: how a consumer's view changes when it looks again.
    pub open spec fn filled_to(self, later: RingView) -> bool {
        later.capacity == self.capacity && self.samples.is_prefix_of(later.samples)
    }

    /// What an offer of `sample` to the producer's end can come to: the view
    /// is first brought up to date, then the sample is accepted exactly if
    /// the view has room for it.
    pub open spec fn offer_outcome(self, sample: u32, accepted: bool, later: RingView) -> bool {
        let looked = if accepted {
            later.without_back()
        } else {
            later
        };
        &&& self.drained_to(looked)
        &&& accepted == !looked.is_full()
        &&& later == looked.offer(sample)
        &&& later.wf()
    }

    /// What a pop at the consumer's end can come to. The view is brought up
    /// to date if it is empty; `None` comes back where it is empty still,
    /// else its oldest sample, which leaves the view.
    pub open spec fn pop_outcome(self, popped: Option<u32>, later: RingView) -> bool {
        &&& later.wf()
        &&& later.capacity == self.capacity
        &&& match popped {
            Some(sample) => !later.is_full() && self.filled_to(later.with_front(sample)),
            None => self.is_empty() && later.is_empty(),
        }
    }
}

/// One step at a ring: a sample is offered, or one is taken.
pub enum RingOp {
    Offer(u32),
    Take,
}

impl RingView {
    /// The queue after one step. An offer to a full queue and a take from an
    /// empty one leave it as it is.
    pub open spec fn apply(self, op: RingOp) -> RingView {
        match op {
            RingOp::Offer(sample) => self.offer(sample),
            RingOp::Take => self.without_front(),
        }
    }

    /// The queue after the steps `ops`, oldest first.
    pub open spec fn run(self, ops: Seq<RingOp>) -> RingView
        decreases ops.len(),
    {
        if ops.len() == 0 {
            self
        } else {
            self.run(ops.drop_last()).apply(ops.last())
        }
    }

    /// The samples that the offers among `ops` got into the queue, in order.
    pub open spec fn accepted(self, ops: Seq<RingOp>) -> Seq<u32>
        decreases ops.len(),
    {
        if ops.len() == 0 {
            Seq::empty()
        } else {
            let earlier = self.accepted(ops.drop_last());
            match ops.last() {
                RingOp::Offer(sample) => if self.run(ops.drop_last()).is_full() {
                    earlier
                } else {
                    earlier.push(sample)
                },
                RingOp::Take => earlier,
            }
        }
    }

    /// The samples that the takes among `ops` found in the queue, in order.
    pub open spec fn taken(self, ops: Seq<RingOp>) -> Seq<u32>
        decreases ops.len(),
    {
        if ops.len() == 0 {
            Seq::empty()
        } else {
            let earlier = self.taken(ops.drop_last());
            match ops.last() {
                RingOp::Offer(sample) => earlier,
                RingOp::Take => if self.run(ops.drop_last()).is_empty() {
                    earlier
                } else {
                    earlier.push(self.run(ops.drop_last()).samples[0])
                },
            }
        }
    }
}

/// The samples that the offers among `ops` brought, in order.
pub open spec fn offered(ops: Seq<RingOp>) -> Seq<u32>
    decreases ops.len(),
{
    if ops.len() == 0 {
        Seq::empty()
    } else {
        match ops.last() {
            RingOp::Offer(sample) => offered(ops.drop_last()).push(sample),
            RingOp::Take => offered(ops.drop_last()),
        }
    }
}

/// An offer at the producer's end is one look at the ring followed by one
/// offer to the queue that the look found.
pub proof fn law_offer_is_one_step(before: RingView, sample: u32, accepted: bool, later: RingView)
    requires
        before.offer_outcome(sample, accepted, later),
    ensures
        exists|looked: RingView|
            {
                &&& looked.wf()
                &&& before.drained_to(looked)
                &&& accepted == !looked.is_full()
                &&& later == #[trigger] looked.apply(RingOp::Offer(sample))
            },
{
    let looked = if accepted {
        later.without_back()
    } else {
        later
    };
    assert(later == looked.apply(RingOp::Offer(sample)));
}

/// A pop at the consumer's end is one look at the ring followed by one take
/// from the queue that the look found: `None` says that the queue was empty,
/// and what is played for the pop is the queue's oldest sample or silence.
pub proof fn law_pop_is_one_step(before: RingView, popped: Option<u32>, later: RingView)
    requires
        before.pop_outcome(popped, later),
    ensures
        exists|looked: RingView|
            {
                &&& looked.wf()
                &&& before.filled_to(looked)
                &&& popped is None <==> looked.is_empty()
                &&& or_silence(popped) == looked.front_or_silence()
                &&& later == #[trigger] looked.apply(RingOp::Take)
            },
{
    match popped {
        Some(sample) => {
            let looked = later.with_front(sample);
            assert(looked.samples.skip(1) =~= later.samples);
            assert(later == looked.apply(RingOp::Take));
        },
        None => {
            assert(later == later.apply(RingOp::Take));
        },
    }
}

/// Whatever the order of offers and takes: the occupancy stays between zero
/// and the capacity, and what was in the queue followed by what got in is
/// what was taken followed by what is in the queue now.
pub proof fn law_queue_is_fifo(start: RingView, ops: Seq<RingOp>)
    requires
        start.wf(),
    ensures
        start.run(ops).wf(),
        start.run(ops).capacity == start.capacity,
        start.samples + start.accepted(ops) == start.taken(ops) + start.run(ops).samples,
    decreases ops.len(),
{
    if ops.len() == 0 {
        assert(start.samples + start.accepted(ops) =~= start.taken(ops) + start.samples);
    } else {
        let before = ops.drop_last();
        law_queue_is_fifo(start, before);
        let queue = start.run(before);
        let whole = start.samples + start.accepted(before);
        match ops.last() {
            RingOp::Offer(sample) => {
                if !queue.is_full() {
                    assert(start.samples + start.accepted(before).push(sample) =~= whole.push(
                        sample,
                    ));
                    assert(start.taken(before) + queue.samples.push(sample) =~= whole.push(
                        sample,
                    ));
                }
            },
            RingOp::Take => {
                if !queue.is_empty() {
                    assert(start.taken(before).push(queue.samples[0]) + queue.samples.skip(1)
                        =~= whole);
                }
            },
        }
    }
}

/// From an empty ring, whatever the order of offers and takes: the samples
/// taken are the first of the samples that got in, in their order, so no more
/// are taken than got in, and no more got in than were offered.
pub proof fn law_taken_is_prefix_of_pushed(start: RingView, ops: Seq<RingOp>)
    requires
        start.wf(),
        start.is_empty(),
    ensures
        start.taken(ops).is_prefix_of(start.accepted(ops)),
        start.taken(ops).len() <= start.accepted(ops).len() <= offered(ops).len(),
        start.accepted(ops).len() - start.taken(ops).len() == start.run(ops).samples.len(),
        start.run(ops).samples.len() <= start.capacity,
{
    law_queue_is_fifo(start, ops);
    law_order_is_kept(start, ops);
    lemma_thinning_length(start.accepted(ops), offered(ops));
    assert(start.samples + start.accepted(ops) =~= start.accepted(ops));
    let whole = start.taken(ops) + start.run(ops).samples;
    assert(start.taken(ops) =~= whole.subrange(0, start.taken(ops).len() as int));
}

/// Whatever the order of offers and takes, and however many offers find the
/// ring full: the samples that got in are the samples offered with the
/// dropped ones left out, never in another order, and the samples for which
/// the ring had room at the start all got in.
pub proof fn law_order_is_kept(start: RingView, ops: Seq<RingOp>)
    requires
        start.wf(),
    ensures
        is_thinning(start.accepted(ops), offered(ops)),
        least(start.room(), offered(ops).len()) <= start.accepted(ops).len(),
        start.accepted(ops).take(least(start.room(), offered(ops).len()) as int) == offered(
            ops,
        ).take(least(start.room(), offered(ops).len()) as int),
    decreases ops.len(),
{
    let sure = least(start.room(), offered(ops).len());
    if ops.len() == 0 {
        assert(start.accepted(ops).take(0) =~= offered(ops).take(0));
    } else {
        let before = ops.drop_last();
        law_order_is_kept(start, before);
        law_queue_is_fifo(start, before);
        let queue = start.run(before);
        let got_in = start.accepted(before);
        let brought = offered(before);
        let was = least(start.room(), brought.len());
        lemma_thinning_length(got_in, brought);
        match ops.last() {
            RingOp::Offer(sample) => {
                lemma_thinning_extends(got_in, brought, sample);
                if brought.len() < start.room() {
                    assert(got_in.take(was as int) =~= got_in);
                    assert(brought.take(was as int) =~= brought);
                    assert(queue.samples.len() <= (start.samples + got_in).len());
                    assert(!queue.is_full());
                    assert(got_in.push(sample).take(sure as int) =~= got_in.push(sample));
                    assert(brought.push(sample).take(sure as int) =~= brought.push(sample));
                } else {
                    assert(start.accepted(ops).take(sure as int) =~= got_in.take(was as int));
                    assert(offered(ops).take(sure as int) =~= brought.take(was as int));
                }
            },
            RingOp::Take => {},
        }
    }
}

/// The steps that offer `samples`, one by one, oldest first.
pub open spec fn offers(samples: Seq<u32>) -> Seq<RingOp> {
    Seq::new(samples.len(), |i: int| RingOp::Offer(samples[i]))
}

/// `count` takes, one after the other.
pub open spec fn takes(count: nat) -> Seq<RingOp> {
    Seq::new(count, |i: int| RingOp::Take)
}

/// Steps that follow others start from the queue that the others left, and
/// what they took and what they got in comes after what the others did.
pub proof fn lemma_run_in_two(start: RingView, first: Seq<RingOp>, second: Seq<RingOp>)
    ensures
        start.run(first + second) == start.run(first).run(second),
        start.taken(first + second) == start.taken(first) + start.run(first).taken(second),
        start.accepted(first + second) == start.accepted(first) + start.run(first).accepted(
            second,
        ),
    decreases second.len(),
{
    let all = first + second;
    if second.len() == 0 {
        assert(all =~= first);
        assert(start.taken(first) + start.run(first).taken(second) =~= start.taken(first));
        assert(start.accepted(first) + start.run(first).accepted(second) =~= start.accepted(
            first,
        ));
    } else {
        let earlier = second.drop_last();
        lemma_run_in_two(start, first, earlier);
        assert(all.drop_last() =~= first + earlier);
        assert(all.last() == second.last());
        let middle = start.run(first);
        assert(start.taken(all) =~= start.taken(first) + middle.taken(second));
        assert(start.accepted(all) =~= start.accepted(first) + middle.accepted(second));
    }
}

/// Offers with no take between them: the samples for which the queue has
/// room get in, in order, the others are dropped, and what was in the queue
/// stays in front of them.
pub proof fn lemma_run_of_offers(queue: RingView, samples: Seq<u32>)
    requires
        queue.wf(),
    ensures
        queue.run(offers(samples)).capacity == queue.capacity,
        queue.run(offers(samples)).samples == queue.samples + samples.take(
            least(queue.room(), samples.len()) as int,
        ),
        queue.accepted(offers(samples)) == samples.take(
            least(queue.room(), samples.len()) as int,
        ),
        queue.taken(offers(samples)) == Seq::<u32>::empty(),
    decreases samples.len(),
{
    let ops = offers(samples);
    let fit = least(queue.room(), samples.len());
    if samples.len() == 0 {
        assert(queue.samples + samples.take(0) =~= queue.samples);
        assert(samples.take(0) =~= Seq::<u32>::empty());
    } else {
        let earlier = samples.drop_last();
        lemma_run_of_offers(queue, earlier);
        assert(ops.drop_last() =~= offers(earlier));
        assert(ops.last() == RingOp::Offer(samples.last()));
        let was = least(queue.room(), earlier.len());
        if earlier.len() < queue.room() {
            assert(earlier.take(was as int) =~= earlier);
            assert(samples.take(fit as int) =~= samples);
            assert(earlier.push(samples.last()) =~= samples);
            assert((queue.samples + earlier).push(samples.last()) =~= queue.samples + samples);
        } else {
            assert(samples.take(fit as int) =~= earlier.take(was as int));
        }
    }
}

/// Takes with no offer between them: the oldest samples leave in order, as
/// many as there are takes, or all of them where there are fewer.
pub proof fn lemma_run_of_takes(queue: RingView, count: nat)
    requires
        queue.wf(),
    ensures
        queue.run(takes(count)).capacity == queue.capacity,
        queue.run(takes(count)).samples == queue.samples.skip(
            least(count, queue.samples.len()) as int,
        ),
        queue.taken(takes(count)) == queue.samples.take(least(count, queue.samples.len()) as int),
        queue.accepted(takes(count)) == Seq::<u32>::empty(),
    decreases count,
{
    let ops = takes(count);
    if count == 0 {
        assert(queue.samples.skip(0) =~= queue.samples);
        assert(queue.samples.take(0) =~= Seq::<u32>::empty());
    } else {
        let fewer = (count - 1) as nat;
        lemma_run_of_takes(queue, fewer);
        assert(ops.drop_last() =~= takes(fewer));
        assert(ops.last() == RingOp::Take);
        if fewer < queue.samples.len() {
            assert(queue.samples.skip(fewer as int).skip(1) =~= queue.samples.skip(count as int));
            assert(queue.samples.take(fewer as int).push(queue.samples[fewer as int])
                =~= queue.samples.take(count as int));
        }
    }
}

/// Overproduction in full: into an empty ring more samples are offered than
/// it holds, with no take between them; then some are taken; then more are
/// offered; then the ring is drained. What the consumer receives in all is
/// the first samples, as many as the ring holds, then, after the gap of those
/// that were dropped, the later samples for which the takes had made room,
/// each run in its order.
pub proof fn law_prefix_gap_later(
    start: RingView,
    first: Seq<u32>,
    between: nat,
    later: Seq<u32>,
)
    requires
        start.wf(),
        start.is_empty(),
        first.len() >= start.capacity,
        between <= start.capacity,
    ensures
        start.taken(
            offers(first) + takes(between) + offers(later) + takes(start.capacity),
        ) == first.take(start.capacity as int) + later.take(least(between, later.len()) as int),
        start.run(
            offers(first) + takes(between) + offers(later) + takes(start.capacity),
        ).is_empty(),
{
    let capacity = start.capacity;
    let one = offers(first);
    let two = one + takes(between);
    let three = two + offers(later);
    let four = three + takes(capacity);
    let kept = first.take(capacity as int);
    let fit = least(between, later.len());

    lemma_run_of_offers(start, first);
    let filled = start.run(one);
    assert(filled.samples =~= kept);
    law_queue_is_fifo(start, one);

    lemma_run_in_two(start, one, takes(between));
    lemma_run_of_takes(filled, between);
    let eased = start.run(two);
    assert(eased.samples == kept.skip(between as int));
    assert(start.taken(two) =~= kept.take(between as int));
    law_queue_is_fifo(start, two);
    assert(eased.room() == between);

    lemma_run_in_two(start, two, offers(later));
    lemma_run_of_offers(eased, later);
    let refilled = start.run(three);
    assert(refilled.samples == kept.skip(between as int) + later.take(fit as int));
    assert(start.taken(three) =~= kept.take(between as int));
    law_queue_is_fifo(start, three);

    lemma_run_in_two(start, three, takes(capacity));
    lemma_run_of_takes(refilled, capacity);
    assert(refilled.samples.take(refilled.samples.len() as int) =~= refilled.samples);
    assert(start.taken(four) =~= kept.take(between as int) + (kept.skip(between as int)
        + later.take(fit as int)));
    assert(kept.take(between as int) + (kept.skip(between as int) + later.take(fit as int))
        =~= kept + later.take(fit as int));
    assert(refilled.samples.skip(refilled.samples.len() as int) =~= Seq::<u32>::empty());
}

/// From an empty ring, the consumer receives the producer's samples with
/// the dropped ones missing and never in another order.
pub proof fn law_taken_keeps_order(start: RingView, ops: Seq<RingOp>)
    requires
        start.wf(),
        start.is_empty(),
    ensures
        is_thinning(start.taken(ops), offered(ops)),
{
    law_taken_is_prefix_of_pushed(start, ops);
    law_order_is_kept(start, ops);
    lemma_thinning_prefix(start.taken(ops), start.accepted(ops), offered(ops));
}

} // verus!
