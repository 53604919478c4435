//! The lock-free hand-off between the capture callback and the analyzer: a
//! single-producer single-consumer ring buffer whose two ends live on
//! different threads.
//!
//! Each end sees the other only through the ring, and the other end may act
//! at any moment. What an end can rely on is what it has seen itself: the
//! producer the slots it has filled and the free slots it knows of, which
//! the consumer can only add to, and the consumer the samples it has seen
//! queued, which the producer can only add to. The contracts speak of that
//! knowledge and of nothing else.

use crate::ring::{after_pop_block, block_of};
use vstd::prelude::*;

verus! {

/// The sample rate assumed until the capture backend reports its own, in
/// hertz.
pub const SAMPLE_RATE: u32 = 44100;

/// The most samples that the analyzer takes out of the ring in one tick.
pub const BUFFER_SIZE: usize = 4096;

#[verifier::external_type_specification]
#[verifier::external_body]
#[verifier::reject_recursive_types(T)]
pub struct ExProducer<T>(rtrb::Producer<T>);

#[verifier::external_type_specification]
#[verifier::external_body]
#[verifier::reject_recursive_types(T)]
pub struct ExConsumer<T>(rtrb::Consumer<T>);

/// The number of free slots that the producer end knows of: what
/// `rtrb::Producer::cached_slots` returns. The end keeps it in its own
/// fields; the ring may have more free slots, since the consumer frees slots
/// at any moment, and never fewer.
pub uninterp spec fn free_slots(producer: rtrb::Producer<i16>) -> nat;

/// The samples in the slots that the producer end has filled and does not
/// know to be free again, oldest first: the slots between the two cursors
/// that the end keeps in its own fields. Only this end writes to slots, and
/// it writes to none of these. The consumer may have taken the oldest of
/// them already; the end learns of that when it next looks at the ring.
pub uninterp spec fn filled_slots(producer: rtrb::Producer<i16>) -> Seq<i16>;

/// The samples that the consumer end has seen queued and has not taken yet,
/// oldest first: those in the slots that `rtrb::Consumer::cached_slots`
/// counts. The ring may hold more behind them, since the producer queues
/// samples at any moment; it does not touch these.
pub uninterp spec fn seen_samples(consumer: rtrb::Consumer<i16>) -> Seq<i16>;

/// `rtrb::RingBuffer::new`: allocates a ring for `capacity` samples and
/// returns its two ends, both with their view of the ring as it is then:
/// every slot free, none filled, nothing queued. The allocation panics
/// where the ring would take more than `isize::MAX` bytes, which the
/// precondition rules out.
#[verifier::external_body]
fn ring_new(capacity: usize) -> (ends: (rtrb::Producer<i16>, rtrb::Consumer<i16>))
    requires
        capacity * 2 <= isize::MAX,
    ensures
        free_slots(ends.0) == capacity,
        filled_slots(ends.0) == Seq::<i16>::empty(),
        seen_samples(ends.1) == Seq::<i16>::empty(),
{
    rtrb::RingBuffer::new(capacity)
}

/// `rtrb::Producer::push`: queues `sample` if the ring has a free slot and
/// says whether it did. Where the end knows of a free slot it fills that
/// slot, behind those it has filled, without looking at the ring. Where it
/// knows of none it looks, which can only show it that the oldest of the
/// slots it has filled are free again; it refuses only if none is, and
/// else fills the next slot behind those that are left.
#[verifier::external_body]
fn ring_push(producer: &mut rtrb::Producer<i16>, sample: i16) -> (accepted: bool)
    ensures
        free_slots(*old(producer)) > 0 ==> accepted && free_slots(*final(producer)) == free_slots(
            *old(producer),
        ) - 1 && filled_slots(*final(producer)) == filled_slots(*old(producer)).push(sample),
        accepted ==> filled_slots(*final(producer)).len() > 0 && is_tail_of(
            filled_slots(*final(producer)),
            filled_slots(*old(producer)).push(sample),
        ),
        !accepted ==> free_slots(*final(producer)) == 0 && filled_slots(*final(producer))
            == filled_slots(*old(producer)),
{
    producer.push(sample).is_ok()
}

/// `rtrb::Consumer::pop`: takes the oldest sample out of the ring if there
/// is one. Where the end has seen a sample queued it takes the oldest of
/// those without looking at the ring. Where it has seen none it looks, and
/// returns nothing only if it then still sees none; what it has seen after
/// it looked and took is not determined by what it had seen before.
#[verifier::external_body]
fn ring_pop(consumer: &mut rtrb::Consumer<i16>) -> (sample: Option<i16>)
    ensures
        seen_samples(*old(consumer)).len() > 0 ==> sample == Some(seen_samples(*old(consumer))[0])
            && seen_samples(*final(consumer)) == seen_samples(*old(consumer)).drop_first(),
        sample is None ==> seen_samples(*final(consumer)).len() == 0,
{
    consumer.pop().ok()
}

/// Whether `tail` is what is left of `whole` once some of its oldest samples
/// are gone.
pub open spec fn is_tail_of(tail: Seq<i16>, whole: Seq<i16>) -> bool {
    exists|j: int| 0 <= j <= whole.len() && tail == #[trigger] whole.skip(j)
}

proof fn lemma_tail_push(tail: Seq<i16>, whole: Seq<i16>, sample: i16)
    requires
        is_tail_of(tail, whole),
    ensures
        is_tail_of(tail.push(sample), whole.push(sample)),
{
    let j = choose|j: int| 0 <= j <= whole.len() && tail == #[trigger] whole.skip(j);
    assert(tail.push(sample) =~= whole.push(sample).skip(j));
}

proof fn lemma_tail_of_tail(inner: Seq<i16>, middle: Seq<i16>, whole: Seq<i16>)
    requires
        is_tail_of(inner, middle),
        is_tail_of(middle, whole),
    ensures
        is_tail_of(inner, whole),
{
    let i = choose|i: int| 0 <= i <= middle.len() && inner == #[trigger] middle.skip(i);
    let j = choose|j: int| 0 <= j <= whole.len() && middle == #[trigger] whole.skip(j);
    assert(inner =~= whole.skip(i + j));
}

/// How many samples of a batch of `batch` samples are sure to be queued by a
/// producer end that knows of `free` free slots.
pub open spec fn sure_to_queue(free: nat, batch: nat) -> nat {
    if batch <= free {
        batch
    } else {
        free
    }
}

/// Whether `window` begins with the samples of `head`, in their order.
pub open spec fn starts_with(window: Seq<i16>, head: Seq<i16>) -> bool {
    head.len() <= window.len() && window.take(head.len() as int) == head
}

/// The consumer end of a ring, as the analyzer takes it.
pub struct AudioBridge {
    pub consumer: rtrb::Consumer<i16>,
}

impl AudioBridge {
    /// A ring for `buffer_capacity` samples: its consumer end for the
    /// analyzer, and its producer end for the capture backend. Every slot
    /// is free, none is filled and nothing is queued.
    pub fn new(buffer_capacity: usize) -> (ends: (Self, rtrb::Producer<i16>))
        requires
            buffer_capacity * 2 <= isize::MAX,
        ensures
            free_slots(ends.1) == buffer_capacity,
            filled_slots(ends.1) == Seq::<i16>::empty(),
            seen_samples(ends.0.consumer) == Seq::<i16>::empty(),
    {
        let (producer, consumer) = ring_new(buffer_capacity);
        (AudioBridge { consumer }, producer)
    }
}

/// Queues `sample`, or drops it if the ring is full. Returns whether the
/// sample was queued. Never blocks. A producer that knows of a free slot
/// queues the sample behind what it has filled and knows of one slot less.
/// One that queues has the sample as the newest of what it has filled, behind
/// what is left of the rest. One that refuses knows of no free slot, and what
/// it has filled is as it was.
pub fn push(producer: &mut rtrb::Producer<i16>, sample: i16) -> (accepted: bool)
    ensures
        free_slots(*old(producer)) > 0 ==> accepted && free_slots(*final(producer)) == free_slots(
            *old(producer),
        ) - 1 && filled_slots(*final(producer)) == filled_slots(*old(producer)).push(sample),
        accepted ==> filled_slots(*final(producer)).len() > 0 && is_tail_of(
            filled_slots(*final(producer)),
            filled_slots(*old(producer)).push(sample),
        ),
        !accepted ==> free_slots(*final(producer)) == 0 && filled_slots(*final(producer))
            == filled_slots(*old(producer)),
{
    ring_push(producer, sample)
}

/// Queues the samples of `samples` in order until one finds the ring full,
/// and drops that one and all after it. Returns the number of samples
/// dropped. Never blocks. As many samples as the producer knows of free
/// slots are queued for sure, so a batch that fits what it knows of is
/// queued whole, in its order, behind what the producer has filled. In any
/// case the producer has filled what is left of its slots and of the head of
/// the batch that was queued, in that order; a producer that drops knows of
/// no free slot.
pub fn push_batch(producer: &mut rtrb::Producer<i16>, samples: &[i16]) -> (dropped: usize)
    ensures
        dropped <= samples@.len(),
        samples@.len() - dropped >= sure_to_queue(free_slots(*old(producer)), samples@.len()),
        samples@.len() <= free_slots(*old(producer)) ==> free_slots(*final(producer))
            == free_slots(*old(producer)) - samples@.len() && filled_slots(*final(producer))
            == filled_slots(*old(producer)) + samples@,
        is_tail_of(
            filled_slots(*final(producer)),
            filled_slots(*old(producer)) + samples@.take(samples@.len() - dropped),
        ),
        dropped > 0 ==> free_slots(*final(producer)) == 0,
{
    let n = samples.len();
    let ghost filled = filled_slots(*producer);
    let mut i: usize = 0;
    proof {
        assert(filled =~= filled + samples@.take(0));
        assert(filled =~= filled.skip(0));
    }
    while i < n
        invariant
            n == samples@.len(),
            i <= n,
            filled == filled_slots(*old(producer)),
            i <= free_slots(*old(producer)) ==> free_slots(*producer) == free_slots(
                *old(producer),
            ) - i && filled_slots(*producer) == filled + samples@.take(i as int),
            is_tail_of(filled_slots(*producer), filled + samples@.take(i as int)),
        decreases n - i,
    {
        let ghost before = filled_slots(*producer);
        let accepted = ring_push(producer, samples[i]);
        if !accepted {
            return n - i;
        }
        proof {
            let sample = samples@[i as int];
            assert((filled + samples@.take(i as int)).push(sample) =~= filled + samples@.take(
                i + 1,
            ));
            lemma_tail_push(before, filled + samples@.take(i as int), sample);
            lemma_tail_of_tail(
                filled_slots(*producer),
                before.push(sample),
                filled + samples@.take(i + 1),
            );
        }
        i = i + 1;
    }
    proof {
        assert(samples@.take(n as int) =~= samples@);
    }
    0
}

/// Takes samples out of the ring, oldest first, until the ring is found
/// empty or `limit` samples were taken. The samples that the consumer had
/// seen queued come out first and in their order; where they reach the
/// limit they are all that comes out, and the rest of them stays seen. A
/// consumer that stops short of the limit has seen the ring empty.
pub fn drain(consumer: &mut rtrb::Consumer<i16>, limit: usize) -> (window: Vec<i16>)
    ensures
        window@.len() <= limit,
        starts_with(window@, block_of(seen_samples(*old(consumer)), limit as nat)),
        limit <= seen_samples(*old(consumer)).len() ==> seen_samples(*final(consumer))
            == after_pop_block(seen_samples(*old(consumer)), limit as nat),
        window@.len() < limit ==> seen_samples(*final(consumer)).len() == 0,
{
    let ghost seen = seen_samples(*consumer);
    let mut window: Vec<i16> = Vec::new();
    proof {
        assert(seen.skip(0) =~= seen);
        assert(window@ =~= seen.take(0));
    }
    while window.len() < limit
        invariant
            seen == seen_samples(*old(consumer)),
            window@.len() <= limit,
            window@.len() <= seen.len() ==> window@ == seen.take(window@.len() as int)
                && seen_samples(*consumer) == seen.skip(window@.len() as int),
            window@.len() > seen.len() ==> starts_with(window@, seen),
        decreases limit - window@.len(),
    {
        let ghost before = window@;
        match ring_pop(consumer) {
            Some(sample) => {
                window.push(sample);
                proof {
                    if before.len() < seen.len() {
                        assert(seen.skip(before.len() as int)[0] == seen[before.len() as int]);
                        assert(window@ =~= seen.take(before.len() as int + 1));
                        assert(seen.skip(before.len() as int).drop_first() =~= seen.skip(
                            before.len() as int + 1,
                        ));
                    } else if before.len() == seen.len() {
                        assert(seen.take(seen.len() as int) =~= seen);
                        assert(window@.take(seen.len() as int) =~= seen);
                    } else {
                        assert(window@.take(seen.len() as int) =~= before.take(seen.len() as int));
                    }
                }
            },
            None => {
                proof {
                    assert(seen.take(seen.len() as int) =~= seen);
                    if window@.len() < seen.len() {
                        assert(seen.skip(window@.len() as int).len() > 0);
                    } else if window@.len() == seen.len() {
                        assert(window@.take(seen.len() as int) =~= window@);
                    }
                }
                return window;
            },
        }
    }
    proof {
        if window@.len() <= seen.len() {
            assert(window@.take(limit as int) =~= window@);
        } else {
            assert(seen.take(seen.len() as int) =~= seen);
        }
    }
    window
}

} // verus!
