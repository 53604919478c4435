//! Block-wise processing: samples are queued as they come and handed to a
//! processor in blocks of a fixed size.

use crate::ring::{after_push_batch, AudioRingBuffer};
use vstd::prelude::*;

verus! {

/// The number of samples in a block.
pub const BLOCK_SIZE: usize = 2048;

/// A processor of blocks of samples.
pub trait DspProcessor {
    /// The blocks that the processor has taken in so far, oldest first. A
    /// processor says here how its state records them; the body given here
    /// serves processors that Verus does not read.
    open spec fn taken(&self) -> Seq<Seq<i16>> {
        Seq::empty()
    }

    /// Takes in the next block.
    fn process_block(&mut self, block: &[i16])
        ensures
            final(self).taken() == old(self).taken().push(block@),
    ;

    /// What the processor made of the blocks so far.
    fn latest_result(&self) -> i64;
}

/// The first `n` blocks of `queue`, in order.
pub open spec fn blocks_of(queue: Seq<i16>, n: nat) -> Seq<Seq<i16>> {
    Seq::new(n, |i: int| queue.subrange(i * BLOCK_SIZE as int, (i + 1) * BLOCK_SIZE as int))
}

/// The number of full blocks in `queue`.
pub open spec fn full_blocks(queue: Seq<i16>) -> nat {
    queue.len() / BLOCK_SIZE as nat
}

/// What is left of `queue` once every full block was taken off its front.
pub open spec fn leftover(queue: Seq<i16>) -> Seq<i16> {
    queue.skip((queue.len() / BLOCK_SIZE as nat) * BLOCK_SIZE)
}

/// A channel with a processor behind it.
pub struct AudioEngine<D: DspProcessor> {
    ring: AudioRingBuffer,
    dsp: D,
}

impl<D: DspProcessor> AudioEngine<D> {
    /// The samples that wait for their block to fill up.
    pub closed spec fn queued(&self) -> Seq<i16> {
        self.ring@
    }

    /// The number of samples that the channel can hold.
    pub closed spec fn limit(&self) -> nat {
        self.ring.limit()
    }

    /// The processor behind the channel.
    pub closed spec fn processor(&self) -> D {
        self.dsp
    }

    /// An engine that feeds `dsp` through a channel for `ring_capacity`
    /// samples.
    pub fn new(dsp: D, ring_capacity: usize) -> (engine: Self)
        ensures
            engine.queued() == Seq::<i16>::empty(),
            engine.limit() == ring_capacity,
            engine.processor() == dsp,
    {
        AudioEngine { ring: AudioRingBuffer::new(ring_capacity), dsp }
    }

    /// Takes the oldest block off the channel, if a full block is queued.
    pub fn next_block(&mut self) -> (block: Option<Vec<i16>>)
        ensures
            match block {
                Some(b) => {
                    &&& old(self).queued().len() >= BLOCK_SIZE
                    &&& b@ == old(self).queued().take(BLOCK_SIZE as int)
                    &&& final(self).queued() == old(self).queued().skip(BLOCK_SIZE as int)
                },
                None => {
                    &&& old(self).queued().len() < BLOCK_SIZE
                    &&& final(self).queued() == old(self).queued()
                },
            },
            final(self).limit() == old(self).limit(),
            final(self).processor() == old(self).processor(),
    {
        if self.ring.len() < BLOCK_SIZE {
            return None;
        }
        let mut block: Vec<i16> = vec![0i16; BLOCK_SIZE];
        self.ring.pop_block(block.as_mut_slice());
        assert(block@ =~= old(self).queued().take(BLOCK_SIZE as int));
        Some(block)
    }

    /// Queues `samples` as far as the channel has room, then hands every
    /// full block that is queued to the processor, oldest first, and keeps
    /// what is left below one block.
    pub fn push_samples(&mut self, samples: &[i16])
        ensures
            final(self).processor().taken() == old(self).processor().taken() + blocks_of(
                after_push_batch(old(self).queued(), old(self).limit(), samples@),
                full_blocks(after_push_batch(old(self).queued(), old(self).limit(), samples@)),
            ),
            final(self).queued() == leftover(
                after_push_batch(old(self).queued(), old(self).limit(), samples@),
            ),
            final(self).limit() == old(self).limit(),
    {
        self.ring.push_batch(samples);
        let ghost pushed = self.ring@;
        let ghost fed = self.dsp.taken();
        let ghost mut blocks: nat = 0;
        assert(pushed.skip(0) =~= pushed);
        assert(fed =~= fed + blocks_of(pushed, 0));
        loop
            invariant
                self.limit() == old(self).limit(),
                pushed == after_push_batch(old(self).queued(), old(self).limit(), samples@),
                fed == old(self).processor().taken(),
                blocks * BLOCK_SIZE <= pushed.len(),
                self.queued() == pushed.skip((blocks * BLOCK_SIZE) as int),
                self.processor().taken() == fed + blocks_of(pushed, blocks),
            ensures
                self.limit() == old(self).limit(),
                self.queued() == leftover(pushed),
                self.processor().taken() == fed + blocks_of(pushed, full_blocks(pushed)),
            decreases pushed.len() - blocks * BLOCK_SIZE,
        {
            match self.next_block() {
                Some(block) => {
                    self.dsp.process_block(block.as_slice());
                    proof {
                        assert(self.queued() =~= pushed.skip(((blocks + 1) * BLOCK_SIZE) as int));
                        assert((blocks + 1) * BLOCK_SIZE == blocks * BLOCK_SIZE + BLOCK_SIZE)
                            by (nonlinear_arith);
                        assert(block@ =~= pushed.subrange(
                            blocks * BLOCK_SIZE as int,
                            (blocks + 1) * BLOCK_SIZE as int,
                        ));
                        assert(blocks_of(pushed, blocks + 1) =~= blocks_of(pushed, blocks).push(
                            block@,
                        ));
                        assert(self.processor().taken() =~= fed + blocks_of(pushed, blocks + 1));
                        blocks = blocks + 1;
                    }
                },
                None => {
                    proof {
                        let rest = pushed.len() - blocks * BLOCK_SIZE;
                        assert(pushed.len() / BLOCK_SIZE as nat == blocks) by (nonlinear_arith)
                            requires
                                pushed.len() == blocks * BLOCK_SIZE + rest,
                                0 <= rest < BLOCK_SIZE,
                                BLOCK_SIZE == 2048,
                        ;
                    }
                    break ;
                },
            }
        }
    }

    /// What the processor made of the blocks so far.
    pub fn latest_result(&self) -> (r: i64)
        ensures
            call_ensures(D::latest_result, (&self.processor(),), r),
    {
        self.dsp.latest_result()
    }
}

/// How a stream is cut into batches does not matter: where the channel has
/// room for both, two batches pushed one after the other hand the processor
/// the same blocks, in the same order, as the two pushed as one, and leave
/// the same samples queued.
pub proof fn lemma_framing(queue: Seq<i16>, capacity: nat, first: Seq<i16>, second: Seq<i16>)
    requires
        queue.len() + first.len() + second.len() <= capacity,
    ensures
        ({
            let once = after_push_batch(queue, capacity, first);
            let twice = after_push_batch(leftover(once), capacity, second);
            let whole = after_push_batch(queue, capacity, first + second);
            &&& blocks_of(once, full_blocks(once)) + blocks_of(twice, full_blocks(twice))
                == blocks_of(whole, full_blocks(whole))
            &&& leftover(twice) == leftover(whole)
        }),
{
    let size = BLOCK_SIZE as int;
    let once = after_push_batch(queue, capacity, first);
    let rest = leftover(once);
    let twice = after_push_batch(rest, capacity, second);
    let whole = after_push_batch(queue, capacity, first + second);
    let n1 = full_blocks(once);
    let n2 = full_blocks(twice);
    let n = full_blocks(whole);
    assert(first.take(first.len() as int) =~= first);
    assert(second.take(second.len() as int) =~= second);
    assert((first + second).take((first + second).len() as int) =~= first + second);
    assert(once =~= queue + first);
    assert(whole =~= once + second);
    assert(rest =~= once.skip(n1 * size));
    assert(twice =~= whole.skip(n1 * size));
    assert(n == n1 + n2);
    let split = blocks_of(once, n1) + blocks_of(twice, n2);
    let joint = blocks_of(whole, n);
    assert forall|i: int| 0 <= i < n implies split[i] == joint[i] by {
        if i < n1 {
            assert(once.subrange(i * size, (i + 1) * size) =~= whole.subrange(
                i * size,
                (i + 1) * size,
            ));
        } else {
            assert(twice.subrange((i - n1) * size, (i - n1 + 1) * size) =~= whole.subrange(
                i * size,
                (i + 1) * size,
            ));
        }
    }
    assert(split =~= joint);
    assert(leftover(twice) =~= leftover(whole));
}

} // verus!
