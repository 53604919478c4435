//! The sample channel: a bounded first-in first-out queue of samples in
//! circular storage.
//!
//! A push into a full channel drops the pushed sample; what is queued is
//! never overwritten. The channel is owned by one party at a time, so pushes
//! and pops interleave in program order.

use vstd::prelude::*;

verus! {

/// The queue after a push of `sample`: the sample is appended unless the
/// queue already holds `capacity` samples.
pub open spec fn after_push(queue: Seq<i16>, capacity: nat, sample: i16) -> Seq<i16> {
    if queue.len() < capacity {
        queue.push(sample)
    } else {
        queue
    }
}

/// The queue after a pop: the oldest sample is gone, if there was one.
pub open spec fn after_pop(queue: Seq<i16>) -> Seq<i16> {
    if queue.len() > 0 {
        queue.drop_first()
    } else {
        queue
    }
}

/// How many samples of a batch of `batch` samples find room.
pub open spec fn accepted_of(queue: Seq<i16>, capacity: nat, batch: nat) -> nat {
    if queue.len() + batch <= capacity {
        batch
    } else if queue.len() <= capacity {
        (capacity - queue.len()) as nat
    } else {
        0
    }
}

/// The queue after a push of the batch `samples`: the head of the batch is
/// appended as far as there is room, the rest of the batch is dropped.
pub open spec fn after_push_batch(queue: Seq<i16>, capacity: nat, samples: Seq<i16>) -> Seq<i16> {
    queue + samples.take(accepted_of(queue, capacity, samples.len()) as int)
}

/// The queue after the samples of `samples` were pushed one by one.
pub open spec fn after_pushes(queue: Seq<i16>, capacity: nat, samples: Seq<i16>) -> Seq<i16>
    decreases samples.len(),
{
    if samples.len() == 0 {
        queue
    } else {
        after_push(after_pushes(queue, capacity, samples.drop_last()), capacity, samples.last())
    }
}

/// How many samples a read into a buffer of `want` samples yields.
pub open spec fn block_len(queue: Seq<i16>, want: nat) -> nat {
    if want <= queue.len() {
        want
    } else {
        queue.len()
    }
}

/// The samples that a read into a buffer of `want` samples yields: the
/// oldest ones, oldest first.
pub open spec fn block_of(queue: Seq<i16>, want: nat) -> Seq<i16> {
    queue.take(block_len(queue, want) as int)
}

/// The queue after a block of up to `want` samples was popped.
pub open spec fn after_pop_block(queue: Seq<i16>, want: nat) -> Seq<i16> {
    queue.skip(block_len(queue, want) as int)
}

/// A buffer after a read of `block` into it: the block, then the rest of the
/// buffer as it was.
pub open spec fn filled(buffer: Seq<i16>, block: Seq<i16>) -> Seq<i16> {
    block + buffer.skip(block.len() as int)
}

/// The storage index of the `i`-th slot after the slot `start`.
pub open spec fn slot(start: int, i: int, capacity: int) -> int {
    if start + i < capacity {
        start + i
    } else {
        start + i - capacity
    }
}

/// The cursor `cursor` moved on by `n` slots in storage of `capacity` slots.
pub open spec fn advanced(cursor: int, n: nat, capacity: nat) -> int {
    if capacity == 0 {
        0
    } else {
        (cursor + n) % (capacity as int)
    }
}

proof fn lemma_slot_wraps(start: int, i: int, capacity: int)
    requires
        0 <= start < capacity,
        0 <= i <= capacity,
    ensures
        slot(start, i, capacity) == (start + i) % capacity,
{
    if start + i < capacity {
        assert((start + i) % capacity == start + i) by (nonlinear_arith)
            requires
                0 <= start + i < capacity,
        ;
    } else {
        let rest = start + i - capacity;
        assert((rest + capacity) % capacity == rest) by (nonlinear_arith)
            requires
                0 <= rest < capacity,
        ;
    }
}

proof fn lemma_advanced_twice(cursor: int, a: nat, b: nat, capacity: nat)
    requires
        0 <= cursor,
    ensures
        advanced(advanced(cursor, a, capacity), b, capacity) == advanced(cursor, a + b, capacity),
{
    if capacity > 0 {
        vstd::arithmetic::div_mod::lemma_add_mod_noop(cursor + a, b as int, capacity as int);
        vstd::arithmetic::div_mod::lemma_mod_twice(cursor + a, capacity as int);
        vstd::arithmetic::div_mod::lemma_add_mod_noop(
            (cursor + a) % (capacity as int),
            b as int,
            capacity as int,
        );
    }
}

/// A bounded queue of samples in circular storage.
pub struct AudioRingBuffer {
    storage: Vec<i16>,
    read: usize,
    count: usize,
}

impl View for AudioRingBuffer {
    type V = Seq<i16>;

    /// The queued samples, oldest first.
    closed spec fn view(&self) -> Seq<i16> {
        Seq::new(
            self.count as nat,
            |i: int| self.storage@[slot(self.read as int, i, self.storage@.len() as int)],
        )
    }
}

impl AudioRingBuffer {
    #[verifier::type_invariant]
    spec fn inv(self) -> bool {
        &&& self.count <= self.storage@.len()
        &&& self.read < self.storage@.len() || (self.read == 0 && self.storage@.len() == 0)
    }

    /// The number of samples that the channel can hold.
    pub closed spec fn limit(&self) -> nat {
        self.storage@.len()
    }

    /// The storage index of the oldest queued sample: the read cursor.
    pub closed spec fn read_cursor(&self) -> int {
        self.read as int
    }

    /// The storage index that the next pushed sample goes to: the write
    /// cursor, which runs ahead of the read cursor by the occupancy.
    pub open spec fn write_cursor(&self) -> int {
        advanced(self.read_cursor(), self@.len(), self.limit())
    }

    /// An empty channel for up to `capacity` samples.
    pub fn new(capacity: usize) -> (ring: Self)
        ensures
            ring@ == Seq::<i16>::empty(),
            ring.limit() == capacity,
    {
        let ring = AudioRingBuffer { storage: vec![0i16; capacity], read: 0, count: 0 };
        assert(ring@ =~= Seq::<i16>::empty());
        ring
    }

    /// The number of queued samples: how far the write cursor is ahead of
    /// the read cursor.
    pub fn len(&self) -> (n: usize)
        ensures
            n == self@.len(),
            n <= self.limit(),
            self.limit() > 0 ==> 0 <= self.read_cursor() < self.limit(),
            self.write_cursor() == advanced(self.read_cursor(), n as nat, self.limit()),
    {
        proof {
            use_type_invariant(self);
        }
        self.count
    }

    /// The number of samples that the channel can hold.
    pub fn capacity(&self) -> (n: usize)
        ensures
            n == self.limit(),
    {
        self.storage.len()
    }

    /// Whether no sample is queued.
    pub fn is_empty(&self) -> (empty: bool)
        ensures
            empty == (self@.len() == 0),
    {
        self.count == 0
    }

    /// Queues `sample`, or drops it if the channel is full. Returns whether
    /// the sample was queued.
    pub fn push(&mut self, sample: i16) -> (accepted: bool)
        ensures
            accepted == (old(self)@.len() < old(self).limit()),
            final(self)@ == after_push(old(self)@, old(self).limit(), sample),
            final(self).limit() == old(self).limit(),
            final(self).read_cursor() == old(self).read_cursor(),
            final(self).write_cursor() == advanced(
                old(self).write_cursor(),
                if accepted {
                    1
                } else {
                    0
                },
                old(self).limit(),
            ),
    {
        proof {
            use_type_invariant(&*self);
            lemma_advanced_twice(self.read_cursor(), self@.len(), 0, self.limit());
            lemma_advanced_twice(self.read_cursor(), self@.len(), 1, self.limit());
        }
        let capacity = self.storage.len();
        if self.count == capacity {
            return false;
        }
        let write = if self.count < capacity - self.read {
            self.read + self.count
        } else {
            self.count - (capacity - self.read)
        };
        let ghost before = self@;
        self.storage[write] = sample;
        assert(self@ =~= before);
        self.count = self.count + 1;
        assert(self@ =~= before.push(sample));
        true
    }

    /// Queues the head of `samples` as far as there is room and drops the
    /// rest. Returns the number of samples dropped.
    pub fn push_batch(&mut self, samples: &[i16]) -> (dropped: usize)
        ensures
            final(self)@ == after_push_batch(old(self)@, old(self).limit(), samples@),
            dropped == samples@.len() - accepted_of(old(self)@, old(self).limit(), samples@.len()),
            final(self).limit() == old(self).limit(),
            final(self).read_cursor() == old(self).read_cursor(),
    {
        let n = samples.len();
        let mut i: usize = 0;
        proof {
            use_type_invariant(&*self);
            assert(self@ =~= old(self)@ + samples@.take(0));
        }
        while i < n && self.len() < self.capacity()
            invariant
                n == samples@.len(),
                i <= n,
                self.limit() == old(self).limit(),
                self.read_cursor() == old(self).read_cursor(),
                old(self)@.len() <= old(self).limit(),
                self@ == old(self)@ + samples@.take(i as int),
                self@.len() == old(self)@.len() + i,
            decreases n - i,
        {
            let accepted = self.push(samples[i]);
            assert(samples@.take(i + 1) =~= samples@.take(i as int).push(samples@[i as int]));
            assert(self@ =~= old(self)@ + samples@.take(i + 1));
            i = i + 1;
        }
        proof {
            use_type_invariant(&*self);
        }
        n - i
    }

    /// Removes and returns the oldest sample, or `None` if the channel is
    /// empty.
    pub fn pop(&mut self) -> (sample: Option<i16>)
        ensures
            sample == (if old(self)@.len() > 0 {
                Some(old(self)@[0])
            } else {
                None
            }),
            final(self)@ == after_pop(old(self)@),
            final(self).limit() == old(self).limit(),
            final(self).read_cursor() == advanced(
                old(self).read_cursor(),
                if sample is Some {
                    1
                } else {
                    0
                },
                old(self).limit(),
            ),
    {
        proof {
            use_type_invariant(&*self);
            if self.storage@.len() > 0 {
                lemma_slot_wraps(self.read as int, 0, self.storage@.len() as int);
                lemma_slot_wraps(self.read as int, 1, self.storage@.len() as int);
            }
        }
        if self.count == 0 {
            return None;
        }
        let capacity = self.storage.len();
        let ghost before = self@;
        let sample = self.storage[self.read];
        assert(sample == before[0]);
        let ghost start = self.read as int;
        let ghost storage = self.storage@;
        let next = if self.read + 1 == capacity {
            0
        } else {
            self.read + 1
        };
        self.count = self.count - 1;
        self.read = next;
        assert(self@ =~= before.drop_first()) by {
            assert forall|i: int| 0 <= i < self@.len() implies self@[i] == before[i + 1] by {
                assert(slot(next as int, i, capacity as int) == slot(start, i + 1, capacity as int));
            }
        }
        Some(sample)
    }

    /// Moves the oldest samples into `out`, oldest first, as far as samples
    /// are queued and `out` has room. Returns the number of samples moved.
    pub fn pop_block(&mut self, out: &mut [i16]) -> (count: usize)
        ensures
            count == block_len(old(self)@, old(out)@.len()),
            final(out)@ == filled(old(out)@, block_of(old(self)@, old(out)@.len())),
            final(self)@ == after_pop_block(old(self)@, old(out)@.len()),
            final(self).limit() == old(self).limit(),
            final(self).read_cursor() == advanced(
                old(self).read_cursor(),
                count as nat,
                old(self).limit(),
            ),
    {
        let n = out.len();
        let mut k: usize = 0;
        proof {
            assert(out@ =~= filled(old(out)@, old(self)@.take(0)));
            assert(self@ =~= old(self)@.skip(0));
            use_type_invariant(&*self);
            if self.storage@.len() > 0 {
                lemma_slot_wraps(self.read as int, 0, self.storage@.len() as int);
            }
        }
        while k < n && !self.is_empty()
            invariant
                n == old(out)@.len(),
                out@.len() == n,
                k <= n,
                k <= old(self)@.len(),
                self.limit() == old(self).limit(),
                0 <= old(self).read_cursor(),
                self.read_cursor() == advanced(old(self).read_cursor(), k as nat, self.limit()),
                self@ == old(self)@.skip(k as int),
                out@ == filled(old(out)@, old(self)@.take(k as int)),
            decreases n - k,
        {
            let ghost queue = self@;
            let ghost buffer = out@;
            let sample = self.pop();
            match sample {
                Some(v) => {
                    out[k] = v;
                },
                None => {},
            }
            proof {
                assert(self@ =~= old(self)@.skip(k + 1));
                assert(out@ =~= filled(old(out)@, old(self)@.take(k + 1)));
                lemma_advanced_twice(old(self).read_cursor(), k as nat, 1, self.limit());
            }
            k = k + 1;
        }
        k
    }

    /// Copies the oldest samples into `out`, oldest first, as far as samples
    /// are queued and `out` has room, and leaves the channel as it is.
    /// Returns the number of samples copied.
    pub fn peek_block(&self, out: &mut [i16]) -> (count: usize)
        ensures
            count == block_len(self@, old(out)@.len()),
            final(out)@ == filled(old(out)@, block_of(self@, old(out)@.len())),
    {
        proof {
            use_type_invariant(self);
            assert(out@ =~= filled(old(out)@, self@.take(0)));
        }
        let n = out.len();
        let capacity = self.storage.len();
        let mut k: usize = 0;
        while k < n && k < self.count
            invariant
                n == old(out)@.len(),
                out@.len() == n,
                k <= n,
                k <= self.count,
                self.count <= capacity,
                capacity == self.storage@.len(),
                self.read < capacity || self.count == 0,
                out@ == filled(old(out)@, self@.take(k as int)),
            decreases n - k,
        {
            let index = if k < capacity - self.read {
                self.read + k
            } else {
                k - (capacity - self.read)
            };
            out[k] = self.storage[index];
            proof {
                assert(out@ =~= filled(old(out)@, self@.take(k + 1)));
            }
            k = k + 1;
        }
        k
    }
}

/// One operation on a channel.
pub enum ChannelOp {
    /// A push of the sample.
    Push(i16),
    /// A pop.
    Pop,
}

/// The queue after `op`.
pub open spec fn after_op(queue: Seq<i16>, capacity: nat, op: ChannelOp) -> Seq<i16> {
    match op {
        ChannelOp::Push(sample) => after_push(queue, capacity, sample),
        ChannelOp::Pop => after_pop(queue),
    }
}

/// The queue after the operations of `ops`, in order.
pub open spec fn after_ops(queue: Seq<i16>, capacity: nat, ops: Seq<ChannelOp>) -> Seq<i16>
    decreases ops.len(),
{
    if ops.len() == 0 {
        queue
    } else {
        after_op(after_ops(queue, capacity, ops.drop_last()), capacity, ops.last())
    }
}

/// How many pushes among `ops` queued their sample.
pub open spec fn pushed_count(queue: Seq<i16>, capacity: nat, ops: Seq<ChannelOp>) -> nat
    decreases ops.len(),
{
    if ops.len() == 0 {
        0
    } else {
        let before = after_ops(queue, capacity, ops.drop_last());
        let earlier = pushed_count(queue, capacity, ops.drop_last());
        if ops.last() is Push && before.len() < capacity {
            earlier + 1
        } else {
            earlier
        }
    }
}

/// How many pops among `ops` returned a sample.
pub open spec fn popped_count(queue: Seq<i16>, capacity: nat, ops: Seq<ChannelOp>) -> nat
    decreases ops.len(),
{
    if ops.len() == 0 {
        0
    } else {
        let before = after_ops(queue, capacity, ops.drop_last());
        let earlier = popped_count(queue, capacity, ops.drop_last());
        if ops.last() is Pop && before.len() > 0 {
            earlier + 1
        } else {
            earlier
        }
    }
}

/// `n`, held between 0 and `capacity`.
pub open spec fn clamped(n: int, capacity: nat) -> int {
    if n < 0 {
        0
    } else if n > capacity {
        capacity as int
    } else {
        n
    }
}

/// The queue after `n` pops.
pub open spec fn after_pops(queue: Seq<i16>, n: nat) -> Seq<i16>
    decreases n,
{
    if n == 0 {
        queue
    } else {
        after_pop(after_pops(queue, (n - 1) as nat))
    }
}

/// Pushing a batch is pushing its samples one by one.
pub proof fn lemma_batch_is_pushes(queue: Seq<i16>, capacity: nat, samples: Seq<i16>)
    requires
        queue.len() <= capacity,
    ensures
        after_pushes(queue, capacity, samples) == after_push_batch(queue, capacity, samples),
    decreases samples.len(),
{
    if samples.len() == 0 {
        assert(after_push_batch(queue, capacity, samples) =~= queue);
    } else {
        let head = samples.drop_last();
        lemma_batch_is_pushes(queue, capacity, head);
        let taken = accepted_of(queue, capacity, head.len());
        assert(head.take(taken as int) =~= samples.take(taken as int));
        if queue.len() + samples.len() <= capacity {
            assert(samples.take(samples.len() as int) =~= head.take(head.len() as int).push(
                samples.last(),
            ));
            assert(after_push_batch(queue, capacity, samples) =~= after_push_batch(
                queue,
                capacity,
                head,
            ).push(samples.last()));
        } else {
            assert(after_push_batch(queue, capacity, samples) =~= after_push_batch(
                queue,
                capacity,
                head,
            ));
        }
    }
}

/// Samples pushed within the capacity come back in the order of their
/// pushes: after pushes of `samples` into an empty channel with room for
/// them all, a block read of as many samples yields exactly `samples` and
/// leaves the channel empty.
pub proof fn lemma_fifo_round_trip(capacity: nat, samples: Seq<i16>)
    requires
        samples.len() <= capacity,
    ensures
        after_pushes(Seq::empty(), capacity, samples) == samples,
        block_of(after_pushes(Seq::empty(), capacity, samples), samples.len()) == samples,
        after_pop_block(after_pushes(Seq::empty(), capacity, samples), samples.len())
            == Seq::<i16>::empty(),
{
    lemma_batch_is_pushes(Seq::empty(), capacity, samples);
    assert(after_push_batch(Seq::empty(), capacity, samples) =~= samples);
    assert(samples.take(samples.len() as int) =~= samples);
    assert(samples.skip(samples.len() as int) =~= Seq::<i16>::empty());
}

/// What is queued is read before what is pushed after it: with room for
/// `samples`, a read of everything yields the queue as it was, then
/// `samples`.
pub proof fn lemma_fifo_order(queue: Seq<i16>, capacity: nat, samples: Seq<i16>)
    requires
        queue.len() + samples.len() <= capacity,
    ensures
        block_of(after_pushes(queue, capacity, samples), queue.len() + samples.len()) == queue
            + samples,
{
    lemma_batch_is_pushes(queue, capacity, samples);
    assert(samples.take(samples.len() as int) =~= samples);
    assert((queue + samples).take((queue + samples).len() as int) =~= queue + samples);
}

/// Pushes beyond the capacity lose the newest samples: where `samples`
/// exceed the room by `k`, the queue keeps all it held, takes all of
/// `samples` but the last `k`, and is full.
pub proof fn lemma_overflow_drops_newest(
    queue: Seq<i16>,
    capacity: nat,
    samples: Seq<i16>,
    k: nat,
)
    requires
        queue.len() <= capacity,
        queue.len() + samples.len() == capacity + k,
    ensures
        after_pushes(queue, capacity, samples) == queue + samples.take(samples.len() - k),
        after_pushes(queue, capacity, samples).len() == capacity,
        accepted_of(queue, capacity, samples.len()) == samples.len() - k,
{
    lemma_batch_is_pushes(queue, capacity, samples);
}

/// Popping a block is popping its samples one by one.
pub proof fn lemma_block_is_pops(queue: Seq<i16>, want: nat)
    ensures
        after_pops(queue, want) == after_pop_block(queue, want),
    decreases want,
{
    if want == 0 {
        assert(queue.skip(0) =~= queue);
    } else {
        lemma_block_is_pops(queue, (want - 1) as nat);
        let before = after_pop_block(queue, (want - 1) as nat);
        if want <= queue.len() {
            assert(before.drop_first() =~= queue.skip(want as int));
        } else {
            assert(before =~= Seq::<i16>::empty());
            assert(queue.skip(queue.len() as int) =~= Seq::<i16>::empty());
        }
    }
}

/// One operation moves the occupancy by one, held between 0 and the
/// capacity.
pub proof fn lemma_len_after_op(queue: Seq<i16>, capacity: nat, op: ChannelOp)
    requires
        queue.len() <= capacity,
    ensures
        after_op(queue, capacity, op).len() == clamped(
            match op {
                ChannelOp::Push(_) => queue.len() as int + 1,
                ChannelOp::Pop => queue.len() as int - 1,
            },
            capacity,
        ),
{
}

/// After any operations the occupancy is what was queued at first, plus the
/// pushes that queued their sample, minus the pops that returned one, and
/// lies between 0 and the capacity.
pub proof fn lemma_len_after_ops(queue: Seq<i16>, capacity: nat, ops: Seq<ChannelOp>)
    requires
        queue.len() <= capacity,
    ensures
        after_ops(queue, capacity, ops).len() == queue.len() + pushed_count(queue, capacity, ops)
            - popped_count(queue, capacity, ops),
        after_ops(queue, capacity, ops).len() <= capacity,
    decreases ops.len(),
{
    if ops.len() > 0 {
        lemma_len_after_ops(queue, capacity, ops.drop_last());
    }
}

} // verus!
