use vstd::prelude::*;
use std::collections::VecDeque;
use crate::data::Message;
use crate::errors::Error;

verus! {

/// Number of message and metadata slots a fresh batch is sized for.
pub const BATCH_CAPACITY: usize = 1024;

/// A reusable batch of decoded messages together with per-packet metadata:
/// for each packet received, how many messages it carried and an opaque
/// identifier of its source endpoint.
pub struct Messages {
    pub msgs: Vec<Message>,
    pub data: Vec<(usize, u64)>,
}

/// A batch in its freshly allocated shape: both sequences at full capacity,
/// every message slot a no-op and every metadata slot zeroed.
pub open spec fn is_fresh(m: Messages) -> bool {
    &&& m.msgs@.len() == BATCH_CAPACITY
    &&& m.data@.len() == BATCH_CAPACITY
    &&& forall|i: int| 0 <= i < m.msgs@.len() ==> m.msgs@[i] == Message::Noop
    &&& forall|i: int| 0 <= i < m.data@.len() ==> m.data@[i] == (0usize, 0u64)
}

/// Total message count recorded in a metadata prefix.
pub open spec fn sum_counts(s: Seq<(usize, u64)>) -> int
    decreases s.len(),
{
    if s.len() == 0 {
        0
    } else {
        sum_counts(s.drop_last()) + s.last().0
    }
}

pub proof fn lemma_sum_counts_take_step(s: Seq<(usize, u64)>, i: int)
    requires
        0 <= i < s.len(),
    ensures
        sum_counts(s.take(i + 1)) == sum_counts(s.take(i)) + s[i].0,
{
    assert(s.take(i + 1).drop_last() =~= s.take(i));
    assert(s.take(i + 1).last() == s[i]);
}

pub proof fn lemma_sum_counts_take_mono(s: Seq<(usize, u64)>, i: int, j: int)
    requires
        0 <= i <= j <= s.len(),
    ensures
        sum_counts(s.take(i)) <= sum_counts(s.take(j)),
    decreases j - i,
{
    if i < j {
        lemma_sum_counts_take_step(s, i);
        lemma_sum_counts_take_mono(s, i + 1, j);
    }
}

impl Messages {
    /// A fresh batch at full capacity.
    pub fn new() -> (m: Messages)
        ensures
            is_fresh(m),
    {
        let mut msgs: Vec<Message> = Vec::new();
        let mut i: usize = 0;
        while i < BATCH_CAPACITY
            invariant
                msgs@.len() == i,
                0 <= i <= BATCH_CAPACITY,
                forall|j: int| 0 <= j < i ==> msgs@[j] == Message::Noop,
            decreases BATCH_CAPACITY - i,
        {
            msgs.push(Message::default());
            i = i + 1;
        }
        let mut data: Vec<(usize, u64)> = Vec::new();
        let mut k: usize = 0;
        while k < BATCH_CAPACITY
            invariant
                data@.len() == k,
                0 <= k <= BATCH_CAPACITY,
                forall|j: int| 0 <= j < k ==> data@[j] == (0usize, 0u64),
            decreases BATCH_CAPACITY - k,
        {
            data.push(Messages::def_data());
            k = k + 1;
        }
        Messages { msgs, data }
    }

    /// The zeroed metadata entry: no messages, from the null endpoint.
    pub fn def_data() -> (d: (usize, u64))
        ensures
            d == (0usize, 0u64),
    {
        (0, 0)
    }

    /// Bring both sequences back up to full capacity before a read, reusing
    /// the allocation they already hold.
    pub fn reset(&mut self)
        ensures
            is_fresh(*final(self)),
    {
        self.msgs.clear();
        let mut i: usize = 0;
        while i < BATCH_CAPACITY
            invariant
                self.msgs@.len() == i,
                0 <= i <= BATCH_CAPACITY,
                forall|j: int| 0 <= j < i ==> self.msgs@[j] == Message::Noop,
            decreases BATCH_CAPACITY - i,
        {
            self.msgs.push(Message::default());
            i = i + 1;
        }
        self.data.clear();
        let mut k: usize = 0;
        while k < BATCH_CAPACITY
            invariant
                self.msgs@.len() == BATCH_CAPACITY,
                forall|j: int| 0 <= j < self.msgs@.len() ==> self.msgs@[j] == Message::Noop,
                self.data@.len() == k,
                0 <= k <= BATCH_CAPACITY,
                forall|j: int| 0 <= j < k ==> self.data@[j] == (0usize, 0u64),
            decreases BATCH_CAPACITY - k,
        {
            self.data.push(Messages::def_data());
            k = k + 1;
        }
    }

    /// After a read filled the first `num` metadata entries, trim the
    /// metadata to those entries and the messages to the total count they
    /// record.
    pub fn shrink(&mut self, num: usize)
        requires
            num <= old(self).data@.len(),
            sum_counts(old(self).data@.take(num as int)) <= old(self).msgs.len(),
        ensures
            final(self).data@ == old(self).data@.take(num as int),
            final(self).msgs@ == old(self).msgs@.take(
                sum_counts(old(self).data@.take(num as int)),
            ),
    {
        let ghost d0 = self.data@;
        let mut total: usize = 0;
        let mut i: usize = 0;
        while i < num
            invariant
                0 <= i <= num,
                num <= self.data@.len(),
                self.data@ == d0,
                sum_counts(d0.take(num as int)) <= old(self).msgs.len(),
                self.msgs@ == old(self).msgs@,
                total == sum_counts(d0.take(i as int)),
            decreases num - i,
        {
            proof {
                lemma_sum_counts_take_step(d0, i as int);
                lemma_sum_counts_take_mono(d0, i as int + 1, num as int);
                assert(total + d0[i as int].0 == sum_counts(d0.take(i as int + 1)));
                assert(sum_counts(d0.take(i as int + 1)) <= sum_counts(d0.take(num as int)));
            }
            total = total + self.data[i].0;
            i = i + 1;
        }
        self.msgs.truncate(total);
        self.data.truncate(num);
        proof {
            assert(final(self).msgs@ == old(self).msgs@.subrange(0, total as int));
            assert(final(self).data@ == d0.subrange(0, num as int));
        }
    }
}

/// The batch pool between the reading thread and its consumers: completed
/// batches pending in arrival order, and a free list of batches returned for
/// reuse. The surrounding system serializes access (one lock around the
/// whole pool); this type owns only the queue discipline.
pub struct Reader {
    pub pending: VecDeque<Messages>,
    pub gc: Vec<Messages>,
}

impl Reader {
    /// An empty pool: nothing pending, nothing to reuse.
    pub fn new() -> (r: Reader)
        ensures
            r.pending@.len() == 0,
            r.gc@.len() == 0,
    {
        Reader { pending: VecDeque::new(), gc: Vec::new() }
    }

    /// Hand out a batch for the reader to fill: the most recently recycled
    /// one if the free list has any (no fresh allocation), otherwise a fresh
    /// batch at full capacity.
    pub fn allocate(&mut self) -> (m: Messages)
        ensures
            final(self).pending@ == old(self).pending@,
            old(self).gc@.len() > 0 ==> {
                &&& m == old(self).gc@.last()
                &&& final(self).gc@ == old(self).gc@.drop_last()
            },
            old(self).gc@.len() == 0 ==> {
                &&& is_fresh(m)
                &&& final(self).gc@ == old(self).gc@
            },
    {
        let popped = self.gc.pop();
        match popped {
            Some(m) => m,
            None => Messages::new(),
        }
    }

    /// Publish a filled batch to consumers, at the back of the pending
    /// queue.
    pub fn enqueue(&mut self, m: Messages)
        ensures
            final(self).pending@ == old(self).pending@.push(m),
            final(self).gc@ == old(self).gc@,
    {
        self.pending.push_back(m);
    }

    /// Non-blocking poll: the oldest pending batch, or `WouldBlock` when
    /// nothing is pending.
    pub fn next(&mut self) -> (r: Result<Messages, Error>)
        ensures
            final(self).gc@ == old(self).gc@,
            old(self).pending@.len() == 0 ==> {
                &&& r == Result::<Messages, Error>::Err(Error::WouldBlock)
                &&& final(self).pending@ == old(self).pending@
            },
            old(self).pending@.len() > 0 ==> {
                &&& r is Ok
                &&& r.unwrap() == old(self).pending@[0]
                &&& final(self).pending@ == old(self).pending@.drop_first()
            },
    {
        let popped = self.pending.pop_front();
        match popped {
            Some(m) => Ok(m),
            None => Err(Error::WouldBlock),
        }
    }

    /// Return a batch to the free list for later reuse by `allocate`.
    pub fn recycle(&mut self, m: Messages)
        ensures
            final(self).pending@ == old(self).pending@,
            final(self).gc@ == old(self).gc@.push(m),
    {
        self.gc.push(m);
    }
}

/// Buffer-pool reuse: recycling a batch pushes it on the free list, and the
/// very next allocation (with no other allocation in between) pops exactly
/// that batch, not a fresh one.
pub proof fn lemma_recycle_then_allocate(gc: Seq<Messages>, m: Messages)
    ensures
        gc.push(m).len() > 0,
        gc.push(m).last() == m,
        gc.push(m).drop_last() == gc,
{
    assert(gc.push(m).drop_last() =~= gc);
}

/// Queue order: batches enqueued in the order a, b, c stand in the pending
/// queue in that same order, so consumers polling `next` receive them first
/// to last.
pub proof fn lemma_queue_fifo(pending: Seq<Messages>, a: Messages, b: Messages, c: Messages)
    ensures
        ({
            let q = pending.push(a).push(b).push(c);
            &&& q.len() == pending.len() + 3
            &&& q[pending.len() as int] == a
            &&& q[pending.len() as int + 1] == b
            &&& q[pending.len() as int + 2] == c
        }),
{
}

} // verus!
