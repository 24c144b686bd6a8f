//! The scancode bridge: a bounded byte queue filled by the keyboard
//! interrupt handler and drained by one consumer task.
use crossbeam_queue::ArrayQueue;

use vstd::prelude::*;

use crate::task::TaskId;

verus! {

/// How many scancodes the queue holds.
pub const SCANCODE_QUEUE_CAPACITY: usize = 100;

#[verifier::external_type_specification]
#[verifier::external_body]
#[verifier::reject_recursive_types(T)]
pub struct ExArrayQueue<T>(ArrayQueue<T>);

/// The bytes in a queue, head first.
pub uninterp spec fn queued_bytes(q: ArrayQueue<u8>) -> Seq<u8>;

/// The number of items a queue was made to hold.
pub uninterp spec fn queue_capacity(q: ArrayQueue<u8>) -> nat;

/// Relies on `ArrayQueue::new`: an empty queue that holds at most `cap`
/// items. It panics on a capacity of zero or one too large to index.
#[verifier::external_body]
fn new_queue(cap: usize) -> (q: ArrayQueue<u8>)
    requires
        0 < cap <= 65536,
    ensures
        queued_bytes(q) == Seq::<u8>::empty(),
        queue_capacity(q) == cap,
{
    ArrayQueue::new(cap)
}

/// Relies on `ArrayQueue::push_mut`: the byte goes in at the tail unless the
/// queue is full, in which case it comes back as the error.
#[verifier::external_body]
fn queue_push(q: &mut ArrayQueue<u8>, byte: u8) -> (r: Result<(), u8>)
    ensures
        queue_capacity(*final(q)) == queue_capacity(*old(q)),
        if queued_bytes(*old(q)).len() < queue_capacity(*old(q)) {
            &&& r == Ok::<(), u8>(())
            &&& queued_bytes(*final(q)) == queued_bytes(*old(q)).push(byte)
        } else {
            &&& r == Err::<(), u8>(byte)
            &&& queued_bytes(*final(q)) == queued_bytes(*old(q))
        },
{
    q.push_mut(byte)
}

/// Relies on `ArrayQueue::pop_mut`: takes the byte at the head, none when
/// the queue is empty.
#[verifier::external_body]
fn queue_pop(q: &mut ArrayQueue<u8>) -> (r: Option<u8>)
    ensures
        queue_capacity(*final(q)) == queue_capacity(*old(q)),
        if queued_bytes(*old(q)).len() == 0 {
            &&& r is None
            &&& queued_bytes(*final(q)) == queued_bytes(*old(q))
        } else {
            &&& r == Some(queued_bytes(*old(q))[0])
            &&& queued_bytes(*final(q)) == queued_bytes(*old(q)).drop_first()
        },
{
    q.pop_mut()
}

/// The queue after the producer offers `byte`: it goes in at the tail, or is
/// dropped when the queue already holds `cap` bytes.
pub open spec fn after_push(bytes: Seq<u8>, cap: nat, byte: u8) -> Seq<u8> {
    if bytes.len() < cap {
        bytes.push(byte)
    } else {
        bytes
    }
}

/// The queue, and the number of bytes dropped, after the producer offers
/// `input` one byte after the other with no consumer in between.
pub open spec fn after_pushes(bytes: Seq<u8>, cap: nat, input: Seq<u8>) -> (Seq<u8>, nat)
    decreases input.len(),
{
    if input.len() == 0 {
        (bytes, 0)
    } else {
        let (q, dropped) = after_pushes(bytes, cap, input.drop_last());
        (after_push(q, cap, input.last()), if q.len() < cap {
            dropped
        } else {
            dropped + 1
        })
    }
}

/// Offering bytes to an empty queue keeps the first `cap` of them, in order,
/// and drops the rest.
pub proof fn lemma_fill_queue(cap: nat, input: Seq<u8>)
    ensures
        after_pushes(Seq::empty(), cap, input).0 == input.take(
            if input.len() < cap { input.len() as int } else { cap as int },
        ),
        after_pushes(Seq::empty(), cap, input).1 == if input.len() > cap {
            input.len() - cap
        } else {
            0
        },
    decreases input.len(),
{
    if input.len() > 0 {
        let prefix = input.drop_last();
        lemma_fill_queue(cap, prefix);
        if prefix.len() < cap {
            assert(input.take(prefix.len() as int + 1) =~= prefix.take(prefix.len() as int).push(
                input.last(),
            ));
        } else {
            assert(input.take(cap as int) =~= prefix.take(cap as int));
        }
    } else {
        assert(input.take(0) =~= Seq::<u8>::empty());
    }
}

/// What happened to a scancode that the interrupt handler offered.
#[derive(Clone, Copy, Debug, PartialEq, Eq, Structural)]
pub enum ScancodeOutcome {
    /// Queued; the registered consumer, if any, is to be woken.
    Queued(Option<TaskId>),
    /// The queue was full and the scancode was dropped.
    Dropped,
}

/// What the consumer gets when it asks for the next scancode.
#[derive(Clone, Copy, Debug, PartialEq, Eq, Structural)]
pub enum ScancodePoll {
    Ready(u8),
    Pending,
}

/// The scancode queue with the waker of the task that consumes it.
pub struct ScancodeStream {
    queue: ArrayQueue<u8>,
    waker: Option<TaskId>,
}

impl ScancodeStream {
    /// The bytes waiting, oldest first.
    pub closed spec fn queued(&self) -> Seq<u8> {
        queued_bytes(self.queue)
    }

    /// The most bytes that can wait.
    pub closed spec fn capacity(&self) -> nat {
        queue_capacity(self.queue)
    }

    /// The task to wake when a byte arrives.
    pub closed spec fn registered(&self) -> Option<TaskId> {
        self.waker
    }

    /// The queue never holds more than its capacity.
    pub closed spec fn wf(&self) -> bool {
        &&& queue_capacity(self.queue) == SCANCODE_QUEUE_CAPACITY
        &&& queued_bytes(self.queue).len() <= queue_capacity(self.queue)
    }

    /// An empty queue of capacity 100 with no consumer registered.
    pub fn new() -> (r: Self)
        ensures
            r.wf(),
            r.queued() == Seq::<u8>::empty(),
            r.capacity() == SCANCODE_QUEUE_CAPACITY,
            r.registered() is None,
    {
        ScancodeStream { queue: new_queue(SCANCODE_QUEUE_CAPACITY), waker: None }
    }

    /// Offers a scancode from the keyboard interrupt handler. It never
    /// blocks: on a full queue the scancode is dropped. When it is queued the
    /// registered consumer is handed back to be woken, and the registration
    /// is used up.
    pub fn add_scancode(&mut self, scancode: u8) -> (r: ScancodeOutcome)
        requires
            old(self).wf(),
        ensures
            final(self).wf(),
            final(self).capacity() == old(self).capacity(),
            final(self).queued() == after_push(old(self).queued(), old(self).capacity(), scancode),
            old(self).queued().len() < old(self).capacity() ==> {
                &&& r == ScancodeOutcome::Queued(old(self).registered())
                &&& final(self).registered() is None
            },
            old(self).queued().len() >= old(self).capacity() ==> {
                &&& r == ScancodeOutcome::Dropped
                &&& final(self).registered() == old(self).registered()
            },
    {
        match queue_push(&mut self.queue, scancode) {
            Ok(()) => {
                let woken = self.waker;
                self.waker = None;
                ScancodeOutcome::Queued(woken)
            },
            Err(_) => ScancodeOutcome::Dropped,
        }
    }

    /// Asks for the next scancode on behalf of task `task`: the oldest byte
    /// if there is one; otherwise the task registers as the one to wake,
    /// replacing any earlier registration, and the queue is checked once more
    /// before the task waits.
    pub fn poll_next(&mut self, task: TaskId) -> (r: ScancodePoll)
        requires
            old(self).wf(),
        ensures
            final(self).wf(),
            final(self).capacity() == old(self).capacity(),
            old(self).queued().len() > 0 ==> {
                &&& r == ScancodePoll::Ready(old(self).queued()[0])
                &&& final(self).queued() == old(self).queued().drop_first()
                &&& final(self).registered() == old(self).registered()
            },
            old(self).queued().len() == 0 ==> {
                &&& r == ScancodePoll::Pending
                &&& final(self).queued() == old(self).queued()
                &&& final(self).registered() == Some(task)
            },
    {
        if let Some(scancode) = queue_pop(&mut self.queue) {
            return ScancodePoll::Ready(scancode);
        }
        self.waker = Some(task);
        match queue_pop(&mut self.queue) {
            Some(scancode) => {
                self.waker = None;
                ScancodePoll::Ready(scancode)
            },
            None => ScancodePoll::Pending,
        }
    }
}

} // verus!
