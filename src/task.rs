//! Tasks: resumable computations that the executor polls until they finish.
use vstd::prelude::*;

pub mod executor;
pub mod keyboard;

verus! {

/// Identifier of a task: the value of a counter that only goes up.
#[derive(Clone, Copy, Debug, PartialEq, Eq, Structural)]
pub struct TaskId(u64);

impl View for TaskId {
    type V = u64;

    closed spec fn view(&self) -> u64 {
        self.0
    }
}

impl TaskId {
    /// Takes the next identifier from `counter`.
    pub fn new(counter: &mut u64) -> (r: TaskId)
        requires
            *old(counter) < u64::MAX,
        ensures
            r@ == *old(counter),
            *final(counter) == *old(counter) + 1,
    {
        let id = TaskId(*counter);
        *counter = *counter + 1;
        id
    }

    /// The identifier as a number.
    pub fn as_u64(&self) -> (r: u64)
        ensures
            r == self@,
    {
        self.0
    }
}

/// What one poll of a task reports.
#[derive(Clone, Copy, Debug, PartialEq, Eq, Structural)]
pub enum TaskPoll {
    /// The task has finished.
    Ready,
    /// The task waits; something must wake it before it is polled again.
    Pending,
}

/// What a poll hands to the task: which task it is, and a way to ask to be
/// polled again.
pub struct Context {
    task_id: TaskId,
    woken: bool,
}

impl Context {
    /// A context for polling the task `task_id`.
    pub fn new(task_id: TaskId) -> (r: Context)
        ensures
            r.task_id() == task_id,
            !r.woken(),
    {
        Context { task_id, woken: false }
    }

    /// The task being polled.
    pub closed spec fn task_id(&self) -> TaskId {
        self.task_id
    }

    /// The task asked to be polled again.
    pub closed spec fn woken(&self) -> bool {
        self.woken
    }

    /// The task being polled.
    pub fn id(&self) -> (r: TaskId)
        ensures
            r == self.task_id(),
    {
        self.task_id
    }

    /// Marks the task ready again, as its waker would.
    pub fn wake(&mut self)
        ensures
            final(self).task_id() == old(self).task_id(),
            final(self).woken(),
    {
        self.woken = true;
    }

    /// The task asked to be polled again.
    pub fn is_woken(&self) -> (r: bool)
        ensures
            r == self.woken(),
    {
        self.woken
    }
}

/// A suspended computation: each poll runs it to its next suspension point
/// or to its end.
pub trait TaskFuture {
    fn poll(&mut self, cx: &mut Context) -> TaskPoll;
}

/// A task: a computation with its identifier.
pub struct Task<F> {
    id: TaskId,
    future: F,
}

impl<F: TaskFuture> Task<F> {
    /// The task `id` that runs `future`.
    pub fn new(id: TaskId, future: F) -> (r: Self)
        ensures
            r.id() == id,
    {
        Task { id, future }
    }

    /// The task's identifier.
    pub closed spec fn id(&self) -> TaskId {
        self.id
    }

    /// Runs the computation to its next suspension point.
    pub fn poll(&mut self, cx: &mut Context) -> (r: TaskPoll)
        ensures
            final(self).id() == old(self).id(),
    {
        self.future.poll(cx)
    }
}

} // verus!
