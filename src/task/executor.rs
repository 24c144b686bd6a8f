//! The single-threaded cooperative executor: a store of tasks keyed by
//! identifier and a first-in first-out queue of tasks that are ready.
use std::collections::BTreeMap;
use std::collections::VecDeque;

use vstd::prelude::*;

use crate::task::{Context, Task, TaskFuture, TaskId, TaskPoll};

verus! {

broadcast use vstd::laws_cmp::group_laws_cmp;

/// What the executor should do after a pass over the ready tasks.
#[derive(Clone, Copy, Debug, PartialEq, Eq, Structural)]
pub enum RunOutcome {
    /// Every task has finished.
    Finished,
    /// Tasks remain but none is ready: halt until an interrupt wakes one.
    Idle,
    /// Tasks were woken during the pass: run another pass.
    Ready,
}

/// The tasks polled in `entries` of the poll log, in order.
pub open spec fn ids_of(entries: Seq<(u64, bool, bool)>) -> Seq<u64> {
    Seq::new(entries.len(), |i: int| entries[i].0)
}

/// What each poll in `entries` of the poll log reported: whether the task
/// finished and whether it woke itself.
pub open spec fn outcomes_of(entries: Seq<(u64, bool, bool)>) -> Seq<(bool, bool)> {
    Seq::new(entries.len(), |i: int| (entries[i].1, entries[i].2))
}

/// A pass over the ready queue `queue`, from the stored tasks `stored`, with
/// `outcomes` giving what each poll reported in turn: the tasks polled, the
/// tasks still stored afterwards, and the tasks queued again. Each queued
/// task that is still stored when its turn comes is polled once; it leaves
/// the store when it finished, and is queued again when it waits and woke
/// itself. An id whose task is gone is skipped.
pub open spec fn pass_effect(
    queue: Seq<u64>,
    stored: Set<u64>,
    outcomes: Seq<(bool, bool)>,
) -> (Seq<u64>, Set<u64>, Seq<u64>)
    decreases queue.len(),
{
    if queue.len() == 0 {
        (Seq::empty(), stored, Seq::empty())
    } else {
        let (polled, left, requeued) = pass_effect(queue.drop_last(), stored, outcomes);
        let id = queue.last();
        if left.contains(id) {
            let finished = outcomes[polled.len() as int].0;
            let woke = outcomes[polled.len() as int].1;
            (
                polled.push(id),
                if finished {
                    left.remove(id)
                } else {
                    left
                },
                if !finished && woke {
                    requeued.push(id)
                } else {
                    requeued
                },
            )
        } else {
            (polled, left, requeued)
        }
    }
}

/// A pass reads only as many outcomes as it polls tasks.
proof fn lemma_pass_prefix(
    queue: Seq<u64>,
    stored: Set<u64>,
    o1: Seq<(bool, bool)>,
    o2: Seq<(bool, bool)>,
)
    requires
        o1.len() <= o2.len(),
        forall|i: int| 0 <= i < o1.len() ==> o1[i] == o2[i],
        pass_effect(queue, stored, o1).0.len() <= o1.len(),
    ensures
        pass_effect(queue, stored, o1) == pass_effect(queue, stored, o2),
    decreases queue.len(),
{
    if queue.len() > 0 {
        lemma_pass_prefix(queue.drop_last(), stored, o1, o2);
    }
}

/// Single-threaded cooperative scheduler.
pub struct Executor<F> {
    tasks: BTreeMap<u64, Task<F>>,
    task_queue: VecDeque<u64>,
    next_id: u64,
    polls: Ghost<Seq<(u64, bool, bool)>>,
}

impl<F: TaskFuture> Executor<F> {
    /// Identifiers of the tasks not yet finished.
    pub closed spec fn task_ids(&self) -> Set<u64> {
        self.tasks@.dom()
    }

    /// Identifiers of the ready tasks, in the order they will be polled.
    pub closed spec fn ready_queue(&self) -> Seq<u64> {
        self.task_queue@
    }

    /// Every poll so far: the task polled and whether it finished.
    pub closed spec fn poll_log(&self) -> Seq<(u64, bool, bool)> {
        self.polls@
    }

    /// The identifier the next spawned task gets.
    pub closed spec fn next_id(&self) -> u64 {
        self.next_id
    }

    /// Stored tasks carry their key, identifiers come from the counter, and
    /// a task that finished is gone for good.
    pub closed spec fn wf(&self) -> bool {
        let log = self.polls@;
        &&& forall|id: u64| #[trigger]
            self.tasks@.contains_key(id) ==> id < self.next_id && self.tasks@[id].id()@ == id
        &&& forall|i: int| 0 <= i < log.len() ==> (#[trigger] log[i]).0 < self.next_id
        &&& forall|i: int| 0 <= i < log.len() && (#[trigger] log[i]).1 ==> !self.tasks@.contains_key(log[i].0)
        &&& forall|i: int, j: int|
            #![trigger log[i], log[j]]
            0 <= i < j < log.len() && log[i].1 ==> log[j].0 != log[i].0
    }

    /// An executor with no task.
    pub fn new() -> (r: Self)
        ensures
            r.wf(),
            r.task_ids() == Set::<u64>::empty(),
            r.ready_queue() == Seq::<u64>::empty(),
            r.poll_log() == Seq::<(u64, bool, bool)>::empty(),
            r.next_id() == 0,
    {
        Executor {
            tasks: BTreeMap::new(),
            task_queue: VecDeque::new(),
            next_id: 0,
            polls: Ghost(Seq::empty()),
        }
    }

    /// Stores `future` as a new task with a fresh identifier and makes it
    /// ready.
    pub fn spawn(&mut self, future: F) -> (r: TaskId)
        requires
            old(self).wf(),
            old(self).next_id() < u64::MAX,
        ensures
            final(self).wf(),
            r@ == old(self).next_id(),
            !old(self).task_ids().contains(r@),
            final(self).next_id() == old(self).next_id() + 1,
            final(self).task_ids() == old(self).task_ids().insert(r@),
            final(self).ready_queue() == old(self).ready_queue().push(r@),
            final(self).poll_log() == old(self).poll_log(),
    {
        let id = TaskId::new(&mut self.next_id);
        let raw = id.as_u64();
        let task = Task::new(id, future);
        self.tasks.insert(raw, task);
        self.task_queue.push_back(raw);
        proof {
            assert(self.tasks@.dom() =~= old(self).tasks@.dom().insert(raw));
        }
        id
    }

    /// Makes the task `id` ready, as its waker does.
    pub fn wake(&mut self, id: TaskId)
        requires
            old(self).wf(),
        ensures
            final(self).wf(),
            final(self).ready_queue() == old(self).ready_queue().push(id@),
            final(self).task_ids() == old(self).task_ids(),
            final(self).next_id() == old(self).next_id(),
            final(self).poll_log() == old(self).poll_log(),
    {
        self.task_queue.push_back(id.as_u64());
    }

    /// No task is left.
    pub fn is_finished(&self) -> (r: bool)
        ensures
            r == (self.task_ids().len() == 0),
    {
        self.tasks.is_empty()
    }

    /// Polls, once each, the tasks that are ready when the pass starts, in
    /// queue order. A task that finishes leaves the store; one that waits
    /// stays, and is queued again only if it woke itself.
    pub fn run_ready_tasks(&mut self) -> (r: RunOutcome)
        requires
            old(self).wf(),
        ensures
            final(self).wf(),
            final(self).next_id() == old(self).next_id(),
            final(self).poll_log().len() >= old(self).poll_log().len(),
            final(self).poll_log().subrange(0, old(self).poll_log().len() as int) == old(self).poll_log(),
            ({
                let new = final(self).poll_log().subrange(
                    old(self).poll_log().len() as int,
                    final(self).poll_log().len() as int,
                );
                let (polled, left, requeued) = pass_effect(
                    old(self).ready_queue(),
                    old(self).task_ids(),
                    outcomes_of(new),
                );
                &&& polled == ids_of(new)
                &&& final(self).task_ids() == left
                &&& final(self).ready_queue() == requeued
            }),
            r == RunOutcome::Finished <==> final(self).task_ids().len() == 0,
            r == RunOutcome::Idle <==> (final(self).task_ids().len() != 0
                && final(self).ready_queue().len() == 0),
    {
        let n = self.task_queue.len();
        let ghost start: int = self.polls@.len() as int;
        let ghost queue0 = self.task_queue@;
        let ghost stored0 = self.tasks@.dom();
        let mut k: usize = 0;
        proof {
            assert(self.polls@.subrange(0, start) =~= self.polls@);
            assert(queue0.take(0) =~= Seq::<u64>::empty());
            assert(self.polls@.subrange(start, start) =~= Seq::<(u64, bool, bool)>::empty());
            assert(ids_of(Seq::<(u64, bool, bool)>::empty()) =~= Seq::<u64>::empty());
            assert(queue0.subrange(0, n as int) + Seq::<u64>::empty() =~= queue0);
        }
        while k < n
            invariant
                self.wf(),
                k <= n,
                n == queue0.len(),
                queue0 == old(self).task_queue@,
                stored0 == old(self).tasks@.dom(),
                start == old(self).polls@.len(),
                self.next_id == old(self).next_id,
                self.polls@.len() >= start,
                self.polls@.subrange(0, start) == old(self).polls@,
                ({
                    let new = self.polls@.subrange(start, self.polls@.len() as int);
                    let (polled, left, requeued) = pass_effect(queue0.take(k as int), stored0, outcomes_of(new));
                    &&& polled == ids_of(new)
                    &&& self.tasks@.dom() == left
                    &&& self.task_queue@ == queue0.subrange(k as int, n as int) + requeued
                }),
            decreases n - k,
        {
            let ghost new = self.polls@.subrange(start, self.polls@.len() as int);
            let ghost before_polls = self.polls@;
            let ghost requeued = pass_effect(queue0.take(k as int), stored0, outcomes_of(new)).2;
            let popped = self.task_queue.pop_front();
            let id = match popped {
                Some(id) => id,
                None => {
                    proof {
                        assert(false);
                    }
                    0
                },
            };
            proof {
                assert(id == queue0[k as int]);
                assert(self.task_queue@ =~= queue0.subrange(k + 1, n as int) + requeued);
                assert(queue0.take(k + 1).drop_last() =~= queue0.take(k as int));
                assert(queue0.take(k + 1).last() == id);
            }
            match self.tasks.remove(&id) {
                Some(mut task) => {
                    let mut cx = Context::new(TaskId(id));
                    let result = task.poll(&mut cx);
                    let done = match result {
                        TaskPoll::Ready => true,
                        TaskPoll::Pending => false,
                    };
                    let woke = cx.is_woken();
                    proof {
                        let log = self.polls@;
                        assert(forall|i: int| 0 <= i < log.len() && (#[trigger] log[i]).1 ==> log[i].0 != id);
                    }
                    self.polls = Ghost(self.polls@.push((id, done, woke)));
                    if !done {
                        self.tasks.insert(id, task);
                        if woke {
                            self.task_queue.push_back(id);
                        }
                    }
                    proof {
                        let new2 = self.polls@.subrange(start, self.polls@.len() as int);
                        assert(new2 =~= new.push((id, done, woke)));
                        assert(outcomes_of(new2).len() == outcomes_of(new).len() + 1);
                        assert forall|i: int| 0 <= i < outcomes_of(new).len() implies outcomes_of(new)[i] == outcomes_of(new2)[i] by {
                            assert(new2[i] == new[i]);
                        }
                        lemma_pass_prefix(queue0.take(k as int), stored0, outcomes_of(new), outcomes_of(new2));
                        assert(outcomes_of(new2)[new.len() as int] == (done, woke));
                        assert(ids_of(new2) =~= ids_of(new).push(id));
                        assert(self.polls@.subrange(0, start) =~= before_polls.subrange(0, start));
                        let (polled2, left2, requeued2) = pass_effect(queue0.take(k + 1), stored0, outcomes_of(new2));
                        assert(self.tasks@.dom() =~= left2);
                        assert(self.task_queue@ =~= queue0.subrange(k + 1, n as int) + requeued2);
                    }
                },
                None => {
                    proof {
                        let (polled2, left2, requeued2) = pass_effect(queue0.take(k + 1), stored0, outcomes_of(new));
                        assert(self.tasks@.dom() =~= left2);
                    }
                },
            }
            k = k + 1;
        }
        proof {
            assert(queue0.take(n as int) =~= queue0);
            assert(queue0.subrange(n as int, n as int) =~= Seq::<u64>::empty());
            let new = self.polls@.subrange(start, self.polls@.len() as int);
            let requeued = pass_effect(queue0, stored0, outcomes_of(new)).2;
            assert(self.task_queue@ =~= requeued);
        }
        if self.tasks.is_empty() {
            RunOutcome::Finished
        } else if self.task_queue.len() == 0 {
            RunOutcome::Idle
        } else {
            RunOutcome::Ready
        }
    }

    /// A task that finished is no longer stored and is never polled again.
    pub proof fn lemma_finished_task_not_polled_again(&self, i: int, j: int)
        requires
            self.wf(),
            0 <= i < j < self.poll_log().len(),
            self.poll_log()[i].1,
        ensures
            !self.task_ids().contains(self.poll_log()[i].0),
            self.poll_log()[j].0 != self.poll_log()[i].0,
    {
        assert(self.poll_log()[i] == self.polls@[i]);
        assert(self.poll_log()[j] == self.polls@[j]);
    }
}

} // verus!
