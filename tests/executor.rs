use std::cell::{Cell, RefCell};
use std::rc::Rc;

use oros::task::executor::{Executor, RunOutcome};
use oros::task::keyboard::{ScancodeOutcome, ScancodePoll, ScancodeStream};
use oros::task::{Context, Task, TaskFuture, TaskId, TaskPoll};

/// The computations the tests run.
enum Demo {
    /// Yields once, then produces 42.
    Producer { polls: Rc<Cell<u32>>, value: Rc<Cell<u32>>, started: bool },
    /// Reads a finite byte source, one byte per poll, then finishes.
    Consumer { polls: Rc<Cell<u32>>, source: Vec<u8>, pos: usize, seen: Rc<RefCell<Vec<u8>>> },
    /// Finishes at once.
    Immediate { polls: Rc<Cell<u32>> },
    /// Reads three scancodes from the bridge, then finishes.
    Keys { polls: Rc<Cell<u32>>, stream: Rc<RefCell<ScancodeStream>>, seen: Rc<RefCell<Vec<u8>>> },
}

impl TaskFuture for Demo {
    fn poll(&mut self, cx: &mut Context) -> TaskPoll {
        match self {
            Demo::Producer { polls, value, started } => {
                polls.set(polls.get() + 1);
                if !*started {
                    *started = true;
                    cx.wake();
                    TaskPoll::Pending
                } else {
                    value.set(42);
                    TaskPoll::Ready
                }
            }
            Demo::Consumer { polls, source, pos, seen } => {
                polls.set(polls.get() + 1);
                if *pos < source.len() {
                    seen.borrow_mut().push(source[*pos]);
                    *pos += 1;
                    cx.wake();
                    TaskPoll::Pending
                } else {
                    TaskPoll::Ready
                }
            }
            Demo::Immediate { polls } => {
                polls.set(polls.get() + 1);
                TaskPoll::Ready
            }
            Demo::Keys { polls, stream, seen } => {
                polls.set(polls.get() + 1);
                while seen.borrow().len() < 3 {
                    match stream.borrow_mut().poll_next(cx.id()) {
                        ScancodePoll::Ready(b) => seen.borrow_mut().push(b),
                        ScancodePoll::Pending => return TaskPoll::Pending,
                    }
                }
                TaskPoll::Ready
            }
        }
    }
}

fn run_until_idle(ex: &mut Executor<Demo>) -> RunOutcome {
    loop {
        match ex.run_ready_tasks() {
            RunOutcome::Ready => continue,
            other => return other,
        }
    }
}

#[test]
fn producer_and_consumer_run_to_completion() {
    let a_polls = Rc::new(Cell::new(0));
    let value = Rc::new(Cell::new(0));
    let b_polls = Rc::new(Cell::new(0));
    let seen = Rc::new(RefCell::new(Vec::new()));
    let mut ex = Executor::new();
    ex.spawn(Demo::Producer { polls: a_polls.clone(), value: value.clone(), started: false });
    ex.spawn(Demo::Consumer {
        polls: b_polls.clone(),
        source: vec![1, 2, 3],
        pos: 0,
        seen: seen.clone(),
    });
    assert_eq!(run_until_idle(&mut ex), RunOutcome::Finished);
    assert!(ex.is_finished());
    assert_eq!(value.get(), 42);
    assert_eq!(a_polls.get(), 2);
    assert!(b_polls.get() >= 4);
    assert_eq!(*seen.borrow(), vec![1, 2, 3]);
}

#[test]
fn finished_task_is_never_polled_again() {
    let polls = Rc::new(Cell::new(0));
    let mut ex = Executor::new();
    let id = ex.spawn(Demo::Immediate { polls: polls.clone() });
    assert_eq!(ex.run_ready_tasks(), RunOutcome::Finished);
    assert_eq!(polls.get(), 1);
    // a stale wake of the finished task does nothing
    ex.wake(id);
    assert_eq!(ex.run_ready_tasks(), RunOutcome::Finished);
    assert_eq!(polls.get(), 1);
}

#[test]
fn task_ids_are_fresh_and_increasing() {
    let mut ex = Executor::new();
    let a = ex.spawn(Demo::Immediate { polls: Rc::new(Cell::new(0)) });
    let b = ex.spawn(Demo::Immediate { polls: Rc::new(Cell::new(0)) });
    assert_eq!(a.as_u64(), 0);
    assert_eq!(b.as_u64(), 1);
    assert_ne!(a, b);
}

#[test]
fn waiting_task_leaves_executor_idle_until_woken() {
    let polls = Rc::new(Cell::new(0));
    let stream = Rc::new(RefCell::new(ScancodeStream::new()));
    let seen = Rc::new(RefCell::new(Vec::new()));
    let mut ex = Executor::new();
    ex.spawn(Demo::Keys { polls: polls.clone(), stream: stream.clone(), seen: seen.clone() });
    assert_eq!(run_until_idle(&mut ex), RunOutcome::Idle);
    for code in [0x1e, 0x9e, 0x30] {
        // what the keyboard interrupt handler does
        match stream.borrow_mut().add_scancode(code) {
            ScancodeOutcome::Queued(Some(task)) => ex.wake(task),
            ScancodeOutcome::Queued(None) => {}
            ScancodeOutcome::Dropped => panic!("queue full"),
        }
        let _ = run_until_idle(&mut ex);
    }
    assert!(ex.is_finished());
    assert_eq!(*seen.borrow(), vec![0x1e, 0x9e, 0x30]);
    assert_eq!(polls.get(), 4);
}

#[test]
fn task_polls_its_future() {
    let polls = Rc::new(Cell::new(0));
    let mut counter = 3u64;
    let id = TaskId::new(&mut counter);
    let mut task = Task::new(id, Demo::Immediate { polls: polls.clone() });
    let mut cx = Context::new(id);
    assert_eq!(task.poll(&mut cx), TaskPoll::Ready);
    assert!(!cx.is_woken());
    assert_eq!(cx.id(), id);
    assert_eq!(polls.get(), 1);
}
