use oros::task::keyboard::{ScancodeOutcome, ScancodePoll, ScancodeStream, SCANCODE_QUEUE_CAPACITY};
use oros::task::TaskId;

#[test]
fn overflow_keeps_first_hundred_and_drops_newest() {
    assert_eq!(SCANCODE_QUEUE_CAPACITY, 100);
    let mut stream = ScancodeStream::new();
    let mut dropped = 0;
    for i in 0..101u32 {
        match stream.add_scancode(i as u8) {
            ScancodeOutcome::Dropped => dropped += 1,
            ScancodeOutcome::Queued(woken) => assert_eq!(woken, None),
        }
    }
    assert_eq!(dropped, 1);
    let mut counter = 0u64;
    let consumer = TaskId::new(&mut counter);
    for i in 0..100u32 {
        assert_eq!(stream.poll_next(consumer), ScancodePoll::Ready(i as u8));
    }
    assert_eq!(stream.poll_next(consumer), ScancodePoll::Pending);
}

#[test]
fn pending_consumer_is_woken_once() {
    let mut counter = 7u64;
    let consumer = TaskId::new(&mut counter);
    assert_eq!(consumer.as_u64(), 7);
    assert_eq!(counter, 8);
    let mut stream = ScancodeStream::new();
    assert_eq!(stream.poll_next(consumer), ScancodePoll::Pending);
    assert_eq!(stream.add_scancode(0x1e), ScancodeOutcome::Queued(Some(consumer)));
    // the registration is used up by the wake
    assert_eq!(stream.add_scancode(0x9e), ScancodeOutcome::Queued(None));
    assert_eq!(stream.poll_next(consumer), ScancodePoll::Ready(0x1e));
    assert_eq!(stream.poll_next(consumer), ScancodePoll::Ready(0x9e));
}

#[test]
fn later_registration_replaces_earlier() {
    let mut counter = 0u64;
    let first = TaskId::new(&mut counter);
    let second = TaskId::new(&mut counter);
    let mut stream = ScancodeStream::new();
    assert_eq!(stream.poll_next(first), ScancodePoll::Pending);
    assert_eq!(stream.poll_next(second), ScancodePoll::Pending);
    assert_eq!(stream.add_scancode(1), ScancodeOutcome::Queued(Some(second)));
}
