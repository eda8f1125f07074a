use rustbook::executor::{FutureProcessor, Task};
use rustbook::timers::{Timer, TimerProcessor};
use std::cell::RefCell;

#[test]
fn due_timer_is_woken_at_once() {
    let mut timers: TimerProcessor<&str> = TimerProcessor::new();
    assert_eq!(timers.receive(Timer::new(5, "a"), 5), Some("a"));
    assert!(timers.is_empty());
    assert_eq!(timers.receive(Timer::new(9, "b"), 5), None);
    assert!(!timers.is_empty());
}

#[test]
fn timers_drain_all_or_nothing() {
    let mut timers: TimerProcessor<&str> = TimerProcessor::new();
    timers.push(Timer::new(10, "ten"));
    timers.push(Timer::new(30, "thirty"));
    timers.push(Timer::new(20, "twenty"));
    // the latest is not due: nothing is woken, even though "ten" is due
    assert_eq!(timers.take_expired(15), Vec::<&str>::new());
    assert!(!timers.is_empty());
    // the latest is due: everything is woken, latest first
    assert_eq!(timers.take_expired(30), vec!["thirty", "twenty", "ten"]);
    assert!(timers.is_empty());
    assert_eq!(timers.take_expired(100), Vec::<&str>::new());
}

#[test]
fn equal_timers_keep_arrival_order() {
    let mut timers: TimerProcessor<u32> = TimerProcessor::new();
    timers.push(Timer::new(7, 1));
    timers.push(Timer::new(7, 2));
    timers.push(Timer::new(3, 3));
    assert_eq!(timers.take_expired(7), vec![2, 1, 3]);
}

#[test]
fn futures_complete_or_wait() {
    let mut processor: FutureProcessor<u32> = FutureProcessor::new();
    let polls = RefCell::new(Vec::new());
    // a "future" is a number of polls it still needs
    let poll = |key: usize, remaining: u32| {
        polls.borrow_mut().push(key);
        if remaining == 0 { None } else { Some(remaining - 1) }
    };
    assert!(processor.process(Task::Future(0), &poll));
    assert!(processor.process(Task::Future(1), &poll));
    assert_eq!(*polls.borrow(), vec![0, 1]);
    // key 0 has completed: resuming it polls nothing
    assert!(processor.process(Task::Resume(0), &poll));
    assert_eq!(*polls.borrow(), vec![0, 1]);
    // key 1 completes on its second poll, after which it is gone
    assert!(processor.process(Task::Resume(1), &poll));
    assert!(processor.process(Task::Resume(1), &poll));
    assert_eq!(*polls.borrow(), vec![0, 1, 1]);
    // new futures get fresh keys
    processor.run_future(5, &poll);
    assert_eq!(*polls.borrow(), vec![0, 1, 1, 2]);
    assert!(!processor.process(Task::Stop, &poll));
}

#[test]
fn keys_follow_start_order() {
    let mut processor: FutureProcessor<u32> = FutureProcessor::new();
    let poll = |_key: usize, remaining: u32| if remaining == 0 { None } else { Some(remaining - 1) };
    assert_eq!(processor.counter(), 0);
    processor.run_future(3, &poll);
    assert_eq!(processor.counter(), 1);
    processor.resume(0, &poll);
    assert_eq!(processor.counter(), 1);
    processor.run_future(0, &poll);
    processor.run_future(2, &poll);
    assert_eq!(processor.counter(), 3);
}
