use kernel::ids::AtomicProcThreadId;
use kernel::scheduler::{tick, Scheduler, SchedulerError, Thread, LOWEST_PRIORITY, MAX_THREADS};
use std::sync::atomic::Ordering;

fn ready() -> Scheduler<u64> {
    let mut s: Scheduler<u64> = Scheduler::new();
    s.init();
    s
}

#[test]
fn spawned_threads_run_in_order_and_take_turns() {
    let mut s = ready();
    assert_eq!(s.spawn_thread(LOWEST_PRIORITY, 100), Ok(1));
    assert_eq!(s.spawn_thread(LOWEST_PRIORITY, 200), Ok(2));
    assert_eq!(s.next_ctx(0), Some(100));
    assert_eq!(s.next_ctx(101), Some(200));
    assert_eq!(s.next_ctx(201), Some(101));
    assert_eq!(s.next_ctx(102), Some(201));
}

#[test]
fn no_thread_no_context() {
    let mut s = ready();
    assert_eq!(s.next_ctx(5), None);
}

#[test]
fn current_as_thread_takes_the_slot_once() {
    let mut s = ready();
    assert_eq!(s.current_as_thread(LOWEST_PRIORITY), Ok(1));
    assert_eq!(s.current_as_thread(LOWEST_PRIORITY), Err(SchedulerError::SlotTaken));
    assert_eq!(s.spawn_thread(7, 300), Ok(3));
    assert_eq!(s.next_ctx(42), Some(300));
    assert_eq!(s.next_ctx(301), Some(42));
}

#[test]
fn tick_switches_to_the_next_thread() {
    let mut s = ready();
    s.spawn_thread(LOWEST_PRIORITY, 10).unwrap();
    s.spawn_thread(LOWEST_PRIORITY, 20).unwrap();
    assert_eq!(tick(&mut s, 0), 10);
    assert_eq!(tick(&mut s, 11), 20);
    assert_eq!(tick(&mut s, 21), 11);
}

#[test]
fn thread_limit_is_enforced() {
    let mut s = ready();
    for i in 0..MAX_THREADS {
        assert_eq!(s.spawn_thread(LOWEST_PRIORITY, i as u64), Ok(i as u32 + 1));
    }
    assert_eq!(s.spawn_thread(LOWEST_PRIORITY, 0), Err(SchedulerError::ThreadLimit));
    assert_eq!(s.spawn_thread(LOWEST_PRIORITY, 0), Err(SchedulerError::ThreadLimit));
}

#[test]
fn threads_keep_what_they_were_made_with() {
    let mut t = Thread::new(4, Some(1), 200, None, 77u64);
    assert_eq!(t.id(), 4);
    assert_eq!(t.priority(), 200);
    assert_eq!(t.context(), 77);
    t.save_context(78);
    assert_eq!(t.context(), 78);
    assert_eq!(t.priority_index::<1>(), 0);
    assert_eq!(Thread::new(5, None, 0, None, 0u64).priority_index::<1>(), 1);
    assert_eq!(Thread::new(5, None, 0, None, 0u64).priority_index::<4>(), 4);
    assert_eq!(Thread::new(5, None, 255, None, 0u64).priority_index::<4>(), 0);
}

#[test]
fn proc_thread_id_round_trips() {
    let id = AtomicProcThreadId::new(7, 9);
    assert_eq!(id.load(Ordering::Relaxed), (7, 9));
    assert_eq!(id.compare_exchange((1, 1), (2, 2), Ordering::Relaxed, Ordering::Relaxed), Err((7, 9)));
    assert_eq!(id.compare_exchange((7, 9), (u32::MAX, 0), Ordering::Relaxed, Ordering::Relaxed), Ok((7, 9)));
    assert_eq!(id.load(Ordering::Relaxed), (u32::MAX, 0));
}
