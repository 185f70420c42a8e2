//! Response slots.
use brz_net::{CompletionTable, RequestToken, MAX_IN_FLIGHT};
use std::sync::atomic::{AtomicUsize, Ordering};
use std::sync::Arc;
use std::task::{Wake, Waker};

#[test]
fn response_can_arrive_before_the_future_is_polled() {
    let mut table = CompletionTable::new();
    let (token, mut future) = table.reserve().unwrap();
    assert!(table.complete(token, 42));
    assert_eq!(future.poll(&mut table, Waker::noop()), Some(42));
    assert_eq!(table.active(), 0);
}

#[test]
fn all_slots_are_fixed_and_reuse_changes_the_generation() {
    let mut table = CompletionTable::<usize>::new();
    let mut reservations = Vec::new();
    for _ in 0..MAX_IN_FLIGHT {
        reservations.push(table.reserve().unwrap());
    }
    assert!(table.reserve().is_none());

    let (old, old_future) = reservations.pop().unwrap();
    old_future.cancel(&mut table);
    assert!(table.complete(old, 1));
    let (new, new_future) = table.reserve().unwrap();
    assert_eq!(old.index(), new.index());
    assert_ne!(old, new);
    assert!(!table.complete(old, 2));
    new_future.cancel(&mut table);
    assert!(table.complete(new, 3));

    for (token, future) in reservations {
        future.cancel(&mut table);
        assert!(table.complete(token, 0));
    }
    assert_eq!(table.active(), 0);
}

#[test]
fn dropping_the_receiver_releases_after_driver_completion() {
    let mut table = CompletionTable::new();
    let (token, future) = table.reserve().unwrap();
    future.cancel(&mut table);
    assert_eq!(table.active(), 1);
    assert!(table.complete(token, String::from("unused")));
    assert_eq!(table.active(), 0);
}

struct Counter(AtomicUsize);

impl Wake for Counter {
    fn wake(self: Arc<Self>) {
        self.0.fetch_add(1, Ordering::SeqCst);
    }
}

#[test]
fn completion_wakes_the_waiting_task() {
    let mut table = CompletionTable::new();
    let (token, mut future) = table.reserve().unwrap();
    assert_eq!(future.request_token(), token);
    assert!(table.is_driver_pending(token));
    let counter = Arc::new(Counter(AtomicUsize::new(0)));
    let waker = Waker::from(counter.clone());
    assert_eq!(future.poll(&mut table, &waker), None);
    assert!(table.complete(token, "pong"));
    assert_eq!(counter.0.load(Ordering::SeqCst), 1);
    assert!(!table.complete(token, "again"));
    assert!(!table.is_driver_pending(token));
    assert_eq!(future.poll(&mut table, &waker), Some("pong"));
    future.cancel(&mut table);
    assert_eq!(table.active(), 0);
}

#[test]
fn aborted_reservations_free_their_slot() {
    let mut table = CompletionTable::<u8>::new();
    let (token, future) = table.reserve().unwrap();
    future.abort(&mut table);
    assert_eq!(table.active(), 0);
    assert!(!table.complete(token, 1));
}

#[test]
fn tokens_split_into_slot_and_generation() {
    let token = RequestToken::from_raw(0x1234_56);
    assert_eq!(token.as_u64(), 0x1234_56);
    assert_eq!(token.index(), 0x56);
    assert_eq!(token.generation(), 0x1234);
}
