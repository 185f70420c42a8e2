//! The receive ring.
use brz_net::rx::{ShrinkPolicy, EMPTY_SHRINK_CYCLES, NON_EMPTY_SHRINK_CYCLES};
use brz_net::{RxBuffer, RxCapacityError, DEFAULT_MAX_RX_BUFFER_CAPACITY};

fn write(buffer: &mut RxBuffer, bytes: &[u8]) {
    buffer.extend_from_slice(bytes).unwrap();
}

#[test]
fn wrapped_frame_preserves_logical_order() {
    let mut buffer = RxBuffer::new(8, 64);
    write(&mut buffer, b"12345678");
    drop(buffer.take(6));
    buffer.gc();
    write(&mut buffer, b"abcd");

    let frame = buffer.take(6);
    assert!(!frame.is_contiguous());
    assert_eq!(frame.copy_range(0..frame.len()), b"78abcd".as_slice());
}

#[test]
fn resize_copies_only_unparsed_bytes() {
    let mut buffer = RxBuffer::new(8, 64);
    write(&mut buffer, b"abcdefgh");
    let retained = buffer.take(4);
    buffer.reserve(12).unwrap();

    assert_eq!(buffer.capacity(), 16);
    assert_eq!(buffer.len(), 4);
    assert_eq!(buffer.byte(0), Some(b'e'));
    assert_eq!(retained.copy_range(0..4), b"abcd".as_slice());
}

#[test]
fn held_frame_does_not_block_fresh_receive_storage() {
    let mut buffer = RxBuffer::new(8, 64);
    write(&mut buffer, b"response");
    let retained = buffer.take(8);
    buffer.prepare_read().unwrap();
    write(&mut buffer, b"next");

    assert_eq!(retained.copy_range(0..8), b"response".as_slice());
    assert_eq!(buffer.len(), 4);
    assert_eq!(buffer.capacity(), 8);
}

#[test]
fn maintenance_waits_for_sustained_low_usage_before_shrinking() {
    let mut buffer = RxBuffer::new(8, 64);
    write(&mut buffer, b"0123456789abcdef0123456789abcdef");
    drop(buffer.take(32));

    // The first check observes the burst and starts a fresh window.
    buffer.shrink();
    assert_eq!(buffer.capacity(), 32);

    for _ in 0..9 {
        buffer.shrink();
        assert_eq!(buffer.capacity(), 32);
    }
    buffer.shrink();

    assert!(buffer.is_empty());
    assert_eq!(buffer.capacity(), 8);
}

#[test]
fn recurring_usage_above_one_quarter_prevents_shrinking() {
    let mut buffer = RxBuffer::new(8, 64);
    write(&mut buffer, b"0123456789abcdef0123456789abcdef");
    drop(buffer.take(32));
    buffer.shrink();

    for _ in 0..20 {
        write(&mut buffer, b"012345678");
        drop(buffer.take(9));
        buffer.shrink();
    }

    assert_eq!(buffer.capacity(), 32);
}

#[test]
fn maintenance_keeps_twice_the_recent_peak() {
    let mut buffer = RxBuffer::new(8, 64);
    write(&mut buffer, b"0123456789abcdef0123456789abcdef01234567");
    drop(buffer.take(40));
    buffer.shrink();

    for _ in 0..10 {
        write(&mut buffer, b"0123456789ab");
        drop(buffer.take(12));
        buffer.shrink();
    }

    assert_eq!(buffer.capacity(), 32);
}

#[test]
fn non_empty_buffer_waits_longer_and_preserves_data() {
    let mut buffer = RxBuffer::new(8, 64);
    write(&mut buffer, b"0123456789abcdef0123456789abcdef01234567");
    drop(buffer.take(40));
    buffer.shrink();
    write(&mut buffer, b"abcdefgh");

    for _ in 0..31 {
        buffer.shrink();
        assert_eq!(buffer.capacity(), 64);
    }
    buffer.shrink();

    assert_eq!(buffer.capacity(), 16);
    assert_eq!(buffer.len(), 8);
    assert!(buffer.range_eq(0..8, b"abcdefgh"));
}

#[test]
fn shrinking_does_not_invalidate_a_retained_frame() {
    let mut buffer = RxBuffer::new(8, 64);
    write(&mut buffer, b"0123456789abcdef0123456789abcdef01234567");
    let retained = buffer.take(40);
    buffer.shrink();

    for _ in 0..10 {
        buffer.shrink();
    }

    assert_eq!(buffer.capacity(), 8);
    assert_eq!(
        retained.copy_range(0..retained.len()),
        b"0123456789abcdef0123456789abcdef01234567".as_slice()
    );
}

#[test]
fn reservation_enforces_the_configured_upper_bound() {
    let mut buffer = RxBuffer::new(8, 16);
    write(&mut buffer, b"12345678");
    let error = buffer.reserve(9).unwrap_err();

    assert_eq!(error.required, 17);
    assert_eq!(error.maximum, 16);
    assert_eq!(buffer.capacity(), 8);
    assert_eq!(buffer.len(), 8);
}

#[test]
fn loom_all_guards_must_release_before_reuse() {
    let mut buffer = RxBuffer::new(8, 64);
    write(&mut buffer, b"abcdefgh");
    let first = buffer.take(4);
    let second = buffer.take(4);
    assert_eq!(buffer.available(), 0);
    drop(second);
    buffer.gc();
    assert_eq!(buffer.available(), 0);
    drop(first);
    buffer.gc();
    assert_eq!(buffer.available(), 8);
}

#[test]
fn loom_old_generation_release_cannot_release_new_frames() {
    let mut buffer = RxBuffer::new(8, 64);
    write(&mut buffer, b"abcdefgh");
    let old = buffer.take(8);
    buffer.prepare_read().unwrap();
    write(&mut buffer, b"ijklmnop");
    let new = buffer.take(8);
    drop(old);
    buffer.gc();
    assert_eq!(buffer.available(), 0);
    assert_eq!(new.copy_range(0..8), b"ijklmnop".as_slice());
    drop(new);
    buffer.gc();
    assert_eq!(buffer.available(), 8);
}

#[test]
fn loom_ring_never_reuses_backing_before_every_guard_drops() {
    let mut buffer = RxBuffer::new(8, 64);
    write(&mut buffer, b"abcdefgh");
    let first = buffer.take(4);
    let second = buffer.take(4);

    drop(first);
    buffer.prepare_read().unwrap();
    write(&mut buffer, b"ijklmnop");
    assert_eq!(second.copy_range(0..4), b"efgh".as_slice());
    drop(second);
    assert_eq!(buffer.len(), 8);
    assert!(buffer.range_eq(0..8, b"ijklmnop"));
}

#[test]
fn held_responses_keep_their_room() {
    let mut buffer = RxBuffer::new(8, 64);
    write(&mut buffer, b"abcdefgh");
    let Ok(frame) = buffer.take(6).into_contiguous() else {
        panic!("the bytes lie in one piece");
    };
    buffer.gc();
    assert_eq!(buffer.available(), 0);
    assert_eq!(frame.as_ref(), b"abcdef".as_slice());
    drop(frame);
    buffer.gc();
    assert_eq!(buffer.available(), 6);
    assert!(buffer.range_eq(0..2, b"gh"));

    let held = buffer.take(2);
    buffer.reset();
    assert_eq!(buffer.available(), 0);
    write(&mut buffer, b"12345678");
    let fresh = buffer.take(8);
    drop(held);
    buffer.gc();
    assert_eq!(buffer.available(), 0);
    drop(fresh);
    buffer.gc();
    assert_eq!(buffer.available(), 8);
}

#[test]
fn lookups_stay_inside_the_unread_bytes() {
    let mut buffer = RxBuffer::new(8, 64);
    assert_eq!(buffer.byte(0), None);
    assert_eq!(buffer.find_crlf(0), None);
    write(&mut buffer, b"+OK\r\n");
    assert_eq!(buffer.find_crlf(0), Some(3));
    assert_eq!(buffer.find_crlf(4), None);
    assert!(buffer.range_eq(1..3, b"OK"));
    assert!(!buffer.range_eq(1..3, b"ok"));
    assert_eq!(buffer.byte(5), None);
    buffer.advance(3);
    assert_eq!(buffer.byte(0), Some(b'\r'));
    buffer.reset();
    assert!(buffer.is_empty());
    assert_eq!(buffer.capacity(), 0);
}

#[test]
fn a_full_ring_grows_when_asked() {
    let mut buffer = RxBuffer::with_capacity(5);
    assert_eq!(buffer.maximum_capacity(), DEFAULT_MAX_RX_BUFFER_CAPACITY);
    write(&mut buffer, b"12345678");
    assert!(buffer.is_full());
    buffer.reserve(1).unwrap();
    assert!(!buffer.is_full());
    assert_eq!(buffer.capacity(), 16);
    assert_eq!(buffer.available(), 8);
}

#[test]
fn chunks_are_filled_in_place() {
    let mut buffer = RxBuffer::new(8, 64);
    buffer.prepare_read().unwrap();
    buffer.chunk_mut()[..3].copy_from_slice(b"xyz");
    buffer.advance_mut(3);
    assert_eq!(buffer.len(), 3);
    let frame = buffer.take(3);
    assert_eq!(frame.byte(2), Some(b'z'));
    assert_eq!(frame.byte(3), None);
    assert!(!frame.is_empty());
    let owner = match frame.into_contiguous() {
        Ok(owner) => owner,
        Err(_) => panic!("the frame lies in one piece"),
    };
    assert_eq!(owner.as_slice(), b"xyz");
}

#[test]
fn capacity_errors_say_what_was_asked_for() {
    let error = RxCapacityError {
        required: 17,
        maximum: 16,
    };
    assert_eq!(
        error.message(),
        "receive buffer requires 17 bytes, above its 16-byte limit"
    );
}

#[test]
fn shrink_policy_counts_checks() {
    let mut policy = ShrinkPolicy {
        peak_len: 0,
        low_usage_cycles: 0,
    };
    policy.record(3);
    assert_eq!(policy.peak_len, 3);
    for _ in 0..EMPTY_SHRINK_CYCLES - 1 {
        assert_eq!(policy.target(0, 64, 8), None);
    }
    assert_eq!(policy.target(0, 64, 8), Some(8));
    assert_eq!(policy.low_usage_cycles, 0);
    for _ in 0..NON_EMPTY_SHRINK_CYCLES - 1 {
        assert_eq!(policy.target(1, 64, 8), None);
    }
    assert_eq!(policy.target(1, 64, 8), Some(8));
    assert_eq!(policy.target(20, 64, 8), None);
    policy.reset(5);
    assert_eq!(policy.peak_len, 5);
}

#[test]
fn contiguous_responses_become_byte_strings_without_a_further_copy() {
    let mut buffer = RxBuffer::new(8, 64);
    write(&mut buffer, b"abcdef");
    let frame = buffer.take(4).into_contiguous().ok().unwrap();
    assert_eq!(frame.as_ref(), b"abcd");
    let place = frame.as_slice().as_ptr();
    let owned = bytes::Bytes::from_owner(frame);
    assert_eq!(owned, b"abcd".as_slice());
    assert_eq!(owned.as_ptr(), place);
}
