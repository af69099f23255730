use mo_gc::journal::{round_up_pow2, BufferQueue};
use mo_gc::{make_journal, RecvResult};

const TEST_COUNT: usize = 12345;
const TEST_BUFFER_SIZE: usize = 32;

#[test]
fn test_rx_tx() {
    let (tx, rx) = make_journal::<usize>(TEST_BUFFER_SIZE);

    for i in 0..TEST_COUNT {
        tx.send(i);

        let mut value = None;

        while let None = value {
            match rx.try_recv() {
                Ok(packet) => {
                    assert!(packet == i);
                    value = Some(packet);
                }

                // may get Empty on transitioning from one buffer to the next
                Err(RecvResult::Empty) => continue,
                Err(RecvResult::Disconnected) => assert!(false),
            }
        }
    }
}

#[test]
fn test_disconnect() {
    let (tx, rx) = make_journal::<usize>(TEST_BUFFER_SIZE);

    drop(tx);

    match rx.try_recv() {
        Err(RecvResult::Disconnected) => (),
        _ => assert!(false),
    }
}

#[test]
fn test_running_disconnect_tx() {
    let (tx, rx) = make_journal::<usize>(TEST_BUFFER_SIZE);

    // buffer up some values
    for i in 0..TEST_COUNT {
        tx.send(i);
    }

    drop(tx);

    // should still be able to receive all buffered values
    for i in 0..TEST_COUNT {
        let mut value = None;

        while let None = value {
            match rx.try_recv() {
                Ok(packet) => {
                    assert!(packet == i);
                    value = Some(packet);
                }

                // may get Empty on transitioning from one buffer to the next
                Err(RecvResult::Empty) => continue,
                Err(RecvResult::Disconnected) => assert!(false),
            }
        }
    }

    // should be disconnected
    match rx.try_recv() {
        Err(RecvResult::Disconnected) => (),
        _ => assert!(false),
    }
}

#[test]
fn test_disconnect_rx() {
    let (tx, rx) = make_journal::<usize>(TEST_BUFFER_SIZE);

    drop(rx);

    tx.send(42);
}

#[test]
fn empty_journal_answers_empty_while_sender_lives() {
    let (tx, rx) = make_journal::<usize>(4);
    assert_eq!(rx.try_recv(), Err(RecvResult::Empty));
    assert!(!rx.is_disconnected());
    tx.send(7);
    assert_eq!(rx.try_recv(), Ok(7));
    assert_eq!(rx.try_recv(), Err(RecvResult::Empty));
    drop(tx);
    assert!(rx.is_disconnected());
}

#[test]
fn iter_until_empty_reads_what_is_there() {
    let (tx, mut rx) = make_journal::<usize>(2);
    for i in 0..5 {
        tx.send(i * 10);
    }
    let mut got = Vec::new();
    let mut it = rx.iter_until_empty();
    while let Some(v) = it.next() {
        got.push(v);
    }
    assert_eq!(got, vec![0, 10, 20, 30, 40]);
}

#[test]
fn capacity_rounds_up_to_power_of_two() {
    assert_eq!(round_up_pow2(0), 1);
    assert_eq!(round_up_pow2(1), 1);
    assert_eq!(round_up_pow2(3), 4);
    assert_eq!(round_up_pow2(32), 32);
    assert_eq!(round_up_pow2(33), 64);
    assert_eq!(round_up_pow2(32768), 32768);
}

#[test]
fn queue_crosses_buffer_boundary_in_order() {
    // capacity 3 rounds up to 4: four items fill the first buffer, the fifth
    // opens a second one
    let mut q: BufferQueue<u32> = BufferQueue::new(3);
    for i in 0..4u32 {
        q.send(i);
    }
    q.send(4);
    for i in 0..5u32 {
        assert_eq!(q.try_recv(), Ok(i));
    }
    assert_eq!(q.try_recv(), Err(RecvResult::Empty));
    assert!(!q.is_disconnected());
}

#[test]
fn queue_interleaved_round_trip() {
    let mut q: BufferQueue<usize> = BufferQueue::new(TEST_BUFFER_SIZE);
    let mut next_expected = 0usize;
    for i in 0..TEST_COUNT {
        q.send(i);
        if i % 3 == 0 {
            assert_eq!(q.try_recv(), Ok(next_expected));
            next_expected += 1;
        }
    }
    while next_expected < TEST_COUNT {
        assert_eq!(q.try_recv(), Ok(next_expected));
        next_expected += 1;
    }
    assert_eq!(q.try_recv(), Err(RecvResult::Empty));
}

#[test]
fn queue_hang_up_with_pending_items() {
    let mut q: BufferQueue<usize> = BufferQueue::new(2);
    for i in 0..5 {
        q.send(i);
    }
    q.hang_up();
    assert!(!q.is_disconnected());
    for i in 0..5 {
        assert_eq!(q.try_recv(), Ok(i));
    }
    assert!(q.is_disconnected());
    assert_eq!(q.try_recv(), Err(RecvResult::Disconnected));
    assert_eq!(q.try_recv(), Err(RecvResult::Disconnected));
}
