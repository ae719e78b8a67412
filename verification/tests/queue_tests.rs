use mpmc_std::{Consumer, MpmcQueue, Producer};

#[test]
fn test_basic_send_recv() {
    let queue = MpmcQueue::new(5);
    let mut producer = Producer::new(queue);

    assert!(producer.send(42).is_ok());

    let mut consumer = Consumer::new(producer.into_queue());
    let received = consumer.recv();
    assert_eq!(received, Some(42));
}

#[test]
fn test_bounded_capacity() {
    let queue = MpmcQueue::new(2);
    let mut producer = Producer::new(queue);

    assert!(producer.send(1).is_ok());
    assert!(producer.send(2).is_ok());

    // Queue should be full now
    let send_result = producer.send(3);
    assert!(send_result.is_err());
    assert_eq!(send_result.unwrap_err(), 3);
}

#[test]
fn test_empty_queue_recv() {
    let queue: MpmcQueue<i32> = MpmcQueue::new(5);
    let mut consumer = Consumer::new(queue);

    let recv_result = consumer.recv();
    assert_eq!(recv_result, None);
}

#[test]
fn test_queue_properties() {
    let queue = MpmcQueue::<i32>::new(10);

    // Capacity should be rounded to next power of 2
    assert_eq!(queue.capacity(), 16);
    assert!(queue.is_empty());
    assert!(!queue.is_full());
    assert_eq!(queue.len(), 0);
}

#[test]
fn test_synchronous_operations() {
    let mut queue = MpmcQueue::new(4);

    // Test synchronous send/recv
    assert!(queue.send(1).is_ok());
    assert!(queue.send(2).is_ok());
    assert_eq!(queue.len(), 2);

    assert_eq!(queue.recv(), Some(1));
    assert_eq!(queue.recv(), Some(2));
    assert_eq!(queue.recv(), None);
    assert!(queue.is_empty());
}

#[test]
fn test_capacity_one_ring() {
    let mut queue = MpmcQueue::new(1);
    assert_eq!(queue.capacity(), 1);

    assert!(queue.send(7).is_ok());
    assert_eq!(queue.send(8), Err(8));
    assert_eq!(queue.recv(), Some(7));
    assert_eq!(queue.recv(), None);
}

#[test]
fn test_wraparound_fill_drain_fill() {
    let mut queue = MpmcQueue::new(2);
    assert_eq!(queue.capacity(), 2);

    assert!(queue.send(1).is_ok());
    assert!(queue.send(2).is_ok());
    assert_eq!(queue.recv(), Some(1));
    assert_eq!(queue.recv(), Some(2));
    assert!(queue.send(3).is_ok());
    assert!(queue.send(4).is_ok());
    assert_eq!(queue.recv(), Some(3));
    assert_eq!(queue.recv(), Some(4));
}

#[test]
fn test_capacity_constant_across_lifetime() {
    let mut queue = MpmcQueue::new(6);
    let initial = queue.capacity();
    assert_eq!(initial, 8);

    for i in 0..8 {
        assert!(queue.send(i).is_ok());
        assert_eq!(queue.capacity(), initial);
    }
    assert_eq!(queue.send(99), Err(99));
    assert_eq!(queue.capacity(), initial);
    for _ in 0..8 {
        assert!(queue.recv().is_some());
        assert_eq!(queue.capacity(), initial);
    }
    assert_eq!(queue.capacity(), initial);
}

#[test]
fn test_len_empty_full_relations() {
    let mut queue = MpmcQueue::new(4);
    assert!(queue.is_empty());
    assert!(!queue.is_full());
    assert_eq!(queue.len(), 0);

    for i in 0..4 {
        assert_eq!(queue.len(), i);
        assert_eq!(queue.is_empty(), i == 0);
        assert!(!queue.is_full());
        assert!(queue.send(i).is_ok());
    }
    assert_eq!(queue.len(), 4);
    assert!(queue.is_full());
    assert!(!queue.is_empty());

    assert_eq!(queue.recv(), Some(0));
    assert_eq!(queue.len(), 3);
    assert!(!queue.is_full());
}

#[test]
fn test_capacity_rounding_is_power_of_two() {
    for (requested, effective) in [(1, 1), (2, 2), (3, 4), (5, 8), (9, 16), (17, 32), (64, 64)] {
        let queue = MpmcQueue::<u8>::new(requested);
        assert_eq!(queue.capacity(), effective);
        assert!(queue.capacity().is_power_of_two());
        assert!(queue.capacity() >= requested);
    }
}

#[test]
fn test_fifo_order_over_interleaved_trace() {
    // A single-producer, single-consumer interleaving: the received values
    // are a prefix of the sent values, in send order.
    let mut queue = MpmcQueue::new(8);
    let mut sent = Vec::new();
    let mut received = Vec::new();

    let mut next = 0;
    for round in 0..50 {
        // Send a few, then receive a few, with varying phase.
        for _ in 0..(round % 4) {
            if queue.send(next).is_ok() {
                sent.push(next);
            }
            next += 1;
        }
        for _ in 0..(round % 3) {
            if let Some(v) = queue.recv() {
                received.push(v);
            }
        }
    }
    while let Some(v) = queue.recv() {
        received.push(v);
    }

    assert_eq!(received, sent);
}

#[test]
fn test_many_producers_consumers_conserve_items() {
    // Eight logical producers each sending i*50..i*50+50 and eight logical
    // consumers each taking 50 items, interleaved over one capacity-32 ring:
    // 400 items in total, none lost, none duplicated.
    let queue = MpmcQueue::new(32);
    assert_eq!(queue.capacity(), 32);

    let mut pending: Vec<Vec<i64>> = (0..8)
        .map(|i| ((i * 50)..(i * 50 + 50)).rev().collect())
        .collect();
    let mut producer = Producer::new(queue);
    let mut received: Vec<i64> = Vec::new();

    // Round-robin over the producers; drain through the consumer side
    // whenever the ring fills up.
    while pending.iter().any(|p| !p.is_empty()) {
        for p in pending.iter_mut() {
            if let Some(&v) = p.last() {
                if producer.send(v).is_ok() {
                    p.pop();
                }
            }
        }
        if producer.is_full() {
            let mut consumer = Consumer::new(producer.into_queue());
            for _ in 0..16 {
                if let Some(v) = consumer.recv() {
                    received.push(v);
                }
            }
            producer = Producer::new(consumer.into_queue());
        }
    }
    let mut consumer = Consumer::new(producer.into_queue());
    while let Some(v) = consumer.recv() {
        received.push(v);
    }

    assert_eq!(received.len(), 400);
    received.sort();
    let expected: Vec<i64> = (0..400).collect();
    assert_eq!(received, expected);
}
