use mpmc_std::simd_queue::{Simd64Bit, SimdConsumer, SimdMpmcQueue, SimdProducer};

#[test]
fn test_simd_basic_batch_operations() {
    let queue = SimdMpmcQueue::<u64>::new(32);
    let mut producer = SimdProducer::new(queue);

    // Test send
    let send_data = vec![1u64, 2u64, 3u64, 4u64];
    let sent = producer.send(&send_data).unwrap();
    assert_eq!(sent, 4);

    // Test receive
    let mut consumer = SimdConsumer::new(producer.into_queue());
    let mut recv_buffer = vec![0u64; 4];
    let received = consumer.recv(&mut recv_buffer);
    assert_eq!(received, 4);
    assert_eq!(recv_buffer, send_data);
}

#[test]
fn test_simd_single_operations() {
    let queue = SimdMpmcQueue::<u64>::new(16);
    let mut producer = SimdProducer::new(queue);

    // Test single send/recv
    assert!(producer.send_one(42).is_ok());
    let mut consumer = SimdConsumer::new(producer.into_queue());
    let received = consumer.recv_one();
    assert_eq!(received, Some(42));
}

#[test]
fn test_simd_mixed_operations() {
    let queue = SimdMpmcQueue::<u64>::new(64);
    let mut producer = SimdProducer::new(queue);

    // Mix batch and single operations
    let batch = vec![10u64, 20u64, 30u64, 40u64];
    producer.send(&batch).unwrap();

    producer.send_one(50).unwrap();
    producer.send_one(60).unwrap();

    // Receive batch first
    let mut consumer = SimdConsumer::new(producer.into_queue());
    let mut recv_buffer = vec![0u64; 4];
    let received = consumer.recv(&mut recv_buffer);
    assert_eq!(received, 4);
    assert_eq!(recv_buffer, batch);

    // Then singles
    assert_eq!(consumer.recv_one(), Some(50));
    assert_eq!(consumer.recv_one(), Some(60));
    assert_eq!(consumer.recv_one(), None);
}

#[test]
fn test_simd_queue_properties() {
    let queue = SimdMpmcQueue::<u64>::new(10);

    // Capacity should be rounded to next power of 2 and be >= SIMD width * 2
    assert!(queue.capacity() >= 16);
    assert!(queue.capacity().is_power_of_two());
    assert!(queue.is_empty());
    assert!(!queue.is_full());
    assert_eq!(queue.len(), 0);
}

#[test]
fn test_simd_batch_edge_cases() {
    let mut queue = SimdMpmcQueue::<u64>::new(64); // Larger capacity

    // Test empty batch
    let empty_batch: Vec<u64> = vec![];
    assert_eq!(queue.send(&empty_batch), Ok(0));

    // Test partial batches (less than SIMD width)
    let small_batch = vec![1u64, 2u64];
    let sent = queue.send(&small_batch);
    assert_eq!(sent, Ok(2)); // Should send all items

    // Test SIMD-aligned batches
    let simd_batch = vec![10u64, 20u64, 30u64, 40u64];
    let sent = queue.send(&simd_batch);
    assert_eq!(sent, Ok(4)); // Should send all items

    // Test large batches (more than SIMD width)
    let large_batch = vec![100u64; 7];
    let sent = queue.send(&large_batch);
    assert_eq!(sent, Ok(7)); // Should send all items

    // Test receiving data
    let mut recv_buffer = vec![0u64; 15];
    let received = queue.recv(&mut recv_buffer);
    assert_eq!(received, 13); // Should receive all items (2 + 4 + 7)

    // Verify we got all the data
    assert_eq!(&recv_buffer[0..2], &[1u64, 2u64]);
    assert_eq!(&recv_buffer[2..6], &[10u64, 20u64, 30u64, 40u64]);
    assert_eq!(&recv_buffer[6..13], &[100u64; 7]);
}

#[test]
fn test_simd_minimum_capacity() {
    // The vector variant raises the capacity to twice the vector width.
    let queue = SimdMpmcQueue::<u64>::new(1);
    assert_eq!(queue.capacity(), 8);
    let queue = SimdMpmcQueue::<u64>::new(16);
    assert_eq!(queue.capacity(), 16);
}

#[test]
fn test_simd_empty_batch_leaves_queue_untouched() {
    let mut queue = SimdMpmcQueue::<u64>::new(16);
    let empty: Vec<u64> = vec![];
    assert_eq!(queue.send(&empty), Ok(0));
    assert!(queue.is_empty());
    assert_eq!(queue.len(), 0);
}

#[test]
fn test_simd_send_batch_then_recv_batch_in_order() {
    let mut queue = SimdMpmcQueue::<u64>::new(16);

    let input = vec![1u64, 2, 3, 4, 5, 6, 7];
    assert_eq!(queue.send(&input), Ok(7));

    let mut buffer = vec![0u64; 10];
    let received = queue.recv(&mut buffer);
    assert_eq!(received, 7);
    assert_eq!(&buffer[0..7], &[1u64, 2, 3, 4, 5, 6, 7]);
    // Positions beyond the received count keep their old contents.
    assert_eq!(&buffer[7..10], &[0u64, 0, 0]);
}

#[test]
fn test_simd_partial_batch_returns_suffix() {
    let mut queue = SimdMpmcQueue::<u64>::new(8);
    assert_eq!(queue.capacity(), 8);

    let input: Vec<u64> = (1..=10).collect();
    let result = queue.send(&input);
    // Only eight fit; the unsent suffix comes back unchanged.
    assert_eq!(result, Err(vec![9u64, 10u64]));
    assert_eq!(queue.len(), 8);
    assert!(queue.is_full());

    let mut buffer = vec![0u64; 8];
    assert_eq!(queue.recv(&mut buffer), 8);
    assert_eq!(buffer, (1..=8).collect::<Vec<u64>>());
}

#[test]
fn test_simd_recv_into_short_buffer() {
    let mut queue = SimdMpmcQueue::<u64>::new(16);
    let input: Vec<u64> = (10..20).collect();
    assert_eq!(queue.send(&input), Ok(10));

    // A buffer shorter than the pending count takes only what fits.
    let mut buffer = vec![0u64; 3];
    assert_eq!(queue.recv(&mut buffer), 3);
    assert_eq!(buffer, vec![10u64, 11, 12]);
    assert_eq!(queue.len(), 7);
}

#[test]
fn test_simd64bit_u64_roundtrip() {
    assert_eq!(5u64.to_u64(), 5);
    assert_eq!(u64::from_u64(u64::MAX), u64::MAX);
    assert_eq!(u64::from_u64(7u64.to_u64()), 7);
}

#[test]
fn test_simd64bit_i64_roundtrip() {
    assert_eq!(5i64.to_u64(), 5);
    assert_eq!((-5i64).to_u64(), u64::MAX - 4);
    assert_eq!(i64::from_u64((-5i64).to_u64()), -5);
    assert_eq!(i64::from_u64(i64::MIN.to_u64()), i64::MIN);
}

#[test]
fn test_simd64bit_usize_isize_roundtrip() {
    assert_eq!(5usize.to_u64(), 5);
    assert_eq!(usize::from_u64(5usize.to_u64()), 5);
    assert_eq!((-5isize).to_u64(), u64::MAX - 4);
    assert_eq!(isize::from_u64((-5isize).to_u64()), -5);
}

#[test]
fn test_simd_interleaved_batches_conserve_items() {
    // Two logical batch producers and two batch consumers interleaved over
    // one ring: eighty distinct items in, eighty out, none lost.
    let mut queue = SimdMpmcQueue::<u64>::new(128);
    let mut received: Vec<u64> = Vec::new();
    let mut buffer = vec![0u64; 4];

    for i in 0..10 {
        for producer_id in 0..2u64 {
            let batch: Vec<u64> = (0..4).map(|j| producer_id * 40 + i * 4 + j).collect();
            assert_eq!(queue.send(&batch), Ok(4));
        }
        if i % 2 == 1 {
            for _ in 0..2 {
                let got = queue.recv(&mut buffer);
                received.extend_from_slice(&buffer[..got]);
            }
        }
    }
    loop {
        let got = queue.recv(&mut buffer);
        if got == 0 {
            break;
        }
        received.extend_from_slice(&buffer[..got]);
    }

    assert_eq!(received.len(), 80);
    received.sort();
    let expected: Vec<u64> = (0..80).collect();
    assert_eq!(received, expected);
}
