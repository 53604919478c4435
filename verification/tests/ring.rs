use tuners::ring::AudioRingBuffer;
use tuners::ring_reader::RingReader;

#[test]
fn new_channel_is_empty() {
    let ring = AudioRingBuffer::new(8);
    assert_eq!(ring.len(), 0);
    assert_eq!(ring.capacity(), 8);
    assert!(ring.is_empty());
}

#[test]
fn pushes_within_capacity_come_back_in_order() {
    let mut ring = AudioRingBuffer::new(5);
    let pushed: Vec<i16> = vec![10, -20, 30, -40, 50];
    for &sample in pushed.iter() {
        assert!(ring.push(sample));
    }
    assert_eq!(ring.len(), 5);
    let mut out = vec![0i16; 5];
    let count = ring.pop_block(&mut out);
    assert_eq!(count, 5);
    assert_eq!(out, pushed);
    assert!(ring.is_empty());
}

#[test]
fn pop_returns_oldest_first() {
    let mut ring = AudioRingBuffer::new(3);
    ring.push(1);
    ring.push(2);
    ring.push(3);
    assert_eq!(ring.pop(), Some(1));
    assert_eq!(ring.pop(), Some(2));
    assert_eq!(ring.pop(), Some(3));
    assert_eq!(ring.pop(), None);
}

#[test]
fn pop_on_empty_channel_is_none() {
    let mut ring = AudioRingBuffer::new(4);
    assert_eq!(ring.pop(), None);
    assert_eq!(ring.len(), 0);
}

#[test]
fn push_into_full_channel_drops_the_pushed_sample() {
    let mut ring = AudioRingBuffer::new(2);
    assert!(ring.push(7));
    assert!(ring.push(8));
    assert!(!ring.push(9));
    assert_eq!(ring.len(), 2);
    assert_eq!(ring.pop(), Some(7));
    assert_eq!(ring.pop(), Some(8));
    assert_eq!(ring.pop(), None);
}

#[test]
fn batch_beyond_capacity_loses_exactly_the_newest() {
    for capacity in 0usize..6 {
        for queued in 0..=capacity {
            for batch in 0usize..9 {
                let mut ring = AudioRingBuffer::new(capacity);
                for i in 0..queued {
                    assert!(ring.push(100 + i as i16));
                }
                let samples: Vec<i16> = (0..batch).map(|i| i as i16).collect();
                let dropped = ring.push_batch(&samples);
                let room = capacity - queued;
                let expected_dropped = if batch > room { batch - room } else { 0 };
                assert_eq!(dropped, expected_dropped);
                let mut expected: Vec<i16> = (0..queued).map(|i| 100 + i as i16).collect();
                expected.extend_from_slice(&samples[..batch - expected_dropped]);
                let mut out = vec![-1i16; capacity + 1];
                let count = ring.pop_block(&mut out);
                assert_eq!(count, expected.len());
                assert_eq!(&out[..count], &expected[..]);
                assert_eq!(out[count], -1);
            }
        }
    }
}

#[test]
fn push_batch_reports_dropped_count() {
    let mut ring = AudioRingBuffer::new(4);
    assert_eq!(ring.push_batch(&[1, 2, 3]), 0);
    assert_eq!(ring.push_batch(&[4, 5, 6]), 2);
    assert_eq!(ring.len(), 4);
    let mut out = vec![0i16; 4];
    assert_eq!(ring.pop_block(&mut out), 4);
    assert_eq!(out, vec![1, 2, 3, 4]);
}

#[test]
fn len_is_accepted_pushes_minus_served_pops() {
    let capacity = 3usize;
    let mut ring = AudioRingBuffer::new(capacity);
    let mut accepted = 0usize;
    let mut served = 0usize;
    let mut state: u32 = 1;
    for step in 0..500 {
        state = state.wrapping_mul(1664525).wrapping_add(1013904223);
        if (state >> 16) % 3 != 0 {
            if ring.push(step as i16) {
                accepted += 1;
            }
        } else if ring.pop().is_some() {
            served += 1;
        }
        assert_eq!(ring.len(), accepted - served);
        assert!(ring.len() <= capacity);
    }
}

#[test]
fn len_moves_by_one_and_stays_within_bounds() {
    let mut ring = AudioRingBuffer::new(2);
    ring.pop();
    assert_eq!(ring.len(), 0);
    ring.push(1);
    assert_eq!(ring.len(), 1);
    ring.push(2);
    assert_eq!(ring.len(), 2);
    ring.push(3);
    assert_eq!(ring.len(), 2);
    ring.pop();
    assert_eq!(ring.len(), 1);
}

#[test]
fn order_survives_wrap_around() {
    let mut ring = AudioRingBuffer::new(4);
    let mut next_in: i16 = 0;
    let mut next_out: i16 = 0;
    for round in 0..50 {
        for _ in 0..(1 + round % 4) {
            if ring.push(next_in) {
                next_in += 1;
            }
        }
        for _ in 0..(1 + (round * 7) % 3) {
            if let Some(sample) = ring.pop() {
                assert_eq!(sample, next_out);
                next_out += 1;
            }
        }
    }
    assert_eq!(ring.len(), (next_in - next_out) as usize);
}

#[test]
fn pop_block_reads_what_is_there() {
    let mut ring = AudioRingBuffer::new(8);
    ring.push_batch(&[1, 2, 3]);
    let mut out = vec![9i16; 5];
    assert_eq!(ring.pop_block(&mut out), 3);
    assert_eq!(out, vec![1, 2, 3, 9, 9]);
    assert_eq!(ring.pop_block(&mut out), 0);
    assert_eq!(out, vec![1, 2, 3, 9, 9]);
}

#[test]
fn pop_block_fills_a_short_buffer() {
    let mut ring = AudioRingBuffer::new(8);
    ring.push_batch(&[1, 2, 3, 4, 5]);
    let mut out = vec![0i16; 2];
    assert_eq!(ring.pop_block(&mut out), 2);
    assert_eq!(out, vec![1, 2]);
    assert_eq!(ring.len(), 3);
    assert_eq!(ring.pop(), Some(3));
}

#[test]
fn peek_block_leaves_the_channel_alone() {
    let mut ring = AudioRingBuffer::new(4);
    ring.push_batch(&[1, 2, 3, 4]);
    ring.pop();
    ring.push(5);
    let mut seen = vec![0i16; 3];
    assert_eq!(ring.peek_block(&mut seen), 3);
    assert_eq!(seen, vec![2, 3, 4]);
    assert_eq!(ring.len(), 4);
    let mut all = vec![0i16; 6];
    assert_eq!(ring.peek_block(&mut all), 4);
    assert_eq!(all, vec![2, 3, 4, 5, 0, 0]);
    assert_eq!(ring.pop(), Some(2));
}

#[test]
fn channel_without_capacity_drops_everything() {
    let mut ring = AudioRingBuffer::new(0);
    assert!(!ring.push(1));
    assert_eq!(ring.push_batch(&[1, 2, 3]), 3);
    assert_eq!(ring.pop(), None);
    assert!(ring.is_empty());
    assert_eq!(ring.capacity(), 0);
}

#[test]
fn ring_reader_measures_what_is_queued() {
    let mut ring = AudioRingBuffer::new(16);
    assert_eq!(ring.get_rms(), 0);
    ring.push_batch(&[300, -300, 300, -300]);
    assert_eq!(ring.get_rms(), 300);
    assert_eq!(ring.len(), 4);
    ring.pop();
    ring.push(-400);
    assert_eq!(ring.get_rms(), 327);
}
