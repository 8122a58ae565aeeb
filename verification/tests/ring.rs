use std::collections::VecDeque;
use voice_pipeline::frame::push_frame;
use voice_pipeline::ring::{
    available, pipeline_ring, pop, pop_or_silence, push_or_drop, sample_or_silence, sample_ring,
};
use voice_pipeline::ring_model::RING_CAPACITY;
use voice_pipeline::stream::SILENCE;

#[test]
fn silence_is_the_bits_of_zero() {
    assert_eq!(SILENCE, 0.0f32.to_bits());
    assert_eq!(f32::from_bits(SILENCE), 0.0);
}

#[test]
fn the_pipeline_ring_holds_16384_samples() {
    assert_eq!(RING_CAPACITY, 16384);
    let (mut producer, mut consumer) = pipeline_ring();
    for sample in 0..16384u32 {
        assert!(push_or_drop(&mut producer, sample));
    }
    assert!(!push_or_drop(&mut producer, 16384));
    assert_eq!(available(&mut consumer), 16384);
}

#[test]
fn ring_keeps_order_and_drops_newest() {
    let (mut producer, mut consumer) = sample_ring(4);
    for sample in 1u32..=6 {
        let accepted = push_or_drop(&mut producer, sample);
        assert_eq!(accepted, sample <= 4);
    }
    assert_eq!(available(&mut consumer), 4);
    for sample in 1u32..=4 {
        assert_eq!(pop_or_silence(&mut consumer), sample);
    }
    assert_eq!(pop_or_silence(&mut consumer), SILENCE);
    assert_eq!(available(&mut consumer), 0);
}

#[test]
fn a_drained_ring_gives_silence() {
    let (mut producer, mut consumer) = sample_ring(2);
    assert_eq!(pop_or_silence(&mut consumer), SILENCE);
    assert!(push_or_drop(&mut producer, 0x3f80_0000));
    assert_eq!(pop_or_silence(&mut consumer), 0x3f80_0000);
    assert_eq!(pop_or_silence(&mut consumer), SILENCE);
    assert_eq!(pop_or_silence(&mut consumer), SILENCE);
}

#[test]
fn a_ring_of_one_sample_works() {
    let (mut producer, mut consumer) = sample_ring(1);
    assert!(push_or_drop(&mut producer, 5));
    assert!(!push_or_drop(&mut producer, 6));
    assert_eq!(available(&mut consumer), 1);
    assert_eq!(pop_or_silence(&mut consumer), 5);
    assert!(push_or_drop(&mut producer, 7));
    assert_eq!(pop_or_silence(&mut consumer), 7);
}

#[test]
fn available_counts_what_was_pushed_and_not_popped() {
    let (mut producer, mut consumer) = sample_ring(8);
    assert_eq!(available(&mut consumer), 0);
    for sample in 0..5u32 {
        push_or_drop(&mut producer, sample);
    }
    assert_eq!(available(&mut consumer), 5);
    pop_or_silence(&mut consumer);
    pop_or_silence(&mut consumer);
    assert_eq!(available(&mut consumer), 3);
}

#[test]
fn room_made_by_the_consumer_is_seen_by_the_producer() {
    let (mut producer, mut consumer) = sample_ring(3);
    for sample in 1u32..=3 {
        assert!(push_or_drop(&mut producer, sample));
    }
    assert!(!push_or_drop(&mut producer, 4));
    assert_eq!(pop_or_silence(&mut consumer), 1);
    assert!(push_or_drop(&mut producer, 5));
    assert!(!push_or_drop(&mut producer, 6));
    assert_eq!(pop_or_silence(&mut consumer), 2);
    assert_eq!(pop_or_silence(&mut consumer), 3);
    assert_eq!(pop_or_silence(&mut consumer), 5);
    assert_eq!(pop_or_silence(&mut consumer), SILENCE);
}

#[test]
fn popped_is_a_prefix_of_pushed_for_any_interleaving() {
    let capacity = 7usize;
    let (mut producer, mut consumer) = sample_ring(capacity);
    let mut pushed: Vec<u32> = Vec::new();
    let mut popped: Vec<u32> = Vec::new();
    let mut model: VecDeque<u32> = VecDeque::new();
    let mut state: u32 = 12345;
    for step in 0..5000u32 {
        state = state.wrapping_mul(1664525).wrapping_add(1013904223);
        if (state >> 16) % 3 != 0 {
            let sample = step + 1;
            let accepted = push_or_drop(&mut producer, sample);
            assert_eq!(accepted, model.len() < capacity);
            if accepted {
                pushed.push(sample);
                model.push_back(sample);
            }
        } else {
            let sample = pop_or_silence(&mut consumer);
            match model.pop_front() {
                Some(expected) => {
                    assert_eq!(sample, expected);
                    popped.push(sample);
                }
                None => assert_eq!(sample, SILENCE),
            }
        }
        assert!(popped.len() <= pushed.len());
        assert_eq!(&pushed[..popped.len()], &popped[..]);
        let occupancy = available(&mut consumer);
        assert!(occupancy <= capacity);
        assert_eq!(occupancy, pushed.len() - popped.len());
    }
}

#[test]
fn overproduction_leaves_a_gap_and_never_reorders() {
    let (mut producer, mut consumer) = sample_ring(4);
    let mut received: Vec<u32> = Vec::new();
    for sample in 1u32..=10 {
        push_or_drop(&mut producer, sample);
    }
    received.push(pop_or_silence(&mut consumer));
    received.push(pop_or_silence(&mut consumer));
    for sample in 11u32..=20 {
        push_or_drop(&mut producer, sample);
    }
    while available(&mut consumer) > 0 {
        received.push(pop_or_silence(&mut consumer));
    }
    assert_eq!(received, vec![1, 2, 3, 4, 11, 12]);
    assert!(received.windows(2).all(|pair| pair[0] < pair[1]));
}

#[test]
fn overrun_is_safe_with_no_consumer_running() {
    let (mut producer, mut consumer) = pipeline_ring();
    let burst: Vec<u32> = (0..(10 * RING_CAPACITY) as u32).collect();
    let mut accepted = 0usize;
    for block in burst.chunks(1000) {
        accepted += push_frame(&mut producer, block);
    }
    assert_eq!(accepted, RING_CAPACITY);
    assert_eq!(available(&mut consumer), RING_CAPACITY);
    assert_eq!(push_frame(&mut producer, &burst[..10]), 0);
    for expected in 0..RING_CAPACITY as u32 {
        assert_eq!(pop_or_silence(&mut consumer), expected);
    }
    assert_eq!(push_frame(&mut producer, &[1, 2, 3]), 3);
    assert_eq!(available(&mut consumer), 3);
}

#[test]
fn sample_or_silence_gives_silence_for_none() {
    assert_eq!(sample_or_silence(None), SILENCE);
    assert_eq!(sample_or_silence(None), 0);
}

#[test]
fn sample_or_silence_hands_a_sample_on() {
    assert_eq!(sample_or_silence(Some(7)), 7);
    assert_eq!(sample_or_silence(Some(SILENCE)), SILENCE);
    assert_eq!(sample_or_silence(Some(u32::MAX)), u32::MAX);
}

#[test]
fn pop_tells_a_drained_ring_from_a_silent_sample() {
    let (mut producer, mut consumer) = sample_ring(4);
    assert_eq!(pop(&mut consumer), None);
    assert!(push_or_drop(&mut producer, SILENCE));
    assert!(push_or_drop(&mut producer, 9));
    assert_eq!(pop(&mut consumer), Some(SILENCE));
    assert_eq!(pop(&mut consumer), Some(9));
    assert_eq!(pop(&mut consumer), None);
    assert_eq!(available(&mut consumer), 0);
}
