use voice_pipeline::frame::{
    capped, frame_is_ready, frame_len, push_frame, samples_made, take_frame, take_ready_frame,
};
use voice_pipeline::ring::{available, pop_or_silence, push_or_drop, sample_ring};

#[test]
fn take_frame_waits_for_a_whole_frame() {
    let (mut producer, mut consumer) = sample_ring(16);
    let mut frame: Vec<u32> = vec![99; 4];
    assert!(!take_frame(&mut consumer, &mut frame));
    assert_eq!(frame, vec![99; 4]);
    for sample in 1u32..=3 {
        push_or_drop(&mut producer, sample);
    }
    assert!(!take_frame(&mut consumer, &mut frame));
    assert_eq!(frame, vec![99; 4]);
    assert_eq!(available(&mut consumer), 3);
    push_or_drop(&mut producer, 4);
    assert!(take_frame(&mut consumer, &mut frame));
    assert_eq!(frame, vec![1, 2, 3, 4]);
    assert_eq!(available(&mut consumer), 0);
}

#[test]
fn take_frame_takes_exactly_one_frame() {
    let (mut producer, mut consumer) = sample_ring(16);
    for sample in 1u32..=10 {
        push_or_drop(&mut producer, sample);
    }
    let mut frame: Vec<u32> = vec![0; 4];
    assert!(take_frame(&mut consumer, &mut frame));
    assert_eq!(frame, vec![1, 2, 3, 4]);
    assert!(take_frame(&mut consumer, &mut frame));
    assert_eq!(frame, vec![5, 6, 7, 8]);
    assert!(!take_frame(&mut consumer, &mut frame));
    assert_eq!(frame, vec![5, 6, 7, 8]);
    assert_eq!(available(&mut consumer), 2);
    assert_eq!(pop_or_silence(&mut consumer), 9);
}

#[test]
fn take_frame_of_no_samples_succeeds() {
    let (_producer, mut consumer) = sample_ring(2);
    let mut frame: Vec<u32> = Vec::new();
    assert!(take_frame(&mut consumer, &mut frame));
    assert!(frame.is_empty());
}

#[test]
fn push_frame_pushes_all_where_there_is_room() {
    let (mut producer, mut consumer) = sample_ring(8);
    assert_eq!(push_frame(&mut producer, &[10, 20, 30]), 3);
    assert_eq!(push_frame(&mut producer, &[]), 0);
    assert_eq!(push_frame(&mut producer, &[40, 50]), 2);
    let mut frame: Vec<u32> = vec![0; 5];
    assert!(take_frame(&mut consumer, &mut frame));
    assert_eq!(frame, vec![10, 20, 30, 40, 50]);
}

#[test]
fn push_frame_drops_what_finds_the_ring_full() {
    let (mut producer, mut consumer) = sample_ring(4);
    assert_eq!(push_frame(&mut producer, &[1, 2, 3]), 3);
    assert_eq!(push_frame(&mut producer, &[4, 5, 6]), 1);
    assert_eq!(push_frame(&mut producer, &[7]), 0);
    let mut frame: Vec<u32> = vec![0; 4];
    assert!(take_frame(&mut consumer, &mut frame));
    assert_eq!(frame, vec![1, 2, 3, 4]);
    assert_eq!(available(&mut consumer), 0);
}

#[test]
fn frame_len_multiplies_slots_by_channels() {
    assert_eq!(frame_len(480, 1), Some(480));
    assert_eq!(frame_len(960, 2), Some(1920));
    assert_eq!(frame_len(0, 7), Some(0));
    assert_eq!(frame_len(7, 0), Some(0));
    assert_eq!(frame_len(usize::MAX, 1), Some(usize::MAX));
}

#[test]
fn frame_len_is_none_where_the_product_cannot_be_held() {
    assert_eq!(frame_len(usize::MAX, 2), None);
    assert_eq!(frame_len(usize::MAX / 2 + 1, 2), None);
    assert_eq!(frame_len(usize::MAX / 2, 2), Some(usize::MAX - 1));
}

#[test]
fn only_a_whole_frame_is_ready() {
    assert!(!frame_is_ready(0, 480));
    assert!(!frame_is_ready(479, 480));
    assert!(frame_is_ready(480, 480));
    assert!(frame_is_ready(481, 480));
    assert!(!frame_is_ready(959, 960));
    assert!(frame_is_ready(1919, 960));
    assert!(frame_is_ready(0, 0));
}

#[test]
fn take_ready_frame_takes_the_oldest_samples_and_no_more() {
    let (mut producer, mut consumer) = sample_ring(16);
    for sample in 1u32..=7 {
        push_or_drop(&mut producer, sample);
    }
    assert_eq!(available(&mut consumer), 7);
    let mut frame: Vec<u32> = vec![0; 3];
    take_ready_frame(&mut consumer, &mut frame);
    assert_eq!(frame, vec![1, 2, 3]);
    assert_eq!(available(&mut consumer), 4);
    take_ready_frame(&mut consumer, &mut frame);
    assert_eq!(frame, vec![4, 5, 6]);
    assert_eq!(pop_or_silence(&mut consumer), 7);
}

#[test]
fn take_frame_leaves_a_remainder_untouched() {
    let (mut producer, mut consumer) = sample_ring(4096);
    for sample in 0..1919u32 {
        assert!(push_or_drop(&mut producer, sample));
    }
    let mut frame: Vec<u32> = vec![0; 960];
    assert!(take_frame(&mut consumer, &mut frame));
    assert_eq!(frame, (0..960u32).collect::<Vec<u32>>());
    assert!(!take_frame(&mut consumer, &mut frame));
    assert_eq!(frame, (0..960u32).collect::<Vec<u32>>());
    assert_eq!(available(&mut consumer), 959);
    for expected in 960..1919u32 {
        assert_eq!(pop_or_silence(&mut consumer), expected);
    }
}

#[test]
fn take_frame_takes_nothing_from_less_than_a_frame() {
    let (mut producer, mut consumer) = sample_ring(1024);
    for sample in 0..479u32 {
        push_or_drop(&mut producer, sample + 1);
    }
    let mut frame: Vec<u32> = vec![0; 480];
    assert!(!take_frame(&mut consumer, &mut frame));
    assert_eq!(frame, vec![0; 480]);
    assert_eq!(available(&mut consumer), 479);
    assert_eq!(pop_or_silence(&mut consumer), 1);
}

#[test]
fn capped_is_the_smaller_of_count_and_limit() {
    assert_eq!(capped(3, 10), 3);
    assert_eq!(capped(10, 10), 10);
    assert_eq!(capped(11, 10), 10);
    assert_eq!(capped(0, 0), 0);
    assert_eq!(capped(usize::MAX, 960), 960);
}

#[test]
fn samples_made_counts_frames_on_every_channel_within_the_buffer() {
    assert_eq!(samples_made(960, 1, 960), 960);
    assert_eq!(samples_made(0, 1, 1120), 0);
    assert_eq!(samples_made(1120, 1, 1120), 1120);
    assert_eq!(samples_made(480, 2, 2000), 960);
    assert_eq!(samples_made(480, 2, 900), 900);
    assert_eq!(samples_made(usize::MAX, 2, 900), 900);
}
