use tuners::audio_bridge::{drain, push, push_batch, AudioBridge, BUFFER_SIZE, SAMPLE_RATE};
use tuners::dsp::{downsample, Analysis, DigitalSignalProcessor};
use tuners::ring::AudioRingBuffer;

fn repeated(pattern: &[i16], len: usize) -> Vec<i16> {
    (0..len).map(|i| pattern[i % pattern.len()]).collect()
}

const TWELVE: [i16; 12] = [0, 5000, 8660, 10000, 8660, 5000, 0, -5000, -8660, -10000, -8660, -5000];

#[test]
fn fresh_analyzer_has_no_result() {
    let (bridge, _producer) = AudioBridge::new(16);
    let dsp = DigitalSignalProcessor::new(bridge.consumer);
    assert_eq!(dsp.get_rms(), 0);
    assert_eq!(dsp.get_frequency(), None);
    assert_eq!(dsp.get_note(), None);
    assert_eq!(dsp.get_samples(10), Vec::<i16>::new());
}

#[test]
fn update_analyzes_what_was_pushed() {
    let (bridge, mut producer) = AudioBridge::new(16);
    let mut dsp = DigitalSignalProcessor::new(bridge.consumer);
    assert!(push(&mut producer, 300));
    assert!(push(&mut producer, -300));
    assert!(push(&mut producer, 300));
    dsp.update();
    assert_eq!(dsp.get_rms(), 300);
    assert_eq!(dsp.get_samples(8), vec![300, -300, 300]);
    assert_eq!(dsp.get_frequency(), None);
    assert_eq!(dsp.get_note(), None);
}

#[test]
fn update_without_samples_keeps_nothing() {
    let (bridge, mut producer) = AudioBridge::new(16);
    let mut dsp = DigitalSignalProcessor::new(bridge.consumer);
    push_batch(&mut producer, &[1000, 1000, 1000]);
    dsp.update();
    assert_eq!(dsp.get_rms(), 1000);
    dsp.update();
    assert_eq!(dsp.get_rms(), 0);
    assert_eq!(dsp.get_frequency(), None);
    assert_eq!(dsp.get_note(), None);
    assert_eq!(dsp.get_samples(3), Vec::<i16>::new());
}

#[test]
fn update_takes_one_block_per_tick() {
    let (bridge, mut producer) = AudioBridge::new(BUFFER_SIZE + 100);
    let mut dsp = DigitalSignalProcessor::new(bridge.consumer);
    let samples: Vec<i16> = (0..BUFFER_SIZE + 100).map(|i| (i % 1000) as i16).collect();
    assert_eq!(push_batch(&mut producer, &samples), 0);
    dsp.update();
    assert_eq!(dsp.get_samples(usize::MAX), samples[..BUFFER_SIZE].to_vec());
    dsp.update();
    assert_eq!(dsp.get_samples(usize::MAX), samples[BUFFER_SIZE..].to_vec());
}

#[test]
fn update_detects_pitch_when_asked() {
    let (bridge, mut producer) = AudioBridge::new(4096);
    let mut dsp = DigitalSignalProcessor::new(bridge.consumer);
    dsp.set_sample_rate(600);
    dsp.set_pitch_detection(true);
    push_batch(&mut producer, &repeated(&TWELVE, 2048));
    dsp.update();
    assert_eq!(dsp.get_frequency(), Some(50_000));
    assert_eq!(dsp.get_note(), Some("G1".to_string()));
    assert_eq!(dsp.get_rms(), 7068);
}

#[test]
fn update_leaves_pitch_alone_when_not_asked() {
    let (bridge, mut producer) = AudioBridge::new(4096);
    let mut dsp = DigitalSignalProcessor::new(bridge.consumer);
    dsp.set_sample_rate(600);
    push_batch(&mut producer, &repeated(&TWELVE, 2048));
    dsp.update();
    assert_eq!(dsp.get_frequency(), None);
    assert_eq!(dsp.get_note(), None);
    assert_eq!(dsp.get_rms(), 7068);
}

#[test]
fn pitch_of_one_tick_does_not_outlive_it() {
    let (bridge, mut producer) = AudioBridge::new(4096);
    let mut dsp = DigitalSignalProcessor::new(bridge.consumer);
    dsp.set_sample_rate(600);
    dsp.set_pitch_detection(true);
    push_batch(&mut producer, &repeated(&TWELVE, 2048));
    dsp.update();
    assert!(dsp.get_frequency().is_some());
    push_batch(&mut producer, &[5, 5, 5]);
    dsp.update();
    assert_eq!(dsp.get_frequency(), None);
    assert_eq!(dsp.get_note(), None);
    assert_eq!(dsp.get_rms(), 5);
}

#[test]
fn sample_rate_scales_the_pitch() {
    let (bridge, mut producer) = AudioBridge::new(4096);
    let mut dsp = DigitalSignalProcessor::new(bridge.consumer);
    dsp.set_pitch_detection(true);
    dsp.set_sample_rate(480);
    push_batch(&mut producer, &repeated(&TWELVE, 2048));
    dsp.update();
    assert_eq!(dsp.get_frequency(), Some(40_000));
    assert_eq!(dsp.get_note(), Some("D#1".to_string()));
}

#[test]
fn default_sample_rate_is_44100() {
    assert_eq!(SAMPLE_RATE, 44100);
    assert_eq!(BUFFER_SIZE, 4096);
}

#[test]
fn process_block_analyzes_the_block() {
    let (bridge, _producer) = AudioBridge::new(1);
    let mut dsp = DigitalSignalProcessor::new(bridge.consumer);
    dsp.process_block(&[40, -40, 40, -40, 40]);
    assert_eq!(dsp.get_rms(), 40);
    assert_eq!(dsp.get_samples(5), vec![40, -40, 40, -40, 40]);
    let long: Vec<i16> = (0..BUFFER_SIZE + 5).map(|i| (i % 7) as i16).collect();
    dsp.process_block(&long);
    assert_eq!(dsp.get_samples(usize::MAX), long[..BUFFER_SIZE].to_vec());
}

#[test]
fn get_samples_on_empty_window_is_empty() {
    assert_eq!(downsample(&[], 0), Vec::<i16>::new());
    assert_eq!(downsample(&[], 5), Vec::<i16>::new());
}

#[test]
fn get_samples_on_short_window_is_the_window() {
    assert_eq!(downsample(&[1, 2, 3], 3), vec![1, 2, 3]);
    assert_eq!(downsample(&[1, 2, 3], 4), vec![1, 2, 3]);
    assert_eq!(downsample(&[1, 2, 3], usize::MAX), vec![1, 2, 3]);
}

#[test]
fn get_samples_on_long_window_has_the_asked_length() {
    let window: Vec<i16> = (0..100).collect();
    for n in 0..100usize {
        let out = downsample(&window, n);
        assert_eq!(out.len(), n);
        for (i, &sample) in out.iter().enumerate() {
            assert_eq!(sample as usize, i * (100 / n));
        }
    }
}

#[test]
fn get_samples_takes_every_stride_th_sample() {
    let window: Vec<i16> = (0..10).collect();
    assert_eq!(downsample(&window, 5), vec![0, 2, 4, 6, 8]);
    assert_eq!(downsample(&window, 3), vec![0, 3, 6]);
    assert_eq!(downsample(&window, 4), vec![0, 2, 4, 6]);
    assert_eq!(downsample(&window, 6), vec![0, 1, 2, 3, 4, 5]);
    assert_eq!(downsample(&window, 1), vec![0]);
    assert_eq!(downsample(&window, 0), Vec::<i16>::new());
}

#[test]
fn analysis_of_a_window() {
    let analysis = Analysis::of(repeated(&TWELVE, 2048), 600, true);
    assert_eq!(analysis.get_rms(), 7068);
    assert_eq!(analysis.get_frequency(), Some(50_000));
    assert_eq!(analysis.get_note(), Some("G1".to_string()));
    assert_eq!(analysis.get_samples(4), vec![0, -8660, 8660, 0]);
    let quiet = Analysis::empty();
    assert_eq!(quiet.get_rms(), 0);
    assert_eq!(quiet.get_frequency(), None);
    assert_eq!(quiet.get_note(), None);
}

#[test]
fn full_ring_drops_the_rest_of_a_batch() {
    let (bridge, mut producer) = AudioBridge::new(4);
    let mut consumer = bridge.consumer;
    assert_eq!(push_batch(&mut producer, &[1, 2, 3, 4, 5, 6]), 2);
    assert!(!push(&mut producer, 7));
    assert_eq!(drain(&mut consumer, 3), vec![1, 2, 3]);
    assert!(push(&mut producer, 8));
    assert_eq!(drain(&mut consumer, 10), vec![4, 8]);
    assert_eq!(drain(&mut consumer, 10), Vec::<i16>::new());
}

#[test]
fn drain_takes_no_more_than_asked() {
    let (bridge, mut producer) = AudioBridge::new(8);
    let mut consumer = bridge.consumer;
    push_batch(&mut producer, &[1, 2, 3, 4, 5]);
    assert_eq!(drain(&mut consumer, 0), Vec::<i16>::new());
    assert_eq!(drain(&mut consumer, 2), vec![1, 2]);
    assert_eq!(drain(&mut consumer, 8), vec![3, 4, 5]);
}

#[test]
fn ring_keeps_order_while_both_ends_work() {
    let (bridge, mut producer) = AudioBridge::new(64);
    let mut consumer = bridge.consumer;
    let samples: Vec<i16> = (0..10_000).map(|i| (i % 30_000) as i16).collect();
    let mut received: Vec<i16> = Vec::new();
    let mut sent = 0usize;
    while sent < samples.len() {
        let end = (sent + 48).min(samples.len());
        let dropped = push_batch(&mut producer, &samples[sent..end]);
        sent = end - dropped;
        received.extend_from_slice(&drain(&mut consumer, 40));
    }
    received.extend_from_slice(&drain(&mut consumer, 64));
    assert_eq!(received, samples);
}

#[test]
fn tick_takes_one_block_off_the_channel() {
    let mut channel = AudioRingBuffer::new(BUFFER_SIZE + 10);
    let samples: Vec<i16> = (0..BUFFER_SIZE + 10).map(|i| (i % 100) as i16).collect();
    assert_eq!(channel.push_batch(&samples), 0);
    let first = Analysis::tick(&mut channel, 44100, false);
    assert_eq!(first.get_samples(usize::MAX), samples[..BUFFER_SIZE].to_vec());
    assert_eq!(channel.len(), 10);
    let second = Analysis::tick(&mut channel, 44100, false);
    assert_eq!(second.get_samples(usize::MAX), samples[BUFFER_SIZE..].to_vec());
    assert!(channel.is_empty());
}

#[test]
fn tick_on_an_empty_channel_has_no_result() {
    let mut channel = AudioRingBuffer::new(16);
    let analysis = Analysis::tick(&mut channel, 600, true);
    assert_eq!(analysis.get_rms(), 0);
    assert_eq!(analysis.get_frequency(), None);
    assert_eq!(analysis.get_note(), None);
    assert_eq!(analysis.get_samples(4), Vec::<i16>::new());
}

#[test]
fn tick_detects_the_pitch_of_what_was_queued() {
    let mut channel = AudioRingBuffer::new(4096);
    channel.push_batch(&repeated(&TWELVE, 2048));
    let analysis = Analysis::tick(&mut channel, 600, true);
    assert_eq!(analysis.get_frequency(), Some(50_000));
    assert_eq!(analysis.get_note(), Some("G1".to_string()));
    assert_eq!(analysis.get_rms(), 7068);
}

#[test]
fn fresh_ring_takes_a_batch_of_its_capacity() {
    let (bridge, mut producer) = AudioBridge::new(6);
    let mut consumer = bridge.consumer;
    assert_eq!(push_batch(&mut producer, &[1, 2, 3, 4, 5, 6]), 0);
    assert_eq!(push_batch(&mut producer, &[7]), 1);
    assert_eq!(drain(&mut consumer, 6), vec![1, 2, 3, 4, 5, 6]);
}

#[test]
fn producer_that_knows_free_slots_queues() {
    let (bridge, mut producer) = AudioBridge::new(3);
    let mut consumer = bridge.consumer;
    assert!(push(&mut producer, 1));
    assert!(push(&mut producer, 2));
    assert!(push(&mut producer, 3));
    assert!(!push(&mut producer, 4));
    assert_eq!(drain(&mut consumer, 2), vec![1, 2]);
    assert!(push(&mut producer, 5));
    assert!(push(&mut producer, 6));
    assert!(!push(&mut producer, 7));
    assert_eq!(drain(&mut consumer, 8), vec![3, 5, 6]);
}

#[test]
fn drain_leaves_what_it_has_seen_beyond_the_limit() {
    let (bridge, mut producer) = AudioBridge::new(8);
    let mut consumer = bridge.consumer;
    push_batch(&mut producer, &[1, 2, 3, 4, 5]);
    assert_eq!(drain(&mut consumer, 1), vec![1]);
    push_batch(&mut producer, &[6, 7]);
    assert_eq!(drain(&mut consumer, 3), vec![2, 3, 4]);
    assert_eq!(drain(&mut consumer, 8), vec![5, 6, 7]);
    assert_eq!(drain(&mut consumer, 8), Vec::<i16>::new());
}

#[test]
fn producer_queues_the_values_it_was_given() {
    let (bridge, mut producer) = AudioBridge::new(5);
    let mut consumer = bridge.consumer;
    assert!(push(&mut producer, 123));
    assert_eq!(push_batch(&mut producer, &[-4, 5, -6]), 0);
    assert_eq!(drain(&mut consumer, 5), vec![123, -4, 5, -6]);
    assert_eq!(push_batch(&mut producer, &[7, 8, 9, 10, 11, 12]), 1);
    assert_eq!(drain(&mut consumer, 9), vec![7, 8, 9, 10, 11]);
}

#[test]
fn new_analyzer_reads_nothing_from_the_ring() {
    let (bridge, mut producer) = AudioBridge::new(8);
    push_batch(&mut producer, &[1, 2, 3]);
    let mut dsp = DigitalSignalProcessor::new(bridge.consumer);
    dsp.set_sample_rate(48000);
    dsp.set_pitch_detection(true);
    dsp.process_block(&[9, 9]);
    assert_eq!(dsp.get_samples(8), vec![9, 9]);
    dsp.update();
    assert_eq!(dsp.get_samples(8), vec![1, 2, 3]);
}
