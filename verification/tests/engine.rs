use tuners::engine::{AudioEngine, DspProcessor, BLOCK_SIZE};

pub struct MockDsp {
    last: i64,
}

impl DspProcessor for MockDsp {
    fn process_block(&mut self, block: &[i16]) {
        self.last = block.iter().map(|&x| x as i64).sum::<i64>();
    }

    fn latest_result(&self) -> i64 {
        self.last
    }
}

struct Recorder {
    blocks: Vec<Vec<i16>>,
}

impl DspProcessor for Recorder {
    fn process_block(&mut self, block: &[i16]) {
        self.blocks.push(block.to_vec());
    }

    fn latest_result(&self) -> i64 {
        self.blocks.len() as i64
    }
}

#[test]
fn test_engine_push() {
    let dsp = MockDsp { last: 0 };
    let mut engine = AudioEngine::new(dsp, 4096);

    let samples: Vec<i16> = (0..3000).map(|x| x as i16).collect();
    engine.push_samples(&samples);
    assert!(engine.latest_result() > 0);
}

#[test]
fn engine_hands_out_full_blocks_only() {
    let mut engine = AudioEngine::new(MockDsp { last: -1 }, 4096);
    let samples: Vec<i16> = vec![1; BLOCK_SIZE - 1];
    engine.push_samples(&samples);
    assert_eq!(engine.latest_result(), -1);
    engine.push_samples(&[1]);
    assert_eq!(engine.latest_result(), BLOCK_SIZE as i64);
}

#[test]
fn engine_keeps_the_rest_for_the_next_block() {
    let mut engine = AudioEngine::new(MockDsp { last: 0 }, 4096);
    let first: Vec<i16> = (0..3000).map(|x| x as i16).collect();
    engine.push_samples(&first);
    let block_sum: i64 = (0..BLOCK_SIZE as i64).sum();
    assert_eq!(engine.latest_result(), block_sum);
    let second: Vec<i16> = vec![0; 2 * BLOCK_SIZE - 3000];
    engine.push_samples(&second);
    let rest_sum: i64 = (BLOCK_SIZE as i64..3000).sum();
    assert_eq!(engine.latest_result(), rest_sum);
}

#[test]
fn engine_processes_every_queued_block_in_order() {
    let mut engine = AudioEngine::new(Recorder { blocks: Vec::new() }, 3 * BLOCK_SIZE);
    let samples: Vec<i16> = (0..(2 * BLOCK_SIZE + 10)).map(|i| (i % 32000) as i16).collect();
    engine.push_samples(&samples);
    assert_eq!(engine.latest_result(), 2);
    let mut block = engine.next_block();
    assert!(block.is_none());
    engine.push_samples(&vec![7; BLOCK_SIZE - 10]);
    assert_eq!(engine.latest_result(), 3);
    block = engine.next_block();
    assert!(block.is_none());
}

#[test]
fn engine_drops_what_the_channel_cannot_hold() {
    let mut engine = AudioEngine::new(Recorder { blocks: Vec::new() }, BLOCK_SIZE);
    let samples: Vec<i16> = vec![3; 3 * BLOCK_SIZE];
    engine.push_samples(&samples);
    assert_eq!(engine.latest_result(), 1);
    engine.push_samples(&samples[..BLOCK_SIZE - 1]);
    assert_eq!(engine.latest_result(), 1);
}

#[test]
fn next_block_takes_the_oldest_block() {
    let mut engine = AudioEngine::new(MockDsp { last: 0 }, 4096);
    assert_eq!(engine.next_block(), None);
    let samples: Vec<i16> = (0..100).collect();
    engine.push_samples(&samples);
    assert_eq!(engine.next_block(), None);
}

struct Witness {
    log: std::rc::Rc<std::cell::RefCell<Vec<Vec<i16>>>>,
}

impl DspProcessor for Witness {
    fn process_block(&mut self, block: &[i16]) {
        self.log.borrow_mut().push(block.to_vec());
    }

    fn latest_result(&self) -> i64 {
        self.log.borrow().len() as i64
    }
}

#[test]
fn engine_hands_over_what_was_queued_in_blocks_and_in_order() {
    let log = std::rc::Rc::new(std::cell::RefCell::new(Vec::new()));
    let mut engine = AudioEngine::new(Witness { log: log.clone() }, 4 * BLOCK_SIZE);
    let samples: Vec<i16> = (0..(3 * BLOCK_SIZE + 7)).map(|i| (i % 30011) as i16).collect();
    engine.push_samples(&samples[..100]);
    assert_eq!(log.borrow().len(), 0);
    engine.push_samples(&samples[100..BLOCK_SIZE + 5]);
    assert_eq!(log.borrow().len(), 1);
    engine.push_samples(&samples[BLOCK_SIZE + 5..]);
    let seen = log.borrow();
    assert_eq!(seen.len(), 3);
    for (k, block) in seen.iter().enumerate() {
        assert_eq!(&block[..], &samples[k * BLOCK_SIZE..(k + 1) * BLOCK_SIZE]);
    }
}

#[test]
fn one_batch_or_two_give_the_processor_the_same_blocks() {
    let samples: Vec<i16> = (0..(2 * BLOCK_SIZE + 300)).map(|i| (i % 30011) as i16).collect();
    let whole_log = std::rc::Rc::new(std::cell::RefCell::new(Vec::new()));
    let mut whole = AudioEngine::new(Witness { log: whole_log.clone() }, 3 * BLOCK_SIZE);
    whole.push_samples(&samples);
    let halves_log = std::rc::Rc::new(std::cell::RefCell::new(Vec::new()));
    let mut halves = AudioEngine::new(Witness { log: halves_log.clone() }, 3 * BLOCK_SIZE);
    halves.push_samples(&samples[..BLOCK_SIZE + 17]);
    halves.push_samples(&samples[BLOCK_SIZE + 17..]);
    assert_eq!(*whole_log.borrow(), *halves_log.borrow());
    assert_eq!(whole_log.borrow().len(), 2);
}

#[test]
fn overflow_cuts_the_blocks_from_what_was_queued() {
    let log = std::rc::Rc::new(std::cell::RefCell::new(Vec::new()));
    let mut engine = AudioEngine::new(Witness { log: log.clone() }, BLOCK_SIZE + 10);
    let samples: Vec<i16> = (0..(2 * BLOCK_SIZE)).map(|i| (i % 30011) as i16).collect();
    engine.push_samples(&samples);
    assert_eq!(log.borrow().len(), 1);
    assert_eq!(&log.borrow()[0][..], &samples[..BLOCK_SIZE]);
    engine.push_samples(&samples[..BLOCK_SIZE - 10]);
    assert_eq!(log.borrow().len(), 2);
    let mut second: Vec<i16> = samples[BLOCK_SIZE..BLOCK_SIZE + 10].to_vec();
    second.extend_from_slice(&samples[..BLOCK_SIZE - 10]);
    assert_eq!(log.borrow()[1], second);
}
