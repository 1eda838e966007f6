use rand::rngs::mock::StepRng;
use rand::RngCore;
use shuffle::fy::FisherYates;
use shuffle::irs::all_distinct;
use shuffle::irs::InfiniteBitIter;
use shuffle::irs::Irs;
use shuffle::shuffler::ShuffleError;
use shuffle::shuffler::Shuffler;

struct DummyRng(u64);

impl RngCore for DummyRng {
    fn next_u32(&mut self) -> u32 {
        self.next_u64() as u32
    }

    fn next_u64(&mut self) -> u64 {
        self.0 = self.0.wrapping_add(1);
        self.0
    }

    fn fill_bytes(&mut self, dest: &mut [u8]) {
        for byte in dest {
            *byte = self.next_u64() as u8;
        }
    }

    fn try_fill_bytes(&mut self, dest: &mut [u8]) -> Result<(), rand::Error> {
        self.fill_bytes(dest);
        Ok(())
    }
}

/// A degenerate generator: every byte it produces is zero, so no round can
/// ever tell two elements apart.
struct ZeroRng;

impl RngCore for ZeroRng {
    fn next_u32(&mut self) -> u32 {
        0
    }

    fn next_u64(&mut self) -> u64 {
        0
    }

    fn fill_bytes(&mut self, dest: &mut [u8]) {
        for byte in dest {
            *byte = 0;
        }
    }

    fn try_fill_bytes(&mut self, dest: &mut [u8]) -> Result<(), rand::Error> {
        self.fill_bytes(dest);
        Ok(())
    }
}

#[test]
fn test_irs() {
    let mut irs = Irs::default();
    let mut rng = DummyRng(0);
    let input_data = vec![1, 2, 3, 4];
    let mut target = input_data.clone();
    irs.shuffle(&mut target, &mut rng).unwrap();
    assert_eq!(target.len(), input_data.len());
    assert_ne!(target, input_data);
    assert!(target.iter().all(|n| input_data.contains(n)));
}

#[test]
fn test_get_reset_context() {
    let mut irs = Irs::default();

    let input_data = vec![1, 2, 3, 4];
    // we don't want any context if there was no data yet.
    assert_eq!(irs.context, None);
    let context = irs.get_reset_context(&input_data);
    assert_eq!(context.data_cp.len(), input_data.len());
    assert!(context.bit_slots.iter().all(|s| *s == 0));
}

#[test]
fn test_all_distinct() {
    assert!(all_distinct(&vec![1, 2, 3, 4]));
    assert!(!all_distinct(&vec![1, 1, 2, 3]));
}

#[test]
fn irs_reference_vector() {
    let mut rng = StepRng::new(2, 13);
    let mut irs = Irs::default();
    let mut input = vec![1, 2, 3, 4, 5];
    irs.shuffle(&mut input, &mut rng).unwrap();
    assert_eq!(&input, &[4, 1, 5, 3, 2]);
}

#[test]
fn fy_reference_vector() {
    let mut rng = StepRng::new(2, 13);
    let mut fy = FisherYates::default();
    let mut input = vec![1, 2, 3, 4, 5];
    fy.shuffle(&mut input, &mut rng).unwrap();
    assert_eq!(&input, &[2, 3, 4, 5, 1]);
}

#[test]
fn irs_round_bound_exhaustion() {
    let mut rng = ZeroRng;
    let mut irs = Irs::default();
    let mut input = vec![1, 2, 3, 4];
    let result = irs.shuffle(&mut input, &mut rng);
    assert_eq!(result, Err(ShuffleError::RandomnessInadequate));
    // Even a failed shuffle leaves a permutation of the input behind.
    let mut sorted = input.clone();
    sorted.sort();
    assert_eq!(sorted, vec![1, 2, 3, 4]);
}

#[test]
fn irs_trivial_lengths_unchanged() {
    let mut rng = StepRng::new(2, 13);
    let mut irs = Irs::default();
    let mut empty: Vec<u8> = vec![];
    assert!(irs.shuffle(&mut empty, &mut rng).is_ok());
    assert!(empty.is_empty());

    let mut one_irs = Irs::default();
    let mut one = vec![42u8];
    assert!(one_irs.shuffle(&mut one, &mut rng).is_ok());
    assert_eq!(one, vec![42u8]);

    let mut fy = FisherYates::default();
    let mut single = vec![7u8];
    assert!(fy.shuffle(&mut single, &mut rng).is_ok());
    assert_eq!(single, vec![7u8]);
}

#[test]
fn irs_large_input_is_permutation() {
    let mut rng = StepRng::new(12345, 67891);
    let mut irs = Irs::default();
    let mut data: Vec<u32> = (0..50).collect();
    irs.shuffle(&mut data, &mut rng).unwrap();
    let mut sorted = data.clone();
    sorted.sort();
    assert_eq!(sorted, (0..50).collect::<Vec<u32>>());
}

#[test]
fn irs_context_reused_across_calls() {
    let mut rng = StepRng::new(2, 13);
    let mut irs = Irs::default();
    let mut first = vec![1, 2, 3, 4, 5];
    irs.shuffle(&mut first, &mut rng).unwrap();
    assert!(irs.context.is_some());

    // Same length: the stored context is reset and reused.
    let mut second = vec![10, 20, 30, 40, 50];
    irs.shuffle(&mut second, &mut rng).unwrap();
    let mut sorted = second.clone();
    sorted.sort();
    assert_eq!(sorted, vec![10, 20, 30, 40, 50]);

    // Different length: the context is rebuilt at the new size.
    let mut third = vec![1, 2, 3];
    irs.shuffle(&mut third, &mut rng).unwrap();
    let mut sorted_third = third.clone();
    sorted_third.sort();
    assert_eq!(sorted_third, vec![1, 2, 3]);
}

#[test]
fn success_commits_distinct_keys() {
    let mut rng = StepRng::new(12345, 67891);
    let mut irs = Irs::default();
    let mut data: Vec<u32> = (0..20).collect();
    irs.shuffle(&mut data, &mut rng).unwrap();
    let context = irs.context.expect("a successful shuffle stores its context");
    let mut keys = context.bit_slots.clone();
    keys.sort();
    for pair in keys.windows(2) {
        assert_ne!(pair[0], pair[1]);
    }
}

#[test]
fn reset_context_zeroes_reused_state() {
    let mut rng = StepRng::new(2, 13);
    let mut irs = Irs::default();
    let mut shuffled = vec![1, 2, 3, 4];
    irs.shuffle(&mut shuffled, &mut rng).unwrap();
    assert!(irs.context.is_some());

    // A finished shuffle leaves nonzero keys behind; resetting for a new
    // same-length call must hand back zeroed keys and a fresh data copy.
    let data = vec![5, 6, 7, 8];
    let context = irs.get_reset_context(&data);
    assert_eq!(context.data_cp, data);
    assert!(context.bit_slots.iter().all(|s| *s == 0));
    assert!(irs.context.is_none());
}

#[test]
fn bit_iter_crosses_refill_boundary() {
    // One-byte buffer: eight bits, served from the low-order end.
    let mut rng = DummyRng(0);
    let mut bits = InfiniteBitIter::new(vec![0b1010_0110u8]);
    let mut first: Vec<bool> = Vec::new();
    for _ in 0..8 {
        first.push(bits.next_bit(&mut rng));
    }
    assert_eq!(
        first,
        vec![false, true, true, false, false, true, false, true]
    );

    // The ninth bit forces exactly one refill; DummyRng(0) writes the byte
    // 0x01, whose low-order-first bits follow with none skipped or repeated.
    let mut second: Vec<bool> = Vec::new();
    for _ in 0..8 {
        second.push(bits.next_bit(&mut rng));
    }
    assert_eq!(
        second,
        vec![true, false, false, false, false, false, false, false]
    );
}
