use probable::bloom_filters::hashing::indices;
use probable::bloom_filters::{
    ClassicalBloomFilter, ConstructionError, Filter, PartitionedBloomFilter,
};
use rand::distributions::Uniform;
use rand::rngs::StdRng;
use rand::{Rng, SeedableRng};
use std::collections::HashSet;

fn bits_for(f: f64, n: u32) -> u64 {
    (-(n as f64) * f.ln() / 2f64.ln().powi(2)).ceil() as u64
}

fn hashes_for(m: u64, n: u32) -> u64 {
    (((m as f64 / n as f64) * 2f64.ln()).round() as u64).max(1)
}

fn classical_for(n: u32, f: f64) -> ClassicalBloomFilter {
    let m = bits_for(f, n);
    let k = hashes_for(m, n);
    ClassicalBloomFilter::new(m, k).unwrap()
}

#[test]
fn classical_simple_check() {
    let mut bf = classical_for(10, 0.01);
    bf.insert(&1u32.to_be_bytes());
    bf.insert(&10u32.to_be_bytes());
    bf.insert(&30u32.to_be_bytes());

    assert!(bf.lookup(&1u32.to_be_bytes()), "stored value is not found!");
    assert!(bf.lookup(&10u32.to_be_bytes()), "stored value is not found!");
    assert!(bf.lookup(&30u32.to_be_bytes()), "stored value is not found!");
}

#[test]
fn verify_classical_bf_false_positive_rate() {
    let mut bf = classical_for(10u32.pow(7), 0.02);
    let mut track_inserted = HashSet::new();

    let mut rng = StdRng::seed_from_u64(1);
    let distribution = Uniform::new_inclusive(0, 10u64.pow(12));
    for _ in 0..10u32.pow(7) {
        let value = rng.sample(distribution).to_be_bytes();
        bf.insert(&value);
        track_inserted.insert(value);
    }

    let mut false_positive = 0;
    for _ in 0..10u32.pow(6) {
        let value = rng.sample(distribution).to_be_bytes();
        let found = bf.lookup(&value);
        if found && track_inserted.get(&value).is_none() {
            false_positive += 1;
        }
    }

    println!("classical {}", false_positive);
    // check that false positive rate is ~2%
    assert!(19900 < false_positive && false_positive < 21000);
}

#[test]
fn classical_size_is_the_bit_count() {
    assert_eq!(classical_for(10, 0.01).get_size(), 96);
    assert_eq!(ClassicalBloomFilter::new(5, 7).unwrap().get_size(), 5);
    assert_eq!(ClassicalBloomFilter::new(1, 1).unwrap().get_size(), 1);
}

#[test]
fn classical_new_refuses_zero_bits() {
    assert_eq!(ClassicalBloomFilter::new(0, 7).err(), Some(ConstructionError::ZeroBits));
    assert_eq!(ClassicalBloomFilter::new(0, 0).err(), Some(ConstructionError::ZeroBits));
}

#[test]
fn classical_new_refuses_zero_hashes() {
    assert_eq!(ClassicalBloomFilter::new(96, 0).err(), Some(ConstructionError::ZeroHashes));
}

#[test]
fn classical_accepts_more_hash_functions_than_bits() {
    let mut bf = ClassicalBloomFilter::new(1 << 10, 1 << 16).unwrap();
    assert_eq!(bf.get_size(), 1 << 10);
    assert!(!bf.lookup(b"wide"));
    bf.insert(b"wide");
    assert!(bf.lookup(b"wide"));
}

#[test]
fn classical_empty_filter_finds_nothing() {
    let bf = ClassicalBloomFilter::new(96, 7).unwrap();
    for v in 0u32..1000 {
        assert!(!bf.lookup(&v.to_be_bytes()));
    }
}

#[test]
fn classical_inserted_values_are_always_found() {
    let mut bf = ClassicalBloomFilter::new(14_378, 10).unwrap();
    for v in 0u64..1000 {
        bf.insert(&v.to_be_bytes());
        assert!(bf.lookup(&v.to_be_bytes()));
    }
    for v in 0u64..1000 {
        assert!(bf.lookup(&v.to_be_bytes()));
    }
}

#[test]
fn classical_positive_answers_never_turn_negative() {
    let mut bf = ClassicalBloomFilter::new(960, 7).unwrap();
    let mut positive: Vec<bool> = vec![false; 2000];
    for v in 0u32..300 {
        bf.insert(&v.to_be_bytes());
        for probe in 0u32..2000 {
            let found = bf.lookup(&probe.to_be_bytes());
            assert!(found || !positive[probe as usize]);
            positive[probe as usize] = found;
        }
    }
}

#[test]
fn classical_inserting_twice_is_inserting_once() {
    let mut once = ClassicalBloomFilter::new(960, 7).unwrap();
    let mut twice = ClassicalBloomFilter::new(960, 7).unwrap();
    for v in 0u32..100 {
        once.insert(&v.to_le_bytes());
        twice.insert(&v.to_le_bytes());
        twice.insert(&v.to_le_bytes());
    }
    for probe in 0u32..5000 {
        assert_eq!(once.lookup(&probe.to_le_bytes()), twice.lookup(&probe.to_le_bytes()));
    }
}

#[test]
fn classical_lookup_reads_the_bits_at_the_derived_indices() {
    // After one insertion the set bits are the indices of the inserted
    // value, so a probe is found where each of its indices is among them.
    let mut bf = ClassicalBloomFilter::new(1000, 3).unwrap();
    bf.insert(b"present");
    let mine = indices(b"present", 3, 1000);
    for probe in 0u32..5000 {
        let theirs = indices(&probe.to_be_bytes(), 3, 1000);
        let expected = theirs.iter().all(|i| mine.contains(i));
        assert_eq!(bf.lookup(&probe.to_be_bytes()), expected);
    }
}

fn never_forgets<F: Filter>(m: u64, k: u64) -> usize {
    let mut bf = F::new(m, k).unwrap();
    for v in 0u32..50 {
        assert!(!bf.lookup(&[]) || v > 0);
        bf.insert(&v.to_be_bytes());
        bf.insert(&[]);
        for w in 0..=v {
            assert!(bf.lookup(&w.to_be_bytes()));
        }
    }
    bf.get_size()
}

#[test]
fn both_filters_meet_one_interface() {
    assert_eq!(never_forgets::<ClassicalBloomFilter>(4800, 7), 4800);
    assert_eq!(never_forgets::<PartitionedBloomFilter>(4800, 7), 7);
    assert_eq!(
        <ClassicalBloomFilter as Filter>::new(6, 7).map(|f| f.get_size()),
        Ok(6)
    );
    assert_eq!(
        <PartitionedBloomFilter as Filter>::new(6, 7).map(|f| f.get_size()),
        Err(ConstructionError::EmptyPartition)
    );
}
