use sieve::Batch;
use sieve::Space;

const PRIMES_BELOW_64: [usize; 18] = [
    2, 3, 5, 7, 11, 13, 17, 19, 23, 29, 31, 37, 41, 43, 47, 53, 59, 61,
];

fn marks_of(b: &Batch) -> Vec<bool> {
    let mut m = Vec::new();
    let mut i = 0;
    while i < b.len() {
        m.push(b.is_marked(i));
        i += 1;
    }
    m
}

#[test]
fn bootstrap_primes_up_to_16() {
    // magnitude 4 with a minimal power of 4: a single bootstrap batch [0, 16)
    let mut s = Space::new_with_min_power(4, 4);
    s.compute_all();
    assert_eq!(s.completed_count(), 1);
    assert_eq!(s.batch_start(0), 0);
    assert_eq!(s.batch_len(0), 16);
    assert_eq!(s.primes(), vec![2, 3, 5, 7, 11, 13]);
}

#[test]
fn bootstrap_marks_pattern() {
    let mut s = Space::new_with_min_power(4, 4);
    s.compute_all();
    let marks = s.batch_marks(0);
    let composite = [
        true, true, false, false, true, false, true, false, true, true, true, false, true, false,
        true, true,
    ];
    assert_eq!(marks, composite.to_vec());
}

#[test]
fn cross_batch_primes_below_64_independent_of_minimal_power() {
    for m in 2..=6u32 {
        let mut s = Space::new_with_min_power(m, 6);
        s.compute_all();
        let below_64: Vec<usize> = s.primes().into_iter().filter(|&p| p < 64).collect();
        assert_eq!(below_64, PRIMES_BELOW_64.to_vec(), "minimal power {}", m);
    }
    // with a minimal power of 6 the layout covers exactly [0, 64)
    let mut s = Space::new_with_min_power(6, 6);
    s.compute_all();
    assert_eq!(s.primes(), PRIMES_BELOW_64.to_vec());
}

#[test]
fn layout_prefix_sums_and_coverage() {
    let mut s = Space::new_with_min_power(2, 5);
    s.compute_all();
    assert_eq!(s.completed_count(), 4);
    let lens = [4usize, 8, 16, 32];
    let mut sum = 0usize;
    for i in 0..4 {
        // each batch starts exactly where the earlier lengths end: no gap,
        // no overlap, and the union is [0, total)
        assert_eq!(s.batch_start(i), sum);
        assert_eq!(s.batch_len(i), lens[i]);
        sum += lens[i];
    }
    assert_eq!(sum, 60);
}

#[test]
fn default_layout_single_batch() {
    let mut s = Space::new(4);
    s.compute_all();
    assert_eq!(s.completed_count(), 1);
    assert_eq!(s.batch_len(0), 256);
    let ps = s.primes();
    assert_eq!(ps.len(), 54);
    assert_eq!(ps[0], 2);
    assert_eq!(*ps.last().unwrap(), 251);
}

#[test]
fn default_layout_three_batches() {
    let mut s = Space::new(10);
    s.compute_all();
    assert_eq!(s.completed_count(), 3);
    assert_eq!(s.batch_start(0), 0);
    assert_eq!(s.batch_start(1), 256);
    assert_eq!(s.batch_start(2), 768);
    let ps = s.primes();
    // all primes below 1792 = 256 + 512 + 1024
    assert_eq!(ps[0], 2);
    assert!(ps.windows(2).all(|w| w[0] < w[1]));
    let below_1024: Vec<usize> = ps.iter().copied().filter(|&p| p < 1024).collect();
    assert_eq!(below_1024.len(), 172);
    assert_eq!(*below_1024.last().unwrap(), 1021);
}

#[test]
fn marking_is_idempotent() {
    let mut b = Batch::new(4, 0);
    b.sieve_prime(3);
    let once = marks_of(&b);
    b.sieve_prime(3);
    let twice = marks_of(&b);
    assert_eq!(once, twice);
}

#[test]
fn marking_strikes_exactly_proper_multiples() {
    let mut b = Batch::new(4, 0);
    b.sieve_prime(2);
    let marks = marks_of(&b);
    for v in 0..16 {
        let expected = v % 2 == 0 && v >= 4;
        assert_eq!(marks[v], expected, "value {}", v);
    }
}

#[test]
fn marking_skips_earlier_batches() {
    // a batch [16, 32): striking 3 marks 18, 21, 24, 27, 30 only
    let mut b = Batch::new(4, 16);
    b.sieve_prime(3);
    let marks = marks_of(&b);
    for v in 16..32 {
        let expected = v % 3 == 0;
        assert_eq!(marks[v - 16], expected, "value {}", v);
    }
}

#[test]
fn consumed_primes_respect_square_root_bound() {
    let mut s = Space::new_with_min_power(4, 6);
    s.compute_all();
    // a further batch ending at 240 would consume primes with p * p <= 240
    let ps = s.sieve_primes_below(240);
    assert_eq!(ps, vec![2, 3, 5, 7, 11, 13]);
    for &p in &ps {
        assert!(p * p <= 240);
    }
}

#[test]
fn try_new_rejects_oversized_magnitudes() {
    assert!(Space::try_new(4).is_some());
    assert!(Space::try_new(16).is_some());
    assert!(Space::try_new(10000).is_none());
}

#[test]
fn batch_primes_per_batch() {
    let mut s = Space::new_with_min_power(4, 5);
    s.compute_all();
    assert_eq!(s.completed_count(), 2);
    assert_eq!(s.batch_primes(0), vec![2, 3, 5, 7, 11, 13]);
    // second batch covers [16, 48)
    assert_eq!(s.batch_primes(1), vec![17, 19, 23, 29, 31, 37, 41, 43, 47]);
}
