use consciousness_sim::rng::Rng;

#[test]
fn deterministic() {
    let mut a = Rng::new(42);
    let mut b = Rng::new(42);
    for _ in 0..1000 {
        assert_eq!(a.next_u64(), b.next_u64());
    }
}

#[test]
fn choice_covers_all() {
    let mut rng = Rng::new(3);
    let items = [0u32, 1, 2, 3, 4];
    let mut seen = [false; 5];
    for _ in 0..10_000 {
        let i = rng.choice_index(items.len());
        seen[i] = true;
    }
    assert!(seen.iter().all(|&v| v));
}

#[test]
fn seeded_stream_known_values() {
    let mut rng = Rng::new(42);
    assert_eq!(rng.next_u64(), 1581911519303979561);
    assert_eq!(rng.next_u64(), 5726079574540882823);
    assert_eq!(rng.next_u64(), 1154208747244521758);
}

#[test]
fn zero_seed_stream_known_values() {
    let mut rng = Rng::new(0);
    assert_eq!(rng.next_u64(), 15757075719729598363);
    assert_eq!(rng.next_u64(), 3555206913761248309);
    assert_eq!(rng.next_u64(), 17994763647826544299);
}

#[test]
fn different_seeds_differ() {
    let mut a = Rng::new(1);
    let mut b = Rng::new(2);
    let xs: Vec<u64> = (0..8).map(|_| a.next_u64()).collect();
    let ys: Vec<u64> = (0..8).map(|_| b.next_u64()).collect();
    assert_ne!(xs, ys);
}

#[test]
fn stream_never_stalls_at_zero() {
    // A generator stuck in the all-zero state would output 0 forever.
    for seed in [0u64, 1, 42, u64::MAX, 0x61c8864680b583eb] {
        let mut rng = Rng::new(seed);
        let outs: Vec<u64> = (0..16).map(|_| rng.next_u64()).collect();
        assert!(outs.iter().any(|&x| x != 0));
    }
}

#[test]
fn upper_53_bits_known_value() {
    let mut rng = Rng::new(42);
    assert_eq!(rng.next_53_bits(), 1581911519303979561u64 >> 11);
}

#[test]
fn f64_in_range() {
    let mut rng = Rng::new(1);
    for _ in 0..100_000 {
        let bits = rng.next_53_bits();
        assert!(bits < 1u64 << 53);
        let x = (bits as f64) * (1.0 / 9_007_199_254_740_992.0);
        assert!((0.0..1.0).contains(&x));
    }
}

#[test]
fn upper_53_bits_keep_the_top_bit() {
    // The top bit of the draw must reach the sample: a draw with only bit 63
    // set stands for 0.5.
    let mut a = Rng::new(9);
    let mut b = Rng::new(9);
    for _ in 0..1000 {
        let out = a.next_u64();
        let bits = b.next_53_bits();
        assert_eq!(bits, out >> 11);
        assert_eq!(bits >> 52, out >> 63);
    }
    assert_eq!(((1u64 << 63) >> 11) as f64 * (1.0 / 9_007_199_254_740_992.0), 0.5);
}

#[test]
fn choice_index_known_values() {
    let mut rng = Rng::new(3);
    let got: Vec<usize> = (0..10).map(|_| rng.choice_index(5)).collect();
    assert_eq!(got, vec![0, 1, 1, 1, 4, 2, 3, 3, 2, 1]);
    let mut rng = Rng::new(7);
    let got: Vec<usize> = (0..5).map(|_| rng.choice_index(3)).collect();
    assert_eq!(got, vec![0, 1, 2, 0, 1]);
}

#[test]
fn choice_index_in_range() {
    let mut rng = Rng::new(5);
    for len in 1..50usize {
        for _ in 0..200 {
            assert!(rng.choice_index(len) < len);
        }
    }
    assert_eq!(rng.choice_index(1), 0);
}

#[test]
fn choice_index_large_len() {
    let mut rng = Rng::new(6);
    for _ in 0..1000 {
        assert!(rng.choice_index(usize::MAX) < usize::MAX);
        let len = (1usize << 63) + 1;
        assert!(rng.choice_index(len) < len);
    }
}

#[test]
fn choice_picks_element_at_choice_index() {
    let items = ["alpha", "beta", "gamma", "delta"];
    let mut a = Rng::new(11);
    let mut b = Rng::new(11);
    for _ in 0..100 {
        let picked = *a.choice(&items);
        let idx = b.choice_index(items.len());
        assert_eq!(picked, items[idx]);
    }
}

#[test]
fn nearby_seeds_differ() {
    // Nearby seeds give different first outputs.
    let outs: Vec<u64> = (0..64u64).map(|seed| Rng::new(seed).next_u64()).collect();
    for i in 0..outs.len() {
        for j in (i + 1)..outs.len() {
            assert_ne!(outs[i], outs[j]);
        }
    }
}
