use rusty_alloc::random::{fallback_accumulator, mix_key, qround, Random};

#[test]
fn stream_is_deterministic_and_varied() {
    let mut a = Random::new();
    let mut b = Random::new();
    a.seed_from([1, 2, 3, 4, 5, 6, 7, 8], 42);
    b.seed_from([1, 2, 3, 4, 5, 6, 7, 8], 42);
    let xs: Vec<u32> = (0..64).map(|_| a.next_u32()).collect();
    let ys: Vec<u32> = (0..64).map(|_| b.next_u32()).collect();
    assert_eq!(xs, ys, "same seed must give the same stream");
    assert!(xs.windows(2).any(|w| w[0] != w[1]), "stream is constant");
    let mut c = Random::new();
    c.seed_from([1, 2, 3, 4, 5, 6, 7, 8], 43);
    let zs: Vec<u32> = (0..64).map(|_| c.next_u32()).collect();
    assert_ne!(xs, zs);
}

#[test]
fn reseed_produces_distinct_streams() {
    let mut a = Random::new();
    let mut b = Random::new();
    a.reseed(None, fallback_accumulator(1, 0x7ffd_1000, 7, 5));
    b.reseed(None, fallback_accumulator(2, 0x7ffd_1000, 7, 5));
    let xs: Vec<u32> = (0..8).map(|_| a.next_u32()).collect();
    let ys: Vec<u32> = (0..8).map(|_| b.next_u32()).collect();
    assert_ne!(xs, ys, "two reseeds collided");
}

#[test]
fn reseed_from_entropy_keys_the_stream() {
    let mut a = Random::new();
    a.reseed(Some([9, 8, 7, 6, 5, 4, 3, 2]), 0);
    assert_eq!(&a.state[4..12], &[9, 8, 7, 6, 5, 4, 3, 2]);
    let mut b = Random::new();
    b.reseed(None, 12345);
    assert_eq!(&b.state[4..12], &mix_key(12345));
}

#[test]
fn quarter_round_matches_rfc8439() {
    let mut x = [0u32; 16];
    x[0] = 0x1111_1111;
    x[1] = 0x0102_0304;
    x[2] = 0x9b8d_6f43;
    x[3] = 0x0123_4567;
    qround(&mut x, 0, 1, 2, 3);
    assert_eq!(x[0], 0xea2a_92f4, "quarter round: a");
    assert_eq!(x[1], 0xcb1c_f8ce, "quarter round: b");
    assert_eq!(x[2], 0x4581_472e, "quarter round: c");
    assert_eq!(x[3], 0x5881_c4bb, "quarter round: d");
}

#[test]
fn state_layout_matches_rfc8439() {
    let mut r = Random::new();
    let key = [
        0x0302_0100,
        0x0706_0504,
        0x0b0a_0908,
        0x0f0e_0d0c,
        0x1312_1110,
        0x1716_1514,
        0x1b1a_1918,
        0x1f1e_1d1c,
    ];
    r.seed_from(key, 0xdead_beef_cafe_f00d);
    assert_eq!(
        [r.state[0], r.state[1], r.state[2], r.state[3]],
        [0x6170_7865, 0x3320_646e, 0x7962_2d32, 0x6b20_6574],
        "the four ChaCha constants are wrong"
    );
    assert_eq!(&r.state[4..12], &key, "key is not in words 4..12");
    assert_eq!([r.state[12], r.state[13]], [0, 0], "counter must start at 0");
    assert_eq!(r.state[14], 0xcafe_f00d, "stream low word");
    assert_eq!(r.state[15], 0xdead_beef, "stream high word");
}

#[test]
fn block_counter_advances_and_carries() {
    let mut r = Random::new();
    r.seed_from([0; 8], 0);
    for _ in 0..16 {
        r.next_u32();
    }
    assert_eq!([r.state[12], r.state[13]], [1, 0], "counter did not advance");
    r.state[12] = u32::MAX;
    r.used = 16;
    r.next_u32();
    assert_eq!([r.state[12], r.state[13]], [0, 1], "64-bit counter carry is broken");
}

#[test]
fn chacha8_block_is_frozen() {
    let mut r = Random::new();
    r.seed_from([0; 8], 0);
    let block: Vec<u32> = (0..16).map(|_| r.next_u32()).collect();
    let mut s = [0u32; 16];
    s[0] = 0x6170_7865;
    s[1] = 0x3320_646e;
    s[2] = 0x7962_2d32;
    s[3] = 0x6b20_6574;
    let orig = s;
    let mut x = s;
    for _ in 0..4 {
        for &(a, b, c, d) in &[
            (0usize, 4usize, 8usize, 12usize),
            (1, 5, 9, 13),
            (2, 6, 10, 14),
            (3, 7, 11, 15),
            (0, 5, 10, 15),
            (1, 6, 11, 12),
            (2, 7, 8, 13),
            (3, 4, 9, 14),
        ] {
            x[a] = x[a].wrapping_add(x[b]);
            x[d] = (x[d] ^ x[a]).rotate_left(16);
            x[c] = x[c].wrapping_add(x[d]);
            x[b] = (x[b] ^ x[c]).rotate_left(12);
            x[a] = x[a].wrapping_add(x[b]);
            x[d] = (x[d] ^ x[a]).rotate_left(8);
            x[c] = x[c].wrapping_add(x[d]);
            x[b] = (x[b] ^ x[c]).rotate_left(7);
        }
    }
    let expect: Vec<u32> = x.iter().zip(orig.iter()).map(|(a, b)| a.wrapping_add(*b)).collect();
    assert_eq!(block, expect, "ChaCha8 block function diverged from the RFC construction");
    s = orig;
    let _ = s;
}

#[test]
fn keystream_is_not_degenerate() {
    let mut r = Random::new();
    r.seed_from([0xdead_beef; 8], 7);
    let n: u32 = 4096;
    let words: Vec<u32> = (0..n).map(|_| r.next_u32()).collect();
    let ones: u32 = words.iter().map(|w| w.count_ones()).sum();
    let frac = f64::from(ones) / f64::from(n * 32);
    assert!((0.45..0.55).contains(&frac), "keystream bit balance {frac} is not plausibly random");
    let mut sorted = words.clone();
    sorted.sort_unstable();
    sorted.dedup();
    assert!(sorted.len() >= words.len() - 1, "keystream repeated words: period far too short");
}

#[test]
fn below_stays_below_its_bound() {
    let mut r = Random::new();
    r.seed_from([3; 8], 1);
    for n in [2usize, 3, 10, 1000] {
        for _ in 0..100 {
            assert!(r.below(n) < n);
        }
    }
    assert_eq!(r.below(1), 0);
    assert_eq!(r.below(0), 0);
}

#[test]
fn below_draws_one_word_pair_and_nothing_for_one() {
    let mut a = Random::new();
    a.seed_from([1, 2, 3, 4, 5, 6, 7, 8], 0);
    let mut b = Random::new();
    b.seed_from([1, 2, 3, 4, 5, 6, 7, 8], 0);
    assert_eq!(a.below(1), 0);
    let _ = a.below(1000);
    let _ = b.next_usize();
    assert_eq!(a.next_u32(), b.next_u32(), "one usize draw, as next_usize makes");
}
