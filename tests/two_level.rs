use dlb_sampling::twolevel::{ConfigError, TwoLevelMinimizer};

fn pseudo_random_bases(n: usize, seed: u64) -> Vec<u8> {
    let alpha = [b'A', b'C', b'G', b'T'];
    let mut state = seed;
    (0..n)
        .map(|_| {
            state = state.wrapping_mul(6364136223846793005).wrapping_add(1442695040888963407);
            alpha[(state >> 62) as usize]
        })
        .collect()
}

#[test]
fn two_level_accepts_ordered_odd_lengths() {
    let t = TwoLevelMinimizer::new(31, 21, 11).unwrap();
    assert_eq!((t.k, t.m1, t.m2), (31, 21, 11));
}

#[test]
fn two_level_rejects_m2_above_m1() {
    assert_eq!(TwoLevelMinimizer::new(31, 11, 21).err(), Some(ConfigError::Misordered));
}

#[test]
fn two_level_rejects_m1_above_k() {
    assert_eq!(TwoLevelMinimizer::new(31, 33, 11).err(), Some(ConfigError::Misordered));
}

#[test]
fn two_level_rejects_even_lengths() {
    assert_eq!(TwoLevelMinimizer::new(30, 21, 11).err(), Some(ConfigError::EvenLength));
    assert_eq!(TwoLevelMinimizer::new(31, 20, 11).err(), Some(ConfigError::EvenLength));
    assert_eq!(TwoLevelMinimizer::new(31, 21, 10).err(), Some(ConfigError::EvenLength));
}

#[test]
fn two_level_rejects_long_k() {
    assert_eq!(TwoLevelMinimizer::new(65, 21, 11).err(), Some(ConfigError::KTooLarge));
}

#[test]
fn two_level_scan_is_ordered_and_reproducible() {
    let t = TwoLevelMinimizer::new(31, 21, 11).unwrap();
    let seq = pseudo_random_bases(4000, 17);
    let (mut a, mut b) = (Vec::new(), Vec::new());
    t.get_seeds(&seq, &mut a);
    t.get_seeds(&seq, &mut b);
    assert_eq!(a, b);
    assert!(!a.is_empty());
    assert!(a.len() < seq.len() - 30);
    assert!(a.windows(2).all(|p| p[0].1 < p[1].1));
}

#[test]
fn two_level_short_sequence_has_no_seeds() {
    let t = TwoLevelMinimizer::new(31, 21, 11).unwrap();
    let mut res = Vec::new();
    t.get_seeds(&pseudo_random_bases(30, 1), &mut res);
    assert!(res.is_empty());
}
