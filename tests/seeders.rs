use dlb_sampling::syncmer::Seeder;
use dlb_sampling::window::{ModMinimizer, SubsampledMinimizer};

fn pseudo_random_bases(n: usize, seed: u64) -> Vec<u8> {
    let alpha = [b'A', b'C', b'G', b'T'];
    let mut state = seed.wrapping_mul(6364136223846793005).wrapping_add(1442695040888963407);
    let mut out = Vec::with_capacity(n);
    for _ in 0..n {
        state = state.wrapping_mul(6364136223846793005).wrapping_add(1442695040888963407);
        out.push(alpha[(state >> 62) as usize]);
    }
    out
}

fn mask_bits(mask: u64) -> Vec<usize> {
    (0..64).filter(|j| (mask >> j) & 1 == 1).collect()
}

#[test]
fn start_syncmer_presets() {
    let s = Seeder::new_start(21, 11);
    assert_eq!((s.k, s.s, s.t, s.mask), (21, 11, 0, 1));
}

#[test]
fn mid_syncmer_presets() {
    let s = Seeder::new_mid(21, 11);
    assert_eq!((s.k, s.s, s.t), (21, 11, 1));
    assert_eq!(mask_bits(s.mask), vec![5]);
}

#[test]
fn closed_syncmer_presets() {
    let s = Seeder::new_closed_syncmer(21, 11);
    assert_eq!((s.k, s.s, s.t), (21, 10, 1));
    assert_eq!(mask_bits(s.mask), vec![0, 11]);
}

#[test]
fn optimal_closed_syncmer_presets() {
    let s = Seeder::new_optimal_closed_syncmer(21, 11);
    assert_eq!((s.k, s.s, s.t), (21, 10, 1));
    assert_eq!(mask_bits(s.mask), vec![0, 11]);
    let s = Seeder::new_optimal_closed_syncmer(31, 5);
    assert_eq!((s.s, s.t), (6, 5));
    assert_eq!(mask_bits(s.mask), vec![0, 5, 10, 15, 20, 25]);
}

#[test]
fn distance_lower_bound_presets() {
    let s = Seeder::new_distance_lower_bound(21, 11);
    assert_eq!((s.k, s.s, s.t), (21, 11, 1));
    assert_eq!(mask_bits(s.mask), vec![5]);
    assert_eq!(s.distance_lower_bound(), 6);
    let s = Seeder::new_distance_lower_bound(31, 11);
    assert_eq!((s.k, s.s, s.t), (31, 10, 2));
    assert_eq!(mask_bits(s.mask), vec![6, 13]);
    assert_eq!(s.distance_lower_bound(), 7);
}

#[test]
fn packs_every_kmer_when_one_smer_per_kmer() {
    // s == k: the single s-mer is at offset 0, which new_start accepts.
    let s = Seeder::new_start(5, 1);
    let mut res = Vec::new();
    s.get_seeds(b"ACGTAc", &mut res);
    assert_eq!(res, vec![(0b00_01_10_11_00, 0), (0b01_10_11_00_01, 1)]);
}

#[test]
fn unknown_bytes_read_as_a() {
    let s = Seeder::new_start(3, 1);
    let mut with_n = Vec::new();
    let mut with_a = Vec::new();
    s.get_seeds(b"NgT", &mut with_n);
    s.get_seeds(b"AGT", &mut with_a);
    assert_eq!(with_n, with_a);
    assert_eq!(with_n, vec![(0b00_10_11, 0)]);
}

#[test]
fn appends_after_existing_entries() {
    let s = Seeder::new_start(5, 1);
    let mut res = vec![(7u128, 99usize)];
    s.get_seeds(b"ACGTA", &mut res);
    assert_eq!(res, vec![(7, 99), (0b00_01_10_11_00, 0)]);
}

#[test]
fn short_sequence_has_no_seeds() {
    let s = Seeder::new_start(21, 11);
    let mut res = Vec::new();
    s.get_seeds(&pseudo_random_bases(20, 1), &mut res);
    assert!(res.is_empty());
    let m = ModMinimizer::new_original(5, 3);
    let mut res2 = Vec::new();
    m.get_seeds(b"ACGTAC", &mut res2);
    assert!(res2.is_empty());
    let sub = SubsampledMinimizer::new(5, 3);
    let mut res3 = Vec::new();
    sub.get_seeds(b"ACGTAC", &mut res3);
    assert!(res3.is_empty());
}

#[test]
fn syncmer_positions_strictly_increase() {
    let seq = pseudo_random_bases(5000, 3);
    for s in [
        Seeder::new_start(21, 11),
        Seeder::new_mid(31, 11),
        Seeder::new_closed_syncmer(31, 11),
        Seeder::new_optimal_closed_syncmer(41, 11),
        Seeder::new_distance_lower_bound(51, 11),
    ] {
        let mut res = Vec::new();
        s.get_seeds(&seq, &mut res);
        assert!(!res.is_empty());
        assert!(res.windows(2).all(|p| p[0].1 < p[1].1));
        assert!(res.len() <= seq.len() - s.k + 1);
    }
}

#[test]
fn distance_lower_bound_holds_between_seeds() {
    let seq = pseudo_random_bases(20000, 5);
    for k in [21, 31, 41, 51, 61] {
        let s = Seeder::new_distance_lower_bound(k, 11);
        let mut res = Vec::new();
        s.get_seeds(&seq, &mut res);
        let bound = s.distance_lower_bound();
        assert!(res.windows(2).all(|p| p[1].1 - p[0].1 >= bound));
    }
}

#[test]
fn scanning_twice_gives_identical_seeds() {
    let seq = pseudo_random_bases(3000, 7);
    let s = Seeder::new_distance_lower_bound(31, 11);
    let (mut a, mut b) = (Vec::new(), Vec::new());
    s.get_seeds(&seq, &mut a);
    s.get_seeds(&seq, &mut b);
    assert_eq!(a, b);
    let m = ModMinimizer::new_dw(31, 11);
    let (mut c, mut d) = (Vec::new(), Vec::new());
    m.get_seeds(&seq, &mut c);
    m.get_seeds(&seq, &mut d);
    assert_eq!(c, d);
}

#[test]
fn start_syncmer_on_long_sequence() {
    let seq = pseudo_random_bases(100_000, 0);
    let s = Seeder::new_start(21, 11);
    let mut first = Vec::new();
    let mut second = Vec::new();
    s.get_seeds(&seq, &mut first);
    s.get_seeds(&seq, &mut second);
    assert_eq!(first, second);
    // about one k-mer in 11 is an open syncmer
    assert!(first.len() > 100_000 / 20 && first.len() < 100_000 / 5);
}

#[test]
fn mod_minimizer_presets() {
    let m = ModMinimizer::new_original(5, 3);
    assert_eq!((m.k, m.w, m.s, m.l), (5, 3, 5, 7));
    let m = ModMinimizer::new_dw(31, 11);
    assert_eq!((m.k, m.w, m.s, m.l), (31, 11, 9, 41));
    let m = ModMinimizer::new_dw(12, 10);
    assert_eq!((m.k, m.w, m.s, m.l), (12, 8, 6, 21));
}

#[test]
fn mod_minimizer_short_example() {
    let m = ModMinimizer::new_original(5, 3);
    let mut res = Vec::new();
    m.get_seeds(b"ACGTACGTAC", &mut res);
    assert!(!res.is_empty() && res.len() <= 4);
    assert!(res.windows(2).all(|p| p[0] != p[1]));
    assert!(res.windows(2).all(|p| p[0].1 < p[1].1));
    for (kmer, pos) in &res {
        assert_eq!(kmer.as_slice(), &b"ACGTACGTAC"[*pos..*pos + 5]);
    }
}

#[test]
fn mod_minimizer_positions_strictly_increase() {
    let seq = pseudo_random_bases(5000, 11);
    for m in [ModMinimizer::new_original(21, 11), ModMinimizer::new_dw(12, 10)] {
        let mut res = Vec::new();
        m.get_seeds(&seq, &mut res);
        assert!(res.windows(2).all(|p| p[0].1 < p[1].1));
        assert!(res.len() <= seq.len() - m.k + 1);
    }
}

#[test]
fn subsampled_presets() {
    let m = SubsampledMinimizer::new(31, 11);
    assert_eq!((m.l, m.k, m.w, m.s), (41, 31, 11, 21));
    let m = SubsampledMinimizer::new(5, 10);
    assert_eq!((m.l, m.k, m.w, m.s), (14, 5, 10, 3));
}

#[test]
fn subsampled_positions_strictly_increase() {
    let seq = pseudo_random_bases(5000, 13);
    for m in [SubsampledMinimizer::new(21, 11), SubsampledMinimizer::new(5, 10)] {
        let mut res = Vec::new();
        m.get_seeds(&seq, &mut res);
        assert!(!res.is_empty());
        assert!(res.windows(2).all(|p| p[0].1 < p[1].1));
        for (kmer, pos) in &res {
            assert_eq!(kmer.as_slice(), &seq[*pos..*pos + m.k]);
        }
    }
}

#[test]
fn subsampled_keeps_a_repeated_selection_once() {
    // a run of one base: every window selects the same kind of k-mer
    let seq = vec![b'A'; 40];
    let m = SubsampledMinimizer::new(7, 5);
    let mut res = Vec::new();
    m.get_seeds(&seq, &mut res);
    assert!(res.windows(2).all(|p| p[0] != p[1]));
    assert!(res.windows(2).all(|p| p[0].1 < p[1].1));
}
