use dlb_sampling::metrics::{
    conservation_count, density_fraction, distances, l2_sum, MetricsError,
};
use dlb_sampling::syncmer::Seeder;

#[test]
fn density_of_short_sequence_is_zero() {
    let seeds: Vec<(u128, usize)> = Vec::new();
    assert_eq!(density_fraction(&seeds, 10, 21), (0, 0));
}

#[test]
fn density_counts_kmer_positions() {
    let seeds = vec![(1u128, 0usize), (2, 5), (3, 9)];
    assert_eq!(density_fraction(&seeds, 30, 21), (3, 10));
}

#[test]
fn density_of_scan_is_at_most_one() {
    let s = Seeder::new_start(5, 1);
    let mut res = Vec::new();
    s.get_seeds(b"ACGTACGTAC", &mut res);
    let (num, den) = density_fraction(&res, 10, 5);
    assert_eq!((num, den), (6, 6));
}

#[test]
fn conservation_counts_shared_positions() {
    let a = vec![(1u128, 0usize), (2, 10)];
    let b = vec![(2u128, 10usize), (3, 20)];
    assert_eq!(conservation_count(&a, &b, 5), 5);
    assert_eq!(conservation_count(&b, &a, 5), 5);
}

#[test]
fn conservation_merges_overlapping_spans() {
    let a = vec![(1u128, 0usize), (2, 3)];
    assert_eq!(conservation_count(&a, &a, 5), 8);
}

#[test]
fn conservation_needs_the_same_kmer() {
    let a = vec![(1u128, 0usize)];
    let b = vec![(2u128, 0usize)];
    assert_eq!(conservation_count(&a, &b, 5), 0);
}

#[test]
fn distances_refuses_empty_list() {
    let seeds: Vec<(u128, usize)> = Vec::new();
    assert_eq!(distances(&seeds), Err(MetricsError::EmptySeeds));
}

#[test]
fn distances_of_one_seed_is_empty() {
    assert_eq!(distances(&[(3u128, 5usize)]), Ok(vec![]));
}

#[test]
fn distances_sorts_positions_first() {
    let seeds = vec![(1u128, 10usize), (2, 0), (3, 4), (4, 14)];
    assert_eq!(distances(&seeds), Ok(vec![(4, 2), (6, 1)]));
}

#[test]
fn start_syncmer_gap_histogram_is_reproducible() {
    let alpha = [b'A', b'C', b'G', b'T'];
    let mut state: u64 = 0;
    let seq: Vec<u8> = (0..100_000)
        .map(|_| {
            state = state.wrapping_mul(6364136223846793005).wrapping_add(1442695040888963407);
            alpha[(state >> 62) as usize]
        })
        .collect();
    let s = Seeder::new_start(21, 11);
    let mut a = Vec::new();
    let mut b = Vec::new();
    s.get_seeds(&seq, &mut a);
    s.get_seeds(&seq, &mut b);
    let ha = distances(&a).unwrap();
    let hb = distances(&b).unwrap();
    assert_eq!(ha, hb);
    assert_eq!(ha.iter().map(|&(_, c)| c).sum::<usize>(), a.len() - 1);
    assert!(ha.windows(2).all(|p| p[0].0 < p[1].0));
    assert!(ha[0].0 >= 1);
}

#[test]
fn l2_sum_of_shared_gaps() {
    let a = vec![(1u128, 0usize), (2, 10), (3, 30)];
    let b = vec![(2u128, 10usize), (1, 0), (3, 30), (9, 50)];
    assert_eq!(l2_sum(&a, &b, 5), Some(250));
    assert_eq!(l2_sum(&b, &a, 5), Some(250));
}

#[test]
fn l2_sum_with_shared_position() {
    let a = vec![(1u128, 0usize), (2, 0), (3, 12)];
    assert_eq!(l2_sum(&a, &a, 5), Some(49));
}

#[test]
fn l2_sum_without_shared_seeds() {
    let a = vec![(1u128, 0usize)];
    let b = vec![(2u128, 0usize)];
    assert_eq!(l2_sum(&a, &b, 5), Some(0));
}

#[test]
fn conservation_and_l2_after_mutation() {
    let s = Seeder::new_distance_lower_bound(21, 11);
    let seq = b"ACGTTGCAAGGCTTACGATCGATCGGATCCATGCATGCAAGTCGATCGATTTACGGCATCGATCGACT".to_vec();
    let mut mutated = seq.clone();
    mutated[30] = if mutated[30] == b'A' { b'C' } else { b'A' };
    let (mut a, mut b) = (Vec::new(), Vec::new());
    s.get_seeds(&seq, &mut a);
    s.get_seeds(&mutated, &mut b);
    assert_eq!(conservation_count(&a, &b, 21), conservation_count(&b, &a, 21));
    assert_eq!(l2_sum(&a, &b, 21), l2_sum(&b, &a, 21));
    assert!(conservation_count(&a, &a, 21) <= seq.len());
}
