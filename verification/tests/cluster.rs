use handyxmutter::cluster::{
    assign, mul_wide, product_is_less, reaches_similarity, squared_length_of, SpeakerRegistry,
    DEFAULT_MAX_SPEAKERS, DEFAULT_SIMILARITY_THRESHOLD, MAX_COUNT, MAX_DIMENSION, SIMILARITY_ONE,
};

fn vector(seed: u32, len: usize) -> Vec<i16> {
    let mut state = seed.wrapping_mul(2654435761).wrapping_add(12345);
    (0..len)
        .map(|_| {
            state = state.wrapping_mul(1664525).wrapping_add(1013904223);
            ((state >> 16) as i32 - 32768) as i16
        })
        .collect()
}

fn cosine(a: &[i16], b: &[i16]) -> f64 {
    let dot: f64 = a.iter().zip(b).map(|(&x, &y)| x as f64 * y as f64).sum();
    let na: f64 = a.iter().map(|&x| x as f64 * x as f64).sum();
    let nb: f64 = b.iter().map(|&x| x as f64 * x as f64).sum();
    if na == 0.0 || nb == 0.0 {
        0.0
    } else {
        dot / (na.sqrt() * nb.sqrt())
    }
}

#[test]
fn defaults_and_limits() {
    assert_eq!(DEFAULT_MAX_SPEAKERS, 6);
    assert_eq!(DEFAULT_SIMILARITY_THRESHOLD, 500_000);
    assert_eq!(SIMILARITY_ONE, 1_000_000);
    assert_eq!(MAX_DIMENSION, 8192);
    assert_eq!(MAX_COUNT, 1 << 20);
}

#[test]
fn wide_products() {
    assert_eq!(mul_wide(0, 0), (0, 0));
    assert_eq!(mul_wide(3, 4), (0, 12));
    assert_eq!(mul_wide(1 << 64, 1 << 64), (1, 0));
    assert_eq!(mul_wide(u128::MAX, 1), (0, u128::MAX));
    assert_eq!(mul_wide(u128::MAX, 2), (1, u128::MAX - 1));
    assert_eq!(mul_wide(u128::MAX, u128::MAX), (u128::MAX - 1, 1));
    assert_eq!(mul_wide((1 << 100) + 7, (1 << 90) + 5), (1 << 62, (5 << 100) + (7 << 90) + 35));
}

#[test]
fn products_are_compared_past_128_bits() {
    assert!(product_is_less(2, 3, 7, 1));
    assert!(!product_is_less(2, 3, 6, 1));
    assert!(!product_is_less(7, 1, 2, 3));
    assert!(product_is_less(u128::MAX, u128::MAX - 1, u128::MAX, u128::MAX));
    assert!(!product_is_less(u128::MAX, u128::MAX, u128::MAX, u128::MAX));
    assert!(product_is_less(1 << 127, 2, (1 << 127) + 1, 2));
    assert!(!product_is_less(1 << 127, 4, 1 << 126, 8));
}

#[test]
fn squared_lengths() {
    assert_eq!(squared_length_of(&vec![3, 4]), 25);
    assert_eq!(squared_length_of(&vec![]), 0);
    assert_eq!(squared_length_of(&vec![0, 0, 0]), 0);
    assert_eq!(squared_length_of(&vec![-32768; 8192]), 8192u64 << 30);
}

#[test]
fn similarity_is_compared_exactly() {
    // The cosine of (1, 0) and (3, 4) is 0.6.
    assert!(reaches_similarity(&vec![1, 0], &vec![3, 4], 600_000));
    assert!(reaches_similarity(&vec![1, 0], &vec![3, 4], 599_999));
    assert!(!reaches_similarity(&vec![1, 0], &vec![3, 4], 600_001));
    assert!(reaches_similarity(&vec![-1, 0], &vec![3, 4], -600_000));
    assert!(!reaches_similarity(&vec![-1, 0], &vec![3, 4], -599_999));
    // The same direction has similarity one, whatever the lengths.
    assert!(reaches_similarity(&vec![3, 4], &vec![6, 8], 1_000_000));
    assert!(!reaches_similarity(&vec![3, 4], &vec![6, 8], 1_000_001));
    assert!(!reaches_similarity(&vec![3, 4], &vec![3, 5], 1_000_000));
    assert!(reaches_similarity(&vec![3, 4], &vec![-3, -4], -1_000_000));
    assert!(!reaches_similarity(&vec![3, 4], &vec![-3, -4], -999_999));
    // A right angle has similarity zero.
    assert!(reaches_similarity(&vec![1, 0], &vec![0, 1], 0));
    assert!(!reaches_similarity(&vec![1, 0], &vec![0, 1], 1));
    // The cosine of (1, 0) and (1, 1) is 0.70710678...
    assert!(reaches_similarity(&vec![1, 0], &vec![1, 1], 707_106));
    assert!(!reaches_similarity(&vec![1, 0], &vec![1, 1], 707_107));
}

#[test]
fn similarity_with_a_zero_vector_is_zero() {
    assert!(reaches_similarity(&vec![0, 0], &vec![3, 4], 0));
    assert!(!reaches_similarity(&vec![0, 0], &vec![3, 4], 1));
    assert!(reaches_similarity(&vec![3, 4], &vec![0, 0], 0));
    assert!(!reaches_similarity(&vec![3, 4], &vec![0, 0], 1));
    assert!(reaches_similarity(&vec![0, 0], &vec![0, 0], -5));
}

#[test]
fn every_threshold_is_taken() {
    assert!(reaches_similarity(&vec![3, 4], &vec![-3, -4], i64::MIN));
    assert!(!reaches_similarity(&vec![3, 4], &vec![3, 4], i64::MAX));
    assert!(reaches_similarity(&vec![0, 0], &vec![3, 4], i64::MIN));
}

#[test]
fn similarity_follows_the_cosine_in_floating_point() {
    for seed in 0..200u32 {
        let len = 1 + (seed as usize * 7) % 300;
        let a = vector(seed, len);
        let b = vector(seed + 1000, len);
        let cos = cosine(&a, &b);
        let below = ((cos - 0.000001) * 1_000_000.0).floor() as i64;
        let above = ((cos + 0.000001) * 1_000_000.0).ceil() as i64;
        assert!(reaches_similarity(&a, &b, below));
        assert!(!reaches_similarity(&a, &b, above));
        assert_eq!(reaches_similarity(&a, &b, below), reaches_similarity(&b, &a, below));
    }
}

#[test]
fn the_first_embedding_founds_speaker_zero() {
    let mut registry = SpeakerRegistry::new(2);
    assert_eq!(registry.len(), 0);
    assert_eq!(registry.embedding_dimension(), 2);
    let id = assign(&vec![100, 0], &mut registry, 6, 500_000);
    assert_eq!(id, 0);
    assert_eq!(registry.len(), 1);
    assert_eq!(registry.centroid(0), vec![100, 0]);
    assert_eq!(registry.sum(0), vec![100, 0]);
    assert_eq!(registry.count(0), 1);
}

#[test]
fn a_similar_embedding_joins_and_the_centroid_is_the_mean() {
    let mut registry = SpeakerRegistry::new(2);
    assert_eq!(assign(&vec![100, 0], &mut registry, 6, 500_000), 0);
    assert_eq!(assign(&vec![100, 50], &mut registry, 6, 500_000), 0);
    assert_eq!(registry.len(), 1);
    assert_eq!(registry.count(0), 2);
    assert_eq!(registry.sum(0), vec![200, 50]);
    assert_eq!(registry.centroid(0), vec![100, 25]);
    assert_eq!(assign(&vec![100, 100], &mut registry, 6, 500_000), 0);
    assert_eq!(registry.count(0), 3);
    assert_eq!(registry.sum(0), vec![300, 150]);
    assert_eq!(registry.centroid(0), vec![100, 50]);
}

#[test]
fn the_centroid_is_rounded_toward_zero() {
    let mut registry = SpeakerRegistry::new(2);
    assert_eq!(assign(&vec![10, -10], &mut registry, 1, 0), 0);
    assert_eq!(assign(&vec![11, -11], &mut registry, 1, 0), 0);
    assert_eq!(registry.sum(0), vec![21, -21]);
    assert_eq!(registry.centroid(0), vec![10, -10]);
    assert_eq!(assign(&vec![13, -13], &mut registry, 1, 0), 0);
    assert_eq!(registry.centroid(0), vec![11, -11]);
}

#[test]
fn the_centroid_is_the_mean_of_all_embeddings_assigned() {
    let mut registry = SpeakerRegistry::new(8);
    let mut total = [0i64; 8];
    for n in 1..=200u32 {
        let e = vector(n, 8);
        assert_eq!(assign(&e, &mut registry, 1, 0), 0);
        for k in 0..8 {
            total[k] += e[k] as i64;
        }
        assert_eq!(registry.sum(0), total.to_vec());
        assert_eq!(registry.count(0), n as u64);
        let centroid = registry.centroid(0);
        for k in 0..8 {
            let mean = total[k] as f64 / n as f64;
            assert!((centroid[k] as f64 - mean).abs() < 1.0);
            assert_eq!(centroid[k] as i64, total[k] / n as i64);
        }
    }
}

#[test]
fn a_dissimilar_embedding_founds_a_new_speaker() {
    let mut registry = SpeakerRegistry::new(2);
    assert_eq!(assign(&vec![100, 0], &mut registry, 6, 500_000), 0);
    assert_eq!(assign(&vec![0, 100], &mut registry, 6, 500_000), 1);
    assert_eq!(assign(&vec![-100, 0], &mut registry, 6, 500_000), 2);
    assert_eq!(registry.len(), 3);
    assert_eq!(registry.centroid(2), vec![-100, 0]);
}

#[test]
fn a_similarity_equal_to_the_threshold_joins() {
    let mut registry = SpeakerRegistry::new(2);
    assert_eq!(assign(&vec![3, 4], &mut registry, 6, 600_000), 0);
    // The cosine of (1, 0) and (3, 4) is exactly 0.6.
    assert_eq!(assign(&vec![1, 0], &mut registry, 6, 600_000), 0);
    assert_eq!(registry.len(), 1);
}

#[test]
fn a_similarity_just_below_the_threshold_founds() {
    let mut registry = SpeakerRegistry::new(2);
    assert_eq!(assign(&vec![3, 4], &mut registry, 6, 600_001), 0);
    assert_eq!(assign(&vec![1, 0], &mut registry, 6, 600_001), 1);
    assert_eq!(registry.len(), 2);
}

#[test]
fn with_one_speaker_everything_is_speaker_zero() {
    let mut registry = SpeakerRegistry::new(3);
    let embeddings: Vec<Vec<i16>> = vec![
        vec![100, 0, 0],
        vec![0, 100, 0],
        vec![0, 0, 100],
        vec![-100, -100, -100],
        vec![0, 0, 0],
        vec![32767, -32768, 1],
    ];
    for e in &embeddings {
        assert_eq!(assign(e, &mut registry, 1, 500_000), 0);
        assert_eq!(registry.len(), 1);
    }
    assert_eq!(registry.count(0), 6);
}

#[test]
fn no_more_speakers_than_the_limit() {
    let mut registry = SpeakerRegistry::new(3);
    let embeddings: Vec<Vec<i16>> = vec![
        vec![100, 0, 0],
        vec![0, 100, 0],
        vec![0, 0, 100],
        vec![-100, 0, 0],
        vec![0, -100, 0],
        vec![0, 0, -100],
        vec![100, 100, 100],
    ];
    let mut ids: Vec<usize> = Vec::new();
    for e in &embeddings {
        let id = assign(e, &mut registry, 2, 500_000);
        assert!(id <= 1);
        assert!(registry.len() <= 2);
        ids.push(id);
    }
    assert_eq!(registry.len(), 2);
    // (0, 0, 100) is at a right angle to both: a tie, the first speaker wins.
    assert_eq!(ids, vec![0, 1, 0, 1, 0, 1, 0]);
}

#[test]
fn a_full_registry_takes_the_best_match_below_the_threshold() {
    let mut registry = SpeakerRegistry::new(2);
    assert_eq!(assign(&vec![100, 0], &mut registry, 2, 900_000), 0);
    assert_eq!(assign(&vec![0, 100], &mut registry, 2, 900_000), 1);
    // Similar to neither by the threshold, but nearer to the second.
    assert_eq!(assign(&vec![30, 40], &mut registry, 2, 900_000), 1);
    assert_eq!(assign(&vec![40, 30], &mut registry, 2, 900_000), 0);
    assert_eq!(registry.len(), 2);
    assert_eq!(registry.sum(0), vec![140, 30]);
    assert_eq!(registry.sum(1), vec![30, 140]);
}

#[test]
fn equal_similarity_goes_to_the_lower_identity() {
    let mut registry = SpeakerRegistry::new(2);
    assert_eq!(assign(&vec![100, 0], &mut registry, 2, 900_000), 0);
    assert_eq!(assign(&vec![0, 100], &mut registry, 2, 900_000), 1);
    assert_eq!(registry.best_speaker_match(&vec![50, 50]), 0);
    assert_eq!(registry.best_speaker_match(&vec![3, 4]), 1);
    assert_eq!(registry.best_speaker_match(&vec![4, 3]), 0);
    assert_eq!(assign(&vec![50, 50], &mut registry, 2, 900_000), 0);
}

#[test]
fn identical_embeddings_in_a_row_get_the_same_speaker() {
    let mut registry = SpeakerRegistry::new(2);
    assert_eq!(assign(&vec![100, 0], &mut registry, 6, 500_000), 0);
    let first = assign(&vec![-7, 90], &mut registry, 6, 500_000);
    let second = assign(&vec![-7, 90], &mut registry, 6, 500_000);
    assert_eq!(first, 1);
    assert_eq!(second, first);
    assert_eq!(registry.len(), 2);
}

#[test]
fn a_full_registry_keeps_the_speaker_of_an_embedding_that_comes_again() {
    let mut registry = SpeakerRegistry::new(2);
    assert_eq!(assign(&vec![10, 9], &mut registry, 2, 1_000_000), 0);
    assert_eq!(assign(&vec![13, 11], &mut registry, 2, 1_000_000), 1);
    assert_eq!(assign(&vec![1, 1], &mut registry, 2, 1_000_000), 0);
    // The mean of (10, 9) and (1, 1) is (5.5, 5): the sum holds it exactly.
    assert_eq!(registry.sum(0), vec![11, 10]);
    assert_eq!(registry.count(0), 2);
    assert_eq!(assign(&vec![1, 1], &mut registry, 2, 1_000_000), 0);
    assert_eq!(assign(&vec![1, 1], &mut registry, 2, 1_000_000), 0);
    assert_eq!(registry.sum(0), vec![13, 12]);
    assert_eq!(registry.count(0), 4);
    assert_eq!(registry.count(1), 1);
}

#[test]
fn an_embedding_that_comes_again_keeps_its_speaker_whatever_came_before() {
    for seed in 0..300u32 {
        let limit = 1 + (seed as usize % 4);
        let threshold = [-1_000_000i64, 0, 500_000, 900_000, 1_000_000][seed as usize % 5];
        let magnitude = [1i16, 3, 10, 1000][(seed as usize / 5) % 4];
        let mut registry = SpeakerRegistry::new(3);
        for k in 0..6 {
            let e: Vec<i16> = vector(seed * 7 + k, 3).iter().map(|&x| x % (magnitude + 1)).collect();
            assign(&e, &mut registry, limit, threshold);
        }
        let e: Vec<i16> = vector(seed + 5000, 3).iter().map(|&x| x % (magnitude + 1)).collect();
        if e.iter().all(|&x| x == 0) {
            continue;
        }
        let first = assign(&e, &mut registry, limit, threshold);
        let second = assign(&e, &mut registry, limit, threshold);
        let third = assign(&e, &mut registry, limit, threshold);
        assert_eq!(second, first);
        assert_eq!(third, first);
    }
}

#[test]
fn a_limit_of_zero_records_nothing() {
    let mut registry = SpeakerRegistry::new(2);
    assert_eq!(assign(&vec![100, 0], &mut registry, 0, 500_000), 0);
    assert_eq!(assign(&vec![0, 100], &mut registry, 0, 500_000), 0);
    assert_eq!(registry.len(), 0);
}

#[test]
fn a_threshold_above_one_is_never_reached() {
    let mut registry = SpeakerRegistry::new(2);
    assert_eq!(assign(&vec![1, 0], &mut registry, 2, 1_000_001), 0);
    assert_eq!(assign(&vec![1, 0], &mut registry, 2, 1_000_001), 1);
    // The registry is full now: the best match is taken.
    assert_eq!(assign(&vec![1, 0], &mut registry, 2, 1_000_001), 0);
    assert_eq!(registry.len(), 2);
}

#[test]
fn a_threshold_of_one_is_reached_by_the_same_direction() {
    let mut registry = SpeakerRegistry::new(2);
    assert_eq!(assign(&vec![3, 4], &mut registry, 6, 1_000_000), 0);
    assert_eq!(assign(&vec![3, 4], &mut registry, 6, 1_000_000), 0);
    assert_eq!(assign(&vec![6, 8], &mut registry, 6, 1_000_000), 0);
    assert_eq!(registry.sum(0), vec![12, 16]);
    assert_eq!(assign(&vec![3, 5], &mut registry, 6, 1_000_000), 1);
}

#[test]
fn full_scale_embeddings_of_the_largest_dimension() {
    let mut registry = SpeakerRegistry::new(MAX_DIMENSION);
    let high: Vec<i16> = vec![32767; MAX_DIMENSION];
    let low: Vec<i16> = vec![-32768; MAX_DIMENSION];
    assert!(reaches_similarity(&high, &high, 1_000_000));
    assert!(reaches_similarity(&low, &low, 1_000_000));
    assert!(reaches_similarity(&high, &low, -1_000_000));
    assert!(!reaches_similarity(&high, &low, -999_999));
    assert_eq!(assign(&high, &mut registry, 6, 500_000), 0);
    assert_eq!(assign(&low, &mut registry, 6, 500_000), 1);
    for _ in 0..20 {
        assert_eq!(assign(&high, &mut registry, 6, 500_000), 0);
        assert_eq!(assign(&low, &mut registry, 6, 500_000), 1);
    }
    assert_eq!(registry.centroid(0), high);
    assert_eq!(registry.centroid(1), low);
    assert_eq!(registry.count(0), 21);
}

#[test]
fn a_speaker_whose_centroid_has_drifted_is_not_recognized_by_its_first_embedding() {
    let mut registry = SpeakerRegistry::new(2);
    let mut embeddings: Vec<Vec<i16>> = vec![vec![100, 0], vec![60, 80], vec![20, 98]];
    for _ in 0..6 {
        embeddings.push(vec![-20, 98]);
    }
    for e in &embeddings {
        assert_eq!(assign(e, &mut registry, 6, 500_000), 0);
    }
    assert_eq!(registry.sum(0), vec![60, 766]);
    assert_eq!(registry.centroid(0), vec![6, 85]);
    assert_eq!(registry.count(0), 9);
    // The mean has left the first embedding behind.
    assert_eq!(assign(&vec![100, 0], &mut registry, 6, 500_000), 1);
}

#[test]
fn a_sum_takes_no_more_embeddings_than_the_limit() {
    let e: Vec<i16> = vec![32767, -32768];
    let other: Vec<i16> = vec![-5, 9];
    let mut registry = SpeakerRegistry::new(2);
    for _ in 0..MAX_COUNT {
        assert_eq!(assign(&e, &mut registry, 1, 500_000), 0);
    }
    assert_eq!(registry.count(0), MAX_COUNT);
    assert_eq!(registry.sum(0), vec![32767i64 << 20, -(32768i64 << 20)]);
    assert_eq!(registry.centroid(0), e);
    // One more is given the speaker and leaves the sum as it is.
    assert_eq!(assign(&other, &mut registry, 1, 500_000), 0);
    assert_eq!(registry.count(0), MAX_COUNT);
    assert_eq!(registry.sum(0), vec![32767i64 << 20, -(32768i64 << 20)]);
    assert_eq!(registry.centroid(0), e);
    // The full sum is still compared exactly.
    assert_eq!(assign(&e, &mut registry, 2, 1_000_000), 0);
    assert_eq!(assign(&other, &mut registry, 2, 0), 1);
}
