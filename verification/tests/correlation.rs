use snapatac2_core::correlation::{rank_correlation, spearman, spearman2, Correlation};
use snapatac2_core::rank::rank_of_bits;
use snapatac2_core::similarity::SimilarityError;

fn triple(c: &Correlation) -> (i128, i128, i128) {
    (c.covariance, c.variance_x, c.variance_y)
}

fn keys(values: &[f64]) -> Vec<u64> {
    values.iter().map(|v| rank_of_bits(v.to_bits())).collect()
}

fn coefficient(c: &Correlation) -> f64 {
    if c.variance_x == 0 || c.variance_y == 0 {
        0.0
    } else {
        c.covariance as f64 / ((c.variance_x as f64) * (c.variance_y as f64)).sqrt()
    }
}

#[test]
fn rank_correlation_of_samples_in_the_same_order() {
    let c = rank_correlation(&vec![10, 20, 30], &vec![1, 2, 3]).unwrap();
    assert_eq!(triple(&c), (24, 24, 24));
    assert_eq!(coefficient(&c), 1.0);
}

#[test]
fn rank_correlation_of_samples_in_opposite_order() {
    let c = rank_correlation(&vec![10, 20, 30], &vec![3, 2, 1]).unwrap();
    assert_eq!(triple(&c), (-24, 24, 24));
    assert_eq!(coefficient(&c), -1.0);
}

#[test]
fn rank_correlation_averages_ties() {
    let c = rank_correlation(&vec![1, 1, 2], &vec![5, 7, 7]).unwrap();
    assert_eq!(triple(&c), (9, 18, 18));
    assert_eq!(coefficient(&c), 0.5);
}

#[test]
fn rank_correlation_of_constant_sample_has_no_variance() {
    let c = rank_correlation(&vec![4, 4, 4], &vec![1, 2, 3]).unwrap();
    assert_eq!(triple(&c), (0, 0, 24));
    assert_eq!(coefficient(&c), 0.0);
}

#[test]
fn rank_correlation_of_empty_samples() {
    let c = rank_correlation(&Vec::new(), &Vec::new()).unwrap();
    assert_eq!(triple(&c), (0, 0, 0));
}

#[test]
fn rank_correlation_rejects_samples_of_different_length() {
    assert_eq!(
        rank_correlation(&vec![1, 2, 3], &vec![1, 2]).unwrap_err(),
        SimilarityError::ShapeMismatch
    );
}

#[test]
fn rank_correlation_with_itself_is_one() {
    let x = keys(&[0.5, -1.25, 3.0, 3.0, 10.0, -7.5]);
    let c = rank_correlation(&x, &x).unwrap();
    assert!(c.variance_x > 0);
    assert_eq!(c.covariance, c.variance_x);
    assert_eq!(c.covariance, c.variance_y);
    assert_eq!(coefficient(&c), 1.0);
}

#[test]
fn rank_correlation_lies_between_minus_one_and_one() {
    let mut seed: u64 = 21;
    for round in 0..200 {
        let n = 1 + round % 17;
        let mut x = Vec::new();
        let mut y = Vec::new();
        for _ in 0..n {
            seed = seed.wrapping_mul(6364136223846793005).wrapping_add(1442695040888963407);
            x.push((seed >> 33) % 7);
            seed = seed.wrapping_mul(6364136223846793005).wrapping_add(1442695040888963407);
            y.push((seed >> 33) % 5);
        }
        let c = rank_correlation(&x, &y).unwrap();
        assert!(c.variance_x >= 0);
        assert!(c.variance_y >= 0);
        assert!(c.covariance * c.covariance <= c.variance_x * c.variance_y);
        let r = coefficient(&c);
        assert!(-1.0 <= r && r <= 1.0);
        let d = rank_correlation(&y, &x).unwrap();
        assert_eq!(triple(&d), (c.covariance, c.variance_y, c.variance_x));
    }
}

#[test]
fn rank_correlation_follows_the_order_of_numbers() {
    let x = keys(&[-2.0, -0.5, 0.0, 1.5, 1.0e9]);
    let y = keys(&[0.001, 0.002, 0.5, 70.0, f64::INFINITY]);
    let c = rank_correlation(&x, &y).unwrap();
    assert_eq!(coefficient(&c), 1.0);
}

#[test]
fn spearman2_correlates_every_pair_of_rows() {
    let mat = vec![vec![10, 20, 30], vec![1, 1, 2]];
    let other = vec![vec![1, 2, 3], vec![3, 2, 1], vec![5, 7, 7]];
    let sim = spearman2(&mat, &other, 3).unwrap();
    let got: Vec<Vec<(i128, i128, i128)>> =
        sim.iter().map(|row| row.iter().map(triple).collect()).collect();
    assert_eq!(
        got,
        vec![
            vec![(24, 24, 24), (-24, 24, 24), (18, 24, 18)],
            vec![(18, 18, 24), (-18, 18, 24), (9, 18, 18)],
        ]
    );
}

#[test]
fn spearman_of_matrix_with_itself() {
    let mat = vec![vec![10, 20, 30], vec![3, 2, 1]];
    let sim = spearman(&mat, 3).unwrap();
    let got: Vec<Vec<(i128, i128, i128)>> =
        sim.iter().map(|row| row.iter().map(triple).collect()).collect();
    assert_eq!(
        got,
        vec![vec![(24, 24, 24), (-24, 24, 24)], vec![(-24, 24, 24), (24, 24, 24)]]
    );
}

#[test]
fn spearman2_rejects_rows_of_other_length() {
    let mat = vec![vec![10, 20, 30], vec![1, 1]];
    let other = vec![vec![1, 2, 3]];
    assert_eq!(spearman2(&mat, &other, 3).unwrap_err(), SimilarityError::ShapeMismatch);
    assert_eq!(spearman2(&other, &mat, 3).unwrap_err(), SimilarityError::ShapeMismatch);
    assert_eq!(spearman2(&other, &other, 2).unwrap_err(), SimilarityError::ShapeMismatch);
    assert_eq!(spearman(&mat, 3).unwrap_err(), SimilarityError::ShapeMismatch);
}

#[test]
fn spearman2_of_empty_matrices() {
    let none: Vec<Vec<u64>> = Vec::new();
    let other = vec![vec![1, 2, 3]];
    assert_eq!(spearman2(&none, &other, 3).unwrap().len(), 0);
    let sim = spearman2(&other, &none, 3).unwrap();
    assert_eq!(sim.len(), 1);
    assert_eq!(sim[0].len(), 0);
}
