use ant_system::errors::AcoError;
use ant_system::matrix::Matrix;
use ant_system::mds::{isqrt, mds_coordinates, mds_gram};

#[test]
fn isqrt_rounds_down() {
    assert_eq!(isqrt(0), 0);
    assert_eq!(isqrt(1), 1);
    assert_eq!(isqrt(10), 3);
    assert_eq!(isqrt(16), 4);
    assert_eq!(isqrt(1_000_000_000_000_000_000), 1_000_000_000);
    assert_eq!(isqrt(u64::MAX as u128), 4_294_967_295);
}

#[test]
fn gram_of_a_unit_pair_is_centered() {
    // Two nodes at distance 1.0: squared distances [[0, 1], [1, 0]]
    // double-center (scaled by 2 n² = 8) to [[2, -2], [-2, 2]] in the
    // squared fixed-point unit.
    let dist = Matrix::from_cells(2, vec![0, 1000, 1000, 0]).unwrap();
    let g = mds_gram(&dist);
    assert_eq!(g.len(), 4);
    assert_eq!(g[0], 2_000_000);
    assert_eq!(g[1], -2_000_000);
    assert_eq!(g[2], -2_000_000);
    assert_eq!(g[3], 2_000_000);
}

#[test]
fn gram_rows_sum_to_zero() {
    let dist = Matrix::from_cells(
        3,
        vec![0, 1000, 2000, 1000, 0, 1500, 2000, 1500, 0],
    )
    .unwrap();
    let g = mds_gram(&dist);
    for i in 0..3 {
        let row: i128 = (0..3).map(|j| g[i * 3 + j]).sum();
        assert_eq!(row, 0, "double-centered rows sum to zero");
    }
}

#[test]
fn coordinates_scale_eigenvectors() {
    // One strong axis (eigenvalue 4.0) and one flat axis (eigenvalue 0):
    // sqrt(4.0) = 2.0 stretches the first axis, the second collapses.
    let vals: Vec<i64> = vec![4000, 0];
    let vecs: Vec<Vec<i64>> = vec![vec![707, -707], vec![707, 707]];
    let coords = mds_coordinates(&vals, &vecs, 2).unwrap();
    assert_eq!(coords.len(), 2);
    assert_eq!(coords[0], vec![1414, 0]);
    assert_eq!(coords[1], vec![-1414, 0]);
}

#[test]
fn known_planar_points_round_trip() {
    // Two points 2.0 apart on a line.  The double-centered Gram matrix
    // (scaled by 2 n² and squared thousandths) is [[8e6, -8e6], [-8e6, 8e6]],
    // with the hand-computed eigenpair (2.0, (1, -1)/sqrt(2)).  Feeding
    // that pair back reproduces the pairwise distance within tolerance.
    let dist = Matrix::from_cells(2, vec![0, 2000, 2000, 0]).unwrap();
    let g = mds_gram(&dist);
    assert_eq!(g, vec![8_000_000, -8_000_000, -8_000_000, 8_000_000]);
    let vals: Vec<i64> = vec![2000, 0];
    let vecs: Vec<Vec<i64>> = vec![vec![707, -707], vec![707, 707]];
    let coords = mds_coordinates(&vals, &vecs, 2).unwrap();
    let dx = coords[0][0] - coords[1][0];
    let dy = coords[0][1] - coords[1][1];
    let reconstructed = ((dx * dx + dy * dy) as f64).sqrt();
    assert!((reconstructed - 2000.0).abs() <= 5.0, "got {reconstructed}");
}

#[test]
fn negative_selected_eigenvalue_is_rejected() {
    let vals: Vec<i64> = vec![5000, -1];
    let vecs: Vec<Vec<i64>> = vec![vec![1000, 0], vec![0, 1000]];
    let r = mds_coordinates(&vals, &vecs, 2);
    assert!(matches!(r, Err(AcoError::NonEuclideanEmbedding)));
    // Taking only the non-negative leading axis succeeds.
    let r1 = mds_coordinates(&vals, &vecs, 1);
    assert!(r1.is_ok());
}
