use ant_system::ant::{
    get_best_path, get_path_distance, get_pheramones, get_vaporise_matrix,
    reinforce_and_evaporate, sample_tour, update_pheromones,
};
use ant_system::errors::AcoError;
use ant_system::matrix::Matrix;
use ant_system::weight::{edge_reinforcement, edge_weight};

fn equilateral() -> Matrix {
    // [[0, 1, 1], [1, 0, 1], [1, 1, 0]] in thousandths.
    Matrix::from_cells(3, vec![0, 1000, 1000, 1000, 0, 1000, 1000, 1000, 0]).unwrap()
}

#[test]
fn matrix_shape_is_checked() {
    let r = Matrix::from_cells(3, vec![0, 1, 2, 3]);
    assert!(matches!(r, Err(AcoError::InvalidMatrixShape)));
    let ok = Matrix::from_cells(2, vec![0, 5, 5, 0]);
    assert!(ok.is_ok());
}

#[test]
fn matrix_reads_missing_cells_as_zero() {
    let m = equilateral();
    assert_eq!(m.get(0, 1), 1000);
    assert_eq!(m.get_or_zero(0, 1), 1000);
    assert_eq!(m.get_or_zero(7, 7), 0);
}

#[test]
fn edge_weight_matches_formula() {
    // Weights count billionths.  Distance 1.0, no pheromone: (1/1)^3 = 1.0.
    assert_eq!(edge_weight(1000, 0), 1_000_000_000);
    // Distance 2.0: (1/2)^3 = 0.125.
    assert_eq!(edge_weight(2000, 0), 125_000_000);
    // Distance 20.0: (1/20)^3 = 0.000125.
    assert_eq!(edge_weight(20000, 0), 125_000);
    // Zero distance reads as 0.001: (1/0.001)^3 = 1e9.
    assert_eq!(edge_weight(0, 0), 1_000_000_000_000_000_000);
    // Pheromone 2.0 on distance 1.0: 1 + 4 = 5.0.
    assert_eq!(edge_weight(1000, 2000), 5_000_000_000);
}

#[test]
fn edge_reinforcement_matches_formula() {
    assert_eq!(edge_reinforcement(1000), 1000);
    assert_eq!(edge_reinforcement(2000), 125);
    assert_eq!(edge_reinforcement(0), 1_000_000_000_000);
}

#[test]
fn equilateral_tour_is_a_two_edge_path_of_length_two() {
    let dist = equilateral();
    let pher = Matrix::zeros(3);
    for _ in 0..50 {
        let tour = sample_tour(&dist, &pher).unwrap();
        assert_eq!(tour.len(), 2);
        let mut seen = [false; 3];
        let (a, b) = tour[0];
        let (c, d) = tour[1];
        assert_eq!(b, c, "edges must chain");
        for n in [a, b, d] {
            assert!(n < 3);
            assert!(!seen[n], "node visited twice");
            seen[n] = true;
        }
        assert!(seen.iter().all(|&s| s));
        assert_eq!(get_path_distance(&tour, &dist), 2000);
    }
}

#[test]
fn sampled_tour_covers_all_nodes() {
    let n = 6;
    let mut cells = vec![0u64; n * n];
    for i in 0..n {
        for j in 0..n {
            if i != j {
                cells[i * n + j] = 1000 + 100 * ((i + j) as u64);
            }
        }
    }
    let dist = Matrix::from_cells(n, cells).unwrap();
    let pher = Matrix::zeros(n);
    for _ in 0..20 {
        let tour = sample_tour(&dist, &pher).unwrap();
        assert_eq!(tour.len(), n - 1);
        let mut seen = vec![false; n];
        seen[tour[0].0] = true;
        for k in 0..tour.len() {
            let (a, b) = tour[k];
            if k + 1 < tour.len() {
                assert_eq!(b, tour[k + 1].0);
            }
            assert!(!seen[b]);
            seen[b] = true;
            assert!(a < n && b < n);
        }
        assert!(seen.iter().all(|&s| s));
    }
}

#[test]
fn starved_weights_are_reported_not_guessed() {
    // Distance 2000.0 with no pheromone: the selection weight (1/2000)^3
    // is below the smallest representable billionth, so every candidate
    // weighs zero and the sampler must refuse rather than pick blindly.
    let dist = Matrix::from_cells(2, vec![0, 2_000_000, 2_000_000, 0]).unwrap();
    let pher = Matrix::zeros(2);
    let r = sample_tour(&dist, &pher);
    assert!(matches!(r, Err(AcoError::NoReachableNode)));
}

#[test]
fn trivial_matrices_give_empty_tours() {
    let dist0 = Matrix::from_cells(0, vec![]).unwrap();
    let pher0 = Matrix::zeros(0);
    assert_eq!(sample_tour(&dist0, &pher0).unwrap().len(), 0);
    let dist1 = Matrix::from_cells(1, vec![0]).unwrap();
    let pher1 = Matrix::zeros(1);
    assert_eq!(sample_tour(&dist1, &pher1).unwrap().len(), 0);
}

#[test]
fn tour_length_ignores_edge_order() {
    let dist = equilateral();
    let path1 = vec![(0usize, 1usize), (1usize, 2usize)];
    let path2 = vec![(1usize, 2usize), (0usize, 1usize)];
    assert_eq!(get_path_distance(&path1, &dist), get_path_distance(&path2, &dist));
    assert_eq!(get_path_distance(&path1, &dist), 2000);
}

#[test]
fn tour_length_defaults_missing_entries_to_zero() {
    let dist = equilateral();
    let path = vec![(0usize, 1usize), (5usize, 9usize)];
    assert_eq!(get_path_distance(&path, &dist), 1000);
}

#[test]
fn best_path_is_deterministic() {
    // A field that prefers the path 0 -> 2 -> 1.
    let pher =
        Matrix::from_cells(3, vec![0, 100, 900, 100, 0, 500, 900, 500, 0]).unwrap();
    let t1 = get_best_path(&pher);
    let t2 = get_best_path(&pher);
    assert_eq!(t1, t2);
    assert_eq!(t1, vec![(0usize, 2usize), (2usize, 1usize)]);
}

#[test]
fn best_path_breaks_ties_toward_earlier_nodes() {
    // All pheromone equal: the walk keeps the first-seen candidate.
    let pher = Matrix::from_cells(3, vec![0, 7, 7, 7, 0, 7, 7, 7, 0]).unwrap();
    let t = get_best_path(&pher);
    assert_eq!(t, vec![(0usize, 1usize), (1usize, 2usize)]);
}

#[test]
fn evaporation_removes_three_tenths() {
    // A field with a single nonzero entry v: one pass removes 0.3 v,
    // leaving 0.7 v.
    let v = 1000u64;
    let field = Matrix::from_cells(2, vec![0, v, v, 0]).unwrap();
    let vap = get_vaporise_matrix(&field);
    assert_eq!(vap.get(0, 1), 300);
    assert_eq!(field.get(0, 1) - vap.get(0, 1), 700);
    assert_eq!(vap.get(0, 0), 0);
}

#[test]
fn sampling_pass_lays_symmetric_pheromone() {
    let dist = equilateral();
    let pher = Matrix::zeros(3);
    let laid = get_pheramones(&dist, &pher).unwrap();
    let mut nonzero = 0;
    for i in 0..3 {
        for j in 0..3 {
            assert_eq!(laid.get(i, j), laid.get(j, i));
            if laid.get(i, j) > 0 {
                nonzero += 1;
                // Every traversed unit edge lays (1/1)^3 = 1.0.
                assert_eq!(laid.get(i, j), 1000);
            }
        }
    }
    // Two edges, each stored in both orientations.
    assert_eq!(nonzero, 4);
}

#[test]
fn one_micro_step_lays_then_evaporates() {
    // From a zero field on the unit triangle, one micro-step leaves
    // evaporated(0 + 1.0) = 0.7 on both orientations of each of the two
    // traversed edges and zero everywhere else.
    let dist = equilateral();
    let mut pher = Matrix::zeros(3);
    reinforce_and_evaporate(&mut pher, &dist).unwrap();
    let mut seven_hundreds = 0;
    for i in 0..3 {
        for j in 0..3 {
            let v = pher.get(i, j);
            assert!(v == 0 || v == 700, "unexpected cell {v}");
            assert_eq!(v, pher.get(j, i));
            if v == 700 {
                seven_hundreds += 1;
            }
        }
    }
    assert_eq!(seven_hundreds, 4);
}

#[test]
fn update_keeps_field_symmetric_and_nonnegative() {
    let dist = equilateral();
    let mut pher = Matrix::zeros(3);
    for _ in 0..3 {
        update_pheromones(&mut pher, &dist).unwrap();
        for i in 0..3 {
            for j in 0..3 {
                assert_eq!(pher.get(i, j), pher.get(j, i));
                // Evaporation keeps the field under the fixed ceiling.
                assert!(pher.get(i, j) <= 2_333_333_333_337);
            }
        }
    }
    // Off-diagonal cells must have accumulated something by now.
    assert!((0..3).any(|i| (0..3).any(|j| pher.get(i, j) > 0)));
}
