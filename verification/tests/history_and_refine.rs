use ant_system::history::ScoreHistory;
use ant_system::matrix::Matrix;
use ant_system::refine::refine_cycle;

#[test]
fn history_starts_empty() {
    let h = ScoreHistory::new();
    assert_eq!(h.len(), 0);
}

#[test]
fn history_keeps_insertion_order() {
    let mut h = ScoreHistory::new();
    for v in [5u64, 7, 9] {
        h.push(v);
    }
    assert_eq!(h.len(), 3);
    assert_eq!(h.get(0), 5);
    assert_eq!(h.get(1), 7);
    assert_eq!(h.get(2), 9);
}

#[test]
fn history_is_bounded_and_evicts_oldest() {
    // After 150 pushes the history holds exactly 100 scores and its
    // first element is the 51st pushed score.
    let mut h = ScoreHistory::new();
    for v in 1..=150u64 {
        h.push(v);
        assert!(h.len() <= 100);
    }
    assert_eq!(h.len(), 100);
    assert_eq!(h.get(0), 51);
    assert_eq!(h.get(99), 150);
}

#[test]
fn refine_cycle_publishes_a_scored_tour() {
    let dist =
        Matrix::from_cells(3, vec![0, 1000, 2000, 1000, 0, 1000, 2000, 1000, 0]).unwrap();
    let mut pher = Matrix::zeros(3);
    let mut history = ScoreHistory::new();
    let (tour, score) = refine_cycle(&mut pher, &dist, &mut history).unwrap();
    assert_eq!(tour.len(), 2);
    assert_eq!(history.len(), 1);
    assert_eq!(history.get(0), score);
    // The score is the summed distance of the published tour.
    let mut expect = 0u64;
    for (a, b) in &tour {
        expect += dist.get_or_zero(*a, *b);
    }
    assert_eq!(score, expect);
    // The field stayed symmetric.
    for i in 0..3 {
        for j in 0..3 {
            assert_eq!(pher.get(i, j), pher.get(j, i));
        }
    }
}
