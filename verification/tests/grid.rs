use mechanism_design::grid::grid_assignments;
use std::collections::HashMap;

#[test]
fn grid_two_by_two() {
    // Same shape as a 2-value grid over 2 labels: 2^2 combinations.
    let g = grid_assignments(2, 2);
    assert_eq!(g.len(), 4);
    assert_eq!(g, vec![vec![0, 0], vec![0, 1], vec![1, 0], vec![1, 1]]);
}

#[test]
fn grid_no_labels_has_one_empty_assignment() {
    assert_eq!(grid_assignments(5, 0), vec![Vec::<usize>::new()]);
    assert_eq!(grid_assignments(0, 0), vec![Vec::<usize>::new()]);
}

#[test]
fn grid_empty_grid_has_no_assignment() {
    assert!(grid_assignments(0, 3).is_empty());
}

#[test]
fn grid_first_label_varies_slowest() {
    let g = grid_assignments(3, 2);
    assert_eq!(g.len(), 9);
    assert_eq!(g[0], vec![0, 0]);
    assert_eq!(g[1], vec![0, 1]);
    assert_eq!(g[3], vec![1, 0]);
    assert_eq!(g[8], vec![2, 2]);
    for w in g.windows(2) {
        assert!(w[0] < w[1]);
    }
}

#[test]
fn grid_counts_powers() {
    assert_eq!(grid_assignments(4, 3).len(), 64);
    assert_eq!(grid_assignments(1, 5).len(), 1);
}

#[test]
fn test_generate_misreports() {
    let labels: Vec<String> = vec!["a".into(), "b".into()];
    let grid = vec![0.0, 10.0];
    let misreports: Vec<HashMap<String, f64>> = grid_assignments(grid.len(), labels.len())
        .into_iter()
        .map(|picks| {
            labels
                .iter()
                .zip(picks)
                .map(|(l, i)| (l.clone(), grid[i]))
                .collect()
        })
        .collect();
    assert_eq!(misreports.len(), 4); // 2^2
}
