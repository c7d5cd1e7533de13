//! Tests of the initial-partition builders and the local-search engine.

use districting::base::{PartitionError, Problem, State};
use districting::local_search::{init_sol, local_search, run_pass};

#[test]
fn tiling_two_by_two() {
    // the divisible case: exact tiling must produce two districts of two
    // cells each, and neither reaches a majority of fifty votes per member
    let votes = vec![vec![60, 10], vec![10, 60]];
    let pb = Problem::new(2, 2, 2, votes, 50);
    let sol = init_sol(&pb).expect("tiling must cover a 2 x 2 grid");
    let mut sizes: Vec<usize> = sol.circonscriptions.iter().map(|c| c.len()).collect();
    sizes.sort();
    assert_eq!(sizes, vec![2, 2]);
    for row in sol.grid.iter() {
        for &cell in row.iter() {
            assert!(cell == 1 || cell == 2);
        }
    }
    for c in sol.circonscriptions.iter() {
        assert_eq!(c.get_votes(&pb), 70);
    }
    // 70 votes against the rule's 100: no district wins
    assert_eq!(sol.get_score(&pb), 0);
    assert!(sol.is_valid(&pb));
}

#[test]
fn probabilistic_fill_nine_cells_two_districts() {
    // the non-divisible case: the randomized fill must terminate within its
    // retry budget with districts of sizes four and five and no cell left
    let votes = vec![vec![10; 3]; 3];
    let pb = Problem::new(3, 3, 2, votes, 50);
    let sol = init_sol(&pb).expect("probabilistic fill must succeed on 3 x 3");
    let mut sizes: Vec<usize> = sol.circonscriptions.iter().map(|c| c.len()).collect();
    sizes.sort();
    assert_eq!(sizes, vec![4, 5]);
    for row in sol.grid.iter() {
        for &cell in row.iter() {
            assert!(cell == 1 || cell == 2);
        }
    }
}

#[test]
fn tiling_fails_without_a_pattern() {
    // a 4 x 1 strip as one district: the only tile covering it has a
    // perimeter estimate beyond the compactness radius, so no pattern fits
    let votes = vec![vec![10], vec![10], vec![10], vec![10]];
    let pb = Problem::new(4, 1, 1, votes, 50);
    assert!(matches!(init_sol(&pb), Err(PartitionError::SearchExhausted)));
}

#[test]
fn search_skips_district_with_empty_domain() {
    // a single-cell district whose ball is fully clipped: swap targets are
    // empty and the engine must pass over it without effect
    let votes = vec![vec![60]];
    let pb = Problem::new(1, 1, 1, votes, 50);
    let mut sol = State::new_empty(&pb);
    assert!(sol.update_grid((0, 0), 1, &pb).is_ok());
    assert!(sol.circonscriptions[0].swap_available().is_empty());
    let before = sol.get_score(&pb);
    assert_eq!(before, 1);
    let mut visited: Vec<Vec<Vec<usize>>> = Vec::new();
    let completed = local_search(&pb, &mut sol, 16, &mut visited);
    assert!(completed);
    assert_eq!(sol.get_score(&pb), 1);
    assert_eq!(sol.grid[0][0], 1);
}

#[test]
fn search_never_decreases_the_score() {
    let votes = vec![vec![60, 10], vec![10, 60]];
    let pb = Problem::new(2, 2, 2, votes, 50);
    let mut sol = init_sol(&pb).expect("tiling must cover a 2 x 2 grid");
    let before = sol.get_score(&pb);
    let mut visited: Vec<Vec<Vec<usize>>> = Vec::new();
    let completed = local_search(&pb, &mut sol, 64, &mut visited);
    assert!(completed);
    assert!(sol.get_score(&pb) >= before);
    // swaps exchange single cells, so the size balance survives the search
    assert!(sol.is_valid(&pb));
}

#[test]
fn search_on_probabilistic_start() {
    let votes = vec![
        vec![60, 10, 10],
        vec![10, 60, 10],
        vec![10, 10, 60],
    ];
    let pb = Problem::new(3, 3, 2, votes, 50);
    let mut sol = init_sol(&pb).expect("probabilistic fill must succeed on 3 x 3");
    let before = sol.get_score(&pb);
    let mut visited: Vec<Vec<Vec<usize>>> = Vec::new();
    local_search(&pb, &mut sol, 64, &mut visited);
    let after = sol.get_score(&pb);
    assert!(after >= before);
    for row in sol.grid.iter() {
        for &cell in row.iter() {
            assert!(cell == 1 || cell == 2);
        }
    }
}

#[test]
fn strict_pass_without_improvement_changes_nothing() {
    // on this grid no reachable 2-2 partition wins a district, so a strict
    // pass must keep no swap and leave the score where it was
    let votes = vec![vec![60, 10], vec![10, 60]];
    let pb = Problem::new(2, 2, 2, votes, 50);
    let mut sol = init_sol(&pb).expect("tiling must cover a 2 x 2 grid");
    let mut visited: Vec<Vec<Vec<usize>>> = Vec::new();
    let mut allow_neutral = false;
    let kept = run_pass(&pb, &mut sol, &mut visited, &mut allow_neutral);
    assert!(!kept);
    assert!(!allow_neutral);
    assert_eq!(sol.get_score(&pb), 0);
}
