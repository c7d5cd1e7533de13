//! Tests of the partition data structures: districts, domains, the grid
//! consistency of reassignment, and the swap operation.

use districting::base::{PartitionError, Problem, State};
use districting::util::{abs_diff, ceil_div, cell_dist};

fn small_problem() -> Problem {
    // 3 x 3 grid, 5 districts: radius = ceil(9 / 10) = 1
    let votes = vec![vec![10, 10, 10], vec![10, 10, 10], vec![10, 10, 10]];
    Problem::new(3, 3, 5, votes, 50)
}

#[test]
fn ceil_div_exact_and_rounded() {
    assert_eq!(ceil_div(9, 2), 5);
    assert_eq!(ceil_div(8, 2), 4);
    assert_eq!(ceil_div(1, 2), 1);
    assert_eq!(ceil_div(0, 3), 0);
}

#[test]
fn manhattan_distance() {
    assert_eq!(abs_diff(7, 3), 4);
    assert_eq!(abs_diff(3, 7), 4);
    assert_eq!(cell_dist(0, 0, 2, 3), 5);
    assert_eq!(cell_dist(2, 3, 0, 0), 5);
    assert_eq!(cell_dist(1, 1, 1, 1), 0);
}

#[test]
fn problem_radius() {
    let pb = small_problem();
    assert_eq!(pb.n, 9);
    assert_eq!(pb.radius, 1);
    let votes = vec![vec![1, 1], vec![1, 1]];
    let pb2 = Problem::new(2, 2, 2, votes, 50);
    assert_eq!(pb2.radius, 1);
}

#[test]
fn create_domain_is_clipped_ball() {
    let pb = small_problem();
    let mut dom = districting::base::create_domain((1, 1, 0), &pb);
    dom.sort();
    assert_eq!(dom, vec![(0, 1), (1, 0), (1, 2), (2, 1)]);
    let mut corner = districting::base::create_domain((0, 0, 0), &pb);
    corner.sort();
    assert_eq!(corner, vec![(0, 1), (1, 0)]);
}

#[test]
fn domain_excludes_members() {
    let pb = small_problem();
    let mut st = State::new_empty(&pb);
    assert!(st.update_grid((1, 1), 1, &pb).is_ok());
    assert!(st.update_grid((1, 0), 1, &pb).is_ok());
    let c = &st.circonscriptions[0];
    assert_eq!(c.len(), 2);
    assert!(!c.domain.contains(&(1, 1)));
    assert!(!c.domain.contains(&(1, 0)));
    for cell in c.domain.iter() {
        for m in c.municipalities.iter() {
            assert!(abs_diff(cell.0, m.0) + abs_diff(cell.1, m.1) <= pb.radius);
        }
    }
}

#[test]
fn update_grid_rejects_cell_outside_domain() {
    let pb = small_problem();
    let mut st = State::new_empty(&pb);
    assert!(st.update_grid((0, 0), 1, &pb).is_ok());
    // district 1 is no longer empty and (2, 2) is outside its domain
    let r = st.update_grid((2, 2), 1, &pb);
    assert_eq!(r, Err(PartitionError::InvalidAssignment));
    assert_eq!(st.grid[2][2], 0);
    assert_eq!(st.grid[0][0], 1);
}

#[test]
fn removal_restores_frontier() {
    let pb = small_problem();
    let mut st = State::new_empty(&pb);
    assert!(st.update_grid((1, 1), 1, &pb).is_ok());
    assert!(st.update_grid((1, 2), 1, &pb).is_ok());
    assert_eq!(st.circonscriptions[0].len(), 2);
    let mut c = st.circonscriptions[0].duplicate();
    c.remove_mun(1, 2, &pb);
    assert_eq!(c.len(), 1);
    // the removed cell becomes available again
    assert!(c.domain.contains(&(1, 2)));
}

/// A 3 x 3 problem with a generous radius and two two-member districts,
/// used by the swap tests.
fn two_district_state() -> (Problem, State) {
    // radius = ceil(9 / 2) = 5 for m = 1; use m = 2: ceil(9 / 4) = 3
    let votes = vec![vec![10, 20, 0], vec![0, 0, 0], vec![0, 40, 30]];
    let pb = Problem::new(3, 3, 2, votes, 50);
    assert_eq!(pb.radius, 3);
    let mut st = State::new_empty(&pb);
    assert!(st.update_grid((0, 0), 1, &pb).is_ok());
    assert!(st.update_grid((0, 1), 1, &pb).is_ok());
    assert!(st.update_grid((2, 2), 2, &pb).is_ok());
    assert!(st.update_grid((2, 1), 2, &pb).is_ok());
    (pb, st)
}

#[test]
fn swap_exchanges_assignments() {
    let (pb, mut st) = two_district_state();
    st.swap((0, 1), (2, 1), &pb);
    assert_eq!(st.grid[0][1], 2);
    assert_eq!(st.grid[2][1], 1);
    assert_eq!(st.circonscriptions[0].len(), 2);
    assert_eq!(st.circonscriptions[1].len(), 2);
}

#[test]
fn swap_is_its_own_inverse() {
    let (pb, mut st) = two_district_state();
    let before = st.get_grid();
    let score_before = st.get_score(&pb);
    st.swap((0, 1), (2, 1), &pb);
    st.swap((0, 1), (2, 1), &pb);
    assert_eq!(st.get_grid(), before);
    assert_eq!(st.get_score(&pb), score_before);
}

#[test]
fn swap_illegal_is_noop() {
    let pb = small_problem();
    let mut st = State::new_empty(&pb);
    // radius 1: the two districts are far apart, neither cell lies in the
    // other district's domain
    assert!(st.update_grid((0, 0), 1, &pb).is_ok());
    assert!(st.update_grid((2, 2), 2, &pb).is_ok());
    let before = st.get_grid();
    st.swap((0, 0), (2, 2), &pb);
    assert_eq!(st.get_grid(), before);
}

#[test]
fn score_counts_winning_districts() {
    let votes = vec![vec![60, 60], vec![10, 10]];
    let pb = Problem::new(2, 2, 2, votes, 50);
    let mut st = State::new_empty(&pb);
    assert!(st.update_grid((0, 0), 1, &pb).is_ok());
    assert!(st.update_grid((0, 1), 1, &pb).is_ok());
    assert!(st.update_grid((1, 0), 2, &pb).is_ok());
    assert!(st.update_grid((1, 1), 2, &pb).is_ok());
    // district 1 holds 120 votes > 100, district 2 holds 20
    assert_eq!(st.get_score(&pb), 1);
    assert!(st.is_valid(&pb));
}

#[test]
fn close_to_vic_shortfall_and_sentinel() {
    let (pb, st) = two_district_state();
    // district 1: 30 votes, needs 100: shortfall 70
    assert_eq!(st.circonscriptions[0].close_to_vic(&pb), 70);
    let votes = vec![vec![60, 60], vec![10, 10]];
    let pb2 = Problem::new(2, 2, 2, votes, 50);
    let mut st2 = State::new_empty(&pb2);
    assert!(st2.update_grid((0, 0), 1, &pb2).is_ok());
    assert!(st2.update_grid((0, 1), 1, &pb2).is_ok());
    // 120 votes >= 100: the sentinel is one past the threshold
    assert_eq!(st2.circonscriptions[0].close_to_vic(&pb2), 51);
}

#[test]
fn swap_heuristic_picks_cheapest_member() {
    let (pb, st) = two_district_state();
    // target (2, 1) belongs to district 2; of district 1's members only
    // (0, 1) lies in district 2's domain
    let (best, val) = st.circonscriptions[0].swap_heuristic(2, 1, &st, &pb);
    assert_eq!(best, (0, 1));
    // 40 + 50 * 2 - (20 + 70)
    assert_eq!(val, 50);
}

#[test]
fn swap_heuristic_no_candidate() {
    let pb = small_problem();
    let mut st = State::new_empty(&pb);
    assert!(st.update_grid((0, 0), 1, &pb).is_ok());
    assert!(st.update_grid((2, 2), 2, &pb).is_ok());
    // no member of district 1 lies in district 2's domain
    let (best, val) = st.circonscriptions[0].swap_heuristic(2, 2, &st, &pb);
    assert_eq!(best, (0, 0));
    assert_eq!(val, 0);
}

#[test]
fn get_votes_sums_members() {
    let (pb, st) = two_district_state();
    assert_eq!(st.circonscriptions[0].get_votes(&pb), 30);
    assert_eq!(st.circonscriptions[1].get_votes(&pb), 70);
}
