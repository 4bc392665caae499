use tools::grid::{EMPTY, OBSTACLE};
use tools::input::{parse_input, Input};
use tools::score::{compute_score_details, try_compute_score_details, ScoreError};

fn scored_instance() -> Input {
    parse_input("3 1\n2 2\n3\n1\n0\n4\n6\n5\n2\n")
}

const PUTS: [(usize, usize); 7] = [(2, 0), (2, 1), (1, 0), (1, 2), (0, 0), (0, 2), (1, 1)];
const TAKES: [(usize, usize); 7] = [(1, 1), (1, 0), (2, 1), (2, 0), (1, 2), (0, 0), (0, 2)];

fn full_run() -> Vec<(usize, usize)> {
    let mut v = PUTS.to_vec();
    v.extend_from_slice(&TAKES);
    v
}

#[test]
fn parse_small_instance() {
    let input = scored_instance();
    assert_eq!(input.D, 3);
    assert_eq!(input.rs, vec![(2, 2)]);
    assert_eq!(input.ts, vec![3, 1, 0, 4, 6, 5, 2]);
}

#[test]
fn full_run_counts_inversions() {
    let d = compute_score_details(&scored_instance(), &full_run());
    assert_eq!(d.error, None);
    assert_eq!(d.err(), "");
    assert_eq!(d.order, vec![2, 0, 1, 3, 4, 6, 5]);
    // 3 inversions out of a scale of 8 * 7 / 2 = 28.
    assert_eq!(d.ratio, Some((25, 28)));
    assert_eq!(d.last, Some((0, 2)));
    let mut expected = vec![EMPTY; 9];
    expected[8] = OBSTACLE;
    assert_eq!(d.cs, expected);
}

#[test]
fn only_puts_leave_containers() {
    let d = compute_score_details(&scored_instance(), &PUTS);
    assert_eq!(d.error, Some(ScoreError::Remaining));
    assert_eq!(d.err(), "Containers are still remaining.");
    assert_eq!(d.ratio, Some((28, 28)));
    assert_eq!(d.cs, vec![6, EMPTY, 5, 0, 2, 4, 3, 1, OBSTACLE]);
    assert!(d.order.is_empty());
}

#[test]
fn no_actions_at_all() {
    let d = compute_score_details(&scored_instance(), &[]);
    assert_eq!(d.error, Some(ScoreError::Remaining));
    assert_eq!(d.last, None);
}

#[test]
fn putting_on_the_entrance_is_refused() {
    let d = compute_score_details(&scored_instance(), &[(0, 1)]);
    assert_eq!(d.ratio, None);
    assert_eq!(d.error, Some(ScoreError::Entrance(0, 1)));
    assert_eq!(d.err(), "You cannot put containers on the entrance (0, 1)");
    assert_eq!(d.last, Some((0, 1)));
}

#[test]
fn putting_on_an_obstacle_is_refused() {
    let d = compute_score_details(&scored_instance(), &[(2, 2)]);
    assert_eq!(d.error, Some(ScoreError::Obstacle(2, 2)));
    assert_eq!(d.err(), "(2, 2) contains an obstacle");
}

#[test]
fn putting_twice_on_a_square_is_refused() {
    let d = compute_score_details(&scored_instance(), &[(2, 0), (2, 0)]);
    assert_eq!(d.error, Some(ScoreError::Occupied(2, 0)));
    assert_eq!(d.err(), "(2, 0) already contains a container");
    assert_eq!(d.cs[6], 3);
}

#[test]
fn putting_behind_containers_is_refused() {
    let d = compute_score_details(&scored_instance(), &[(0, 0), (0, 2), (1, 1), (2, 0)]);
    assert_eq!(d.error, Some(ScoreError::Unreachable(2, 0)));
    assert_eq!(d.err(), "(2, 0) is not reachalbe");
}

#[test]
fn taking_from_an_empty_square_is_refused() {
    let mut out = PUTS.to_vec();
    out.push((0, 1));
    let d = compute_score_details(&scored_instance(), &out);
    assert_eq!(d.error, Some(ScoreError::NoContainer(0, 1)));
    assert_eq!(d.err(), "(0, 1) does not contain a container");
    let mut out = PUTS.to_vec();
    out.push((2, 2));
    let d = compute_score_details(&scored_instance(), &out);
    assert_eq!(d.error, Some(ScoreError::NoContainer(2, 2)));
}

#[test]
fn taking_from_behind_is_refused_and_undone() {
    let mut out = PUTS.to_vec();
    out.push((2, 0));
    let d = compute_score_details(&scored_instance(), &out);
    assert_eq!(d.error, Some(ScoreError::Unreachable(2, 0)));
    assert_eq!(d.cs[6], 3);
    assert!(d.order.is_empty());
}

#[test]
fn a_square_past_the_row_end_names_the_next_row() {
    // (0, 3) is stored where (1, 0) is, but the walk looks for (0, 3) itself.
    let d = compute_score_details(&scored_instance(), &[(0, 3)]);
    assert_eq!(d.error, Some(ScoreError::Unreachable(0, 3)));
}

#[test]
fn a_square_outside_the_storage_cannot_be_scored() {
    assert!(try_compute_score_details(&scored_instance(), &[(3, 0)]).is_none());
    assert!(try_compute_score_details(&scored_instance(), &[(usize::MAX, 1)]).is_none());
}

#[test]
fn an_instance_that_cannot_be_set_up_cannot_be_scored() {
    let zero = Input { D: 0, rs: vec![], ts: vec![] };
    assert!(try_compute_score_details(&zero, &[]).is_none());
    let outside = Input { D: 2, rs: vec![(2, 0)], ts: vec![0, 1] };
    assert!(try_compute_score_details(&outside, &[]).is_none());
    let full = Input { D: 1, rs: vec![(0, 0)], ts: vec![] };
    assert!(try_compute_score_details(&full, &[]).is_none());
}

#[test]
fn running_out_of_containers_cannot_be_scored() {
    let short = Input { D: 2, rs: vec![], ts: vec![0] };
    assert!(try_compute_score_details(&short, &[(1, 1), (1, 0)]).is_none());
}

#[test]
fn error_messages() {
    assert_eq!(ScoreError::Obstacle(12, 345).message(), "(12, 345) contains an obstacle");
    assert_eq!(
        ScoreError::NoContainer(0, 10).message(),
        "(0, 10) does not contain a container"
    );
}

#[test]
fn containers_are_kept_midway() {
    let mut out = PUTS.to_vec();
    out.extend_from_slice(&TAKES[..3]);
    let d = compute_score_details(&scored_instance(), &out);
    assert_eq!(d.error, Some(ScoreError::Remaining));
    let mut all: Vec<usize> =
        d.cs.iter().copied().filter(|&c| c != EMPTY && c != OBSTACLE).collect();
    all.extend_from_slice(&d.order);
    all.sort();
    assert_eq!(all, vec![0, 1, 2, 3, 4, 5, 6]);
    assert_eq!(d.order, vec![2, 0, 1]);
    // Two inversions so far (2 before 0, 2 before 1) on a scale of 28.
    assert_eq!(d.ratio, Some((26, 28)));
}

#[test]
fn actions_after_a_refusal_change_nothing() {
    // The third action puts on the obstacle at (2, 2) and is refused.
    let head = vec![(2, 0), (2, 1), (2, 2)];
    let short = compute_score_details(&scored_instance(), &head);
    let mut longer = head.clone();
    longer.extend_from_slice(&[(1, 0), (0, 1), (7, 7)]);
    let long = compute_score_details(&scored_instance(), &longer);
    assert_eq!(short.error, Some(ScoreError::Obstacle(2, 2)));
    assert_eq!(long.error, short.error);
    assert_eq!(long.ratio, None);
    assert_eq!(long.cs, short.cs);
    assert_eq!(long.order, short.order);
    assert_eq!(long.last, Some((2, 2)));
}

#[test]
fn refused_action_leaves_the_yard_as_before() {
    let before = compute_score_details(&scored_instance(), &[(2, 0), (2, 1)]);
    let after = compute_score_details(&scored_instance(), &[(2, 0), (2, 1), (2, 1)]);
    assert_eq!(after.error, Some(ScoreError::Occupied(2, 1)));
    assert_eq!(after.cs, before.cs);
    assert_eq!(after.order, before.order);
    assert_eq!(after.last, Some((2, 1)));
}

#[test]
fn obstacles_stay_and_entrance_stays_empty() {
    let input = scored_instance();
    let out = full_run();
    for k in 0..=out.len() {
        let d = compute_score_details(&input, &out[..k]);
        assert_eq!(d.cs[8], OBSTACLE);
        assert_eq!(d.cs[1], EMPTY);
        assert_eq!(d.cs.iter().filter(|&&v| v == OBSTACLE).count(), 1);
    }
}
