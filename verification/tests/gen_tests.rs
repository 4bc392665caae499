use tools::generate::{check_layout, gen};
use tools::grid::{reachable, EMPTY, OBSTACLE};
use tools::input::Input;

fn check_instance(input: &Input, n: usize) {
    let d = input.D;
    // Obstacles: distinct, away from the entrance.
    for (k, &(i, j)) in input.rs.iter().enumerate() {
        assert!(i < d && j < d);
        assert!(i + j.abs_diff(d / 2) >= 2);
        assert!(!input.rs[..k].contains(&(i, j)));
    }
    // Containers: each of 0..D*D-1-n once.
    let m = d * d - 1 - n;
    assert_eq!(input.ts.len(), m);
    let mut sorted = input.ts.clone();
    sorted.sort();
    assert_eq!(sorted, (0..m).collect::<Vec<_>>());
    // Every free square can be walked to.
    let mut cs = vec![EMPTY; d * d];
    for &(i, j) in &input.rs {
        cs[i * d + j] = OBSTACLE;
    }
    let mut visited = vec![0; d * d];
    let mut iter = 0;
    for i in 0..d {
        for j in 0..d {
            if cs[i * d + j] == EMPTY {
                assert!(reachable(d, &cs, i, j, &mut visited, &mut iter));
            }
        }
    }
}

#[test]
fn default_instance_is_valid() {
    for seed in 0..5 {
        let input = gen(seed, None, None).unwrap();
        assert_eq!(input.D, 9);
        let n = input.rs.len();
        assert!(n <= 9);
        check_instance(&input, n);
    }
}

#[test]
fn fixed_sizes_are_used() {
    let input = gen(3, Some(5), Some(4)).unwrap();
    assert_eq!(input.D, 5);
    assert_eq!(input.rs.len(), 4);
    check_instance(&input, 4);
}

#[test]
fn more_obstacles_than_room_keeps_all_candidates() {
    // A 3 x 3 yard has 5 squares away from the entrance; asking for 6 keeps 5
    // obstacles while the containers are counted for 6.
    match gen(1, Some(3), Some(6)) {
        Some(input) => {
            assert!(input.rs.len() <= 5);
            assert_eq!(input.ts.len(), 2);
        }
        None => unreachable!(),
    }
}

#[test]
fn tiny_yard() {
    let input = gen(7, Some(1), Some(0)).unwrap();
    assert_eq!(input.D, 1);
    assert!(input.rs.is_empty());
    assert!(input.ts.is_empty());
}

#[test]
fn same_seed_same_instance() {
    let a = gen(42, None, None).unwrap();
    let b = gen(42, None, None).unwrap();
    assert_eq!(a.rs, b.rs);
    assert_eq!(a.ts, b.ts);
}

#[test]
fn containers_arrive_shuffled() {
    let input = gen(0, None, None).unwrap();
    let sorted: Vec<usize> = (0..input.ts.len()).collect();
    assert_ne!(input.ts, sorted);
}

#[test]
fn obstacle_count_varies_with_the_seed() {
    let counts: Vec<usize> = (0..20).map(|s| gen(s, None, None).unwrap().rs.len()).collect();
    assert!(counts.iter().any(|&c| c != counts[0]));
}

#[test]
fn one_square_yard_with_a_drawn_obstacle_count() {
    // The count is drawn from 0..=1; with 1 there is no room for containers.
    for seed in 0..8 {
        match gen(seed, Some(1), None) {
            Some(input) => {
                assert!(input.rs.is_empty());
                assert!(input.ts.is_empty());
            }
            None => {}
        }
    }
}

#[test]
fn no_obstacles_always_succeeds() {
    for seed in 0..3 {
        let input = gen(seed, Some(6), Some(0)).unwrap();
        assert!(input.rs.is_empty());
        assert_eq!(input.ts.len(), 35);
    }
}

#[test]
fn layouts_are_checked_for_walls() {
    let mut visited = vec![0; 9];
    let mut iter = 0;
    // Obstacles at (1, 0) and (2, 1) wall in the corner (2, 0).
    assert!(!check_layout(3, 9, &vec![(1, 0), (2, 1)], &mut visited, &mut iter));
    assert!(check_layout(3, 9, &vec![(2, 1)], &mut visited, &mut iter));
    assert!(check_layout(3, 9, &vec![], &mut visited, &mut iter));
    assert_eq!(iter, 3);
}
