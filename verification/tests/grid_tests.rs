use tools::grid::{reachable, EMPTY, OBSTACLE};
use tools::SetMinMax;

#[test]
fn open_yard_reaches_every_square() {
    let cs = vec![EMPTY; 16];
    let mut visited = vec![0; 16];
    let mut iter = 0;
    assert!(reachable(4, &cs, 3, 3, &mut visited, &mut iter));
    assert_eq!(iter, 1);
    assert!(reachable(4, &cs, 0, 2, &mut visited, &mut iter));
    assert_eq!(iter, 2);
}

#[test]
fn blocked_entrance_reaches_nothing() {
    let mut cs = vec![EMPTY; 9];
    cs[1] = 5;
    let mut visited = vec![0; 9];
    let mut iter = 0;
    assert!(!reachable(3, &cs, 2, 2, &mut visited, &mut iter));
    assert_eq!(iter, 0);
    assert_eq!(visited, vec![0; 9]);
}

#[test]
fn blocked_entrance_with_short_storage_touches_nothing() {
    // Only the entrance is looked at; the vectors need not cover the grid.
    let cs = vec![OBSTACLE, 4];
    let mut visited: Vec<usize> = vec![];
    let mut iter = usize::MAX;
    assert!(!reachable(3, &cs, 0, 0, &mut visited, &mut iter));
    assert_eq!(iter, usize::MAX);
    assert!(visited.is_empty());
}

#[test]
fn longer_storage_and_old_marks_are_kept() {
    // Storage longer than the grid; squares cut off keep their old marks.
    let mut cs = vec![EMPTY; 12];
    cs[3] = OBSTACLE;
    cs[4] = OBSTACLE;
    cs[5] = OBSTACLE;
    let mut visited = vec![3, 0, 2, 1, 3, 0, 2, 3, 1, 7, 7, 7];
    let mut iter = 3;
    assert!(!reachable(3, &cs, 2, 2, &mut visited, &mut iter));
    assert_eq!(iter, 4);
    assert_eq!(visited, vec![4, 4, 4, 1, 3, 0, 2, 3, 1, 7, 7, 7]);
}

#[test]
fn walled_square_is_not_reached_and_marks_show_the_region() {
    // Row 1 is a wall: only the top row can be reached.
    let mut cs = vec![EMPTY; 9];
    cs[3] = OBSTACLE;
    cs[4] = 7;
    cs[5] = OBSTACLE;
    let mut visited = vec![0; 9];
    let mut iter = 0;
    assert!(!reachable(3, &cs, 2, 1, &mut visited, &mut iter));
    assert_eq!(visited, vec![1, 1, 1, 0, 0, 0, 0, 0, 0]);
    assert!(!reachable(3, &cs, 9, 9, &mut visited, &mut iter));
    assert_eq!(visited, vec![2, 2, 2, 0, 0, 0, 0, 0, 0]);
}

#[test]
fn occupied_target_is_not_reached() {
    let mut cs = vec![EMPTY; 9];
    cs[4] = 3;
    let mut visited = vec![0; 9];
    let mut iter = 0;
    assert!(!reachable(3, &cs, 1, 1, &mut visited, &mut iter));
    assert!(reachable(3, &cs, 2, 1, &mut visited, &mut iter));
}

#[test]
fn one_square_yard() {
    let cs = vec![EMPTY];
    let mut visited = vec![0];
    let mut iter = 0;
    assert!(reachable(1, &cs, 0, 0, &mut visited, &mut iter));
}

#[test]
fn setmin_and_setmax() {
    let mut a: usize = 5;
    assert!(a.setmin(3));
    assert_eq!(a, 3);
    assert!(!a.setmin(3));
    assert!(!a.setmin(4));
    assert_eq!(a, 3);
    assert!(a.setmax(9));
    assert_eq!(a, 9);
    assert!(!a.setmax(9));
    let mut b: i64 = -2;
    assert!(b.setmin(-7));
    assert!(!b.setmax(-8));
    assert_eq!(b, -7);
    let mut c: u32 = 1;
    assert!(c.setmax(2));
    let mut e: i32 = 0;
    assert!(!e.setmin(0));
    let mut f: u64 = 10;
    assert!(f.setmin(0));
    assert_eq!(f, 0);
}
