use burnside::bag_draw::{count, count2, count3, simple_count};

fn ordered_picks(n: u64, k: u64) -> u64 {
    (n - k + 1..=n).product()
}

#[test]
fn test() {
    assert_eq!(1, count(1, &mut vec![1, 0, 0]));
    assert_eq!(2, count(1, &mut vec![1, 0, 1]));
    assert_eq!(3, count(1, &mut vec![1, 1, 1]));
    assert_eq!(1, count(1, &mut vec![2, 0, 0]));
    assert_eq!(1, count(2, &mut vec![2, 0, 0]));
    assert_eq!(0, count(3, &mut vec![2, 0, 0]));
    assert_eq!(2, count(1, &mut vec![2, 1, 0]));
    assert_eq!(3, count(2, &mut vec![2, 1, 0]));
    assert_eq!(3, count(3, &mut vec![2, 1, 0]));
    assert_eq!(90, count(5, &mut vec![2, 2, 2]));
    assert_eq!(ordered_picks(4, 2), count(2, &mut vec![1, 1, 1, 1]));
    assert_eq!(24, count(3, &mut vec![1, 1, 1, 1]));
}

#[test]
fn test2() {
    assert_eq!(1, count2(1, &mut vec![0, 1, 0]));
    assert_eq!(2, count2(1, &mut vec![0, 2, 0]));
    assert_eq!(3, count2(1, &mut vec![0, 3, 0]));
    assert_eq!(1, count2(1, &mut vec![0, 0, 1]));
    assert_eq!(1, count2(2, &mut vec![0, 0, 1]));
    assert_eq!(0, count2(3, &mut vec![0, 0, 1]));
    assert_eq!(2, count2(1, &mut vec![0, 1, 1]));
    assert_eq!(3, count2(2, &mut vec![0, 1, 1]));
    assert_eq!(3, count2(3, &mut vec![0, 1, 1]));
    assert_eq!(90, count2(5, &mut vec![0, 0, 3]));
    assert_eq!(2, count2(1, &mut vec![0, 2]));
}

#[test]
fn test_simple_count_scenarios() {
    // five weight-1 draws from three colours with quota two each
    assert_eq!(90, simple_count(5, 3, 2));
    // no draws at all: exactly one assignment
    assert_eq!(1, simple_count(0, 3, 2));
    // quota zero blocks every draw
    assert_eq!(0, simple_count(1, 3, 0));
}

#[test]
fn test_count3_matches_weighted_draws() {
    // one weight-1 draw from the histogram 0,1,1 behaves like count2
    assert_eq!(2, count3(&vec![1], &mut vec![0, 1, 1]));
    assert_eq!(90, count3(&vec![1, 1, 1, 1, 1], &mut vec![0, 0, 3]));
    // a weight-2 draw consumes two units at once
    assert_eq!(3, count3(&vec![2], &mut vec![0, 0, 3]));
    // two paired draws and two single draws, eight colours of quota two:
    // the even-ring corner-flip shape
    assert_eq!(
        count3(&vec![2, 2, 1, 1], &mut vec![0, 0, 3]),
        count3(&vec![2, 2, 1, 1], &mut vec![0, 0, 3])
    );
}

#[test]
fn test_count_restores_quotas() {
    let mut left = vec![2u8, 1, 0];
    let _ = count(2, &mut left);
    assert_eq!(left, vec![2u8, 1, 0]);
    let mut hist = vec![0u64, 2, 1];
    let _ = count2(2, &mut hist);
    assert_eq!(hist, vec![0u64, 2, 1]);
}
