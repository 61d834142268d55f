use puzzles::geometry::{get_neighbors, manhattan_distance_i64, manhattan_distance_usize, Direction};
use puzzles::math::{gcd, gcd_vec, lcm, lcm_vec};

#[test]
fn test_manhattan_distance() {
    assert_eq!(25, manhattan_distance_i64((-2, 8), (10, -5)));
    assert_eq!(11, manhattan_distance_usize((2, 8), (10, 5)));
}

#[test]
fn manhattan_distance_is_symmetric() {
    assert_eq!(
        manhattan_distance_i64((3, -4), (-7, 9)),
        manhattan_distance_i64((-7, 9), (3, -4))
    );
    assert_eq!(manhattan_distance_usize((0, 5), (9, 1)), manhattan_distance_usize((9, 1), (0, 5)));
}

#[test]
fn manhattan_distance_obeys_the_triangle_inequality() {
    let (a, b, c) = ((0, 0), (5, -3), (2, 7));
    assert!(
        manhattan_distance_i64(a, c) <= manhattan_distance_i64(a, b) + manhattan_distance_i64(b, c)
    );
    assert_eq!(9, manhattan_distance_i64(a, c));
    assert_eq!(8, manhattan_distance_i64(a, b));
    assert_eq!(13, manhattan_distance_i64(b, c));
}

#[test]
fn manhattan_distance_of_a_point_to_itself() {
    assert_eq!(0, manhattan_distance_i64((i64::MIN, i64::MAX), (i64::MIN, i64::MAX)));
    assert_eq!(i64::MAX, manhattan_distance_i64((0, 0), (i64::MAX, 0)));
}

#[test]
fn directions_turn() {
    assert_eq!(Direction(0, 1), Direction::right());
    assert_eq!(Direction(0, -1), Direction::left());
    assert_eq!(Direction(1, 0), Direction::down());
    assert_eq!(Direction(-1, 0), Direction::up());
    assert_eq!(Direction::up(), Direction::right().turn_left());
    assert_eq!(Direction::down(), Direction::right().turn_right());
    assert_eq!(Direction::right(), Direction::down().turn_left());
    assert_eq!(Direction::left(), Direction::down().turn_right());
    assert_eq!(Direction::left(), Direction::right().reverse());
    assert_eq!(Direction::up(), Direction::down().reverse());
    assert_eq!(
        [Direction::right(), Direction::left(), Direction::down(), Direction::up()],
        Direction::compass()
    );
}

#[test]
fn neighbors_follow_the_compass() {
    assert_eq!(vec![(3, 5), (3, 3), (4, 4), (2, 4)], get_neighbors((3, 4)));
}

#[test]
fn test_gcd() {
    assert_eq!(1, gcd(7, 8));
    assert_eq!(7, gcd(28, 49));
    assert_eq!(13, gcd(13, 39));
}

#[test]
fn gcd_with_zero_and_equal_numbers() {
    assert_eq!(0, gcd(0, 0));
    assert_eq!(5, gcd(0, 5));
    assert_eq!(5, gcd(5, 0));
    assert_eq!(12, gcd(12, 12));
    assert_eq!(4, gcd(8, 12));
    assert_eq!(6, gcd(54, 24));
}

#[test]
fn test_gcd_vec() {
    let v = vec![8, 20, 48, 12];
    assert_eq!(4, gcd_vec(v));
    assert_eq!(9, gcd_vec(vec![9]));
}

#[test]
fn test_lcm() {
    assert_eq!(3, lcm(3, 1));
    assert_eq!(8, lcm(2, 8));
    assert_eq!(42, lcm(6, 7));
}

#[test]
fn test_lcm_vec() {
    let v = vec![1, 2, 3, 4, 5, 6, 7];
    assert_eq!(7 * 6 * 5 * 2, lcm_vec(v));
}

#[test]
fn gcd_times_lcm_is_the_product() {
    for (a, b) in [(1, 1), (4, 6), (21, 6), (17, 5), (1000, 350), (12, 12)] {
        assert_eq!(a * b, gcd(a, b) * lcm(a, b));
    }
    assert_eq!(12, lcm(4, 6));
    assert_eq!(2, gcd(4, 6));
}
