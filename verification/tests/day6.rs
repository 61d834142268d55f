use puzzles::days::day6::{count_ways, part1_2};

#[test]
fn day6_test_part1() {
    assert_eq!(288, part1_2(&[(7, 9), (15, 40), (30, 200)]));
}

#[test]
fn day6_test_part2() {
    assert_eq!(71503, part1_2(&[(71530, 940200)]));
}

#[test]
fn day6_ways_of_single_races() {
    assert_eq!(4, count_ways(7, 9));
    assert_eq!(8, count_ways(15, 40));
    assert_eq!(9, count_ways(30, 200));
    assert_eq!(0, count_ways(1, 0));
    assert_eq!(0, count_ways(0, 0));
    assert_eq!(0, count_ways(-3, -100));
    assert_eq!(0, count_ways(7, 12));
    assert_eq!(6, count_ways(7, -1));
}

#[test]
fn day6_no_race_gives_one() {
    assert_eq!(1, part1_2(&[]));
    assert_eq!(part1_2(&[(7, 9)]), part1_2(&[(7, 9)]));
}
