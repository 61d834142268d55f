use puzzles::days::day17::{
    find_min_heat_loss, get_positions, get_possible_next_directions, part1, part2, Input,
};
use puzzles::geometry::Direction;

const CITY: &str = "\
2413432311323
3215453535623
3255245654254
3446585845452
4546657867536
1438598798454
4457876987766
3637877979653
4654967986887
4564679986453
1224686865563
2546548887735
4322674655533";

const LANE: &str = "\
111111111111
999999999991
999999999991
999999999991
999999999991";

#[test]
fn day17_test_input() {
    let input = Input::from_str(CITY).unwrap();
    assert_eq!((13, 13), input.size);
    assert_eq!(2, input.get_cost((0, 0)));
    assert_eq!(8, input.get_cost((4, 7)));
    assert_eq!(3, input.get_cost((12, 12)));
}

#[test]
fn test_get_positions() {
    let input = Input::from_str(CITY).unwrap();
    let expected = vec![
        ((7, 11), Direction(0, 1), 27),
        ((7, 12), Direction(0, 1), 30),
        ((7, 3), Direction(0, -1), 29),
        ((7, 2), Direction(0, -1), 32),
        ((7, 1), Direction(0, -1), 38),
        ((7, 0), Direction(0, -1), 41),
    ];
    assert_eq!(expected, get_positions(&input, (7, 7), 4, 10, Some(Direction::down())));
}

#[test]
fn day17_test_part1() {
    assert_eq!(102, part1(Input::from_str(CITY).unwrap()));
}

#[test]
fn day17_test_part2() {
    assert_eq!(94, part2(Input::from_str(CITY).unwrap()));
    assert_eq!(71, part2(Input::from_str(LANE).unwrap()));
}

#[test]
fn day17_next_directions() {
    assert_eq!(
        vec![Direction(0, 1), Direction(1, 0), Direction(0, -1), Direction(-1, 0)],
        get_possible_next_directions(None)
    );
    let right = Direction::right();
    assert_eq!(
        vec![right.turn_left(), right.turn_right()],
        get_possible_next_directions(Some(right))
    );
}

#[test]
fn day17_positions_from_a_corner() {
    let input = Input::from_str("123\n456\n789").unwrap();
    assert_eq!(
        vec![
            ((0, 1), Direction(0, 1), 2),
            ((0, 2), Direction(0, 1), 5),
            ((1, 0), Direction(1, 0), 4),
            ((2, 0), Direction(1, 0), 11),
        ],
        get_positions(&input, (0, 0), 1, 3, None)
    );
    assert!(get_positions(&input, (0, 0), 3, 3, None).is_empty());
    assert!(get_positions(&input, (1, 1), 1, 0, None).is_empty());
    assert!(input.is_in((2, 2)));
    assert!(!input.is_in((3, 0)));
    assert!(!input.is_in((0, -1)));
}

#[test]
fn day17_heat_is_capped() {
    let input = Input { map: vec![vec![1, 4000000000, 4000000000]], size: (1, 3) };
    assert_eq!(
        vec![((0, 1), Direction(0, 1), 4000000000), ((0, 2), Direction(0, 1), u32::MAX)],
        get_positions(&input, (0, 0), 1, 3, Some(Direction::down()))
    );
}

#[test]
fn day17_least_heat_on_a_small_city() {
    // Along the first row and down the last column costs 2 + 3 + 6 + 9;
    // down the first column and along the last row costs 4 + 7 + 8 + 9.
    let input = Input::from_str("123\n456\n789").unwrap();
    assert_eq!(20, find_min_heat_loss(input, (0, 0), (2, 2), 1, 3));
    let input = Input::from_str("123\n456\n789").unwrap();
    assert_eq!(20, find_min_heat_loss(input, (0, 0), (2, 2), 2, 2));
    let input = Input::from_str("923\n451\n789").unwrap();
    // No two legs lead the same way: 3 + 1 + 5 + 8.
    assert_eq!(17, find_min_heat_loss(input, (0, 1), (2, 1), 1, 1));
    let input = Input::from_str("19\n11").unwrap();
    assert_eq!(2, find_min_heat_loss(input, (0, 0), (1, 1), 1, 1));
}

#[test]
fn day17_rejects_what_is_no_city() {
    assert!(Input::from_str("").is_err());
    assert!(Input::from_str("12a").is_err());
    assert!(Input::from_str("12\n3 4").is_err());
    assert!(Input::from_str("1\u{b2}").is_err());
}

#[test]
fn day17_parts_are_the_same_on_every_call() {
    let a = Input::from_str(CITY).unwrap();
    let b = Input::from_str(CITY).unwrap();
    assert_eq!(a, b);
    assert_eq!(part1(a), part1(b));
}
