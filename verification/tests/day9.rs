use puzzles::days::day9::{differences, get_next, get_previous, part1, part2, Input};

const INPUT: &str = "\
0 3 6 9 12 15
1 3 6 10 15 21
10 13 16 21 30 45";

#[test]
fn day9_input_from_str() {
    let expected = Input {
        stories: vec![
            vec![0, 3, 6, 9, 12, 15],
            vec![1, 3, 6, 10, 15, 21],
            vec![10, 13, 16, 21, 30, 45],
        ],
    };
    assert_eq!(expected, Input::from_str(INPUT).unwrap());
}

#[test]
fn test_get_next() {
    assert_eq!(18, get_next(&[0, 3, 6, 9, 12, 15]));
    assert_eq!(28, get_next(&[1, 3, 6, 10, 15, 21]));
    assert_eq!(68, get_next(&[10, 13, 16, 21, 30, 45]));
}

#[test]
fn day9_test_part1() {
    assert_eq!(114, part1(Input::from_str(INPUT).unwrap()));
}

#[test]
fn day9_get_previous() {
    assert_eq!(-3, get_previous(&[0, 3, 6, 9, 12, 15]));
    assert_eq!(0, get_previous(&[1, 3, 6, 10, 15, 21]));
    assert_eq!(5, get_previous(&[10, 13, 16, 21, 30, 45]));
}

#[test]
fn day9_part2_adds_the_previous_values() {
    assert_eq!(2, part2(Input::from_str(INPUT).unwrap()));
}

#[test]
fn day9_differences_and_edge_cases() {
    assert_eq!(vec![3, 3, 3], differences(&[0, 3, 6, 9]));
    assert_eq!(Vec::<i64>::new(), differences(&[7]));
    assert_eq!(Vec::<i64>::new(), differences(&[]));
    assert_eq!(0, get_next(&[]));
    assert_eq!(0, get_next(&[0, 0, 0]));
    assert_eq!(7, get_next(&[7]));
    assert_eq!(7, get_previous(&[7]));
    assert_eq!(-2, get_next(&[4, 2, 0]));
}

#[test]
fn day9_rejects_malformed_text() {
    assert!(Input::from_str("1 2 x").is_err());
    assert!(Input::from_str("1 2 99999999999999999999").is_err());
    assert!(Input::from_str("1 2 \u{e9}").is_err());
    assert_eq!(Input { stories: vec![vec![-1, 2], vec![]] }, Input::from_str("-1 +2\n\n").unwrap());
    assert_eq!(Input::from_str(INPUT).unwrap(), Input::from_str(INPUT).unwrap());
}
