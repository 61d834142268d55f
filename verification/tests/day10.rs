use puzzles::days::day10::{part1, part2, Input};

const INPUT: &str = "7-F7-
.FJ|7
SJLL7
|F--J
LJ.LJ";

const INPUT2: &str = "FF7FSF7F7F7F7F7F---7
L|LJ||||||||||||F--J
FL-7LJLJ||||||LJL-77
F--JF--7||LJLJ7F7FJ-
L---JF-JLJ.||-FJLJJ7
|F|F-JF---7F7-L7L|7|
|FFJF7L7F-JF7|JL---7
7-L-JL7||F7|L7F-7F7|
L.L7LFJ|||||FJL7||LJ
L7JLJL-JLJLJL--JLJ.L";

#[test]
fn day10_test_part1() {
    assert_eq!(8, part1(Input::from_str(INPUT).unwrap()));
}

#[test]
fn day10_test_part2() {
    assert_eq!(10, part2(Input::from_str(INPUT2).unwrap()));
}

#[test]
fn test_move_next() {
    let input = Input::from_str(INPUT).unwrap();
    assert_eq!(None, input.move_next((0, 1), (1, 0)));
    assert_eq!(Some((1, 1)), input.move_next(input.start, (2, 1)));
    assert_eq!(Some((1, 2)), input.move_next((2, 1), (1, 1)));
    assert_eq!(Some((0, 2)), input.move_next((1, 1), (1, 2)));
    assert_eq!(Some((0, 3)), input.move_next((1, 2), (0, 2)));
    assert_eq!(Some((1, 3)), input.move_next((0, 2), (0, 3)));
    assert_eq!(Some((2, 3)), input.move_next((0, 3), (1, 3)));
    assert_eq!(Some((2, 4)), input.move_next((1, 3), (2, 3)));
    assert_eq!(Some((3, 4)), input.move_next((2, 3), (2, 4)));
    assert_eq!(Some((3, 3)), input.move_next((2, 4), (3, 4)));
    assert_eq!(Some((3, 2)), input.move_next((3, 4), (3, 3)));
}

#[test]
fn day10_reads_the_field_and_the_start() {
    let input = Input::from_str(INPUT).unwrap();
    assert_eq!((2, 0), input.start);
    assert_eq!(5, input.map.len());
    assert_eq!(b"7-F7-".to_vec(), input.map[0]);
    assert_eq!(b"LJ.LJ".to_vec(), input.map[4]);
    assert_eq!(input, Input::from_str(INPUT).unwrap());
}

#[test]
fn day10_move_next_stops_at_the_border() {
    let input = Input::from_str("-7\nLJ").unwrap();
    assert_eq!(None, input.move_next((0, 1), (0, 0)));
    assert_eq!(None, input.move_next((0, 0), (5, 5)));
    assert_eq!(None, input.move_next((1, 0), (0, 0)));
    assert_eq!(Some((1, 1)), input.move_next((0, 0), (0, 1)));
    assert_eq!(Some((1, 1)), input.move_next((0, 0), (1, 0)));
}

#[test]
fn day10_small_square_loop() {
    let text = "S7\nLJ";
    assert_eq!(2, part1(Input::from_str(text).unwrap()));
    assert_eq!(0, part2(Input::from_str(text).unwrap()));
    assert_eq!(part1(Input::from_str(text).unwrap()), part1(Input::from_str(text).unwrap()));
}

#[test]
fn day10_rejects_text_that_is_not_ascii() {
    assert!(Input::from_str("S7\nL\u{e9}").is_err());
}
