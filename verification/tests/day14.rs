use puzzles::days::day14::{part1, part2, same_grid, Input};
use puzzles::geometry::Direction;

const INPUT: &str = "\
O....#....
O.OO#....#
.....##...
OO.#O....O
.O.....O#.
O.#..O.#.#
..O..#O..O
.......O..
#....###..
#OO..#....";

fn rows(input: &Input) -> Vec<String> {
    input.map.iter().map(|r| r.iter().collect()).collect()
}

#[test]
fn day14_test_part1() {
    assert_eq!(136, part1(Input::from_str(INPUT).unwrap()));
}

#[test]
fn day14_test_part2() {
    assert_eq!(64, part2(Input::from_str(INPUT).unwrap()));
}

#[test]
fn day14_reads_the_platform() {
    let input = Input::from_str("O.\n#O").unwrap();
    assert_eq!(Input { map: vec![vec!['O', '.'], vec!['#', 'O']], size: 2 }, input);
    assert_eq!(Input { map: vec![], size: 0 }, Input::from_str("").unwrap());
    assert!(Input::from_str("O\u{e9}").is_err());
    assert_eq!(Input::from_str(INPUT).unwrap(), Input::from_str(INPUT).unwrap());
}

#[test]
fn day14_tilts_in_every_direction() {
    let text = "O.#\n..O\nO..";
    let mut up = Input::from_str(text).unwrap();
    up.tilt(Direction::up());
    assert_eq!(vec!["O.#", "O.O", "..."], rows(&up));
    let mut down = Input::from_str(text).unwrap();
    down.tilt(Direction::down());
    assert_eq!(vec!["..#", "O..", "O.O"], rows(&down));
    let mut left = Input::from_str(text).unwrap();
    left.tilt(Direction::left());
    assert_eq!(vec!["O.#", "O..", "O.."], rows(&left));
    let mut right = Input::from_str(text).unwrap();
    right.tilt(Direction::right());
    assert_eq!(vec![".O#", "..O", "..O"], rows(&right));
}

#[test]
fn day14_load_and_single_rocks() {
    assert_eq!(3 + 2 + 1, Input::from_str("O.#\n..O\nO..").unwrap().calculate_load());
    assert_eq!(0, Input::from_str("").unwrap().calculate_load());
    let mut one = Input::from_str("...\n.O.\n...").unwrap();
    one.roll_one(1, 1, Direction::right());
    assert_eq!(vec!["...", "..O", "..."], rows(&one));
    one.roll_one(0, 0, Direction::right());
    assert_eq!(vec!["...", "..O", "..."], rows(&one));
    one.roll_one(1, 2, Direction::up());
    assert_eq!(vec!["..O", "...", "..."], rows(&one));
    assert_eq!(3, one.calculate_load());
}

#[test]
fn day14_a_spin_of_the_example() {
    let mut input = Input::from_str(INPUT).unwrap();
    input.tilt_cycle();
    assert_eq!(
        vec![
            ".....#....",
            "....#...O#",
            "...OO##...",
            ".OO#......",
            ".....OOO#.",
            ".O#...O#.#",
            "....O#....",
            "......OOOO",
            "#...O###..",
            "#..OO#....",
        ],
        rows(&input)
    );
    let copy = input.copy_map();
    assert!(same_grid(&copy, &input.map));
    input.tilt_cycle();
    assert!(!same_grid(&copy, &input.map));
}
