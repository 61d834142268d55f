use puzzles::days::day21::{get_neighbors, part1, Input};

const INPUT: &str = "\
...........
.....###.#.
.###.##..#.
..#.#...#..
....#.#....
.##..S####.
.##..#...#.
.......##..
.##.#.####.
.##..##.##.
...........";

#[test]
fn day21_test_part1() {
    assert_eq!(16, part1(Input::from_str(INPUT).unwrap(), 6));
}

#[test]
fn test_get_neighbors() {
    let input = Input::from_str(INPUT).unwrap();
    assert_eq!(vec![(5, 4), (4, 5)], get_neighbors((5, 5), &input));
    assert_eq!(vec![(0, 1), (0, -1), (1, 0), (-1, 0)], get_neighbors((0, 0), &input));
}

#[test]
fn test_modulo() {
    assert_eq!(-1, -1 % 10);
    assert_eq!(0, -10 % 10);
    assert_eq!(-1, -11 % 10);
}

#[test]
fn day21_reads_the_garden() {
    let input = Input::from_str(INPUT).unwrap();
    assert_eq!((11, 11), input.size);
    assert_eq!((5, 5), input.start);
    assert_eq!('S', input.map[5][5]);
    assert!(input.is_in((0, 0)));
    assert!(input.is_in((10, 10)));
    assert!(!input.is_in((11, 0)));
    assert!(!input.is_in((0, -1)));
    let two = Input::from_str("S.\n.S#").unwrap();
    assert_eq!((2, 2), two.size);
    assert_eq!((1, 1), two.start);
    assert_eq!((0, 0), Input::from_str("...").unwrap().start);
    assert!(Input::from_str("").is_err());
    assert!(Input::from_str("S\u{e9}").is_err());
    assert_eq!(input, Input::from_str(INPUT).unwrap());
}

#[test]
fn day21_the_garden_repeats() {
    let input = Input::from_str(INPUT).unwrap();
    assert_eq!('#', input.get((1, 5)));
    assert_eq!('#', input.get((12, 16)));
    assert_eq!('#', input.get((-10, -6)));
    assert_eq!('#', input.get((-21, 5 - 22)));
    assert_eq!('S', input.get((5 - 11, 5 + 33)));
    assert_eq!('.', input.get((-11, -11)));
    assert_eq!('.', input.get((-1, -1)));
}

#[test]
fn day21_steps_on_the_endless_garden() {
    assert_eq!(1, part1(Input::from_str(INPUT).unwrap(), 0));
    assert_eq!(2, part1(Input::from_str(INPUT).unwrap(), 1));
    assert_eq!(4, part1(Input::from_str(INPUT).unwrap(), 2));
    assert_eq!(6, part1(Input::from_str(INPUT).unwrap(), 3));
    assert_eq!(50, part1(Input::from_str(INPUT).unwrap(), 10));
    assert_eq!(1594, part1(Input::from_str(INPUT).unwrap(), 50));
    assert_eq!(25, part1(Input::from_str("S").unwrap(), 4));
    assert_eq!(1, part1(Input::from_str("###\n#S#\n###").unwrap(), 2));
    assert_eq!(0, part1(Input::from_str("###\n#S#\n###").unwrap(), 3));
}
