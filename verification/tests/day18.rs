use puzzles::days::day18::{
    calculate_area, calculate_perimeter, get_entry_part1, get_entry_part2, get_polygon_vertices,
    part1, part2, read_entry_part1, read_entry_part2, solve, Entry, Input,
};
use puzzles::geometry::Direction;

const INPUT: &str = "\
R 6 (#70c710)
D 5 (#0dc571)
L 2 (#5713f0)
D 2 (#d2c081)
R 2 (#59c680)
D 2 (#411b91)
L 5 (#8ceee2)
U 2 (#caa173)
L 1 (#1b58a2)
U 2 (#caa171)
R 2 (#7807d2)
U 3 (#a77fa3)
L 2 (#015232)
U 2 (#7a21e3)";

#[test]
fn entry_from_str() {
    assert_eq!(Entry { dir: Direction::right(), len: 6 }, get_entry_part1("R 6 (#70c710)"));
    assert_eq!(Entry { dir: Direction::right(), len: 0x70c71 }, get_entry_part2("R 6 (#70c710)"));
}

#[test]
fn test_calculate_area() {
    let rect = vec![(0, 0), (0, 5), (3, 5), (3, 0)];
    assert_eq!(15, calculate_area(&rect));
}

#[test]
fn test_calculate_perimeter() {
    assert_eq!(38, calculate_perimeter(&Input::from_str(INPUT).unwrap().entries));
}

#[test]
fn day18_test_part1() {
    assert_eq!(62, part1(Input::from_str(INPUT).unwrap()));
}

#[test]
fn day18_test_part2() {
    assert_eq!(952408144115, part2(Input::from_str(INPUT).unwrap()));
}

#[test]
fn day18_unit_square_has_area_one() {
    let entries = vec![
        Entry { dir: Direction::right(), len: 1 },
        Entry { dir: Direction::down(), len: 1 },
        Entry { dir: Direction::left(), len: 1 },
        Entry { dir: Direction::up(), len: 1 },
    ];
    let polygon = get_polygon_vertices(&entries);
    assert_eq!(vec![(0, 0), (0, 1), (1, 1), (1, 0)], polygon);
    assert_eq!(4, calculate_perimeter(&entries));
    assert_eq!(1, calculate_area(&polygon));
    assert_eq!(4, solve(&entries));
}

#[test]
fn day18_entries_of_every_direction() {
    assert_eq!(Some(Entry { dir: Direction(0, -1), len: 12 }), read_entry_part1(b"L 12 x"));
    assert_eq!(Some(Entry { dir: Direction(1, 0), len: 3 }), read_entry_part1(b"D 3"));
    assert_eq!(Some(Entry { dir: Direction(-1, 0), len: -4 }), read_entry_part1(b" U  -4 (#000000)"));
    assert_eq!(Some(Entry { dir: Direction(1, 0), len: 0xdc57 }), read_entry_part2(b"D 5 (#0dc571)"));
    assert_eq!(Some(Entry { dir: Direction(0, -1), len: 0x5713f }), read_entry_part2(b"x #5713f2"));
    assert_eq!(Some(Entry { dir: Direction(-1, 0), len: 0xCAA17 }), read_entry_part2(b"#CAA173)"));
}

#[test]
fn day18_malformed_entries() {
    assert_eq!(None, read_entry_part1(b"R"));
    assert_eq!(None, read_entry_part1(b"X 6"));
    assert_eq!(None, read_entry_part1(b"RR 6"));
    assert_eq!(None, read_entry_part1(b"R six"));
    assert_eq!(None, read_entry_part2(b"R 6 (70c710)"));
    assert_eq!(None, read_entry_part2(b"R 6 (#70c71)"));
    assert_eq!(None, read_entry_part2(b"R 6 (#70c714)"));
    assert_eq!(None, read_entry_part2(b"R 6 (#70g710)"));
    assert!(Input::from_str("R 6 (#70c710)\nD 5").is_err());
    assert!(Input::from_str("R 6 (#70c71\u{e9})").is_err());
}

#[test]
fn day18_reading_twice_gives_the_same() {
    assert_eq!(Input::from_str(INPUT).unwrap(), Input::from_str(INPUT).unwrap());
    assert_eq!(14, Input::from_str(INPUT).unwrap().actual_entries.len());
    assert_eq!(part1(Input::from_str(INPUT).unwrap()), part1(Input::from_str(INPUT).unwrap()));
}

#[test]
fn day18_empty_plan() {
    let input = Input::from_str("").unwrap();
    assert_eq!(0, input.entries.len());
    assert_eq!(1, part1(input));
}
