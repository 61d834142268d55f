use puzzles::days::day13::{part1, part2, Input, Mirror};

const INPUT: &str = "\
#.##..##.
..#.##.#.
##......#
##......#
..#.##.#.
..##..##.
#.#.##.#.

#...##..#
#....#..#
..##..###
#####.##.
#####.##.
..##..###
#....#..#";

#[test]
fn day13_test_part1() {
    assert_eq!(405, part1(Input::from_str(INPUT).unwrap()));
}

#[test]
fn day13_test_part2() {
    assert_eq!(400, part2(Input::from_str(INPUT).unwrap()));
}

#[test]
fn day13_reads_patterns_as_bits() {
    let m = Mirror::from_str("#.#\n.##").unwrap();
    assert_eq!(Mirror { size: (2, 3), rows: vec![0b101, 0b011], cols: vec![0b10, 0b01, 0b11] }, m);
    let uneven = Mirror::from_str("#\n.##").unwrap();
    assert_eq!(Mirror { size: (2, 1), rows: vec![0b1, 0b011], cols: vec![0b11] }, uneven);
    assert!(Mirror::from_str("").is_err());
    assert!(Mirror::from_str(&"#".repeat(33)).is_err());
    assert!(Mirror::from_str(&"#".repeat(32)).is_ok());
    assert!(Mirror::from_str("#\u{e9}").is_err());
    assert!(Input::from_str("#.\n\n").is_err());
    assert_eq!(2, Input::from_str(INPUT).unwrap().mirrors.len());
    assert_eq!(Input::from_str(INPUT).unwrap(), Input::from_str(INPUT).unwrap());
}

#[test]
fn day13_lines_of_reflection() {
    assert_eq!(Some(2), Mirror::find_symmetry(&[1, 2, 2, 1], None));
    assert_eq!(Some(1), Mirror::find_symmetry(&[5, 5, 7, 9], None));
    assert_eq!(Some(3), Mirror::find_symmetry(&[4, 7, 9, 9], None));
    assert_eq!(None, Mirror::find_symmetry(&[1, 2, 3, 4], None));
    assert_eq!(None, Mirror::find_symmetry(&[1], None));
    assert_eq!(Some(2), Mirror::find_symmetry(&[1, 2, 2, 1], Some(0)));
    assert_eq!(None, Mirror::find_symmetry(&[5, 5, 7, 9], Some(3)));
    assert_eq!(Some(3), Mirror::find_symmetry(&[4, 7, 9, 9], Some(3)));
    let input = Input::from_str(INPUT).unwrap();
    assert_eq!(Some(5), input.mirrors[0].symmetry_value(None));
    assert_eq!(Some(400), input.mirrors[1].symmetry_value(None));
    assert_eq!(300, input.mirrors[0].symmetry_value_with_flip());
    assert_eq!(100, input.mirrors[1].symmetry_value_with_flip());
}

#[test]
fn day13_flipping_a_tile() {
    let mut m = Mirror::from_str("#.#\n.##").unwrap();
    m.flip_one((0, 1));
    assert_eq!(Mirror::from_str("###\n.##").unwrap(), m);
    m.flip_one((1, 2));
    assert_eq!(Mirror::from_str("###\n.#.").unwrap(), m);
    m.flip_one((1, 2));
    m.flip_one((0, 1));
    assert_eq!(Mirror::from_str("#.#\n.##").unwrap(), m);
}
