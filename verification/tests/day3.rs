use puzzles::days::day3::{part1, part2, Input, Number, Symbol};

const INPUT: &str = "\
467..114..
...*......
..35..633.
......#...
617*......
.....+.58.
..592.....
......755.
...$.*....
.664.598..";

#[test]
fn day3_test_part1() {
    assert_eq!(4361, part1(Input::from_str(INPUT).unwrap()));
}

#[test]
fn day3_test_part2() {
    assert_eq!(467835, part2(Input::from_str(INPUT).unwrap()));
}

#[test]
fn day3_reads_numbers_and_symbols() {
    let input = Input::from_str("12.+\n.3*45").unwrap();
    assert_eq!(
        Input {
            numbers: vec![
                Number { n: 12, pos: [(0, 0), (0, 1)] },
                Number { n: 3, pos: [(1, 1), (1, 1)] },
                Number { n: 45, pos: [(1, 3), (1, 4)] },
            ],
            symbols: vec![Symbol { c: '+', pos: (0, 3) }, Symbol { c: '*', pos: (1, 2) }],
        },
        input
    );
    assert_eq!(Input::from_str(INPUT).unwrap(), Input::from_str(INPUT).unwrap());
    assert_eq!(10, Input::from_str(INPUT).unwrap().numbers.len());
    assert_eq!(6, Input::from_str(INPUT).unwrap().symbols.len());
}

#[test]
fn day3_a_zero_is_no_number_but_its_digits_count() {
    let input = Input::from_str("0.12").unwrap();
    assert_eq!(vec![Number { n: 12, pos: [(0, 1), (0, 3)] }], input.numbers);
    let input = Input::from_str("..\n007#").unwrap();
    assert_eq!(vec![Number { n: 7, pos: [(1, 0), (1, 2)] }], input.numbers);
    assert_eq!(vec![Symbol { c: '#', pos: (1, 3) }], input.symbols);
}

#[test]
fn day3_rejects_what_cannot_be_written_down() {
    assert!(Input::from_str("2147483647").is_ok());
    assert!(Input::from_str("2147483648").is_err());
    assert!(Input::from_str("0\n5.").is_err());
    assert!(Input::from_str("1\u{e9}").is_err());
    assert_eq!(Input { numbers: vec![], symbols: vec![] }, Input::from_str("").unwrap());
}

#[test]
fn day3_frame_of_a_number() {
    let number = Number { n: 5, pos: [(1, 1), (1, 2)] };
    assert_eq!(
        vec![
            (0, 0), (0, 1), (0, 2), (0, 3),
            (1, 0), (1, 1), (1, 2), (1, 3),
            (2, 0), (2, 1), (2, 2), (2, 3),
        ],
        number.around()
    );
    assert!(number.is_near((0, 0)));
    assert!(number.is_near((2, 3)));
    assert!(!number.is_near((3, 3)));
    assert!(!number.is_near((1, 4)));
    assert!(!number.is_near((-1, 1)));
    assert_eq!(Vec::<(i32, i32)>::new(), Number { n: 1, pos: [(5, 5), (2, 5)] }.around());
}

#[test]
fn day3_numbers_beside_symbols() {
    assert_eq!(0, part1(Input::from_str("12..\n...+").unwrap()));
    assert_eq!(12, part1(Input::from_str("12..\n..+.").unwrap()));
    assert_eq!(12 + 7, part1(Input::from_str("12*7").unwrap()));
    assert_eq!(84, part2(Input::from_str("12*7").unwrap()));
    assert_eq!(0, part2(Input::from_str("12+7").unwrap()));
    assert_eq!(0, part2(Input::from_str("12*7\n.3..").unwrap()));
    assert_eq!(0, part2(Input::from_str("12*.").unwrap()));
}
