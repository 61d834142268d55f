use puzzles::days::day4::{count_shared, part1, part2, power_of_two, Card, Input};

const INPUT: &str = "\
Card 1: 41 48 83 86 17 | 83 86  6 31 17  9 48 53
Card 2: 13 32 20 16 61 | 61 30 68 82 17 32 24 19
Card 3:  1 21 53 59 44 | 69 82 63 72 16 21 14  1
Card 4: 41 92 73 84 69 | 59 84 76 51 58  5 54 83
Card 5: 87 83 26 28 32 | 88 30 70 12 93 22 82 36
Card 6: 31 18 13 56 72 | 74 77 10 23 35 67 36 11";

#[test]
fn day4_test_part1() {
    assert_eq!(13, part1(Input::from_str(INPUT).unwrap()));
}

#[test]
fn day4_test_part2() {
    assert_eq!(30, part2(Input::from_str(INPUT).unwrap()));
}

#[test]
fn day4_reads_cards() {
    let input = Input::from_str(INPUT).unwrap();
    let scores: Vec<u32> = input.cards.iter().map(|c| c.score).collect();
    assert_eq!(vec![4, 2, 2, 1, 0, 0], scores);
    assert_eq!(Card { id: 3, score: 2 }, Card::from_str("Card 3: 1 2 2 | 2 1 1 9 | 4").unwrap());
    assert_eq!(Card { id: -3, score: 1 }, Card::from_str("my Card -3: 1 2 2 5|2 2 7").unwrap());
    assert_eq!(Card { id: 1, score: 0 }, Card::from_str("1:|").unwrap());
    assert_eq!(input, Input::from_str(INPUT).unwrap());
}

#[test]
fn day4_rejects_malformed_cards() {
    assert!(Card::from_str("Card 1 41 | 41").is_err());
    assert!(Card::from_str(": 41 | 41").is_err());
    assert!(Card::from_str("Card x: 41 | 41").is_err());
    assert!(Card::from_str("Card 1: 41 41").is_err());
    assert!(Card::from_str("Card 1: 41 | 4x").is_err());
    assert!(Card::from_str("Card 1: 41 | 41 | nine").is_err());
    assert!(Card::from_str("Card 1: 41 | 4\u{e9}").is_err());
    assert!(Input::from_str("Card 1: 41 | 41\nCard 2").is_err());
}

#[test]
fn day4_shared_numbers_count_once() {
    assert_eq!(2, count_shared(&vec![1, 2, 3], &vec![3, 3, 1, 5, 1]));
    assert_eq!(0, count_shared(&vec![], &vec![3]));
    assert_eq!(0, count_shared(&vec![3], &vec![]));
    assert_eq!(1, count_shared(&vec![7, 7], &vec![7]));
}

#[test]
fn day4_points_and_copies() {
    assert_eq!(1, power_of_two(0));
    assert_eq!(8, power_of_two(3));
    assert_eq!(1 << 30, power_of_two(30));
    let cards = |scores: &[u32]| Input {
        cards: scores.iter().enumerate().map(|(i, s)| Card { id: i as i32, score: *s }).collect(),
    };
    assert_eq!(0, part1(cards(&[0, 0])));
    assert_eq!(1 + 2 + 4, part1(cards(&[1, 2, 3, 0])));
    assert_eq!(1 << 30, part1(cards(&[31])));
    assert_eq!(0, part2(cards(&[])));
    assert_eq!(3, part2(cards(&[0, 0, 0])));
    assert_eq!(1 + 2 + 4, part2(cards(&[2, 1, 0])));
}
