use puzzles::days::day7::{
    calculate_total_winnings, part1, part2, rank_hands, score_cards, turn_jokers, Hand, Input,
};

const INPUT: &str = "\
32T3K 765
T55J5 684
KK677 28
KTJJT 220
QQQJA 483";

fn cards(s: &str) -> Vec<char> {
    s.chars().collect()
}

#[test]
fn day7_test_part1() {
    assert_eq!(6440, part1(Input::from_str(INPUT).unwrap()));
}

#[test]
fn day7_test_part2() {
    assert_eq!(5905, part2(Input::from_str(INPUT).unwrap()));
}

#[test]
fn day7_reads_hands() {
    assert_eq!(Hand { cards: cards("32T3K"), value: 765 }, Hand::from_str("32T3K 765").unwrap());
    assert_eq!(Hand { cards: cards(""), value: 1 }, Hand::from_str(" +1").unwrap());
    assert!(Hand::from_str("32T3K").is_err());
    assert!(Hand::from_str("32T3K x").is_err());
    assert!(Hand::from_str("32T3K -1").is_err());
    assert!(Hand::from_str("32T3K 1 2").is_err());
    assert!(Input::from_str("32T3K 1\n\u{e9} 2").is_err());
    assert_eq!(5, Input::from_str(INPUT).unwrap().hands.len());
    assert_eq!(Input::from_str(INPUT).unwrap(), Input::from_str(INPUT).unwrap());
}

#[test]
fn day7_card_values() {
    assert_eq!(1, Hand::get_card_value('2'));
    assert_eq!(8, Hand::get_card_value('9'));
    assert_eq!(9, Hand::get_card_value('T'));
    assert_eq!(10, Hand::get_card_value('J'));
    assert_eq!(11, Hand::get_card_value('Q'));
    assert_eq!(12, Hand::get_card_value('K'));
    assert_eq!(13, Hand::get_card_value('A'));
    assert_eq!(0, Hand::get_card_value('*'));
    assert_eq!(0, Hand::get_card_value('1'));
}

#[test]
fn day7_scores_of_every_type() {
    let base = |s: &str| -> usize {
        s.chars()
            .enumerate()
            .map(|(i, c)| Hand::get_card_value(c) * 14usize.pow(4 - i as u32))
            .sum()
    };
    let kind = 14usize.pow(5);
    assert_eq!(base("AAAAA") + 6 * kind, score_cards(&cards("AAAAA")));
    assert_eq!(base("AA8AA") + 5 * kind, score_cards(&cards("AA8AA")));
    assert_eq!(base("23332") + 4 * kind, score_cards(&cards("23332")));
    assert_eq!(base("TTT98") + 3 * kind, score_cards(&cards("TTT98")));
    assert_eq!(base("23432") + 2 * kind, score_cards(&cards("23432")));
    assert_eq!(base("A23A4") + kind, score_cards(&cards("A23A4")));
    assert_eq!(base("23456"), score_cards(&cards("23456")));
    assert_eq!(base("32T3K") + kind, Hand { cards: cards("32T3K"), value: 0 }.get_score());
    assert_eq!(0, score_cards(&cards("")));
}

#[test]
fn day7_jokers_count_as_the_commonest_card() {
    let kind = 14usize.pow(5);
    let type_of = |s: &str| score_cards(&turn_jokers(&cards(s))) / kind;
    assert_eq!(5, type_of("T55J5"));
    assert_eq!(5, type_of("KTJJT"));
    assert_eq!(5, type_of("QQQJA"));
    assert_eq!(6, type_of("JJJJ2"));
    assert_eq!(0, type_of("JJJJJ"));
    assert_eq!(4, type_of("2233J"));
    assert_eq!(3, type_of("234JJ"));
    assert_eq!(1, type_of("2345J"));
    assert_eq!(cards("*2*3A"), turn_jokers(&cards("J2J3A")));
}

#[test]
fn day7_ranking_keeps_the_order_of_equal_hands() {
    let hands = vec![
        Hand { cards: cards("KK677"), value: 1 },
        Hand { cards: cards("23456"), value: 2 },
        Hand { cards: cards("KK677"), value: 3 },
        Hand { cards: cards("AAAAA"), value: 4 },
        Hand { cards: cards("23456"), value: 5 },
    ];
    let ranked = rank_hands(&hands, false);
    let bids: Vec<usize> = ranked.iter().map(|p| p.1).collect();
    assert_eq!(vec![2, 5, 1, 3, 4], bids);
    assert!(ranked.windows(2).all(|w| w[0].0 <= w[1].0));
    assert_eq!(2 + 2 * 5 + 3 + 4 * 3 + 5 * 4, calculate_total_winnings(&ranked));
    assert_eq!(0, calculate_total_winnings(&vec![]));
}
