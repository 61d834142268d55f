use puzzles::days::day8::{
    count_steps, ends_with, find_node, follow, node_from_groups, part1, part2, Input,
};

const INPUT1: &str = "LLR

AAA = (BBB, BBB)
BBB = (AAA, ZZZ)
ZZZ = (ZZZ, ZZZ)";

const INPUT2: &str = "LR

AAA = (AAB, XXX)
AAB = (XXX, AAZ)
AAZ = (AAB, XXX)
BBA = (BBB, XXX)
BBB = (BBC, BBC)
BBC = (BBZ, BBZ)
BBZ = (BBB, BBB)
XXX = (XXX, XXX)";

fn node(name: &str, left: &str, right: &str) -> (String, (String, String)) {
    (name.to_owned(), (left.to_owned(), right.to_owned()))
}

#[test]
fn day8_input_from_str() {
    let expected = Input {
        directions: "LLR".to_owned(),
        network: vec![
            ("AAA".to_owned(), ("BBB".to_owned(), "BBB".to_owned())),
            ("BBB".to_owned(), ("AAA".to_owned(), "ZZZ".to_owned())),
            ("ZZZ".to_owned(), ("ZZZ".to_owned(), "ZZZ".to_owned())),
        ]
        .into_iter()
        .collect(),
    };

    assert_eq!(expected, Input::from_str(INPUT1).unwrap());
}

#[test]
fn test_part_1() {
    assert_eq!(6, part1(Input::from_str(INPUT1).unwrap()));
}

#[test]
fn test_part_2() {
    assert_eq!(6, part2(Input::from_str(INPUT2).unwrap()));
}

#[test]
fn day8_lines_that_are_no_nodes_are_passed_over() {
    let text = "RL\nAAA = (BBB, CCC)\nAAA = (BBB, CCC)\nabc = (BBB, CCC)\nxxDDD = (EEE, FFF)yy\n\nGGG = (HH, III)\nAAA = (QQQ, RRR)";
    let input = Input::from_str(text).unwrap();
    assert_eq!("RL", input.directions);
    assert_eq!(vec![node("AAA", "QQQ", "RRR"), node("DDD", "EEE", "FFF")], input.network);
    assert!(Input::from_str("").is_err());
    assert!(Input::from_str("L\n\nAAA = (BBB, CC\u{c9})").is_err());
    assert_eq!(Input { directions: "".to_owned(), network: vec![] }, Input::from_str("\n").unwrap());
    assert_eq!(Input::from_str(INPUT2).unwrap(), Input::from_str(INPUT2).unwrap());
}

#[test]
fn day8_node_from_groups() {
    let some = |s: &str| Some(s.to_owned());
    assert_eq!(
        Some(node("AAA", "BBB", "CCC")),
        node_from_groups(vec![some("whole"), some("AAA"), some("BBB"), some("CCC"), some("x")])
    );
    assert_eq!(None, node_from_groups(vec![some("whole"), some("AAA"), some("BBB")]));
    assert_eq!(None, node_from_groups(vec![some("whole"), some("AAA"), None, some("CCC")]));
    assert_eq!(None, node_from_groups(vec![]));
}

#[test]
fn day8_following_turns() {
    let input = Input::from_str(INPUT1).unwrap();
    assert_eq!(0, find_node(&input.network, &"AAA".to_owned()));
    assert_eq!(2, find_node(&input.network, &"ZZZ".to_owned()));
    assert_eq!(3, find_node(&input.network, &"QQQ".to_owned()));
    assert_eq!(Some("AAA".to_owned()), follow(&input, &"BBB".to_owned(), 0));
    assert_eq!(Some("ZZZ".to_owned()), follow(&input, &"BBB".to_owned(), 2));
    assert_eq!(Some("AAA".to_owned()), follow(&input, &"BBB".to_owned(), 3));
    assert_eq!(None, follow(&input, &"QQQ".to_owned(), 0));
    let odd = Input { directions: "LX".to_owned(), network: vec![node("AAA", "AAA", "AAA")] };
    assert_eq!(None, follow(&odd, &"AAA".to_owned(), 1));
    let none = Input { directions: "".to_owned(), network: vec![node("AAA", "AAA", "AAA")] };
    assert_eq!(None, follow(&none, &"AAA".to_owned(), 0));
    assert!(ends_with(&"AAZ".to_owned(), b'Z'));
    assert!(!ends_with(&"".to_owned(), b'Z'));
    assert!(!ends_with(&"AZ\u{e9}".to_owned(), b'Z'));
}

#[test]
fn day8_steps_of_every_start() {
    let input = Input::from_str(INPUT2).unwrap();
    assert_eq!(2, count_steps(&input, &"AAA".to_owned()));
    assert_eq!(3, count_steps(&input, &"BBA".to_owned()));
    assert_eq!(0, count_steps(&input, &"BBZ".to_owned()));
    let short = "R\n\nAAA = (AAA, ZZZ)\nZZZ = (ZZZ, ZZZ)";
    assert_eq!(1, part1(Input::from_str(short).unwrap()));
    assert_eq!(1, part2(Input::from_str(short).unwrap()));
}
