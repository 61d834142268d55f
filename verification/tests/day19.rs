use puzzles::days::day19::{
    find_ruleset, part1, part2, process_ruleset, Input, Part, RatingsRange, Rule, RuleSet,
};

const INPUT: &str = "\
px{a<2006:qkq,m>2090:A,rfg}
pv{a>1716:R,A}
lnx{m>1548:A,A}
rfg{s<537:gd,x>2440:R,A}
qs{s>3448:A,lnx}
qkq{x<1416:A,crn}
crn{x>2662:A,R}
in{s<1351:px,qqz}
qqz{s>2770:qs,m<1801:hdj,R}
gd{a>3333:R,R}
hdj{m>838:A,pv}

{x=787,m=2655,a=1222,s=2876}
{x=1679,m=44,a=2067,s=496}
{x=2036,m=264,a=79,s=2244}
{x=2461,m=1339,a=466,s=291}
{x=2127,m=1623,a=2188,s=1013}";

#[test]
fn rule_from_str() {
    assert_eq!(Rule::LessThan(2, 2006, String::from("qkq")), Rule::from_str("a<2006:qkq").unwrap());
    assert_eq!(Rule::GreaterThan(1, 2090, String::from("A")), Rule::from_str("m>2090:A").unwrap());
    assert_eq!(Rule::Goto(String::from("rfg")), Rule::from_str("rfg").unwrap());
}

#[test]
fn part_from_str() {
    assert_eq!(
        Part { ratings: [787, 2655, 1222, 2876] },
        Part::from_str("{x=787,m=2655,a=1222,s=2876}").unwrap()
    );
}

#[test]
fn test_process_ruleset() {
    let ruleset = RuleSet::from_str("in{s<1351:px,qqz}").unwrap();
    let part1 = Part::from_str("{x=787,m=2655,a=1222,s=2876}").unwrap();
    let part2 = Part::from_str("{x=1679,m=44,a=2067,s=496}").unwrap();
    assert_eq!(String::from("qqz"), process_ruleset(&part1, &ruleset));
    assert_eq!(String::from("px"), process_ruleset(&part2, &ruleset));
}

#[test]
fn rr_count_combinations() {
    let range1 = RatingsRange { upper: [4000, 4000, 4000, 4000], lower: [1, 1, 1, 1] };
    let range2 = RatingsRange { upper: [1, 1, 1, 1], lower: [1, 1, 1, 1] };
    assert_eq!(i64::pow(4000, 4), range1.count_combinations());
    assert_eq!(1, range2.count_combinations());
}

#[test]
fn day19_test_part1() {
    assert_eq!(19114, part1(Input::from_str(INPUT).unwrap()));
}

#[test]
fn day19_test_part2() {
    assert_eq!(167409079868000, part2(Input::from_str(INPUT).unwrap()));
}

#[test]
fn day19_rules_of_every_rating() {
    assert_eq!(Rule::LessThan(0, -5, String::from("b")), Rule::from_str("x<-5:b").unwrap());
    assert_eq!(Rule::GreaterThan(3, 7, String::from("")), Rule::from_str("s>7:").unwrap());
    assert_eq!(Rule::LessThan(2, 1, String::from("c:d")), Rule::from_str("b<1:c:d").unwrap());
    assert_eq!(Rule::Goto(String::from("")), Rule::from_str("").unwrap());
    assert_eq!(Rule::Goto(String::from("x")), Rule::from_str("x").unwrap());
    assert!(Rule::from_str("x<5").is_err());
    assert!(Rule::from_str("x<five:a").is_err());
    assert!(Rule::from_str("x<3000000000:a").is_err());
    assert!(Rule::from_str("\u{e9}").is_err());
}

#[test]
fn day19_parts_and_workflows() {
    assert_eq!(Part { ratings: [1, 2, 3, 4] }, Part::from_str("{{x=1,m=2,a=3,s=4,t=z}}}").unwrap());
    assert_eq!(Part { ratings: [1, 2, 3, -4] }, Part::from_str("x=1,=2,a=+3,s=-4").unwrap());
    assert!(Part::from_str("{x=1,m=2,a=3}").is_err());
    assert!(Part::from_str("{x=1,m=2,a=3,s}").is_err());
    assert!(Part::from_str("{x=1,m=2,a=3,s=q}").is_err());
    assert_eq!(
        RuleSet {
            name: String::from("pv"),
            rules: vec![Rule::GreaterThan(2, 1716, String::from("R")), Rule::Goto(String::from("A"))]
        },
        RuleSet::from_str("pv{a>1716:R,A}}").unwrap()
    );
    assert!(RuleSet::from_str("pv a>1716:R,A").is_err());
    assert!(RuleSet::from_str("pv{a>1716,A}").is_err());
}

#[test]
fn day19_reading_the_whole_text() {
    let input = Input::from_str(INPUT).unwrap();
    assert_eq!(11, input.rulesets.len());
    assert_eq!(5, input.parts.len());
    assert_eq!("in", input.rulesets[7].name);
    assert_eq!(Some(7), find_ruleset(&input.rulesets, &String::from("in")));
    assert_eq!(None, find_ruleset(&input.rulesets, &String::from("out")));
    assert_eq!(input, Input::from_str(INPUT).unwrap());
    assert!(Input::from_str("in{A}\n{x=1,m=1,a=1,s=1}").is_err());
    assert!(Input::from_str("in A\n\n{x=1,m=1,a=1,s=1}").is_err());
    assert!(Input::from_str("in{A}\n\n{x=1,m=1,a=1}").is_err());
}

#[test]
fn day19_small_workflows() {
    let all = "in{A}\n\n{x=1,m=2,a=3,s=4}\n{x=10,m=20,a=30,s=40}";
    assert_eq!(110, part1(Input::from_str(all).unwrap()));
    assert_eq!(4000i64.pow(4), part2(Input::from_str(all).unwrap()));
    let none = "in{R}\n\n{x=1,m=2,a=3,s=4}";
    assert_eq!(0, part1(Input::from_str(none).unwrap()));
    assert_eq!(0, part2(Input::from_str(none).unwrap()));
    let half = "in{x<2001:A,R}\n\n{x=2000,m=1,a=1,s=1}\n{x=2001,m=1,a=1,s=1}";
    assert_eq!(2003, part1(Input::from_str(half).unwrap()));
    assert_eq!(2000 * 4000i64.pow(3), part2(Input::from_str(half).unwrap()));
    let later = "in{R}\nin{m>3999:a,R}\na{A}\n\n{x=1,m=4000,a=1,s=1}";
    assert_eq!(4003, part1(Input::from_str(later).unwrap()));
    assert_eq!(4000i64.pow(3), part2(Input::from_str(later).unwrap()));
}

#[test]
fn day19_accepted_ranges_of_a_small_workflow() {
    let input = Input::from_str("in{x<11:A,m>3990:A,R}\n\n{x=1,m=1,a=1,s=1}").unwrap();
    let mut ranges = Vec::new();
    let full = RatingsRange { upper: [4000; 4], lower: [1; 4] };
    puzzles::days::day19::find_accepted_ranges(&input.rulesets, "in".to_string(), full, &mut ranges);
    assert_eq!(
        vec![
            RatingsRange { upper: [10, 4000, 4000, 4000], lower: [1, 1, 1, 1] },
            RatingsRange { upper: [4000, 4000, 4000, 4000], lower: [11, 3991, 1, 1] },
        ],
        ranges
    );
    assert_eq!(10 * 4000 * 4000 * 4000 + 3990 * 10 * 4000 * 4000, part2(input));
}
