use puzzles::days::day5::{
    intersect_range, map_range_to_locations, map_to_location, part1, part2, part2_naive,
    range_transform, read_rule, Input, Transform,
};

const INPUT: &str = "\
seeds: 79 14 55 13

seed-to-soil map:
50 98 2
52 50 48

soil-to-fertilizer map:
0 15 37
37 52 2
39 0 15

fertilizer-to-water map:
49 53 8
0 11 42
42 0 7
57 7 4

water-to-light map:
88 18 7
18 25 70

light-to-temperature map:
45 77 23
81 45 19
68 64 13

temperature-to-humidity map:
0 69 1
1 0 69

humidity-to-location map:
60 56 37
56 93 4";

#[test]
fn test_map_to_location() {
    let input = Input::from_str(INPUT).unwrap();
    assert_eq!(82, map_to_location(79, &input.transforms));
    assert_eq!(43, map_to_location(14, &input.transforms));
    assert_eq!(86, map_to_location(55, &input.transforms));
    assert_eq!(35, map_to_location(13, &input.transforms));
}

#[test]
fn day5_test_part1() {
    assert_eq!(35, part1(Input::from_str(INPUT).unwrap()));
}

#[test]
fn day5_test_part2() {
    assert_eq!(46, part2(Input::from_str(INPUT).unwrap()));
}

#[test]
fn day5_part2_naive_agrees() {
    assert_eq!(46, part2_naive(Input::from_str(INPUT).unwrap()));
}

#[test]
fn day5_reads_seeds_and_maps() {
    let input = Input::from_str(INPUT).unwrap();
    assert_eq!(vec![79, 14, 55, 13], input.seeds);
    assert_eq!(7, input.transforms.len());
    assert_eq!(Transform { rules: vec![(50, 98, 2), (52, 50, 48)] }, input.transforms[0]);
    assert_eq!(Transform { rules: vec![(60, 56, 37), (56, 93, 4)] }, input.transforms[6]);
    assert_eq!(input, Input::from_str(INPUT).unwrap());
    assert_eq!(
        Transform { rules: vec![(1, 2, 3)] },
        Transform::from_str("a map:\n1 2 3 4").unwrap()
    );
    assert_eq!(Some((-1, 2, 3)), read_rule(b" -1 +2   3"));
}

#[test]
fn day5_rejects_malformed_text() {
    assert!(Input::from_str("seeds: 1 2").is_err());
    assert!(Input::from_str("seeds: 1 x\n\nm:\n1 2 3").is_err());
    assert!(Input::from_str("seeds: 1 2\n\nm:\n1 2").is_err());
    assert!(Input::from_str("seeds: 1 2\n\nm:\n1 2 z").is_err());
    assert!(Input::from_str("seeds: 1 2\n\nm:\n1 2 3\u{e9}").is_err());
    assert!(Transform::from_str("m:\n1 2").is_err());
    assert_eq!(None, read_rule(b"1 2"));
    let small = Input::from_str("seeds:\n\n").unwrap();
    assert_eq!(Vec::<i64>::new(), small.seeds);
    assert_eq!(vec![Transform { rules: vec![] }], small.transforms);
}

#[test]
fn day5_process_takes_the_first_rule_that_covers() {
    let t = Transform { rules: vec![(50, 98, 2), (52, 50, 48), (0, 98, 1)] };
    assert_eq!(50, t.process(98));
    assert_eq!(51, t.process(99));
    assert_eq!(100, t.process(100));
    assert_eq!(52, t.process(50));
    assert_eq!(99, t.process(97));
    assert_eq!(49, t.process(49));
    assert_eq!(7, Transform { rules: vec![] }.process(7));
}

#[test]
fn day5_intersect_range_in_every_position() {
    let rule = (100, 10, 5);
    assert_eq!((Some((101, 3)), None, None), intersect_range(11, 3, &rule));
    assert_eq!((Some((102, 3)), Some((15, 2)), None), intersect_range(12, 5, &rule));
    assert_eq!((None, Some((15, 4)), None), intersect_range(15, 4, &rule));
    assert_eq!((Some((100, 5)), Some((8, 2)), Some((15, 3))), intersect_range(8, 10, &rule));
    assert_eq!((Some((100, 2)), Some((8, 2)), None), intersect_range(8, 4, &rule));
    assert_eq!((None, Some((2, 8)), None), intersect_range(2, 8, &rule));
}

#[test]
fn day5_range_transform_and_chain() {
    let t = Transform { rules: vec![(50, 98, 2), (52, 50, 48)] };
    assert_eq!(vec![(81, 14)], range_transform(79, 14, &t));
    assert_eq!(vec![(50, 2), (92, 8), (100, 5)], range_transform(90, 15, &t));
    assert_eq!(vec![(3, 4)], range_transform(3, 4, &Transform { rules: vec![] }));
    assert_eq!(vec![(3, 4)], map_range_to_locations(3, 4, &vec![]));
    let input = Input::from_str(INPUT).unwrap();
    let mut starts: Vec<i64> =
        map_range_to_locations(79, 14, &input.transforms).iter().map(|r| r.0).collect();
    starts.sort();
    assert_eq!(46, starts[0]);
}
