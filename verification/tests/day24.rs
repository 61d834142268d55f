use puzzles::days::day24::{crossing_terms, read_triple, terms_are_in_reach, Hailstone, Input};

const INPUT: &str = "\
19, 13, 30 @ -2,  1, -2
18, 19, 22 @ -1, -1, -2
20, 25, 34 @ -2, -2, -4
12, 31, 28 @ -1, -2, -1
20, 19, 15 @  1, -5, -3";

#[test]
fn hailstone_from_str() {
    let h = Hailstone { pos: (19, 13, 30), vel: (-2, 1, -2) };
    assert_eq!(h, Hailstone::from_str("19, 13, 30 @ -2,  1, -2").unwrap());
}

#[test]
fn day24_reads_all_hailstones() {
    let input = Input::from_str(INPUT).unwrap();
    assert_eq!(5, input.hailstones.len());
    assert_eq!(Hailstone { pos: (20, 19, 15), vel: (1, -5, -3) }, input.hailstones[4]);
    assert_eq!(input, Input::from_str(INPUT).unwrap());
    assert_eq!(Input { hailstones: vec![] }, Input::from_str("").unwrap());
}

#[test]
fn day24_triples_and_malformed_lines() {
    assert_eq!(Some((1, -2, 3)), read_triple(b" 1,\t-2 ,+3,4"));
    assert_eq!(None, read_triple(b"1, 2"));
    assert_eq!(None, read_triple(b"1, 2, 3, x"));
    assert_eq!(None, read_triple(b"1, , 3"));
    assert_eq!(
        Hailstone { pos: (1, 2, 3), vel: (4, 5, 6) },
        Hailstone::from_str("1,2,3@4,5,6@ignored").unwrap()
    );
    assert!(Hailstone::from_str("1,2,3").is_err());
    assert!(Hailstone::from_str("1,2,3 @ 4,5").is_err());
    assert!(Hailstone::from_str("1,2 @ 4,5,6").is_err());
    assert!(Hailstone::from_str("1,2,3 @ 4,5,\u{e9}").is_err());
    assert!(Input::from_str("1,2,3 @ 4,5,6\n\n").is_err());
}

#[test]
fn day24_crossing_terms_of_two_paths() {
    let a = Hailstone { pos: (19, 13, 30), vel: (-2, 1, -2) };
    let b = Hailstone { pos: (18, 19, 22), vel: (-1, -1, -2) };
    let c = Hailstone { pos: (20, 25, 34), vel: (-2, -2, -4) };
    assert!(terms_are_in_reach(&a, &b));
    assert_eq!(Some((3, 7, 11)), crossing_terms(&a, &b));
    assert_eq!(Some((-3, -11, -7)), crossing_terms(&b, &a));
    assert!(terms_are_in_reach(&b, &c));
    assert_eq!(None, crossing_terms(&b, &c));
}

#[test]
fn day24_terms_beyond_64_bits_are_out_of_reach() {
    let big = Hailstone { pos: (i64::MAX, 0, 0), vel: (i64::MAX, 1, 0) };
    let other = Hailstone { pos: (i64::MIN, 0, 0), vel: (1, i64::MAX, 0) };
    assert!(!terms_are_in_reach(&big, &other));
    let far = Hailstone { pos: (i64::MAX, 0, 0), vel: (1, 0, 0) };
    let back = Hailstone { pos: (i64::MIN, 0, 0), vel: (0, 1, 0) };
    assert!(!terms_are_in_reach(&far, &back));
    // Parallel paths need no more than the denominator.
    let twin = Hailstone { pos: (i64::MIN, 7, 0), vel: (1, 0, 0) };
    assert!(terms_are_in_reach(&far, &twin));
    assert_eq!(None, crossing_terms(&far, &twin));
}

fn crossing_point(h1: &Hailstone, h2: &Hailstone) -> Option<(f32, f32)> {
    assert!(terms_are_in_reach(h1, h2));
    let (denominator, t, s) = crossing_terms(h1, h2)?;
    let t = t as f32 / denominator as f32;
    let s = s as f32 / denominator as f32;
    if t < 0.0 || s < 0.0 {
        return None;
    }
    Some((h1.pos.0 as f32 + t * h1.vel.0 as f32, h1.pos.1 as f32 + t * h1.vel.1 as f32))
}

#[test]
fn day24_test_part1() {
    let input = Input::from_str(INPUT).unwrap();
    let (min, max) = (7.0, 27.0);
    let mut count = 0;
    for i in 0..input.hailstones.len() - 1 {
        for j in i + 1..input.hailstones.len() {
            match crossing_point(&input.hailstones[i], &input.hailstones[j]) {
                Some((x, y)) if x > min && x < max && y > min && y < max => count += 1,
                _ => (),
            }
        }
    }
    assert_eq!(2, count);
}
