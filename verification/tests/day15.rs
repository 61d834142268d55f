use puzzles::days::day15::{compute_hash, focusing_power, part1, part2, run_steps, Input};

const INPUT: &str = "rn=1,cm-,qp=3,cm=2,qp-,pc=4,ot=9,ab=5,pc-,pc=6,ot=7";

#[test]
fn test_compute_hash() {
    assert_eq!(52, compute_hash("HASH"));
    assert_eq!(30, compute_hash("rn=1"));
    assert_eq!(253, compute_hash("cm-"));
    assert_eq!(0, compute_hash("rn"));
    assert_eq!(1, compute_hash("qp"));
    assert_eq!(3, compute_hash("pc"));
}

#[test]
fn day15_test_part1() {
    assert_eq!(1320, part1(Input::from_str(INPUT).unwrap()));
}

#[test]
fn day15_test_part2() {
    assert_eq!(145, part2(Input::from_str(INPUT).unwrap()));
}

#[test]
fn day15_reads_the_steps() {
    let input = Input::from_str("rn=1,cm-,,x").unwrap();
    assert_eq!(
        Input { strings: vec!["rn=1".to_owned(), "cm-".to_owned(), "".to_owned(), "x".to_owned()] },
        input
    );
    assert_eq!(Input { strings: vec!["".to_owned()] }, Input::from_str("").unwrap());
    assert!(Input::from_str("rn=1,\u{e9}").is_err());
}

#[test]
fn day15_hash_of_bytes_beyond_ascii_and_of_nothing() {
    assert_eq!(0, compute_hash(""));
    assert_eq!(((195 * 17 % 256 + 169) * 17) % 256, compute_hash("\u{e9}"));
    assert_eq!(17 * 65 % 256, compute_hash("A"));
}

#[test]
fn day15_lenses_after_the_steps() {
    let input = Input::from_str(INPUT).unwrap();
    let lenses = run_steps(&input.strings);
    let got: Vec<(Vec<u8>, usize)> = lenses.iter().map(|l| (l.label.clone(), l.focal)).collect();
    assert_eq!(
        vec![
            (b"rn".to_vec(), 1),
            (b"cm".to_vec(), 2),
            (b"ot".to_vec(), 7),
            (b"ab".to_vec(), 5),
            (b"pc".to_vec(), 6)
        ],
        got
    );
    assert_eq!(145, focusing_power(&lenses));
}

#[test]
fn day15_a_step_replaces_the_lens_in_its_place() {
    let input = Input::from_str("ab=1,cd=2,ab=9,zz-").unwrap();
    let lenses = run_steps(&input.strings);
    let got: Vec<(Vec<u8>, usize)> = lenses.iter().map(|l| (l.label.clone(), l.focal)).collect();
    assert_eq!(vec![(b"ab".to_vec(), 9), (b"cd".to_vec(), 2)], got);
}
