use puzzles::days::day11::{part1, part2, sum_distances, Input};

const INPUT: &str = "\
...#......
.......#..
#.........
..........
......#...
.#........
.........#
..........
.......#..
#...#.....";

#[test]
fn test_sum_distances() {
    let input = Input::from_str(INPUT).unwrap();
    assert_eq!(374, sum_distances(&input, 2));
    assert_eq!(1030, sum_distances(&input, 10));
    assert_eq!(8410, sum_distances(&input, 100));
}

#[test]
fn day11_parts() {
    assert_eq!(374, part1(Input::from_str(INPUT).unwrap()));
    assert_eq!(82000210, part2(Input::from_str(INPUT).unwrap()));
}

#[test]
fn day11_reads_galaxies_and_empty_lines() {
    let input = Input::from_str("#..\n...\n..#").unwrap();
    assert_eq!(vec![(0, 0), (2, 2)], input.galaxies);
    assert_eq!([vec![1], vec![1]], input.empty);
    let wide = Input::from_str("#...#\n.....").unwrap();
    assert_eq!(vec![(0, 0), (0, 4)], wide.galaxies);
    assert_eq!([vec![1], vec![1]], wide.empty);
    assert_eq!(Input { galaxies: vec![], empty: [vec![], vec![]] }, Input::from_str("").unwrap());
    assert!(Input::from_str("#\u{e9}").is_err());
    assert_eq!(Input::from_str(INPUT).unwrap(), Input::from_str(INPUT).unwrap());
}

#[test]
fn day11_distances() {
    let input = Input::from_str(INPUT).unwrap();
    assert_eq!(9, input.galaxies.len());
    assert_eq!(vec![3, 7], input.empty[0]);
    assert_eq!(vec![2, 5, 8], input.empty[1]);
    assert_eq!(9, input.get_distance(4, 8, 2));
    assert_eq!(15, input.get_distance(0, 6, 2));
    assert_eq!(17, input.get_distance(2, 5, 2));
    assert_eq!(5, input.get_distance(7, 8, 2));
    assert_eq!(input.get_distance(0, 6, 2), input.get_distance(6, 0, 2));
    assert_eq!(0, input.get_distance(3, 3, 7));
    assert_eq!(12, input.get_distance(0, 6, 1));
    let one = Input::from_str("#").unwrap();
    assert_eq!(0, sum_distances(&one, 5));
}
