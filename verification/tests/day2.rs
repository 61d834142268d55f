use puzzles::days::day2::{part1, part2, read_cubes, read_round};
use puzzles::days::day2_fancy::{Game, Input};

const INPUT: &str = "Game 1: 3 blue, 4 red; 1 red, 2 green, 6 blue; 2 green
Game 2: 1 blue, 2 green; 3 green, 4 blue, 1 red; 1 green, 1 blue
Game 3: 8 green, 6 blue, 20 red; 5 blue, 4 red, 13 green; 5 green, 1 red
Game 4: 1 green, 3 red, 6 blue; 3 green, 6 red; 3 green, 15 blue, 14 red
Game 5: 6 red, 1 blue, 3 green; 2 blue, 1 red, 2 green";

#[test]
fn day2_test_part1() {
    assert_eq!(8, part1(INPUT.to_owned()));
}

#[test]
fn day2_test_part2() {
    assert_eq!(2286, part2(INPUT.to_owned()));
}

#[test]
fn game_from_str() {
    let input = "Game 1: 3 blue, 4 red; 1 red, 2 green, 6 blue; 2 green";
    let expected = Game { id: 1, rounds: vec![(4, 0, 3), (1, 2, 6), (0, 2, 0)] };
    assert_eq!(expected, Game::from_str(input).unwrap());
}

#[test]
fn day2_fancy_test_part1() {
    assert_eq!(8, puzzles::days::day2_fancy::part1(Input::from_str(INPUT).unwrap()));
}

#[test]
fn day2_fancy_test_part2() {
    assert_eq!(2286, puzzles::days::day2_fancy::part2(Input::from_str(INPUT).unwrap()));
}

#[test]
fn day2_cubes_of_a_game() {
    let (id, cubes) = read_cubes(b"Game 12: 3 blue, 4 red; -1 pink").unwrap();
    assert_eq!(12, id);
    let got: Vec<(i32, Vec<u8>)> = cubes.iter().map(|c| (c.n, c.color.clone())).collect();
    assert_eq!(vec![(3, b"blue".to_vec()), (4, b"red".to_vec()), (-1, b"pink".to_vec())], got);
    assert!(read_cubes(b"Game 12 3 blue").is_none());
    assert!(read_cubes(b"Game: 3 blue").is_none());
    assert!(read_cubes(b"Game x: 3 blue").is_none());
    assert!(read_cubes(b"Game 1: blue").is_none());
    assert_eq!(b"blue,4 red".to_vec(), read_cubes(b"Game 1: 3 blue,4 red").unwrap().1[0].color);
    assert!(read_cubes(b"Game 1: 3 blue; ").is_none());
    assert!(read_round(b"three blue").is_none());
    assert_eq!(1, read_round(b"3 ").unwrap().len());
}

#[test]
fn day2_other_colours_and_limits() {
    assert_eq!(0, part1("Game 7: 1 pink".to_owned()));
    assert_eq!(7, part1("Game 7: 12 red, 13 green, 14 blue".to_owned()));
    assert_eq!(0, part1("Game 7: 13 red".to_owned()));
    assert_eq!(0, part1("Game 7: 14 green".to_owned()));
    assert_eq!(0, part1("Game 7: 15 blue".to_owned()));
    assert_eq!(0, part1("Game 7: -1 blue".to_owned()));
    assert_eq!(0, part1("".to_owned()));
    assert_eq!(2 * 5 * 7, part2("Game 7: 2 pink, 5 red; 7 blue, 1 pink".to_owned()));
    assert_eq!(-3, part2("Game 7: -3 red".to_owned()));
    assert_eq!(4, part2("Game 7: -3 red; 4 red".to_owned()));
}

#[test]
fn day2_fancy_rounds() {
    assert_eq!(
        Game { id: -2, rounds: vec![(9, 0, 0), (0, 0, 0)] },
        Game::from_str("Game -2: 1 red, 5 pink, 9 red; 3 white").unwrap()
    );
    assert!(Game::from_str("Game 1").is_err());
    assert!(Game::from_str("Game 1: 3 blu\u{e9}").is_err());
    assert!(Input::from_str("Game 1: 3 blue\nGame 2").is_err());
    let input = Input::from_str(INPUT).unwrap();
    assert_eq!(5, input.games.len());
    assert_eq!(vec![(20, 8, 6), (4, 13, 5), (1, 5, 0)], input.games[2].rounds);
    assert_eq!(input, Input::from_str(INPUT).unwrap());
    assert_eq!(0, puzzles::days::day2_fancy::part1(Input::from_str("Game 4: 13 red").unwrap()));
    assert_eq!(4, puzzles::days::day2_fancy::part1(Input::from_str("Game 4: -13 red").unwrap()));
    assert_eq!(0, puzzles::days::day2_fancy::part2(Input::from_str("Game 4: 13 red").unwrap()));
    assert_eq!(0, puzzles::days::day2_fancy::part2(Input::from_str("").unwrap()));
}
