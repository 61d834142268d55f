use puzzles::days::day16::{
    get_all_starting_beams, get_energized_tiles, part1, part2, process, Beam, Direction, Input,
};

const INPUT: &str = r".|...\....
|.-.\.....
.....|-...
........|.
..........
.........\
..../.\\..
.-.-/..|..
.|....-|.\
..//.|....";

#[test]
fn day16_test_input() {
    let input = Input::from_str(INPUT).unwrap();
    assert_eq!((10, 10), input.size);
    assert_eq!(true, input.is_in((0, 0)));
    assert_eq!(true, input.is_in((9, 9)));
    assert_eq!(false, input.is_in((0, 10)));
}

#[test]
fn test_process() {
    assert_eq!(
        vec![Beam { pos: (1, 0), dir: Direction::Down }],
        process(&Beam { pos: (0, 0), dir: Direction::Right }, b'\\')
    );
    assert_eq!(
        vec![Beam { pos: (0, 1), dir: Direction::Right }],
        process(&Beam { pos: (0, 0), dir: Direction::Right }, b'-')
    );
    assert_eq!(
        vec![Beam { pos: (-1, 0), dir: Direction::Up }],
        process(&Beam { pos: (0, 0), dir: Direction::Right }, b'/')
    );
    assert_eq!(
        vec![Beam { pos: (-1, 0), dir: Direction::Up }, Beam { pos: (1, 0), dir: Direction::Down }],
        process(&Beam { pos: (0, 0), dir: Direction::Right }, b'|')
    );
}

#[test]
fn day16_test_part1() {
    assert_eq!(46, part1(Input::from_str(INPUT).unwrap()));
}

#[test]
fn day16_test_part2() {
    assert_eq!(51, part2(Input::from_str(INPUT).unwrap()));
}

#[test]
fn day16_process_in_every_direction() {
    let at = (5, 5);
    let right = Beam { pos: (5, 6), dir: Direction::Right };
    let left = Beam { pos: (5, 4), dir: Direction::Left };
    let down = Beam { pos: (6, 5), dir: Direction::Down };
    let up = Beam { pos: (4, 5), dir: Direction::Up };
    let from = |dir| Beam { pos: at, dir };
    assert_eq!(vec![right], process(&from(Direction::Right), b'.'));
    assert_eq!(vec![left], process(&from(Direction::Left), b'.'));
    assert_eq!(vec![left], process(&from(Direction::Left), b'-'));
    assert_eq!(vec![down], process(&from(Direction::Left), b'/'));
    assert_eq!(vec![up], process(&from(Direction::Left), b'\\'));
    assert_eq!(vec![up, down], process(&from(Direction::Left), b'|'));
    assert_eq!(vec![down], process(&from(Direction::Down), b'.'));
    assert_eq!(vec![down], process(&from(Direction::Down), b'|'));
    assert_eq!(vec![left], process(&from(Direction::Down), b'/'));
    assert_eq!(vec![right], process(&from(Direction::Down), b'\\'));
    assert_eq!(vec![right, left], process(&from(Direction::Down), b'-'));
    assert_eq!(vec![up], process(&from(Direction::Up), b'.'));
    assert_eq!(vec![up], process(&from(Direction::Up), b'|'));
    assert_eq!(vec![right], process(&from(Direction::Up), b'/'));
    assert_eq!(vec![left], process(&from(Direction::Up), b'\\'));
    assert_eq!(vec![right, left], process(&from(Direction::Up), b'-'));
}

#[test]
fn day16_starting_beams() {
    assert_eq!(
        vec![
            Beam { pos: (0, 0), dir: Direction::Right },
            Beam { pos: (0, 2), dir: Direction::Left },
            Beam { pos: (1, 0), dir: Direction::Right },
            Beam { pos: (1, 2), dir: Direction::Left },
            Beam { pos: (0, 0), dir: Direction::Down },
            Beam { pos: (1, 0), dir: Direction::Up },
            Beam { pos: (0, 1), dir: Direction::Down },
            Beam { pos: (1, 1), dir: Direction::Up },
            Beam { pos: (0, 2), dir: Direction::Down },
            Beam { pos: (1, 2), dir: Direction::Up },
        ],
        get_all_starting_beams((2, 3))
    );
    assert_eq!(Vec::<Beam>::new(), get_all_starting_beams((0, 0)));
}

#[test]
fn day16_small_fields() {
    let input = Input::from_str("..\n..").unwrap();
    assert_eq!(2, get_energized_tiles(&input, Beam { pos: (0, 0), dir: Direction::Right }));
    assert_eq!(0, get_energized_tiles(&input, Beam { pos: (0, 2), dir: Direction::Right }));
    assert_eq!(2, get_energized_tiles(&input, Beam { pos: (1, 1), dir: Direction::Up }));
    let ring = Input::from_str("/\\\n\\/").unwrap();
    assert_eq!(4, get_energized_tiles(&ring, Beam { pos: (0, 1), dir: Direction::Right }));
    assert_eq!(1, part2(Input::from_str("/\\\n\\/").unwrap()));
    let short_row = Input::from_str("\\\n..").unwrap();
    assert_eq!(2, part1(short_row));
}

#[test]
fn day16_reading() {
    assert!(Input::from_str("").is_err());
    assert!(Input::from_str(".\u{e9}").is_err());
    let input = Input::from_str(".|\n-").unwrap();
    assert_eq!((2, 1), input.size);
    assert_eq!(vec![b".|".to_vec(), b"-".to_vec()], input.map);
    assert_eq!(b'|', input.tile((0, 1)));
    assert_eq!(b'.', input.tile((1, 1)));
    assert_eq!(b'.', input.tile((-1, 0)));
    assert_eq!(input, Input::from_str(".|\n-").unwrap());
    assert_eq!(Input::new(vec![b"/".to_vec()], (1, 1)), Input::from_str("/").unwrap());
}
