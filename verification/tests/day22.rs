use puzzles::days::day22::{
    compute_fall, part1, part2, read_corner, sort_bricks, Brick, Cuboid, Input,
};

const INPUT: &str = "\
1,0,1~1,2,1
0,0,2~2,0,2
0,2,3~2,2,3
0,0,4~0,2,4
2,0,5~2,2,5
0,1,6~2,1,6
1,1,8~1,1,9";

fn sorted(lists: Vec<Vec<usize>>) -> Vec<Vec<usize>> {
    lists
        .into_iter()
        .map(|mut l| {
            l.sort();
            l
        })
        .collect()
}

#[test]
fn day22_test_part1() {
    assert_eq!(5, part1(Input::from_str(INPUT).unwrap()));
}

#[test]
fn day22_test_part2() {
    assert_eq!(7, part2(Input::from_str(INPUT).unwrap()));
}

#[test]
fn brick_from_str() {
    assert_eq!(Brick { bounds: vec![(1, 0, 1), (1, 2, 1)] }, Brick::from_str("1,0,1~1,2,1").unwrap());
    assert_eq!(Brick { bounds: vec![(0, 0, 2), (2, 0, 2)] }, Brick::from_str("0,0,2~2,0,2").unwrap());
    assert_eq!(Brick { bounds: vec![(1, 1, 8), (1, 1, 9)] }, Brick::from_str("1,1,8~1,1,9").unwrap());
}

#[test]
fn day22_reads_bricks_and_bound() {
    let input = Input::from_str(INPUT).unwrap();
    assert_eq!(7, input.bricks.len());
    assert_eq!((3, 3), input.bound);
    assert_eq!(input, Input::from_str(INPUT).unwrap());
    assert_eq!(Input { bricks: vec![], bound: (0, 0) }, Input::from_str("").unwrap());
    assert_eq!(
        Brick { bounds: vec![(1, 2, 3), (-4, 5, 6), (7, 8, 9)] },
        Brick::from_str("1,2,3,99~-4,+5,6~7,8,9").unwrap()
    );
    assert_eq!(Some((1, 2, 3)), read_corner(b"1,2,3"));
    assert_eq!(None, read_corner(b"1,2"));
    assert_eq!(None, read_corner(b"1,2,x"));
    assert_eq!(None, read_corner(b"1,2,3,x"));
    assert_eq!(None, read_corner(b"1, 2, 3"));
    assert!(Brick::from_str("1,0,1~1,2").is_err());
    assert!(Brick::from_str("1,0,1~1,2,\u{e9}").is_err());
    assert!(Input::from_str("1,0,1").is_err());
    assert!(Input::from_str("1,0,1~2147483647,2,1").is_err());
    assert!(Input::from_str("1,0,1~1,2147483647,1").is_err());
    assert_eq!((1, 2147483647), Input::from_str("0,0,1~0,2147483646,1").unwrap().bound);
}

#[test]
fn day22_falling_order_is_stable() {
    let input = Input::from_str("0,0,5~0,0,5\n1,1,2~1,1,3\n2,2,5~2,2,6\n0,1,1~0,1,1").unwrap();
    let boxes = sort_bricks(&input);
    let z: Vec<(i32, i32)> = boxes.iter().map(|c| (c.z0, c.x0)).collect();
    assert_eq!(vec![(1, 0), (2, 1), (5, 0), (5, 2)], z);
    assert_eq!(Cuboid { x0: 0, y0: 1, z0: 1, x1: 0, y1: 1, z1: 1 }, boxes[0]);
}

#[test]
fn day22_supports_of_the_example() {
    let (above, below) = compute_fall(&Input::from_str(INPUT).unwrap());
    assert_eq!(
        vec![vec![1, 2], vec![3, 4], vec![3, 4], vec![5], vec![5], vec![6], vec![]],
        sorted(above)
    );
    assert_eq!(
        vec![vec![], vec![0], vec![0], vec![1, 2], vec![1, 2], vec![3, 4], vec![5]],
        sorted(below)
    );
}

#[test]
fn day22_small_towers() {
    assert_eq!(0, part1(Input::from_str("").unwrap()));
    assert_eq!(0, part2(Input::from_str("").unwrap()));
    assert_eq!(1, part1(Input::from_str("0,0,7~0,0,9").unwrap()));
    assert_eq!(0, part2(Input::from_str("0,0,7~0,0,9").unwrap()));
    let tower = "0,0,9~0,0,9\n0,0,1~0,0,2\n0,0,5~0,0,5";
    assert_eq!(1, part1(Input::from_str(tower).unwrap()));
    assert_eq!(2 + 1, part2(Input::from_str(tower).unwrap()));
    let apart = "0,0,1~0,0,1\n1,0,1~1,0,1\n0,0,2~1,0,2";
    assert_eq!(3, part1(Input::from_str(apart).unwrap()));
    assert_eq!(0, part2(Input::from_str(apart).unwrap()));
}

#[test]
fn day22_how_many_would_fall_for_each_brick() {
    let (above, below) = compute_fall(&Input::from_str(INPUT).unwrap());
    let counts: Vec<usize> =
        (0..7).map(|b| puzzles::days::day22::how_many_would_fall(&above, &below, b)).collect();
    assert_eq!(vec![6, 0, 0, 0, 0, 1, 0], counts);
}
