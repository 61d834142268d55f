use puzzles::days::day23::{dfs, find_key, find_path, holds, part1, part2, search_from, Input, Tile};
use puzzles::geometry::Direction;

const HIKE: &str = "\
#.#####################
#.......#########...###
#######.#########.#.###
###.....#.>.>.###.#.###
###v#####.#v#.###.#.###
###.>...#.#.#.....#...#
###v###.#.#.#########.#
###...#.#.#.......#...#
#####.#.#.#######.#.###
#.....#.#.#.......#...#
#.#####.#.#.#########v#
#.#...#...#...###...>.#
#.#.#v#######v###.###v#
#...#.>.#...>.>.#.###.#
#####v#.#.###v#.#.###.#
#.....#...#...#.#.#...#
#.#########.###.#.#.###
#...###...#...#...#.###
###.###.#.###v#####v###
#...#...#.#.>.>.#.>.###
#.###.###.#.###.#.#v###
#.....###...###...#...#
#####################.#";

#[test]
fn day23_input_from_str() {
    let input = Input::from_str(HIKE).unwrap();
    assert_eq!((23, 23), input.size);
    assert_eq!((0, 1), input.start);
    assert_eq!((22, 21), input.end);
    assert_eq!(Tile::Path, input.get_at((5, 16)));
    assert_eq!(Tile::Tree, input.get_at((2, 11)));
    assert_eq!(Tile::Slope(Direction::down()), input.get_at((4, 11)));
}

#[test]
fn input_get_neighbors() {
    let input = Input::from_str(HIKE).unwrap();
    assert_eq!(vec![(1, 1)], input.get_neighbors((0, 1), true));
    assert_eq!(vec![(3, 12), (4, 11)], input.get_neighbors((3, 11), false));
}

#[test]
fn tile_can_move() {
    assert_eq!(true, Tile::Path.can_move(Direction::right(), false));
    assert_eq!(false, Tile::Tree.can_move(Direction::right(), false));
    assert_eq!(true, Tile::Slope(Direction::right()).can_move(Direction::right(), false));
    assert_eq!(false, Tile::Slope(Direction::right()).can_move(Direction::left(), false));
    assert_eq!(true, Tile::Slope(Direction::right()).can_move(Direction::left(), true));
}

#[test]
fn day23_test_part1() {
    assert_eq!(94, part1(Input::from_str(HIKE).unwrap()));
}

#[test]
fn day23_test_part2() {
    assert_eq!(154, part2(Input::from_str(HIKE).unwrap()));
}

#[test]
fn day23_rejects_a_map_without_a_way_in() {
    assert!(Input::from_str("###\n#.#").is_err());
    assert!(Input::from_str("#.#\n###").is_err());
    assert!(Input::from_str("#.#\n#x#").is_err());
    assert!(Input::from_str("").is_err());
    assert!(Input::from_str("#.#\n#\u{e9}#").is_err());
}

#[test]
fn day23_find_path_gives_the_first_path() {
    assert_eq!(1, find_path(b"#.#."));
    assert_eq!(3, find_path(b"###"));
}

#[test]
fn day23_nodes_are_start_junctions_and_end() {
    let input = Input::from_str(HIKE).unwrap();
    let nodes = input.get_nodes();
    assert_eq!(
        vec![(0, 1), (3, 11), (5, 3), (11, 21), (13, 5), (13, 13), (19, 13), (19, 19), (22, 21)],
        nodes
    );
    assert!(input.is_node((3, 11)));
    assert!(!input.is_node((1, 1)));
    assert!(input.is_in((22, 22)));
    assert!(!input.is_in((23, 0)));
    assert!(holds(&nodes, (5, 3)));
    assert!(!holds(&nodes, (5, 4)));
}

#[test]
fn day23_search_finds_the_next_nodes() {
    let input = Input::from_str(HIKE).unwrap();
    let nodes = input.get_nodes();
    assert_eq!(vec![((5, 3), 15)], search_from(&input, &nodes, (0, 1), false));
    assert_eq!(vec![((0, 1), 15), ((3, 11), 22), ((13, 5), 22)], {
        let mut found = search_from(&input, &nodes, (5, 3), true);
        found.sort();
        found
    });
}

#[test]
fn day23_graph_has_an_entry_for_each_node() {
    let input = Input::from_str(HIKE).unwrap();
    let graph = input.build_graph(false);
    assert_eq!(9, graph.len());
    assert_eq!(((0, 1), vec![((5, 3), 15)]), graph[0]);
    assert_eq!(1, find_key(&graph, (3, 11)));
    assert_eq!(9, find_key(&graph, (1, 1)));
    assert_eq!((22, 21), graph[8].0);
    assert!(graph[8].1.is_empty());
}

#[test]
fn day23_longest_hike_over_a_small_graph() {
    // a -> b (2), a -> c (1), b -> c (5); the end is c.
    let a = (0, 0);
    let b = (0, 1);
    let c = (0, 2);
    let graph = vec![(a, vec![(b, 2), (c, 1)]), (b, vec![(c, 5)]), (c, vec![])];
    let mut visited = vec![false, false, false];
    assert_eq!(7, dfs(&graph, a, c, &mut visited));
    assert_eq!(vec![false, false, false], visited);
    assert_eq!(0, dfs(&graph, c, c, &mut visited));
    let mut marked = vec![false, true, false];
    assert_eq!(1, dfs(&graph, a, c, &mut marked));
    assert_eq!(i32::MIN, dfs(&graph, b, c, &mut marked));
}

#[test]
fn day23_parts_are_the_same_on_every_call() {
    let first = part1(Input::from_str(HIKE).unwrap());
    let second = part1(Input::from_str(HIKE).unwrap());
    assert_eq!(first, second);
    let a = Input::from_str(HIKE).unwrap();
    let b = Input::from_str(HIKE).unwrap();
    assert_eq!(a.size, b.size);
    assert_eq!(a.map, b.map);
}
