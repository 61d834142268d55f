use puzzles::days::day20::{find_module, has_name, part1, part2, Input, Module, ModuleType};

const LOOP: &str = "\
broadcaster -> a, b, c
%a -> b
%b -> c
%c -> inv
&inv -> a";

const CHAIN: &str = "\
broadcaster -> a
%a -> inv, con
&inv -> b
%b -> con
&con -> output";

fn names(list: &[&str]) -> Vec<String> {
    list.iter().map(|s| s.to_string()).collect()
}

#[test]
fn day20_test_part1() {
    assert_eq!(32000000, part1(Input::from_str(LOOP).unwrap()));
    assert_eq!(11687500, part1(Input::from_str(CHAIN).unwrap()));
}

#[test]
fn day20_module_from_str() {
    let m = Module::from_str("%a -> inv, con").unwrap();
    assert_eq!(ModuleType::FlipFlop, m.t);
    assert_eq!("a", m.name);
    assert_eq!(names(&["inv", "con"]), m.next);
    assert!(!m.on);
    assert!(m.previous.is_empty());
    let m = Module::from_str("&con -> output").unwrap();
    assert_eq!(ModuleType::Conjunction, m.t);
    assert_eq!("con", m.name);
    let m = Module::from_str("anything -> a,b").unwrap();
    assert_eq!(ModuleType::Broadcaster, m.t);
    assert_eq!("broadcaster", m.name);
    assert_eq!(names(&["a,b"]), m.next);
    assert!(Module::from_str("%a - b").is_err());
    assert!(Module::from_str("%\u{e9} -> b").is_err());
}

#[test]
fn day20_input_wires_the_conjunctions() {
    let input = Input::from_str(CHAIN).unwrap();
    assert_eq!(5, input.modules.len());
    let con = &input.modules[find_module(&input.modules, &"con".to_string())];
    assert_eq!(vec![("a".to_string(), false), ("b".to_string(), false)], con.previous);
    let inv = &input.modules[find_module(&input.modules, &"inv".to_string())];
    assert_eq!(vec![("a".to_string(), false)], inv.previous);
    let a = &input.modules[find_module(&input.modules, &"a".to_string())];
    assert!(a.previous.is_empty());
    assert_eq!(5, find_module(&input.modules, &"output".to_string()));
    assert!(has_name(&a.next, &"con".to_string()));
    assert!(!has_name(&a.next, &"b".to_string()));
}

#[test]
fn day20_later_module_of_a_name_counts() {
    let input = Input::from_str("%a -> b\n%b -> a\n&a -> c").unwrap();
    assert_eq!(2, input.modules.len());
    assert_eq!(ModuleType::Conjunction, input.modules[0].t);
    assert_eq!(names(&["c"]), input.modules[0].next);
    assert_eq!(vec![("b".to_string(), false)], input.modules[0].previous);
    assert!(Input::from_str("%a -> b\nnothing").is_err());
}

#[test]
fn day20_process_pulse() {
    let mut flip = Module::from_str("%a -> b").unwrap();
    assert_eq!(None, flip.process_pulse("x".to_string(), true));
    assert!(!flip.on);
    assert_eq!(Some(true), flip.process_pulse("x".to_string(), false));
    assert!(flip.on);
    assert_eq!(Some(false), flip.process_pulse("x".to_string(), false));
    assert!(!flip.on);

    let mut caster = Module::from_str("broadcaster -> a").unwrap();
    assert_eq!(Some(true), caster.process_pulse(String::new(), true));
    assert_eq!(Some(false), caster.process_pulse(String::new(), false));

    let mut con = Module::from_str("&c -> out").unwrap();
    assert_eq!(Some(false), con.process_pulse("x".to_string(), true));
    con.previous = vec![("x".to_string(), false), ("y".to_string(), false)];
    assert_eq!(Some(true), con.process_pulse("x".to_string(), true));
    assert_eq!(Some(true), con.process_pulse("z".to_string(), true));
    assert_eq!(Some(false), con.process_pulse("y".to_string(), true));
    assert_eq!(vec![("x".to_string(), true), ("y".to_string(), true)], con.previous);
    assert_eq!(Some(true), con.process_pulse("x".to_string(), false));
}

#[test]
fn day20_press_button_counts_the_pulses() {
    let mut input = Input::from_str(LOOP).unwrap();
    assert_eq!((8, 4, false), input.press_button(""));
    assert_eq!((8, 4, false), input.press_button(""));
    let mut input = Input::from_str(CHAIN).unwrap();
    assert_eq!((4, 4, true), input.press_button("con"));
    assert_eq!((4, 2, false), input.press_button("con"));
    assert_eq!((5, 3, true), input.press_button("con"));
    assert_eq!((4, 2, true), input.press_button("b"));
    let mut input = Input::from_str(CHAIN).unwrap();
    assert_eq!((4, 4, false), input.press_button("output"));
}

#[test]
fn day20_part2_takes_the_least_common_multiple() {
    // The flip-flops count the presses in binary: `hf` gets a high pulse
    // from `a` at every odd press, so the first four are 1, 3, 5 and 7.
    let input = Input::from_str("broadcaster -> a\n%a -> hf\n&hf -> out").unwrap();
    assert_eq!(105, part2(input));
}
