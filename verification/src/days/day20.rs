//! Modules that send pulses to one another along cables: flip-flops that
//! turn on and off at a low pulse, conjunctions that remember the last
//! pulse of each of their inputs, and a broadcaster that passes on what the
//! button sends. The puzzle asks for the numbers of pulses sent.

use crate::math::{all_nonnegative, lcm_fold, lcm_fold_fits, lcm_vec};
use crate::text::{
    ascii_bytes, chars_of, copy_range, lines, rows_of, split, split_bytes, split_lines, split_once,
    split_once_bytes, string_of, to_ascii, ParseError,
};
use vstd::prelude::*;

verus! {

/// The kind of a module.
#[derive(Debug, PartialEq, Eq, Structural, Hash, Clone, Copy)]
pub enum ModuleType {
    Broadcaster,
    FlipFlop,
    Conjunction,
}

/// A module: its kind and name, the names of the modules that it sends
/// to, whether it is on, and the last pulse of each of its inputs.
#[derive(Debug, PartialEq, Eq)]
pub struct Module {
    pub t: ModuleType,
    pub name: String,
    pub next: Vec<String>,
    pub on: bool,
    pub previous: Vec<(String, bool)>,
}

/// The modules. No two of them have one name.
#[derive(Debug, PartialEq, Eq)]
pub struct Input {
    pub modules: Vec<Module>,
}

/// A module as a value of sequences.
pub struct ModuleView {
    pub t: ModuleType,
    pub name: Seq<char>,
    pub next: Seq<Seq<char>>,
    pub on: bool,
    pub previous: Seq<(Seq<char>, bool)>,
}

/// The names as sequences of characters.
pub open spec fn names_of(v: Seq<String>) -> Seq<Seq<char>> {
    Seq::new(v.len(), |i: int| v[i]@)
}

/// The remembered pulses with the names as sequences of characters.
pub open spec fn memory_of(v: Seq<(String, bool)>) -> Seq<(Seq<char>, bool)> {
    Seq::new(v.len(), |i: int| (v[i].0@, v[i].1))
}

impl View for Module {
    type V = ModuleView;

    open spec fn view(&self) -> ModuleView {
        ModuleView {
            t: self.t,
            name: self.name@,
            next: names_of(self.next@),
            on: self.on,
            previous: memory_of(self.previous@),
        }
    }
}

/// The modules as values of sequences.
pub open spec fn modules_of(v: Seq<Module>) -> Seq<ModuleView> {
    Seq::new(v.len(), |i: int| v[i]@)
}

impl View for Input {
    type V = Seq<ModuleView>;

    open spec fn view(&self) -> Seq<ModuleView> {
        modules_of(self.modules@)
    }
}

/// The remembered pulses after a pulse from `from`: the input of that
/// name remembers the new pulse, and nothing changes if there is none.
pub open spec fn remembered(previous: Seq<(Seq<char>, bool)>, from: Seq<char>, value: bool) -> Seq<
    (Seq<char>, bool),
> {
    Seq::new(
        previous.len(),
        |i: int|
            if previous[i].0 == from {
                (from, value)
            } else {
                previous[i]
            },
    )
}

/// Every remembered pulse is high.
pub open spec fn all_high(previous: Seq<(Seq<char>, bool)>) -> bool {
    forall|i: int| 0 <= i < previous.len() ==> (#[trigger] previous[i]).1
}

/// What a pulse does to a module, and the pulse that the module sends on,
/// if any. A broadcaster sends on what it gets. A flip-flop ignores a high
/// pulse; at a low pulse it turns on or off and sends high if it is on
/// now. A conjunction remembers the pulse for the input that it came from
/// and sends low if all that it remembers is high.
pub open spec fn pulse_out(m: ModuleView, from: Seq<char>, value: bool) -> (ModuleView, Option<bool>) {
    match m.t {
        ModuleType::Broadcaster => (m, Some(value)),
        ModuleType::FlipFlop => if value {
            (m, None)
        } else {
            (ModuleView { on: !m.on, ..m }, Some(!m.on))
        },
        ModuleType::Conjunction => {
            let previous = remembered(m.previous, from, value);
            (ModuleView { previous, ..m }, Some(!all_high(previous)))
        },
    }
}

impl Module {
    /// Takes a pulse from the module named `from` and gives the pulse to
    /// send on, if any.
    pub fn process_pulse(&mut self, from: String, value: bool) -> (r: Option<bool>)
        ensures
            (final(self)@, r) == pulse_out(old(self)@, from@, value),
    {
        match self.t {
            ModuleType::Broadcaster => Some(value),
            ModuleType::FlipFlop => {
                if value {
                    None
                } else {
                    self.on = !self.on;
                    Some(self.on)
                }
            },
            ModuleType::Conjunction => {
                let ghost before = memory_of(self.previous@);
                let mut all = true;
                let mut k: usize = 0;
                while k < self.previous.len()
                    invariant
                        k <= self.previous@.len(),
                        self.previous@.len() == before.len(),
                        self.t == old(self).t,
                        self.name == old(self).name,
                        self.next == old(self).next,
                        self.on == old(self).on,
                        forall|i: int|
                            0 <= i < k ==> (#[trigger] memory_of(self.previous@)[i]) == remembered(
                                before,
                                from@,
                                value,
                            )[i],
                        forall|i: int|
                            k <= i < before.len() ==> (#[trigger] memory_of(self.previous@)[i])
                                == before[i],
                        all == forall|i: int|
                            0 <= i < k ==> (#[trigger] remembered(before, from@, value)[i]).1,
                    decreases self.previous@.len() - k,
                {
                    assert(memory_of(self.previous@)[k as int] == before[k as int]);
                    if self.previous[k].0 == from {
                        let name = self.previous[k].0.clone();
                        let ghost prior = self.previous@;
                        self.previous[k] = (name, value);
                        proof {
                            assert forall|i: int| 0 <= i < k + 1 implies (#[trigger] memory_of(
                                self.previous@,
                            )[i]) == remembered(before, from@, value)[i] by {
                                if i < k {
                                    assert(memory_of(prior)[i] == remembered(
                                        before,
                                        from@,
                                        value,
                                    )[i]);
                                }
                            }
                            assert forall|i: int| k + 1 <= i < before.len() implies (
                            #[trigger] memory_of(self.previous@)[i]) == before[i] by {
                                assert(memory_of(prior)[i] == before[i]);
                            }
                        }
                    }
                    assert(memory_of(self.previous@)[k as int] == remembered(
                        before,
                        from@,
                        value,
                    )[k as int]);
                    let ghost sofar = all;
                    if !self.previous[k].1 {
                        all = false;
                    }
                    assert(all == (sofar && remembered(before, from@, value)[k as int].1));
                    k += 1;
                }
                proof {
                    assert(memory_of(self.previous@) =~= remembered(before, from@, value));
                    assert(all == all_high(remembered(before, from@, value)));
                }
                Some(!all)
            },
        }
    }
}

// ----------------------------------------------------------------------
// One press of the button
// ----------------------------------------------------------------------

/// A pulse on its way: the module that sent it, the module that it goes
/// to, and whether it is high.
pub struct Pulse {
    pub from: Seq<char>,
    pub to: Seq<char>,
    pub high: bool,
}

/// The state of the modules while the pulses of one press are handled:
/// the modules, the pulses on their way, the numbers of low and of high
/// pulses handled, and whether the monitored module got a high pulse.
pub struct Press {
    pub modules: Seq<ModuleView>,
    pub queue: Seq<Pulse>,
    pub lo: nat,
    pub hi: nat,
    pub triggered: bool,
}

/// The index of the first module from `k` on with the name, or the number
/// of modules.
pub open spec fn module_index(modules: Seq<ModuleView>, name: Seq<char>, k: int) -> int
    decreases modules.len() - k,
{
    if k < 0 || k >= modules.len() {
        modules.len() as int
    } else if modules[k].name == name {
        k
    } else {
        module_index(modules, name, k + 1)
    }
}

/// The pulses that a module sends to the modules behind it.
pub open spec fn sent(from: Seq<char>, next: Seq<Seq<char>>, high: bool) -> Seq<Pulse> {
    Seq::new(next.len(), |i: int| Pulse { from, to: next[i], high })
}

/// The name of the module that the button sends to.
pub open spec fn broadcaster() -> Seq<char> {
    "broadcaster"@
}

/// The state when the button has been pressed: a low pulse is on its way
/// to the broadcaster.
pub open spec fn press_start(modules: Seq<ModuleView>) -> Press {
    Press {
        modules,
        queue: seq![Pulse { from: Seq::empty(), to: broadcaster(), high: false }],
        lo: 0,
        hi: 0,
        triggered: false,
    }
}

/// The state after the first pulse on its way is handled: it is counted;
/// if a module has the name that it goes to, the module takes it, and the
/// pulses that the module sends go behind the others.
pub open spec fn press_step(s: Press, monitor: Seq<char>) -> Press {
    let p = s.queue[0];
    let rest = s.queue.subrange(1, s.queue.len() as int);
    let lo = if p.high {
        s.lo
    } else {
        s.lo + 1
    };
    let hi = if p.high {
        s.hi + 1
    } else {
        s.hi
    };
    let idx = module_index(s.modules, p.to, 0);
    if idx < s.modules.len() {
        let after = pulse_out(s.modules[idx], p.from, p.high);
        Press {
            modules: s.modules.update(idx, after.0),
            queue: match after.1 {
                Some(v) => rest + sent(p.to, after.0.next, v),
                None => rest,
            },
            lo,
            hi,
            triggered: s.triggered || (p.high && p.to == monitor),
        }
    } else {
        Press { modules: s.modules, queue: rest, lo, hi, triggered: s.triggered }
    }
}

/// The state after `k` pulses of one press are handled; it stays as it is
/// once no pulse is on its way.
pub open spec fn press_after(modules: Seq<ModuleView>, monitor: Seq<char>, k: nat) -> Press
    decreases k,
{
    if k == 0 {
        press_start(modules)
    } else {
        let s = press_after(modules, monitor, (k - 1) as nat);
        if s.queue.len() == 0 {
            s
        } else {
            press_step(s, monitor)
        }
    }
}

/// After `k` pulses none is on its way any more, and `k` fits a counter.
pub open spec fn press_done(modules: Seq<ModuleView>, monitor: Seq<char>, k: nat) -> bool {
    press_after(modules, monitor, k).queue.len() == 0 && k <= usize::MAX
}

/// A press of the button comes to an end.
pub open spec fn settles(modules: Seq<ModuleView>, monitor: Seq<char>) -> bool {
    exists|k: nat| press_done(modules, monitor, k)
}

/// The state when a press of the button has come to its end.
pub open spec fn pressed(modules: Seq<ModuleView>, monitor: Seq<char>) -> Press {
    press_after(modules, monitor, choose|k: nat| press_done(modules, monitor, k))
}

/// A press that has come to its end stays as it is.
pub proof fn lemma_press_stays(modules: Seq<ModuleView>, monitor: Seq<char>, a: nat, b: nat)
    requires
        press_after(modules, monitor, a).queue.len() == 0,
        a <= b,
    ensures
        press_after(modules, monitor, b) == press_after(modules, monitor, a),
    decreases b,
{
    if a < b {
        lemma_press_stays(modules, monitor, a, (b - 1) as nat);
    }
}

/// As many pulses are counted as are handled.
pub proof fn lemma_press_counts(modules: Seq<ModuleView>, monitor: Seq<char>, k: nat)
    ensures
        press_after(modules, monitor, k).lo + press_after(modules, monitor, k).hi <= k,
    decreases k,
{
    if k > 0 {
        lemma_press_counts(modules, monitor, (k - 1) as nat);
    }
}

/// The pulses that wait, as values of sequences.
pub open spec fn pulses_of(queue: Seq<(String, String, bool)>) -> Seq<Pulse> {
    Seq::new(queue.len(), |i: int| Pulse { from: queue[i].0@, to: queue[i].1@, high: queue[i].2 })
}

/// The index of the first module with the name, or the number of
/// modules.
pub fn find_module(modules: &Vec<Module>, name: &String) -> (r: usize)
    ensures
        r == module_index(modules_of(modules@), name@, 0),
        r <= modules@.len(),
{
    let ghost ms = modules_of(modules@);
    let mut k: usize = 0;
    while k < modules.len()
        invariant
            k <= modules@.len(),
            ms == modules_of(modules@),
            module_index(ms, name@, 0) == module_index(ms, name@, k as int),
        decreases modules@.len() - k,
    {
        assert(ms[k as int].name == modules@[k as int].name@);
        if modules[k].name == *name {
            return k;
        }
        k += 1;
    }
    k
}

impl Input {
    /// Presses the button once and handles the pulses until none is on its
    /// way: gives the numbers of low and of high pulses, and whether the
    /// module named `monitor` got a high pulse.
    pub fn press_button(&mut self, monitor: &str) -> (r: (usize, usize, bool))
        requires
            settles(old(self)@, monitor@),
        ensures
            final(self)@ == pressed(old(self)@, monitor@).modules,
            r.0 == pressed(old(self)@, monitor@).lo,
            r.1 == pressed(old(self)@, monitor@).hi,
            r.2 == pressed(old(self)@, monitor@).triggered,
    {
        let ghost start = self@;
        let ghost stop = choose|k: nat| press_done(start, monitor@, k);
        let watched = monitor.to_owned();
        let mut queue: Vec<(String, String, bool)> = Vec::new();
        let mut lo: usize = 0;
        let mut hi: usize = 0;
        let mut triggered = false;
        queue.push((String::new(), "broadcaster".to_owned(), false));
        let mut head: usize = 0;
        let ghost mut k: nat = 0;
        proof {
            assert(pulses_of(queue@).subrange(0, 1) =~= press_start(start).queue);
        }
        while head < queue.len()
            invariant
                head <= queue@.len(),
                watched@ == monitor@,
                k <= stop,
                press_done(start, monitor@, stop),
                lo + hi <= k,
                press_after(start, monitor@, k) == (Press {
                    modules: self@,
                    queue: pulses_of(queue@).subrange(head as int, queue@.len() as int),
                    lo: lo as nat,
                    hi: hi as nat,
                    triggered,
                }),
            decreases stop - k,
        {
            let ghost before = press_after(start, monitor@, k);
            let ghost waiting = pulses_of(queue@);
            proof {
                if k == stop {
                    assert(before.queue.len() == 0);
                }
                assert(before.queue[0] == waiting[head as int]);
                assert(before.queue.len() > 0);
            }
            let from = queue[head].0.clone();
            let to = queue[head].1.clone();
            let pulse = queue[head].2;
            head += 1;
            if pulse {
                hi += 1;
            } else {
                lo += 1;
            }
            let idx = find_module(&self.modules, &to);
            let ghost rest = before.queue.subrange(1, before.queue.len() as int);
            proof {
                assert(waiting.subrange(head as int, waiting.len() as int) =~= rest);
            }
            if idx < self.modules.len() {
                if pulse && to == watched {
                    triggered = true;
                }
                let ghost mods = self.modules@;
                let out = self.modules[idx].process_pulse(from, pulse);
                proof {
                    assert(modules_of(mods)[idx as int] == mods[idx as int]@);
                    assert(modules_of(self.modules@) =~= modules_of(mods).update(
                        idx as int,
                        self.modules@[idx as int]@,
                    ));
                }
                match out {
                    Some(next_pulse) => {
                        let n = self.modules[idx].next.len();
                        let ghost names = names_of(self.modules@[idx as int].next@);
                        let mut i: usize = 0;
                        while i < n
                            invariant
                                i <= n,
                                idx < self.modules@.len(),
                                n == self.modules@[idx as int].next@.len(),
                                names == names_of(self.modules@[idx as int].next@),
                                head <= queue@.len(),
                                pulses_of(queue@).subrange(head as int, queue@.len() as int) == rest
                                    + sent(to@, names, next_pulse).subrange(0, i as int),
                            decreases n - i,
                        {
                            let ghost q0 = pulses_of(queue@);
                            let name = self.modules[idx].next[i].clone();
                            queue.push((to.clone(), name, next_pulse));
                            proof {
                                assert(names[i as int] == self.modules@[idx as int].next@[i as int]@);
                                assert(pulses_of(queue@) =~= q0.push(
                                    Pulse { from: to@, to: names[i as int], high: next_pulse },
                                ));
                                let all = sent(to@, names, next_pulse);
                                let p = Pulse { from: to@, to: names[i as int], high: next_pulse };
                                assert(all[i as int] == p);
                                assert(q0.push(p).subrange(head as int, (q0.len() + 1) as int)
                                    =~= q0.subrange(head as int, q0.len() as int).push(p));
                                assert(all.subrange(0, i + 1) =~= all.subrange(0, i as int).push(p));
                                assert((rest + all.subrange(0, i as int)).push(p) =~= rest
                                    + all.subrange(0, i + 1));
                            }
                            i += 1;
                        }
                        proof {
                            assert(sent(to@, names, next_pulse).subrange(0, n as int) =~= sent(
                                to@,
                                names,
                                next_pulse,
                            ));
                        }
                    },
                    None => {},
                }
            }
            proof {
                k = k + 1;
            }
        }
        proof {
            assert(pulses_of(queue@).subrange(head as int, queue@.len() as int) =~= Seq::<
                Pulse,
            >::empty());
            let c = choose|c: nat| press_done(start, monitor@, c);
            lemma_press_stays(start, monitor@, k, stop);
        }
        (lo, hi, triggered)
    }
}

// ----------------------------------------------------------------------
// Reading
// ----------------------------------------------------------------------

/// The arrow between a module and the modules behind it.
pub open spec fn arrow() -> Seq<u8> {
    seq![32u8, 45u8, 62u8, 32u8]
}

/// The comma and the space between two names.
pub open spec fn comma() -> Seq<u8> {
    seq![44u8, 32u8]
}

/// The names that the pieces write.
pub open spec fn named(pieces: Seq<Seq<u8>>) -> Seq<Seq<char>> {
    Seq::new(pieces.len(), |i: int| chars_of(pieces[i]))
}

/// The line writes a module: it holds an arrow.
pub open spec fn module_accepts(line: Seq<u8>) -> bool {
    split_once(line, arrow()) is Some
}

/// The kind that the text before the arrow writes: `%` begins a
/// flip-flop, `&` a conjunction, and anything else is the broadcaster.
pub open spec fn kind_of(head: Seq<u8>) -> ModuleType {
    if head.len() > 0 && head[0] == 37 {
        ModuleType::FlipFlop
    } else if head.len() > 0 && head[0] == 38 {
        ModuleType::Conjunction
    } else {
        ModuleType::Broadcaster
    }
}

/// The module that a line writes: its kind, its name (what follows the
/// mark of a flip-flop or a conjunction; the broadcaster has its own), and
/// behind the arrow the names that commas part. It is off and remembers
/// nothing.
pub open spec fn module_of(line: Seq<u8>) -> ModuleView {
    let head = (split_once(line, arrow())->0).0;
    let tail = (split_once(line, arrow())->0).1;
    ModuleView {
        t: kind_of(head),
        name: if kind_of(head) == ModuleType::Broadcaster {
            broadcaster()
        } else {
            chars_of(head.subrange(1, head.len() as int))
        },
        next: named(split(tail, comma())),
        on: false,
        previous: Seq::empty(),
    }
}

/// The modules with one more: it takes the place of the module of its
/// name, or it comes last if there is none.
pub open spec fn put(list: Seq<ModuleView>, m: ModuleView) -> Seq<ModuleView> {
    let idx = module_index(list, m.name, 0);
    if idx < list.len() {
        list.update(idx, m)
    } else {
        list.push(m)
    }
}

/// The modules that the first `k` lines write.
pub open spec fn collected(ls: Seq<Seq<u8>>, k: int) -> Seq<ModuleView>
    decreases k,
{
    if k <= 0 {
        Seq::empty()
    } else {
        put(collected(ls, k - 1), module_of(ls[k - 1]))
    }
}

/// For each of the first `k` modules that send to the module named
/// `name`, its name and a low pulse.
pub open spec fn senders(list: Seq<ModuleView>, name: Seq<char>, k: int) -> Seq<(Seq<char>, bool)>
    decreases k,
{
    if k <= 0 {
        Seq::empty()
    } else if list[k - 1].next.contains(name) {
        senders(list, name, k - 1).push((list[k - 1].name, false))
    } else {
        senders(list, name, k - 1)
    }
}

/// The module with its inputs: a conjunction remembers a low pulse for
/// each module that sends to it.
pub open spec fn wired_one(list: Seq<ModuleView>, m: ModuleView) -> ModuleView {
    if m.t == ModuleType::Conjunction {
        ModuleView { previous: senders(list, m.name, list.len() as int), ..m }
    } else {
        m
    }
}

/// The modules, each with its inputs.
pub open spec fn wired(list: Seq<ModuleView>) -> Seq<ModuleView> {
    Seq::new(list.len(), |i: int| wired_one(list, list[i]))
}

/// Whether the list holds the name.
pub fn has_name(names: &Vec<String>, name: &String) -> (r: bool)
    ensures
        r == names_of(names@).contains(name@),
{
    let mut k: usize = 0;
    while k < names.len()
        invariant
            k <= names@.len(),
            forall|j: int| 0 <= j < k ==> names_of(names@)[j] != name@,
        decreases names@.len() - k,
    {
        if names[k] == *name {
            assert(names_of(names@)[k as int] == name@);
            return true;
        }
        assert(names_of(names@)[k as int] == names@[k as int]@);
        k += 1;
    }
    false
}

impl Module {
    /// Reads a module from a line.
    pub fn read(line: &[u8]) -> (r: Option<Module>)
        ensures
            match r {
                Some(m) => module_accepts(line@) && m@ == module_of(line@),
                None => !module_accepts(line@),
            },
    {
        let arrow: [u8; 4] = [32, 45, 62, 32];
        let comma: [u8; 2] = [44, 32];
        assert(arrow@ =~= self::arrow());
        assert(comma@ =~= self::comma());
        let (head, tail) = match split_once_bytes(line, arrow.as_slice()) {
            Some(p) => p,
            None => { return None; },
        };
        let (t, name) = if head.len() > 0 && head[0] == 37 {
            (ModuleType::FlipFlop, string_of(copy_range(head.as_slice(), 1, head.len()).as_slice()))
        } else if head.len() > 0 && head[0] == 38 {
            (ModuleType::Conjunction, string_of(copy_range(head.as_slice(), 1, head.len()).as_slice()))
        } else {
            (ModuleType::Broadcaster, "broadcaster".to_owned())
        };
        let pieces = split_bytes(tail.as_slice(), comma.as_slice());
        let mut next: Vec<String> = Vec::new();
        let mut k: usize = 0;
        while k < pieces.len()
            invariant
                k <= pieces@.len(),
                next@.len() == k,
                forall|j: int| 0 <= j < k ==> (#[trigger] next@[j])@ == chars_of(pieces@[j]@),
            decreases pieces@.len() - k,
        {
            next.push(string_of(pieces[k].as_slice()));
            k += 1;
        }
        let m = Module { t, name, next, on: false, previous: Vec::new() };
        proof {
            assert(m@.next =~= module_of(line@).next);
            assert(m@.previous =~= module_of(line@).previous);
        }
        Some(m)
    }

    /// Reads a module. A text is accepted if it is ASCII and holds an
    /// arrow.
    pub fn from_str(s: &str) -> (r: Result<Module, ParseError>)
        ensures
            match r {
                Ok(m) => ascii_bytes(s@) is Some && module_accepts(ascii_bytes(s@)->0) && m@
                    == module_of(ascii_bytes(s@)->0),
                Err(_) => ascii_bytes(s@) is None || !module_accepts(ascii_bytes(s@)->0),
            },
    {
        let bytes = match to_ascii(s) {
            Some(b) => b,
            None => { return Err(ParseError {  }); },
        };
        match Module::read(bytes.as_slice()) {
            Some(m) => Ok(m),
            None => Err(ParseError {  }),
        }
    }
}

impl Input {
    /// Every line of the text writes a module.
    pub open spec fn accepts(text: Seq<u8>) -> bool {
        forall|i: int| 0 <= i < lines(text).len() ==> module_accepts(#[trigger] lines(text)[i])
    }

    /// This value is what the text says: the modules that the lines write,
    /// of two with one name the later one, each with its inputs.
    pub open spec fn is_parse_of(&self, text: Seq<u8>) -> bool {
        self@ == wired(collected(lines(text), lines(text).len() as int))
    }

    /// Reads the modules. A text is accepted if it is ASCII and every line
    /// of it holds an arrow.
    pub fn from_str(s: &str) -> (r: Result<Input, ParseError>)
        ensures
            match r {
                Ok(v) => ascii_bytes(s@) is Some && Input::accepts(ascii_bytes(s@)->0)
                    && v.is_parse_of(ascii_bytes(s@)->0),
                Err(_) => ascii_bytes(s@) is None || !Input::accepts(ascii_bytes(s@)->0),
            },
    {
        let bytes = match to_ascii(s) {
            Some(b) => b,
            None => { return Err(ParseError {  }); },
        };
        let ghost text = bytes@;
        let ls = split_lines(bytes.as_slice());
        let ghost rows = lines(text);
        let mut modules: Vec<Module> = Vec::new();
        let mut i: usize = 0;
        assert(modules_of(modules@) =~= collected(rows, 0));
        while i < ls.len()
            invariant
                i <= ls@.len(),
                rows_of(ls@) == rows,
                rows == lines(text),
                ascii_bytes(s@) == Some(text),
                modules_of(modules@) == collected(rows, i as int),
                forall|a: int| 0 <= a < i ==> module_accepts(#[trigger] rows[a]),
            decreases ls@.len() - i,
        {
            assert(ls@[i as int]@ == rows[i as int]);
            let m = match Module::read(ls[i].as_slice()) {
                Some(m) => m,
                None => {
                    assert(!module_accepts(lines(text)[i as int]));
                    return Err(ParseError {  });
                },
            };
            let ghost before = modules_of(modules@);
            let idx = find_module(&modules, &m.name);
            if idx < modules.len() {
                modules[idx] = m;
            } else {
                modules.push(m);
            }
            proof {
                assert(modules_of(modules@) =~= put(before, module_of(rows[i as int])));
            }
            i += 1;
        }
        let ghost list = modules_of(modules@);
        let n = modules.len();
        let mut i: usize = 0;
        while i < n
            invariant
                i <= n,
                n == modules@.len(),
                n == list.len(),
                forall|x: int| 0 <= x < i ==> (#[trigger] modules@[x])@ == wired_one(list, list[x]),
                forall|x: int| i <= x < n ==> (#[trigger] modules@[x])@ == list[x],
            decreases n - i,
        {
            if matches!(modules[i].t, ModuleType::Conjunction) {
                let mut prev: Vec<(String, bool)> = Vec::new();
                let mut j: usize = 0;
                assert(memory_of(prev@) =~= senders(list, list[i as int].name, 0));
                while j < n
                    invariant
                        j <= n,
                        i < n,
                        n == modules@.len(),
                        n == list.len(),
                        forall|x: int|
                            0 <= x < n ==> (#[trigger] modules@[x])@.name == list[x].name
                                && modules@[x]@.next == list[x].next,
                        memory_of(prev@) == senders(list, list[i as int].name, j as int),
                    decreases n - j,
                {
                    let ghost sofar = memory_of(prev@);
                    assert(modules@[j as int]@.next == list[j as int].next);
                    assert(modules@[i as int]@.name == list[i as int].name);
                    if has_name(&modules[j].next, &modules[i].name) {
                        prev.push((modules[j].name.clone(), false));
                        assert(memory_of(prev@) =~= sofar.push((list[j as int].name, false)));
                    }
                    j += 1;
                }
                std::mem::swap(&mut modules[i].previous, &mut prev);
                proof {
                    assert(modules@[i as int]@ == wired_one(list, list[i as int]));
                }
            } else {
                assert(modules@[i as int]@ == wired_one(list, list[i as int]));
            }
            i += 1;
        }
        let input = Input { modules };
        proof {
            assert(input@ =~= wired(list));
        }
        Ok(input)
    }
}

// ----------------------------------------------------------------------
// Many presses
// ----------------------------------------------------------------------

/// The modules after `n` presses of the button.
pub open spec fn after_presses(modules: Seq<ModuleView>, monitor: Seq<char>, n: nat) -> Seq<ModuleView>
    decreases n,
{
    if n == 0 {
        modules
    } else {
        pressed(after_presses(modules, monitor, (n - 1) as nat), monitor).modules
    }
}

/// The number of low pulses that `n` presses of the button send.
pub open spec fn lows(modules: Seq<ModuleView>, monitor: Seq<char>, n: nat) -> nat
    decreases n,
{
    if n == 0 {
        0
    } else {
        lows(modules, monitor, (n - 1) as nat) + pressed(
            after_presses(modules, monitor, (n - 1) as nat),
            monitor,
        ).lo
    }
}

/// The number of high pulses that `n` presses of the button send.
pub open spec fn highs(modules: Seq<ModuleView>, monitor: Seq<char>, n: nat) -> nat
    decreases n,
{
    if n == 0 {
        0
    } else {
        highs(modules, monitor, (n - 1) as nat) + pressed(
            after_presses(modules, monitor, (n - 1) as nat),
            monitor,
        ).hi
    }
}

/// Each of the first `n` presses of the button comes to an end.
pub open spec fn all_settle(modules: Seq<ModuleView>, monitor: Seq<char>, n: nat) -> bool {
    forall|k: nat| k < n ==> settles(#[trigger] after_presses(modules, monitor, k), monitor)
}

/// The product of the numbers of low and of high pulses that a thousand
/// presses of the button send.
pub fn part1(input: Input) -> (r: usize)
    requires
        all_settle(input@, ""@, 1000),
        lows(input@, ""@, 1000) * highs(input@, ""@, 1000) <= usize::MAX,
    ensures
        r == lows(input@, ""@, 1000) * highs(input@, ""@, 1000),
{
    let mut input = input;
    let ghost start = input@;
    let mut lo: u128 = 0;
    let mut hi: u128 = 0;
    let mut n: usize = 0;
    while n < 1000
        invariant
            n <= 1000,
            all_settle(start, ""@, 1000),
            input@ == after_presses(start, ""@, n as nat),
            lo == lows(start, ""@, n as nat),
            hi == highs(start, ""@, n as nat),
            lo <= n * usize::MAX,
            hi <= n * usize::MAX,
        decreases 1000 - n,
    {
        assert(settles(after_presses(start, ""@, n as nat), ""@));
        let out = input.press_button("");
        assert(n * usize::MAX + usize::MAX == (n + 1) * usize::MAX) by (nonlinear_arith);
        assert((n + 1) * usize::MAX <= 1000 * usize::MAX) by (nonlinear_arith)
            requires
                n < 1000,
        ;
        lo = lo + out.0 as u128;
        hi = hi + out.1 as u128;
        n += 1;
    }
    let product = lo * hi;
    product as usize
}

/// The numbers of the presses among the first `n` at which the module
/// named `hf` got a high pulse.
pub open spec fn periods(modules: Seq<ModuleView>, n: nat) -> Seq<i64>
    decreases n,
{
    if n == 0 {
        Seq::empty()
    } else if pressed(after_presses(modules, "hf"@, (n - 1) as nat), "hf"@).triggered {
        periods(modules, (n - 1) as nat).push(n as i64)
    } else {
        periods(modules, (n - 1) as nat)
    }
}

/// With `n` presses the module named `hf` has got a high pulse at four of
/// them; every press comes to an end, and the least common multiple of
/// the four numbers can be computed in 64 bits.
pub open spec fn four_found(modules: Seq<ModuleView>, n: nat) -> bool {
    &&& n <= i64::MAX
    &&& periods(modules, n).len() == 4
    &&& all_settle(modules, "hf"@, n)
    &&& lcm_fold_fits(periods(modules, n))
}

/// The periods of fewer presses begin those of more.
pub proof fn lemma_periods_grow(modules: Seq<ModuleView>, a: nat, b: nat)
    requires
        a <= b,
    ensures
        periods(modules, a).len() <= periods(modules, b).len(),
        periods(modules, b).subrange(0, periods(modules, a).len() as int) == periods(modules, a),
    decreases b,
{
    if a < b {
        lemma_periods_grow(modules, a, (b - 1) as nat);
        assert(periods(modules, b).subrange(0, periods(modules, a).len() as int) =~= periods(
            modules,
            (b - 1) as nat,
        ).subrange(0, periods(modules, a).len() as int));
    } else {
        assert(periods(modules, b).subrange(0, periods(modules, a).len() as int) =~= periods(
            modules,
            a,
        ));
    }
}

/// The least common multiple of the numbers of the first four presses of
/// the button at which the module named `hf` gets a high pulse.
pub fn part2(input: Input) -> (r: i64)
    requires
        exists|n: nat| four_found(input@, n),
    ensures
        forall|n: nat| four_found(input@, n) ==> r == lcm_fold(#[trigger] periods(input@, n)),
{
    let mut input = input;
    let ghost start = input@;
    let ghost stop = choose|n: nat| four_found(start, n);
    let mut found: Vec<i64> = Vec::new();
    let mut count: i64 = 0;
    while found.len() < 4
        invariant
            0 <= count <= stop,
            four_found(start, stop),
            input@ == after_presses(start, "hf"@, count as nat),
            found@ == periods(start, count as nat),
            found@.len() <= 4,
            all_nonnegative(found@),
        decreases stop - count,
    {
        proof {
            if count == stop {
                assert(periods(start, stop).len() == 4);
            }
            assert(settles(after_presses(start, "hf"@, count as nat), "hf"@));
        }
        count += 1;
        let out = input.press_button("hf");
        if out.2 {
            found.push(count);
        }
    }
    proof {
        lemma_periods_grow(start, count as nat, stop);
        assert(periods(start, stop) =~= found@);
        assert forall|n: nat| four_found(start, n) implies lcm_fold(found@) == lcm_fold(
            #[trigger] periods(start, n),
        ) by {
            if n <= count {
                lemma_periods_grow(start, n, count as nat);
                assert(periods(start, n) =~= found@);
            } else {
                lemma_periods_grow(start, count as nat, n);
                assert(periods(start, n) =~= found@);
            }
        }
    }
    lcm_vec(found)
}

// ----------------------------------------------------------------------
// Reading twice
// ----------------------------------------------------------------------


/// Reading a text twice gives the same value: two lists of modules that
/// one text says are the same.
pub proof fn lemma_parse_is_unique(a: Input, b: Input, text: Seq<u8>)
    requires
        a.is_parse_of(text),
        b.is_parse_of(text),
    ensures
        a@ == b@,
{
}

/// The first four periods are the same however many presses found them.
pub proof fn lemma_four_found_once(modules: Seq<ModuleView>, n: nat, m: nat)
    requires
        four_found(modules, n),
        four_found(modules, m),
    ensures
        periods(modules, n) == periods(modules, m),
{
    if n <= m {
        lemma_periods_grow(modules, n, m);
        assert(periods(modules, m) =~= periods(modules, n));
    } else {
        lemma_periods_grow(modules, m, n);
        assert(periods(modules, m) =~= periods(modules, n));
    }
}

} // verus!
