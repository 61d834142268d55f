//! The game of cubes once more, read into values first: every round of a
//! game becomes the numbers of red, green and blue cubes shown in it.

use crate::days::day2::{
    blue, cubes_of, cubes_view, game_accepts, game_id, green, read_game, red, rounds_of, Cube,
};
use crate::text::{ascii_bytes, lines, rows_of, same_bytes, split_lines, to_ascii, ParseError};
use vstd::prelude::*;

verus! {

/// A game: its number, and for each round the red, green and blue cubes.
#[derive(Debug, PartialEq, Eq)]
pub struct Game {
    pub id: i32,
    pub rounds: Vec<(i32, i32, i32)>,
}

/// The games.
#[derive(Debug, PartialEq, Eq)]
pub struct Input {
    pub games: Vec<Game>,
}

/// The red, green and blue cubes of a round after its first `k` cubes:
/// each cube sets the number of its colour, and other colours are passed
/// over.
pub open spec fn shown(cubes: Seq<(i32, Seq<u8>)>, k: int) -> (i32, i32, i32)
    decreases k,
{
    if k <= 0 {
        (0, 0, 0)
    } else {
        let rest = shown(cubes, k - 1);
        let c = cubes[k - 1];
        if c.1 == red() {
            (c.0, rest.1, rest.2)
        } else if c.1 == green() {
            (rest.0, c.0, rest.2)
        } else if c.1 == blue() {
            (rest.0, rest.1, c.0)
        } else {
            rest
        }
    }
}

/// The red, green and blue cubes that the text of a round shows.
pub open spec fn round_of(round: Seq<u8>) -> (i32, i32, i32) {
    shown(cubes_of(round), cubes_of(round).len() as int)
}

/// Every line of the text writes a game.
pub open spec fn accepts(text: Seq<u8>) -> bool {
    forall|i: int| 0 <= i < lines(text).len() ==> game_accepts(#[trigger] lines(text)[i])
}

/// Every round of the game can be played with 12 red, 13 green and 14 blue
/// cubes.
pub open spec fn is_possible(rounds: Seq<(i32, i32, i32)>) -> bool {
    forall|i: int|
        0 <= i < rounds.len() ==> (#[trigger] rounds[i]).0 <= 12 && rounds[i].1 <= 13
            && rounds[i].2 <= 14
}

/// The sum of the numbers of those of the first `k` games that are
/// possible.
pub open spec fn possible_sum(games: Seq<Game>, k: int) -> int
    decreases k,
{
    if k <= 0 {
        0
    } else {
        possible_sum(games, k - 1) + if is_possible(games[k - 1].rounds@) {
            games[k - 1].id as int
        } else {
            0
        }
    }
}

/// The greater of two numbers.
pub open spec fn larger(a: int, b: int) -> int {
    if a >= b {
        a
    } else {
        b
    }
}

/// The greatest numbers of red, green and blue cubes in the first `k`
/// rounds, and zero at least.
pub open spec fn fewest(rounds: Seq<(i32, i32, i32)>, k: int) -> (int, int, int)
    decreases k,
{
    if k <= 0 {
        (0, 0, 0)
    } else {
        let rest = fewest(rounds, k - 1);
        (
            larger(rest.0, rounds[k - 1].0 as int),
            larger(rest.1, rounds[k - 1].1 as int),
            larger(rest.2, rounds[k - 1].2 as int),
        )
    }
}

/// The power of a game: the product of the fewest red, green and blue
/// cubes that make it possible.
pub open spec fn power(rounds: Seq<(i32, i32, i32)>) -> int {
    let f = fewest(rounds, rounds.len() as int);
    f.0 * f.1 * f.2
}

/// The power can be computed in 32 bits.
pub open spec fn power_fits(rounds: Seq<(i32, i32, i32)>) -> bool {
    let f = fewest(rounds, rounds.len() as int);
    f.0 * f.1 <= i32::MAX && f.0 * f.1 * f.2 <= i32::MAX
}

/// The sum of the powers of the first `k` games.
pub open spec fn power_sum(games: Seq<Game>, k: int) -> int
    decreases k,
{
    if k <= 0 {
        0
    } else {
        power_sum(games, k - 1) + power(games[k - 1].rounds@)
    }
}

/// The red, green and blue cubes of a round.
pub fn sum_round(cubes: &Vec<Cube>) -> (r: (i32, i32, i32))
    ensures
        r == shown(cubes_view(cubes@), cubes@.len() as int),
{
    let r: [u8; 3] = [114, 101, 100];
    let g: [u8; 5] = [103, 114, 101, 101, 110];
    let b: [u8; 4] = [98, 108, 117, 101];
    assert(r@ =~= red());
    assert(g@ =~= green());
    assert(b@ =~= blue());
    let ghost all = cubes_view(cubes@);
    let mut out: (i32, i32, i32) = (0, 0, 0);
    let mut k: usize = 0;
    while k < cubes.len()
        invariant
            k <= cubes@.len(),
            all == cubes_view(cubes@),
            r@ == red(),
            g@ == green(),
            b@ == blue(),
            out == shown(all, k as int),
        decreases cubes@.len() - k,
    {
        let c = &cubes[k];
        assert(all[k as int] == (c.n, c.color@));
        if same_bytes(c.color.as_slice(), r.as_slice()) {
            out = (c.n, out.1, out.2);
        } else if same_bytes(c.color.as_slice(), g.as_slice()) {
            out = (out.0, c.n, out.2);
        } else if same_bytes(c.color.as_slice(), b.as_slice()) {
            out = (out.0, out.1, c.n);
        }
        k += 1;
    }
    out
}

impl Game {
    /// This game is what the line says.
    pub open spec fn is_parse_of(&self, line: Seq<u8>) -> bool {
        &&& Some(self.id) == game_id(line)
        &&& self.rounds@.len() == rounds_of(line).len()
        &&& forall|i: int|
            0 <= i < self.rounds@.len() ==> #[trigger] self.rounds@[i] == round_of(
                rounds_of(line)[i],
            )
    }

    /// Reads a game from the bytes of its line.
    pub fn read(line: &[u8]) -> (r: Option<Game>)
        ensures
            match r {
                Some(g) => game_accepts(line@) && g.is_parse_of(line@),
                None => !game_accepts(line@),
            },
    {
        match read_game(line) {
            Some((id, cubes)) => {
                let mut rounds: Vec<(i32, i32, i32)> = Vec::new();
                let mut i: usize = 0;
                while i < cubes.len()
                    invariant
                        i <= cubes@.len(),
                        cubes@.len() == rounds_of(line@).len(),
                        forall|k: int|
                            0 <= k < cubes@.len() ==> cubes_view((#[trigger] cubes@[k])@)
                                == cubes_of(rounds_of(line@)[k]),
                        rounds@.len() == i,
                        forall|k: int|
                            0 <= k < i ==> #[trigger] rounds@[k] == round_of(rounds_of(line@)[k]),
                    decreases cubes@.len() - i,
                {
                    assert(cubes_view(cubes@[i as int]@) == cubes_of(rounds_of(line@)[i as int]));
                    assert(cubes_view(cubes@[i as int]@).len() == cubes@[i as int]@.len());
                    rounds.push(sum_round(&cubes[i]));
                    i += 1;
                }
                Some(Game { id, rounds })
            },
            None => None,
        }
    }

    /// Reads a game: `Game 1: 3 blue, 4 red; 2 green`.
    pub fn from_str(s: &str) -> (r: Result<Game, ParseError>)
        ensures
            match r {
                Ok(g) => ascii_bytes(s@) is Some && game_accepts(ascii_bytes(s@)->0)
                    && g.is_parse_of(ascii_bytes(s@)->0),
                Err(_) => ascii_bytes(s@) is None || !game_accepts(ascii_bytes(s@)->0),
            },
    {
        match to_ascii(s) {
            Some(b) => match Game::read(b.as_slice()) {
                Some(g) => Ok(g),
                None => Err(ParseError {  }),
            },
            None => Err(ParseError {  }),
        }
    }
}

impl Input {
    /// This value is what the text says: one game for each line.
    pub open spec fn is_parse_of(&self, text: Seq<u8>) -> bool {
        &&& self.games@.len() == lines(text).len()
        &&& forall|i: int|
            0 <= i < lines(text).len() ==> (#[trigger] self.games@[i]).is_parse_of(lines(text)[i])
    }

    /// Reads the games. A text is accepted if it is ASCII and each line
    /// writes a game.
    pub fn from_str(s: &str) -> (r: Result<Input, ParseError>)
        ensures
            match r {
                Ok(v) => ascii_bytes(s@) is Some && accepts(ascii_bytes(s@)->0) && v.is_parse_of(
                    ascii_bytes(s@)->0,
                ),
                Err(_) => ascii_bytes(s@) is None || !accepts(ascii_bytes(s@)->0),
            },
    {
        let bytes = match to_ascii(s) {
            Some(b) => b,
            None => { return Err(ParseError {  }); },
        };
        let ghost text = bytes@;
        let ls = split_lines(bytes.as_slice());
        let mut games: Vec<Game> = Vec::new();
        let mut i: usize = 0;
        while i < ls.len()
            invariant
                i <= ls@.len(),
                rows_of(ls@) == lines(text),
                ascii_bytes(s@) == Some(text),
                games@.len() == i,
                forall|k: int| 0 <= k < i ==> game_accepts(#[trigger] lines(text)[k]),
                forall|k: int| 0 <= k < i ==> (#[trigger] games@[k]).is_parse_of(lines(text)[k]),
            decreases ls@.len() - i,
        {
            assert(ls@[i as int]@ == lines(text)[i as int]);
            match Game::read(ls[i].as_slice()) {
                Some(g) => {
                    games.push(g);
                },
                None => {
                    proof {
                        assert(rows_of(ls@).len() == ls@.len());
                        assert(!game_accepts(lines(text)[i as int]));
                    }
                    return Err(ParseError {  });
                },
            }
            i += 1;
        }
        Ok(Input { games })
    }
}

/// The sum of the numbers of the games that are possible.
pub fn part1(input: Input) -> (r: i32)
    requires
        forall|k: int|
            0 <= k <= input.games@.len() ==> i32::MIN <= #[trigger] possible_sum(input.games@, k)
                <= i32::MAX,
    ensures
        r == possible_sum(input.games@, input.games@.len() as int),
{
    let mut sum: i32 = 0;
    let mut k: usize = 0;
    while k < input.games.len()
        invariant
            k <= input.games@.len(),
            forall|j: int|
                0 <= j <= input.games@.len() ==> i32::MIN <= #[trigger] possible_sum(
                    input.games@,
                    j,
                ) <= i32::MAX,
            sum == possible_sum(input.games@, k as int),
        decreases input.games@.len() - k,
    {
        let game = &input.games[k];
        let mut ok = true;
        let mut i: usize = 0;
        while i < game.rounds.len()
            invariant
                i <= game.rounds@.len(),
                ok == forall|j: int|
                    0 <= j < i ==> (#[trigger] game.rounds@[j]).0 <= 12 && game.rounds@[j].1 <= 13
                        && game.rounds@[j].2 <= 14,
            decreases game.rounds@.len() - i,
        {
            let (r, g, b) = game.rounds[i];
            if !(r <= 12 && g <= 13 && b <= 14) {
                ok = false;
            }
            i += 1;
        }
        proof {
            assert(i32::MIN <= possible_sum(input.games@, k + 1) <= i32::MAX);
        }
        if ok {
            sum = sum + game.id;
        }
        k += 1;
    }
    sum
}

/// The sum of the powers of the games.
pub fn part2(input: Input) -> (r: i32)
    requires
        forall|k: int| 0 <= k < input.games@.len() ==> power_fits((#[trigger] input.games@[k]).rounds@),
        forall|k: int|
            0 <= k <= input.games@.len() ==> i32::MIN <= #[trigger] power_sum(input.games@, k)
                <= i32::MAX,
    ensures
        r == power_sum(input.games@, input.games@.len() as int),
{
    let mut sum: i32 = 0;
    let mut k: usize = 0;
    while k < input.games.len()
        invariant
            k <= input.games@.len(),
            forall|j: int|
                0 <= j < input.games@.len() ==> power_fits((#[trigger] input.games@[j]).rounds@),
            forall|j: int|
                0 <= j <= input.games@.len() ==> i32::MIN <= #[trigger] power_sum(input.games@, j)
                    <= i32::MAX,
            sum == power_sum(input.games@, k as int),
        decreases input.games@.len() - k,
    {
        let game = &input.games[k];
        let mut most: (i32, i32, i32) = (0, 0, 0);
        let mut i: usize = 0;
        while i < game.rounds.len()
            invariant
                i <= game.rounds@.len(),
                (most.0 as int, most.1 as int, most.2 as int) == fewest(game.rounds@, i as int),
                most.0 >= 0 && most.1 >= 0 && most.2 >= 0,
            decreases game.rounds@.len() - i,
        {
            let (r, g, b) = game.rounds[i];
            most = (
                if most.0 >= r { most.0 } else { r },
                if most.1 >= g { most.1 } else { g },
                if most.2 >= b { most.2 } else { b },
            );
            i += 1;
        }
        proof {
            assert(power_fits(input.games@[k as int].rounds@));
            assert(i32::MIN <= power_sum(input.games@, k + 1) <= i32::MAX);
            assert(most.0 * most.1 >= 0) by (nonlinear_arith)
                requires
                    most.0 >= 0,
                    most.1 >= 0,
            ;
            assert(most.0 * most.1 * most.2 >= 0) by (nonlinear_arith)
                requires
                    most.0 * most.1 >= 0,
                    most.2 >= 0,
            ;
        }
        sum = sum + most.0 * most.1 * most.2;
        k += 1;
    }
    sum
}

// ----------------------------------------------------------------------
// Reading twice
// ----------------------------------------------------------------------


impl Game {
    /// The two games have the same number and the same rounds.
    pub open spec fn same_as(&self, other: Game) -> bool {
        self.id == other.id && self.rounds@ == other.rounds@
    }

    /// Reading a line twice gives the same game.
    pub proof fn lemma_parse_is_unique(a: Game, b: Game, line: Seq<u8>)
        requires
            a.is_parse_of(line),
            b.is_parse_of(line),
        ensures
            a.same_as(b),
    {
        assert(a.rounds@ =~= b.rounds@);
    }
}

/// Reading a text twice gives the same value: two lists of games that
/// one text says have the same games.
pub proof fn lemma_parse_is_unique(a: Input, b: Input, text: Seq<u8>)
    requires
        a.is_parse_of(text),
        b.is_parse_of(text),
    ensures
        a.games@.len() == b.games@.len(),
        forall|i: int| 0 <= i < a.games@.len() ==> (#[trigger] a.games@[i]).same_as(b.games@[i]),
{
    assert forall|i: int| 0 <= i < a.games@.len() implies (#[trigger] a.games@[i]).same_as(
        b.games@[i],
    ) by {
        Game::lemma_parse_is_unique(a.games@[i], b.games@[i], lines(text)[i]);
    }
}

} // verus!
