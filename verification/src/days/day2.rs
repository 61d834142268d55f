//! A game of cubes: in every round of a game some red, green and blue
//! cubes are shown. The first part adds up the numbers of the games that
//! are possible with 12 red, 13 green and 14 blue cubes. The second part
//! adds up, over all games, the product of the greatest numbers shown of
//! each colour.
//!
//! This module works on the text of the games as it stands.

use crate::text::{
    ascii_bytes, copy_range, find, i32_of, lines, parse_i32, rows_of, same_bytes, split,
    split_bytes, split_lines, split_once, to_ascii,
};
use vstd::prelude::*;

verus! {

/// The bytes `: ` that end the title of a game.
pub open spec fn colon() -> Seq<u8> {
    seq![58u8, 32u8]
}

/// The bytes `; ` that part the rounds of a game.
pub open spec fn semicolon() -> Seq<u8> {
    seq![59u8, 32u8]
}

/// The bytes `, ` that part the cubes of a round.
pub open spec fn comma() -> Seq<u8> {
    seq![44u8, 32u8]
}

/// The word `red`.
pub open spec fn red() -> Seq<u8> {
    seq![114u8, 101u8, 100u8]
}

/// The word `green`.
pub open spec fn green() -> Seq<u8> {
    seq![103u8, 114u8, 101u8, 101u8, 110u8]
}

/// The word `blue`.
pub open spec fn blue() -> Seq<u8> {
    seq![98u8, 108u8, 117u8, 101u8]
}

/// The number and the colour that a piece of the form `3 blue` writes.
pub open spec fn cube_of(piece: Seq<u8>) -> Option<(i32, Seq<u8>)> {
    match split_once(piece, seq![32u8]) {
        Some((n, color)) => match i32_of(n) {
            Some(v) => Some((v, color)),
            None => None,
        },
        None => None,
    }
}

/// The number of a game: in the title, which ends at the first `: `, the
/// decimal number behind the first blank.
pub open spec fn game_id(line: Seq<u8>) -> Option<i32> {
    match split_once(line, colon()) {
        Some((title, rounds)) => match split_once(title, seq![32u8]) {
            Some((word, id)) => i32_of(id),
            None => None,
        },
        None => None,
    }
}

/// The rounds of a game: the pieces behind the title that `; ` parts.
pub open spec fn rounds_of(line: Seq<u8>) -> Seq<Seq<u8>> {
    split((split_once(line, colon())->0).1, semicolon())
}

/// Every piece of the round writes a cube.
pub open spec fn round_accepts(round: Seq<u8>) -> bool {
    forall|i: int|
        0 <= i < split(round, comma()).len() ==> cube_of(#[trigger] split(round, comma())[i])
            is Some
}

/// The cubes of a round.
pub open spec fn cubes_of(round: Seq<u8>) -> Seq<(i32, Seq<u8>)> {
    Seq::new(split(round, comma()).len(), |i: int| cube_of(split(round, comma())[i])->0)
}

/// The line writes a game: a title with a number, and rounds of cubes.
pub open spec fn game_accepts(line: Seq<u8>) -> bool {
    &&& game_id(line) is Some
    &&& forall|i: int|
        0 <= i < rounds_of(line).len() ==> round_accepts(#[trigger] rounds_of(line)[i])
}

/// The cubes of the first `k` rounds in a row.
pub open spec fn cubes_upto(rounds: Seq<Seq<u8>>, k: int) -> Seq<(i32, Seq<u8>)>
    decreases k,
{
    if k <= 0 {
        Seq::empty()
    } else {
        cubes_upto(rounds, k - 1) + cubes_of(rounds[k - 1])
    }
}

/// All cubes of a game in a row.
pub open spec fn all_cubes(line: Seq<u8>) -> Seq<(i32, Seq<u8>)> {
    cubes_upto(rounds_of(line), rounds_of(line).len() as int)
}

/// The cube can be shown: at most 12 red, 13 green or 14 blue cubes, and
/// no other colour and no negative number.
pub open spec fn cube_is_possible(cube: (i32, Seq<u8>)) -> bool {
    ||| (0 <= cube.0 <= 12 && cube.1 == red())
    ||| (0 <= cube.0 <= 13 && cube.1 == green())
    ||| (0 <= cube.0 <= 14 && cube.1 == blue())
}

/// Every cube of the game can be shown.
pub open spec fn game_is_possible(line: Seq<u8>) -> bool {
    forall|i: int| 0 <= i < all_cubes(line).len() ==> cube_is_possible(#[trigger] all_cubes(line)[i])
}

/// The sum of the numbers of those of the first `k` games that are
/// possible.
pub open spec fn possible_sum(ls: Seq<Seq<u8>>, k: int) -> int
    decreases k,
{
    if k <= 0 {
        0
    } else {
        possible_sum(ls, k - 1) + if game_is_possible(ls[k - 1]) {
            game_id(ls[k - 1])->0 as int
        } else {
            0
        }
    }
}

/// The greatest number among the first `k` cubes that have the colour.
/// The first cube of a colour counts as it is, even if it is negative.
pub open spec fn most_of(cubes: Seq<(i32, Seq<u8>)>, color: Seq<u8>, k: int) -> Option<int>
    decreases k,
{
    if k <= 0 {
        None
    } else {
        let rest = most_of(cubes, color, k - 1);
        if cubes[k - 1].1 != color {
            rest
        } else {
            match rest {
                Some(m) => Some(if cubes[k - 1].0 > m { cubes[k - 1].0 as int } else { m }),
                None => Some(cubes[k - 1].0 as int),
            }
        }
    }
}

/// The product, over the colours that occur first among the first `k`
/// cubes, of the greatest number shown of that colour in the whole game.
pub open spec fn power_upto(cubes: Seq<(i32, Seq<u8>)>, k: int) -> int
    decreases k,
{
    if k <= 0 {
        1
    } else {
        let color = cubes[k - 1].1;
        power_upto(cubes, k - 1) * if most_of(cubes, color, k - 1) is None {
            most_of(cubes, color, cubes.len() as int)->0
        } else {
            1
        }
    }
}

/// The power of a game: the product of the greatest numbers of each colour.
pub open spec fn game_power(line: Seq<u8>) -> int {
    power_upto(all_cubes(line), all_cubes(line).len() as int)
}

/// The sum of the powers of the first `k` games.
pub open spec fn power_sum(ls: Seq<Seq<u8>>, k: int) -> int
    decreases k,
{
    if k <= 0 {
        0
    } else {
        power_sum(ls, k - 1) + game_power(ls[k - 1])
    }
}

/// Every line of the text writes a game.
pub open spec fn accepts(text: Seq<u8>) -> bool {
    forall|i: int| 0 <= i < lines(text).len() ==> game_accepts(#[trigger] lines(text)[i])
}

/// A cube as it is held: its number and the bytes of its colour.
pub struct Cube {
    pub n: i32,
    pub color: Vec<u8>,
}

/// What a list of cubes holds.
pub open spec fn cubes_view(v: Seq<Cube>) -> Seq<(i32, Seq<u8>)> {
    Seq::new(v.len(), |i: int| (v[i].n, v[i].color@))
}

/// What a list of rounds holds.
pub open spec fn rounds_view(v: Seq<Vec<Cube>>) -> Seq<Seq<(i32, Seq<u8>)>> {
    Seq::new(v.len(), |i: int| cubes_view(v[i]@))
}

/// Reads the cubes of a round.
pub fn read_round(round: &[u8]) -> (r: Option<Vec<Cube>>)
    ensures
        match r {
            Some(v) => round_accepts(round@) && cubes_view(v@) == cubes_of(round@),
            None => !round_accepts(round@),
        },
{
    let sep: [u8; 2] = [44, 32];
    assert(sep@ =~= comma());
    let blank: [u8; 1] = [32];
    assert(blank@ =~= seq![32u8]);
    let pieces = split_bytes(round, sep.as_slice());
    let ghost p = split(round@, comma());
    let mut v: Vec<Cube> = Vec::new();
    let mut i: usize = 0;
    while i < pieces.len()
        invariant
            i <= pieces@.len(),
            rows_of(pieces@) == p,
            p == split(round@, comma()),
            blank@ == seq![32u8],
            v@.len() == i,
            forall|k: int| 0 <= k < i ==> cube_of(#[trigger] p[k]) == Some((v@[k].n, v@[k].color@)),
        decreases pieces@.len() - i,
    {
        assert(pieces@[i as int]@ == p[i as int]);
        assert(rows_of(pieces@).len() == pieces@.len());
        let piece = &pieces[i];
        let at = find(piece.as_slice(), blank.as_slice(), 0);
        if at >= piece.len() {
            assert(cube_of(p[i as int]) is None);
            return None;
        }
        let n = copy_range(piece.as_slice(), 0, at);
        let color = copy_range(piece.as_slice(), at + 1, piece.len());
        match parse_i32(n.as_slice()) {
            Some(n) => {
                v.push(Cube { n, color });
            },
            None => {
                assert(cube_of(p[i as int]) is None);
                return None;
            },
        }
        i += 1;
    }
    assert(cubes_view(v@) =~= cubes_of(round@));
    Some(v)
}

/// Reads the number and the rounds of a game.
pub fn read_game(line: &[u8]) -> (r: Option<(i32, Vec<Vec<Cube>>)>)
    ensures
        match r {
            Some((id, rounds)) => {
                &&& game_accepts(line@)
                &&& Some(id) == game_id(line@)
                &&& rounds@.len() == rounds_of(line@).len()
                &&& forall|i: int|
                    0 <= i < rounds@.len() ==> cubes_view((#[trigger] rounds@[i])@) == cubes_of(
                        rounds_of(line@)[i],
                    )
            },
            None => !game_accepts(line@),
        },
{
    let sep: [u8; 2] = [58, 32];
    assert(sep@ =~= colon());
    let semi: [u8; 2] = [59, 32];
    assert(semi@ =~= semicolon());
    let blank: [u8; 1] = [32];
    assert(blank@ =~= seq![32u8]);
    let at = find(line, sep.as_slice(), 0);
    if at >= line.len() {
        return None;
    }
    let title = copy_range(line, 0, at);
    let rest = copy_range(line, at + 2, line.len());
    assert(split_once(line@, colon()) == Some((title@, rest@)));
    let b = find(title.as_slice(), blank.as_slice(), 0);
    if b >= title.len() {
        return None;
    }
    let id_bytes = copy_range(title.as_slice(), b + 1, title.len());
    let id = match parse_i32(id_bytes.as_slice()) {
        Some(id) => id,
        None => { return None; },
    };
    let pieces = split_bytes(rest.as_slice(), semi.as_slice());
    let ghost p = rounds_of(line@);
    let mut rounds: Vec<Vec<Cube>> = Vec::new();
    let mut i: usize = 0;
    while i < pieces.len()
        invariant
            i <= pieces@.len(),
            rows_of(pieces@) == p,
            p == rounds_of(line@),
            game_id(line@) == Some(id),
            rounds@.len() == i,
            forall|k: int| 0 <= k < i ==> round_accepts(#[trigger] p[k]),
            forall|k: int| 0 <= k < i ==> cubes_view((#[trigger] rounds@[k])@) == cubes_of(p[k]),
        decreases pieces@.len() - i,
    {
        assert(pieces@[i as int]@ == p[i as int]);
        assert(rows_of(pieces@).len() == pieces@.len());
        match read_round(pieces[i].as_slice()) {
            Some(v) => {
                rounds.push(v);
            },
            None => {
                assert(!round_accepts(p[i as int]));
                return None;
            },
        }
        i += 1;
    }
    assert(rows_of(pieces@).len() == pieces@.len());
    Some((id, rounds))
}

/// All cubes of the rounds in a row.
pub fn flatten(rounds: Vec<Vec<Cube>>) -> (r: Vec<Cube>)
    ensures
        cubes_view(r@) == flat(rounds_view(rounds@), rounds@.len() as int),
{
    let mut rounds = rounds;
    let ghost all = rounds_view(rounds@);
    let mut r: Vec<Cube> = Vec::new();
    let mut k: usize = 0;
    assert(cubes_view(r@) =~= flat(all, 0));
    while k < rounds.len()
        invariant
            k <= rounds@.len(),
            rounds@.len() == all.len(),
            forall|j: int| k <= j < all.len() ==> cubes_view((#[trigger] rounds@[j])@) == all[j],
            cubes_view(r@) == flat(all, k as int),
        decreases rounds@.len() - k,
    {
        let ghost before = cubes_view(r@);
        let ghost round = cubes_view(rounds@[k as int]@);
        let ghost old_rounds = rounds@;
        let mut taken: Vec<Cube> = Vec::new();
        std::mem::swap(&mut taken, &mut rounds[k]);
        assert(cubes_view(taken@) == round);
        r.append(&mut taken);
        assert(cubes_view(r@) =~= before + round);
        proof {
            assert forall|j: int| k + 1 <= j < all.len() implies cubes_view(
                (#[trigger] rounds@[j])@,
            ) == all[j] by {
                assert(rounds@[j] == old_rounds[j]);
            }
        }
        k += 1;
    }
    r
}

/// Lists of cubes in a row.
pub open spec fn flat(rounds: Seq<Seq<(i32, Seq<u8>)>>, k: int) -> Seq<(i32, Seq<u8>)>
    decreases k,
{
    if k <= 0 {
        Seq::empty()
    } else {
        flat(rounds, k - 1) + rounds[k - 1]
    }
}

/// The cubes of the rounds of a game in a row are all its cubes.
pub proof fn lemma_flat(rounds: Seq<Seq<(i32, Seq<u8>)>>, texts: Seq<Seq<u8>>, k: int)
    requires
        0 <= k <= rounds.len(),
        rounds.len() == texts.len(),
        forall|i: int| 0 <= i < rounds.len() ==> #[trigger] rounds[i] == cubes_of(texts[i]),
    ensures
        flat(rounds, k) == cubes_upto(texts, k),
    decreases k,
{
    if k > 0 {
        lemma_flat(rounds, texts, k - 1);
    }
}

/// Reads all cubes of a game with its number.
pub fn read_cubes(line: &[u8]) -> (r: Option<(i32, Vec<Cube>)>)
    ensures
        match r {
            Some((id, cubes)) => game_accepts(line@) && Some(id) == game_id(line@) && cubes_view(
                cubes@,
            ) == all_cubes(line@),
            None => !game_accepts(line@),
        },
{
    match read_game(line) {
        Some((id, rounds)) => {
            proof {
                let texts = rounds_of(line@);
                let views = rounds_view(rounds@);
                assert forall|i: int| 0 <= i < views.len() implies #[trigger] views[i] == cubes_of(
                    texts[i],
                ) by {
                    assert(cubes_view(rounds@[i]@) == cubes_of(texts[i]));
                }
                lemma_flat(views, texts, views.len() as int);
            }
            Some((id, flatten(rounds)))
        },
        None => None,
    }
}

/// Whether every cube can be shown.
pub fn all_possible(cubes: &Vec<Cube>) -> (r: bool)
    ensures
        r == forall|i: int|
            0 <= i < cubes@.len() ==> cube_is_possible(#[trigger] cubes_view(cubes@)[i]),
{
    let r: [u8; 3] = [114, 101, 100];
    let g: [u8; 5] = [103, 114, 101, 101, 110];
    let b: [u8; 4] = [98, 108, 117, 101];
    assert(r@ =~= red());
    assert(g@ =~= green());
    assert(b@ =~= blue());
    let mut k: usize = 0;
    while k < cubes.len()
        invariant
            k <= cubes@.len(),
            r@ == red(),
            g@ == green(),
            b@ == blue(),
            forall|i: int| 0 <= i < k ==> cube_is_possible(#[trigger] cubes_view(cubes@)[i]),
        decreases cubes@.len() - k,
    {
        let c = &cubes[k];
        assert(cubes_view(cubes@)[k as int] == (c.n, c.color@));
        let ok = (0 <= c.n && c.n <= 12 && same_bytes(c.color.as_slice(), r.as_slice())) || (0
            <= c.n && c.n <= 13 && same_bytes(c.color.as_slice(), g.as_slice())) || (0 <= c.n
            && c.n <= 14 && same_bytes(c.color.as_slice(), b.as_slice()));
        if !ok {
            return false;
        }
        k += 1;
    }
    true
}

/// The greatest number among the first `k` cubes that have the colour.
pub fn most_shown(cubes: &Vec<Cube>, color: &[u8], k: usize) -> (r: Option<i32>)
    requires
        k <= cubes@.len(),
    ensures
        match r {
            Some(m) => most_of(cubes_view(cubes@), color@, k as int) == Some(m as int),
            None => most_of(cubes_view(cubes@), color@, k as int) is None,
        },
{
    let ghost all = cubes_view(cubes@);
    let mut best: Option<i32> = None;
    let mut i: usize = 0;
    while i < k
        invariant
            i <= k <= cubes@.len(),
            all == cubes_view(cubes@),
            match best {
                Some(m) => most_of(all, color@, i as int) == Some(m as int),
                None => most_of(all, color@, i as int) is None,
            },
        decreases k - i,
    {
        assert(all[i as int] == (cubes@[i as int].n, cubes@[i as int].color@));
        if same_bytes(cubes[i].color.as_slice(), color) {
            best = match best {
                Some(m) => Some(if cubes[i].n > m { cubes[i].n } else { m }),
                None => Some(cubes[i].n),
            };
        }
        i += 1;
    }
    best
}

/// A colour that occurs among the cubes has a greatest number.
pub proof fn lemma_most_exists(cubes: Seq<(i32, Seq<u8>)>, color: Seq<u8>, i: int, n: int)
    requires
        0 <= i < n <= cubes.len(),
        cubes[i].1 == color,
    ensures
        most_of(cubes, color, n) is Some,
    decreases n,
{
    if i < n - 1 {
        lemma_most_exists(cubes, color, i, n - 1);
    }
}

/// The power can be computed in 32 bits, cube by cube.
pub open spec fn power_fits(cubes: Seq<(i32, Seq<u8>)>) -> bool {
    forall|k: int| 0 <= k <= cubes.len() ==> i32::MIN <= #[trigger] power_upto(cubes, k) <= i32::MAX
}

/// The product of the greatest numbers shown of each colour.
pub fn power_of(cubes: &Vec<Cube>) -> (r: i32)
    requires
        power_fits(cubes_view(cubes@)),
    ensures
        r == power_upto(cubes_view(cubes@), cubes@.len() as int),
{
    let ghost all = cubes_view(cubes@);
    let mut product: i32 = 1;
    let mut k: usize = 0;
    while k < cubes.len()
        invariant
            k <= cubes@.len(),
            all == cubes_view(cubes@),
            power_fits(all),
            product == power_upto(all, k as int),
        decreases cubes@.len() - k,
    {
        assert(all[k as int] == (cubes@[k as int].n, cubes@[k as int].color@));
        proof {
            assert(i32::MIN <= power_upto(all, k + 1) <= i32::MAX);
        }
        let color = cubes[k].color.as_slice();
        proof {
            assert(all.len() == cubes@.len());
            lemma_most_exists(all, color@, k as int, all.len() as int);
        }
        if most_shown(cubes, color, k).is_none() {
            match most_shown(cubes, color, cubes.len()) {
                Some(m) => {
                    product = product * m;
                },
                None => {},
            }
        }
        k += 1;
    }
    product
}

/// The sum of the numbers of the games that are possible.
pub fn part1(input: String) -> (r: i32)
    requires
        ascii_bytes(input@) is Some,
        accepts(ascii_bytes(input@)->0),
        forall|k: int|
            0 <= k <= lines(ascii_bytes(input@)->0).len() ==> i32::MIN <= #[trigger] possible_sum(
                lines(ascii_bytes(input@)->0),
                k,
            ) <= i32::MAX,
    ensures
        r == possible_sum(
            lines(ascii_bytes(input@)->0),
            lines(ascii_bytes(input@)->0).len() as int,
        ),
{
    let bytes = match to_ascii(input.as_str()) {
        Some(b) => b,
        None => { return 0; },
    };
    let ghost text = bytes@;
    let ls = split_lines(bytes.as_slice());
    let ghost rows = lines(text);
    let mut solution: i32 = 0;
    let mut i: usize = 0;
    while i < ls.len()
        invariant
            i <= ls@.len(),
            rows_of(ls@) == rows,
            rows == lines(text),
            accepts(text),
            forall|k: int|
                0 <= k <= rows.len() ==> i32::MIN <= #[trigger] possible_sum(rows, k) <= i32::MAX,
            solution == possible_sum(rows, i as int),
        decreases ls@.len() - i,
    {
        assert(ls@[i as int]@ == rows[i as int]);
        assert(rows_of(ls@).len() == ls@.len());
        assert(game_accepts(rows[i as int]));
        proof {
            assert(i32::MIN <= possible_sum(rows, i + 1) <= i32::MAX);
        }
        match read_cubes(ls[i].as_slice()) {
            Some((id, cubes)) => {
                if all_possible(&cubes) {
                    solution = solution + id;
                }
            },
            None => {},
        }
        i += 1;
    }
    solution
}

/// The sum of the powers of the games.
pub fn part2(input: String) -> (r: i32)
    requires
        ascii_bytes(input@) is Some,
        accepts(ascii_bytes(input@)->0),
        forall|k: int|
            0 <= k < lines(ascii_bytes(input@)->0).len() ==> power_fits(
                all_cubes(#[trigger] lines(ascii_bytes(input@)->0)[k]),
            ),
        forall|k: int|
            0 <= k <= lines(ascii_bytes(input@)->0).len() ==> i32::MIN <= #[trigger] power_sum(
                lines(ascii_bytes(input@)->0),
                k,
            ) <= i32::MAX,
    ensures
        r == power_sum(lines(ascii_bytes(input@)->0), lines(ascii_bytes(input@)->0).len() as int),
{
    let bytes = match to_ascii(input.as_str()) {
        Some(b) => b,
        None => { return 0; },
    };
    let ghost text = bytes@;
    let ls = split_lines(bytes.as_slice());
    let ghost rows = lines(text);
    let mut solution: i32 = 0;
    let mut i: usize = 0;
    while i < ls.len()
        invariant
            i <= ls@.len(),
            rows_of(ls@) == rows,
            rows == lines(text),
            accepts(text),
            forall|k: int| 0 <= k < rows.len() ==> power_fits(all_cubes(#[trigger] rows[k])),
            forall|k: int|
                0 <= k <= rows.len() ==> i32::MIN <= #[trigger] power_sum(rows, k) <= i32::MAX,
            solution == power_sum(rows, i as int),
        decreases ls@.len() - i,
    {
        assert(ls@[i as int]@ == rows[i as int]);
        assert(rows_of(ls@).len() == ls@.len());
        assert(game_accepts(rows[i as int]));
        assert(power_fits(all_cubes(rows[i as int])));
        proof {
            assert(i32::MIN <= power_sum(rows, i + 1) <= i32::MAX);
        }
        match read_cubes(ls[i].as_slice()) {
            Some((id, cubes)) => {
                solution = solution + power_of(&cubes);
            },
            None => {},
        }
        i += 1;
    }
    solution
}

} // verus!
