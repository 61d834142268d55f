//! Scratchcards: every card lists winning numbers and the numbers that one
//! has. The first part gives a card with matches one point for the first
//! match and doubles it for every further one. The second part lets a card
//! win copies of the cards that follow it, and counts all cards in the end.

use crate::text::{
    all_i32, ascii_bytes, copy_range, find, i32_of, i32s_of, lines, parse_all_i32, parse_i32,
    rows_of, split, split_bytes, split_lines, split_once, split_tokens, to_ascii, tokens,
    ParseError,
};
use vstd::prelude::*;

verus! {

/// A card: its number, and how many of its numbers win.
#[derive(Debug, PartialEq, Eq)]
pub struct Card {
    pub id: i32,
    pub score: u32,
}

/// The cards.
#[derive(Debug, PartialEq, Eq)]
pub struct Input {
    pub cards: Vec<Card>,
}

/// The number occurs among the first `k` numbers.
pub open spec fn occurs_before(v: Seq<i32>, x: i32, k: int) -> bool {
    exists|j: int| 0 <= j < k && j < v.len() && v[j] == x
}

/// How many different numbers among the first `k` of `have` occur among
/// `winning`.
pub open spec fn matches_upto(winning: Seq<i32>, have: Seq<i32>, k: int) -> int
    decreases k,
{
    if k <= 0 {
        0
    } else {
        matches_upto(winning, have, k - 1) + if occurs_before(
            winning,
            have[k - 1],
            winning.len() as int,
        ) && !occurs_before(have, have[k - 1], k - 1) {
            1int
        } else {
            0int
        }
    }
}

/// How many different numbers the two lists share.
pub open spec fn shared(winning: Seq<i32>, have: Seq<i32>) -> int {
    matches_upto(winning, have, have.len() as int)
}

/// The groups of numbers of a card: the pieces behind the first colon that
/// upright bars part.
pub open spec fn groups_of(line: Seq<u8>) -> Seq<Seq<u8>> {
    split((split_once(line, seq![58u8])->0).1, seq![124u8])
}

/// The number of the card: the last word before the first colon.
pub open spec fn card_id(line: Seq<u8>) -> Option<i32> {
    let words = tokens((split_once(line, seq![58u8])->0).0);
    if split_once(line, seq![58u8]) is Some && words.len() > 0 {
        i32_of(words.last())
    } else {
        None
    }
}

/// The line writes a card: a title that ends in a number, a colon, and at
/// least two groups of numbers.
pub open spec fn card_accepts(line: Seq<u8>) -> bool {
    &&& card_id(line) is Some
    &&& groups_of(line).len() >= 2
    &&& forall|i: int|
        0 <= i < groups_of(line).len() ==> all_i32(tokens(#[trigger] groups_of(line)[i]))
}

/// Every line of the text writes a card.
pub open spec fn accepts(text: Seq<u8>) -> bool {
    forall|i: int| 0 <= i < lines(text).len() ==> card_accepts(#[trigger] lines(text)[i])
}

/// Two to the power of `k`.
pub open spec fn doubled(k: int) -> int
    decreases k,
{
    if k <= 0 {
        1
    } else {
        2 * doubled(k - 1)
    }
}

/// The points of a card: none without a match, else two to the power of
/// one less than the number of matches.
pub open spec fn points(score: u32) -> int {
    if score > 0 {
        doubled(score - 1)
    } else {
        0
    }
}

/// The sum of the points of the first `k` cards.
pub open spec fn points_sum(cards: Seq<Card>, k: int) -> int
    decreases k,
{
    if k <= 0 {
        0
    } else {
        points_sum(cards, k - 1) + points(cards[k - 1].score)
    }
}

/// The numbers of copies of each card once the first `k` cards have won
/// theirs: every card starts as one, and each copy of card `i` with `s`
/// matches wins one copy of each of the `s` cards that follow it.
pub open spec fn copies(cards: Seq<Card>, k: int) -> Seq<int>
    decreases k,
{
    if k <= 0 {
        Seq::new(cards.len(), |j: int| 1int)
    } else {
        let before = copies(cards, k - 1);
        Seq::new(
            cards.len(),
            |j: int|
                if k - 1 < j <= k - 1 + cards[k - 1].score {
                    before[j] + before[k - 1]
                } else {
                    before[j]
                },
        )
    }
}

/// The sum of the first `k` numbers.
pub open spec fn total(v: Seq<int>, k: int) -> int
    decreases k,
{
    if k <= 0 {
        0
    } else {
        total(v, k - 1) + v[k - 1]
    }
}

/// No card wins copies of cards beyond the last one, and all numbers of
/// copies fit 32 bits.
pub open spec fn copies_fit(cards: Seq<Card>) -> bool {
    &&& forall|i: int| 0 <= i < cards.len() ==> i + (#[trigger] cards[i]).score < cards.len()
    &&& forall|k: int, j: int|
        0 <= k <= cards.len() && 0 <= j < cards.len() ==> #[trigger] copies(cards, k)[j]
            <= i32::MAX
    &&& forall|k: int|
        0 <= k <= cards.len() ==> #[trigger] total(copies(cards, cards.len() as int), k)
            <= i32::MAX
}

/// Whether the number occurs among the first `k` numbers.
fn contains_before(v: &Vec<i32>, x: i32, k: usize) -> (r: bool)
    requires
        k <= v@.len(),
    ensures
        r == occurs_before(v@, x, k as int),
{
    let mut j: usize = 0;
    while j < k
        invariant
            j <= k <= v@.len(),
            forall|i: int| 0 <= i < j ==> v@[i] != x,
        decreases k - j,
    {
        if v[j] == x {
            return true;
        }
        j += 1;
    }
    false
}

/// How many different numbers the two lists share.
pub fn count_shared(winning: &Vec<i32>, have: &Vec<i32>) -> (r: usize)
    ensures
        r == shared(winning@, have@),
        r <= have@.len(),
{
    let mut n: usize = 0;
    let mut k: usize = 0;
    while k < have.len()
        invariant
            k <= have@.len(),
            n == matches_upto(winning@, have@, k as int),
            n <= k,
        decreases have@.len() - k,
    {
        if contains_before(winning, have[k], winning.len()) && !contains_before(have, have[k], k) {
            n += 1;
        }
        k += 1;
    }
    n
}

impl Card {
    /// This card is what the line says: its score counts the different
    /// numbers that its first two groups share.
    pub open spec fn is_parse_of(&self, line: Seq<u8>) -> bool {
        &&& Some(self.id) == card_id(line)
        &&& self.score == shared(
            i32s_of(tokens(groups_of(line)[1])),
            i32s_of(tokens(groups_of(line)[0])),
        )
    }

    /// The line writes a card whose score fits 32 bits.
    pub open spec fn accepts(line: Seq<u8>) -> bool {
        card_accepts(line) && shared(
            i32s_of(tokens(groups_of(line)[1])),
            i32s_of(tokens(groups_of(line)[0])),
        ) <= u32::MAX
    }

    /// Reads a card from the bytes of its line.
    pub fn read(line: &[u8]) -> (r: Option<Card>)
        ensures
            match r {
                Some(c) => Card::accepts(line@) && c.is_parse_of(line@),
                None => !Card::accepts(line@),
            },
    {
        let colon: [u8; 1] = [58];
        assert(colon@ =~= seq![58u8]);
        let bar: [u8; 1] = [124];
        assert(bar@ =~= seq![124u8]);
        let at = find(line, colon.as_slice(), 0);
        if at >= line.len() {
            return None;
        }
        let title = copy_range(line, 0, at);
        let rest = copy_range(line, at + 1, line.len());
        assert(split_once(line@, seq![58u8]) == Some((title@, rest@)));
        let words = split_tokens(title.as_slice());
        if words.len() == 0 {
            return None;
        }
        assert(words@[words@.len() - 1]@ == tokens(title@).last());
        let id = match parse_i32(words[words.len() - 1].as_slice()) {
            Some(id) => id,
            None => { return None; },
        };
        let pieces = split_bytes(rest.as_slice(), bar.as_slice());
        let ghost g = groups_of(line@);
        assert(rows_of(pieces@) == g);
        let mut groups: Vec<Vec<i32>> = Vec::new();
        let mut i: usize = 0;
        while i < pieces.len()
            invariant
                i <= pieces@.len(),
                rows_of(pieces@) == g,
                g == groups_of(line@),
                card_id(line@) == Some(id),
                groups@.len() == i,
                forall|k: int| 0 <= k < i ==> all_i32(tokens(#[trigger] g[k])),
                forall|k: int| 0 <= k < i ==> (#[trigger] groups@[k])@ == i32s_of(tokens(g[k])),
            decreases pieces@.len() - i,
        {
            assert(pieces@[i as int]@ == g[i as int]);
            assert(rows_of(pieces@).len() == pieces@.len());
            let t = split_tokens(pieces[i].as_slice());
            match parse_all_i32(&t) {
                Some(v) => {
                    groups.push(v);
                },
                None => {
                    assert(!all_i32(tokens(g[i as int])));
                    return None;
                },
            }
            i += 1;
        }
        assert(rows_of(pieces@).len() == pieces@.len());
        if groups.len() < 2 {
            return None;
        }
        let n = count_shared(&groups[1], &groups[0]);
        if n > 0xffff_ffff {
            return None;
        }
        Some(Card { id, score: n as u32 })
    }

    /// Reads a card: `Card 1: 41 48 | 83 86 17`.
    pub fn from_str(s: &str) -> (r: Result<Card, ParseError>)
        ensures
            match r {
                Ok(c) => ascii_bytes(s@) is Some && Card::accepts(ascii_bytes(s@)->0)
                    && c.is_parse_of(ascii_bytes(s@)->0),
                Err(_) => ascii_bytes(s@) is None || !Card::accepts(ascii_bytes(s@)->0),
            },
    {
        match to_ascii(s) {
            Some(b) => match Card::read(b.as_slice()) {
                Some(c) => Ok(c),
                None => Err(ParseError {  }),
            },
            None => Err(ParseError {  }),
        }
    }
}

impl Input {
    /// This value is what the text says: one card for each line.
    pub open spec fn is_parse_of(&self, text: Seq<u8>) -> bool {
        &&& self.cards@.len() == lines(text).len()
        &&& forall|i: int|
            0 <= i < lines(text).len() ==> (#[trigger] self.cards@[i]).is_parse_of(lines(text)[i])
    }

    /// Every line of the text writes a card.
    pub open spec fn accepts(text: Seq<u8>) -> bool {
        forall|i: int| 0 <= i < lines(text).len() ==> Card::accepts(#[trigger] lines(text)[i])
    }

    /// Reads the cards. A text is accepted if it is ASCII and each line
    /// writes a card.
    pub fn from_str(s: &str) -> (r: Result<Input, ParseError>)
        ensures
            match r {
                Ok(v) => ascii_bytes(s@) is Some && Input::accepts(ascii_bytes(s@)->0)
                    && v.is_parse_of(ascii_bytes(s@)->0),
                Err(_) => ascii_bytes(s@) is None || !Input::accepts(ascii_bytes(s@)->0),
            },
    {
        let bytes = match to_ascii(s) {
            Some(b) => b,
            None => { return Err(ParseError {  }); },
        };
        let ghost text = bytes@;
        let ls = split_lines(bytes.as_slice());
        let mut cards: Vec<Card> = Vec::new();
        let mut i: usize = 0;
        while i < ls.len()
            invariant
                i <= ls@.len(),
                rows_of(ls@) == lines(text),
                ascii_bytes(s@) == Some(text),
                cards@.len() == i,
                forall|k: int| 0 <= k < i ==> Card::accepts(#[trigger] lines(text)[k]),
                forall|k: int| 0 <= k < i ==> (#[trigger] cards@[k]).is_parse_of(lines(text)[k]),
            decreases ls@.len() - i,
        {
            assert(ls@[i as int]@ == lines(text)[i as int]);
            match Card::read(ls[i].as_slice()) {
                Some(c) => {
                    cards.push(c);
                },
                None => {
                    proof {
                        assert(rows_of(ls@).len() == ls@.len());
                        assert(!Card::accepts(lines(text)[i as int]));
                    }
                    return Err(ParseError {  });
                },
            }
            i += 1;
        }
        Ok(Input { cards })
    }
}

/// Two to the power of `k` for `k` up to 30.
pub fn power_of_two(k: u32) -> (r: i32)
    requires
        k <= 30,
    ensures
        r == doubled(k as int),
        r >= 1,
{
    let mut r: i32 = 1;
    let mut i: u32 = 0;
    while i < k
        invariant
            i <= k <= 30,
            r == doubled(i as int),
            1 <= r <= 0x4000_0000,
            i < 30 ==> r <= 0x2000_0000,
        decreases k - i,
    {
        proof {
            lemma_doubled_bound(i as int);
            lemma_doubled_bound(i + 1);
        }
        r = r * 2;
        i += 1;
    }
    r
}

/// Powers of two grow, and the thirtieth is the greatest that fits 32 bits
/// with a sign.
pub proof fn lemma_doubled_bound(k: int)
    requires
        0 <= k <= 30,
    ensures
        1 <= doubled(k) <= 0x4000_0000,
        k < 30 ==> doubled(k) <= 0x2000_0000,
{
    lemma_doubled_values();
    lemma_doubled_grows(k, 30);
    if k < 30 {
        lemma_doubled_grows(k, 29);
    }
    lemma_doubled_grows(0, k);
}

/// A greater power of two is no smaller.
pub proof fn lemma_doubled_grows(a: int, b: int)
    requires
        0 <= a <= b,
    ensures
        1 <= doubled(a) <= doubled(b),
    decreases b,
{
    if a < b {
        lemma_doubled_grows(a, b - 1);
    } else if a > 0 {
        lemma_doubled_grows(0, a - 1);
    }
}

/// The first thirty powers of two.
proof fn lemma_doubled_values()
    ensures
        doubled(29) == 0x2000_0000,
        doubled(30) == 0x4000_0000,
{
    assert(doubled(0) == 1);
    assert(doubled(1) == 2);
    assert(doubled(2) == 4);
    assert(doubled(3) == 8);
    assert(doubled(4) == 16);
    assert(doubled(5) == 32);
    assert(doubled(6) == 64);
    assert(doubled(7) == 128);
    assert(doubled(8) == 256);
    assert(doubled(9) == 512);
    assert(doubled(10) == 1024);
    assert(doubled(11) == 2048);
    assert(doubled(12) == 4096);
    assert(doubled(13) == 8192);
    assert(doubled(14) == 16384);
    assert(doubled(15) == 32768);
    assert(doubled(16) == 65536);
    assert(doubled(17) == 131072);
    assert(doubled(18) == 262144);
    assert(doubled(19) == 524288);
    assert(doubled(20) == 1048576);
    assert(doubled(21) == 2097152);
    assert(doubled(22) == 4194304);
    assert(doubled(23) == 8388608);
    assert(doubled(24) == 16777216);
    assert(doubled(25) == 33554432);
    assert(doubled(26) == 67108864);
    assert(doubled(27) == 134217728);
    assert(doubled(28) == 268435456);
    assert(doubled(29) == 536870912);
    assert(doubled(30) == 1073741824);
}

/// The sum of the points of all cards.
pub fn part1(input: Input) -> (r: i32)
    requires
        forall|k: int| 0 <= k < input.cards@.len() ==> (#[trigger] input.cards@[k]).score <= 31,
        forall|k: int|
            0 <= k <= input.cards@.len() ==> #[trigger] points_sum(input.cards@, k) <= i32::MAX,
    ensures
        r == points_sum(input.cards@, input.cards@.len() as int),
{
    let mut sum: i32 = 0;
    let mut k: usize = 0;
    while k < input.cards.len()
        invariant
            k <= input.cards@.len(),
            forall|j: int| 0 <= j < input.cards@.len() ==> (#[trigger] input.cards@[j]).score <= 31,
            forall|j: int|
                0 <= j <= input.cards@.len() ==> #[trigger] points_sum(input.cards@, j)
                    <= i32::MAX,
            sum == points_sum(input.cards@, k as int),
            sum >= 0,
        decreases input.cards@.len() - k,
    {
        let score = input.cards[k].score;
        proof {
            assert(input.cards@[k as int].score <= 31);
            assert(points_sum(input.cards@, k + 1) <= i32::MAX);
        }
        if score > 0 {
            sum = sum + power_of_two(score - 1);
        }
        k += 1;
    }
    sum
}

/// The number of cards in the end, originals and copies.
pub fn part2(input: Input) -> (r: i32)
    requires
        copies_fit(input.cards@),
    ensures
        r == total(copies(input.cards@, input.cards@.len() as int), input.cards@.len() as int),
{
    let ghost cards = input.cards@;
    let n = input.cards.len();
    let mut amounts: Vec<i32> = Vec::new();
    let mut i: usize = 0;
    while i < n
        invariant
            i <= n,
            amounts@.len() == i,
            forall|j: int| 0 <= j < i ==> amounts@[j] == 1,
        decreases n - i,
    {
        amounts.push(1);
        i += 1;
    }
    assert(Seq::new(amounts@.len(), |j: int| amounts@[j] as int) =~= copies(cards, 0));
    let mut i: usize = 0;
    while i < n
        invariant
            i <= n,
            n == cards.len(),
            cards == input.cards@,
            copies_fit(cards),
            amounts@.len() == n,
            forall|j: int| 0 <= j < n ==> #[trigger] amounts@[j] as int == copies(cards, i as int)[j],
        decreases n - i,
    {
        let score = input.cards[i].score as usize;
        assert(i + cards[i as int].score < cards.len());
        let own = amounts[i];
        let ghost before = amounts@;
        let mut j: usize = i + 1;
        while j <= i + score
            invariant
                i < n,
                i + 1 <= j <= i + score + 1,
                i + score < n,
                n == cards.len(),
                score == cards[i as int].score,
                copies_fit(cards),
                amounts@.len() == n,
                own == before[i as int],
                before.len() == n,
                forall|m: int|
                    0 <= m < n ==> #[trigger] before[m] as int == copies(cards, i as int)[m],
                forall|m: int|
                    0 <= m < n ==> #[trigger] amounts@[m] as int == if i < m < j {
                        before[m] + before[i as int]
                    } else {
                        before[m] as int
                    },
            decreases i + score + 1 - j,
        {
            proof {
                assert(copies(cards, i + 1)[j as int] <= i32::MAX);
                assert(copies(cards, i + 1)[j as int] == before[j as int] + before[i as int]);
                assert(copies(cards, i as int)[i as int] >= 1) by {
                    lemma_copies_positive(cards, i as int, i as int);
                }
                lemma_copies_positive(cards, i as int, j as int);
            }
            amounts[j] = amounts[j] + own;
            j += 1;
        }
        i += 1;
    }
    let ghost all = copies(cards, n as int);
    let mut sum: i32 = 0;
    let mut k: usize = 0;
    while k < n
        invariant
            k <= n,
            n == cards.len(),
            all == copies(cards, n as int),
            copies_fit(cards),
            amounts@.len() == n,
            forall|j: int| 0 <= j < n ==> #[trigger] amounts@[j] as int == all[j],
            sum == total(all, k as int),
            sum >= 0,
        decreases n - k,
    {
        proof {
            assert(total(all, k + 1) <= i32::MAX);
            lemma_copies_positive(cards, n as int, k as int);
        }
        sum = sum + amounts[k];
        k += 1;
    }
    sum
}

/// There is at least one of every card at any time.
pub proof fn lemma_copies_positive(cards: Seq<Card>, k: int, j: int)
    requires
        0 <= k,
        0 <= j < cards.len(),
    ensures
        copies(cards, k)[j] >= 1,
    decreases k,
{
    if k > 0 {
        lemma_copies_positive(cards, k - 1, j);
        if k - 1 < cards.len() {
            lemma_copies_positive(cards, k - 1, k - 1);
        }
    }
}

// ----------------------------------------------------------------------
// Reading twice
// ----------------------------------------------------------------------


/// Reading a text twice gives the same value: two lists of cards that one
/// text says are equal.
pub proof fn lemma_parse_is_unique(a: Input, b: Input, text: Seq<u8>)
    requires
        a.is_parse_of(text),
        b.is_parse_of(text),
    ensures
        a.cards@ == b.cards@,
{
    assert forall|i: int| 0 <= i < a.cards@.len() implies a.cards@[i] == b.cards@[i] by {
        let x = a.cards@[i];
        let y = b.cards@[i];
        assert(x.is_parse_of(lines(text)[i]));
        assert(y.is_parse_of(lines(text)[i]));
        assert(Some(x.id) == Some(y.id));
    }
    assert(a.cards@ =~= b.cards@);
}

} // verus!
