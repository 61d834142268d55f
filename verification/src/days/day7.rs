//! A game of cards: every hand has five cards and a bid. The hands are put
//! in order of their strength, and each wins its bid times its rank. The
//! second part plays the same game with `J` as a joker.

use crate::text::{
    ascii_bytes, copy_range, find, lines, parse_usize, rows_of, split_lines, split_once,
    to_ascii, usize_of, ParseError,
};
use vstd::prelude::*;

verus! {

/// A hand: its cards and its bid.
#[derive(Debug, PartialEq, Eq)]
pub struct Hand {
    pub cards: Vec<char>,
    pub value: usize,
}

/// The hands of the game.
#[derive(Debug, PartialEq, Eq)]
pub struct Input {
    pub hands: Vec<Hand>,
}

/// The number of kinds of cards, with one more for the joker.
pub const NUM_OF_CARDS: usize = 14;

/// The card that stands for a joker.
pub const JOKER: char = '*';

/// The value of a card: 1 to 8 for `2` to `9`, then 9 to 13 for `T`, `J`,
/// `Q`, `K`, `A`, and 0 for every other character.
pub open spec fn card_value(card: char) -> int {
    if '2' <= card <= '9' {
        card as int - '1' as int
    } else if card == 'T' {
        9
    } else if card == 'J' {
        10
    } else if card == 'Q' {
        11
    } else if card == 'K' {
        12
    } else if card == 'A' {
        13
    } else {
        0
    }
}

/// The weight of the place `i` of a hand: 14 to the power of `4 - i`.
pub open spec fn place_weight(i: int) -> int {
    if i == 0 {
        38416
    } else if i == 1 {
        2744
    } else if i == 2 {
        196
    } else if i == 3 {
        14
    } else {
        1
    }
}

/// The value of the first `k` cards of a hand, each at its place.
pub open spec fn cards_score(cards: Seq<char>, k: int) -> int
    decreases k,
{
    if k <= 0 {
        0
    } else {
        cards_score(cards, k - 1) + card_value(cards[k - 1]) * place_weight(k - 1)
    }
}

/// How often a card occurs among the first `k` cards.
pub open spec fn count_of(cards: Seq<char>, c: char, k: int) -> int
    decreases k,
{
    if k <= 0 {
        0
    } else {
        count_of(cards, c, k - 1) + if cards[k - 1] == c {
            1int
        } else {
            0int
        }
    }
}

/// How often a card occurs in the hand.
pub open spec fn occurs(cards: Seq<char>, c: char) -> int {
    count_of(cards, c, cards.len() as int)
}

/// The greatest number of equal cards among the first `k` cards, the
/// jokers and the cards equal to `except` aside.
pub open spec fn most_upto(cards: Seq<char>, except: char, k: int) -> int
    decreases k,
{
    if k <= 0 {
        0
    } else {
        let rest = most_upto(cards, except, k - 1);
        let c = cards[k - 1];
        if c != JOKER && c != except && occurs(cards, c) > rest {
            occurs(cards, c)
        } else {
            rest
        }
    }
}

/// The first of the first `k` cards that occurs most often, the jokers
/// aside; a joker if there are jokers only.
pub open spec fn commonest_upto(cards: Seq<char>, k: int) -> char
    decreases k,
{
    if k <= 0 {
        JOKER
    } else {
        let rest = commonest_upto(cards, k - 1);
        let c = cards[k - 1];
        if c != JOKER && occurs(cards, c) > most_upto(cards, JOKER, k - 1) {
            c
        } else {
            rest
        }
    }
}

/// The greatest number of equal cards, the jokers aside.
pub open spec fn most(cards: Seq<char>) -> int {
    most_upto(cards, JOKER, cards.len() as int)
}

/// The greatest number of equal cards once the commonest card and the
/// jokers are set aside.
pub open spec fn second_most(cards: Seq<char>) -> int {
    most_upto(cards, commonest_upto(cards, cards.len() as int), cards.len() as int)
}

/// The strength of the type of a hand. The jokers count as the commonest
/// card, unless there are jokers only. Five of a kind is 6, four of a kind
/// 5, a full house 4, three of a kind 3, two pairs 2, one pair 1, and
/// anything else 0.
pub open spec fn type_strength(cards: Seq<char>) -> int {
    let top = if most(cards) > 0 {
        most(cards) + occurs(cards, JOKER)
    } else {
        0
    };
    let next = second_most(cards);
    if top == 5 {
        6
    } else if top == 4 {
        5
    } else if top == 3 && next == 2 {
        4
    } else if top == 3 {
        3
    } else if top == 2 && next == 2 {
        2
    } else if top == 2 {
        1
    } else {
        0
    }
}

/// The score of a hand: the strength of its type first, then the values of
/// its cards from the first to the last.
pub open spec fn score_of(cards: Seq<char>) -> int {
    cards_score(cards, cards.len() as int) + 537824 * type_strength(cards)
}

/// The cards with every `J` turned into a joker.
pub open spec fn with_jokers(cards: Seq<char>) -> Seq<char> {
    Seq::new(cards.len(), |i: int| if cards[i] == 'J' { JOKER } else { cards[i] })
}

/// A list with `x` put behind the last entry whose score is no greater.
pub open spec fn put_in(sorted: Seq<(int, int)>, x: (int, int)) -> Seq<(int, int)>
    decreases sorted.len(),
{
    if sorted.len() == 0 || sorted.last().0 <= x.0 {
        sorted.push(x)
    } else {
        put_in(sorted.drop_last(), x).push(sorted.last())
    }
}

/// The first `k` hands as pairs of score and bid, in the order of their
/// scores; hands of equal score keep their order.
pub open spec fn ranked(hands: Seq<Hand>, joker: bool, k: int) -> Seq<(int, int)>
    decreases k,
{
    if k <= 0 {
        Seq::empty()
    } else {
        let cards = if joker {
            with_jokers(hands[k - 1].cards@)
        } else {
            hands[k - 1].cards@
        };
        put_in(ranked(hands, joker, k - 1), (score_of(cards), hands[k - 1].value as int))
    }
}

/// What the first `k` entries of a list win together: each its bid times
/// its rank, counted from one.
pub open spec fn winnings(sorted: Seq<(int, int)>, k: int) -> int
    decreases k,
{
    if k <= 0 {
        0
    } else {
        winnings(sorted, k - 1) + k * sorted[k - 1].1
    }
}

/// The winnings can be computed in the size type, entry by entry.
pub open spec fn winnings_fit(sorted: Seq<(int, int)>) -> bool {
    forall|k: int|
        0 < k <= sorted.len() ==> k * sorted[k - 1].1 <= usize::MAX && #[trigger] winnings(
            sorted,
            k,
        ) <= usize::MAX
}

/// The line writes a hand: cards, a blank, and a bid.
pub open spec fn hand_accepts(line: Seq<u8>) -> bool {
    match split_once(line, seq![32u8]) {
        Some((cards, value)) => usize_of(value) is Some,
        None => false,
    }
}

/// Every line of the text writes a hand.
pub open spec fn accepts(text: Seq<u8>) -> bool {
    forall|i: int| 0 <= i < lines(text).len() ==> hand_accepts(#[trigger] lines(text)[i])
}

/// The characters that bytes stand for.
pub open spec fn as_chars(b: Seq<u8>) -> Seq<char> {
    Seq::new(b.len(), |i: int| b[i] as char)
}

impl Hand {
    /// This hand is what the line says.
    pub open spec fn is_parse_of(&self, line: Seq<u8>) -> bool {
        let cut = split_once(line, seq![32u8])->0;
        &&& self.cards@ == as_chars(cut.0)
        &&& Some(self.value) == usize_of(cut.1)
    }

    /// Reads a hand from the bytes of its line.
    pub fn read(line: &[u8]) -> (r: Option<Hand>)
        ensures
            match r {
                Some(h) => hand_accepts(line@) && h.is_parse_of(line@),
                None => !hand_accepts(line@),
            },
    {
        let blank: [u8; 1] = [32];
        assert(blank@ =~= seq![32u8]);
        let at = find(line, blank.as_slice(), 0);
        if at >= line.len() {
            return None;
        }
        let value = copy_range(line, at + 1, line.len());
        let ghost first = line@.subrange(0, at as int);
        assert(split_once(line@, seq![32u8]) == Some((first, value@)));
        let mut cards: Vec<char> = Vec::new();
        let mut k: usize = 0;
        while k < at
            invariant
                k <= at <= line@.len(),
                first == line@.subrange(0, at as int),
                cards@.len() == k,
                forall|j: int| 0 <= j < k ==> cards@[j] == first[j] as char,
            decreases at - k,
        {
            cards.push(line[k] as char);
            k += 1;
        }
        assert(cards@ =~= as_chars(first));
        match parse_usize(value.as_slice()) {
            Some(v) => Some(Hand { cards, value: v }),
            None => None,
        }
    }

    /// Reads a hand: its cards, a blank, and its bid.
    pub fn from_str(s: &str) -> (r: Result<Hand, ParseError>)
        ensures
            match r {
                Ok(h) => ascii_bytes(s@) is Some && hand_accepts(ascii_bytes(s@)->0)
                    && h.is_parse_of(ascii_bytes(s@)->0),
                Err(_) => ascii_bytes(s@) is None || !hand_accepts(ascii_bytes(s@)->0),
            },
    {
        match to_ascii(s) {
            Some(b) => match Hand::read(b.as_slice()) {
                Some(h) => Ok(h),
                None => Err(ParseError {  }),
            },
            None => Err(ParseError {  }),
        }
    }

    /// The value of a card.
    pub fn get_card_value(card: char) -> (r: usize)
        ensures
            r == card_value(card),
            r <= 13,
    {
        if '2' <= card && card <= '9' {
            (card as u32 - '1' as u32) as usize
        } else if card == 'T' {
            9
        } else if card == 'J' {
            10
        } else if card == 'Q' {
            11
        } else if card == 'K' {
            12
        } else if card == 'A' {
            13
        } else {
            0
        }
    }

    /// The score of a hand of at most five cards.
    pub fn get_score(&self) -> (r: usize)
        requires
            self.cards@.len() <= 5,
        ensures
            r == score_of(self.cards@),
            r <= 6000000,
    {
        score_cards(&self.cards)
    }
}

/// How often a card occurs in the hand.
fn count_card(cards: &Vec<char>, c: char) -> (r: usize)
    ensures
        r == occurs(cards@, c),
        r <= cards@.len(),
{
    let mut n: usize = 0;
    let mut k: usize = 0;
    while k < cards.len()
        invariant
            k <= cards@.len(),
            n == count_of(cards@, c, k as int),
            n <= k,
        decreases cards@.len() - k,
    {
        if cards[k] == c {
            n += 1;
        }
        k += 1;
    }
    n
}

/// The greatest number of equal cards, the jokers and one card aside.
fn most_except(cards: &Vec<char>, except: char) -> (r: usize)
    ensures
        r == most_upto(cards@, except, cards@.len() as int),
        r <= cards@.len(),
{
    let mut best: usize = 0;
    let mut k: usize = 0;
    while k < cards.len()
        invariant
            k <= cards@.len(),
            best == most_upto(cards@, except, k as int),
            best <= cards@.len(),
        decreases cards@.len() - k,
    {
        let c = cards[k];
        if c != JOKER && c != except {
            let n = count_card(cards, c);
            if n > best {
                best = n;
            }
        }
        k += 1;
    }
    best
}

/// The first card that occurs most often, the jokers aside.
fn commonest(cards: &Vec<char>) -> (r: char)
    ensures
        r == commonest_upto(cards@, cards@.len() as int),
{
    let mut best: usize = 0;
    let mut card: char = JOKER;
    let mut k: usize = 0;
    while k < cards.len()
        invariant
            k <= cards@.len(),
            best == most_upto(cards@, JOKER, k as int),
            card == commonest_upto(cards@, k as int),
        decreases cards@.len() - k,
    {
        let c = cards[k];
        if c != JOKER {
            let n = count_card(cards, c);
            if n > best {
                best = n;
                card = c;
            }
        }
        k += 1;
    }
    card
}

/// The score of at most five cards.
pub fn score_cards(cards: &Vec<char>) -> (r: usize)
    requires
        cards@.len() <= 5,
    ensures
        r == score_of(cards@),
        r <= 6000000,
{
    let mut score: usize = 0;
    let mut k: usize = 0;
    while k < cards.len()
        invariant
            k <= cards@.len() <= 5,
            score == cards_score(cards@, k as int),
            score <= k * 537824,
        decreases cards@.len() - k,
    {
        let weight: usize = if k == 0 {
            38416
        } else if k == 1 {
            2744
        } else if k == 2 {
            196
        } else if k == 3 {
            14
        } else {
            1
        };
        let v = Hand::get_card_value(cards[k]);
        assert(v * weight <= 13 * 38416) by (nonlinear_arith)
            requires
                v <= 13,
                weight <= 38416,
        ;
        score = score + v * weight;
        k += 1;
    }
    let top_plain = most_except(cards, JOKER);
    let jokers = count_card(cards, JOKER);
    let top: usize = if top_plain > 0 { top_plain + jokers } else { 0 };
    let next = most_except(cards, commonest(cards));
    let multiplier: usize = if top == 5 {
        6
    } else if top == 4 {
        5
    } else if top == 3 && next == 2 {
        4
    } else if top == 3 {
        3
    } else if top == 2 && next == 2 {
        2
    } else if top == 2 {
        1
    } else {
        0
    };
    score + 537824 * multiplier
}

/// A copy of the cards with every `J` turned into a joker.
pub fn turn_jokers(cards: &Vec<char>) -> (r: Vec<char>)
    ensures
        r@ == with_jokers(cards@),
{
    let mut r: Vec<char> = Vec::new();
    let mut k: usize = 0;
    while k < cards.len()
        invariant
            k <= cards@.len(),
            r@.len() == k,
            forall|j: int| 0 <= j < k ==> r@[j] == with_jokers(cards@)[j],
        decreases cards@.len() - k,
    {
        r.push(if cards[k] == 'J' { JOKER } else { cards[k] });
        k += 1;
    }
    assert(r@ =~= with_jokers(cards@));
    r
}

/// What a list of pairs of score and bid holds.
pub open spec fn pairs_of(v: Seq<(usize, usize)>) -> Seq<(int, int)> {
    Seq::new(v.len(), |i: int| (v[i].0 as int, v[i].1 as int))
}

/// Putting in behind the entries of no greater score is putting in at the
/// place before which nothing is greater and from which on all is greater.
proof fn lemma_put_in(sorted: Seq<(int, int)>, x: (int, int), p: int)
    requires
        0 <= p <= sorted.len(),
        p > 0 ==> sorted[p - 1].0 <= x.0,
        forall|j: int| p <= j < sorted.len() ==> sorted[j].0 > x.0,
    ensures
        put_in(sorted, x) == sorted.insert(p, x),
    decreases sorted.len(),
{
    if p == sorted.len() {
        assert(sorted.insert(p, x) =~= sorted.push(x));
    } else {
        lemma_put_in(sorted.drop_last(), x, p);
        assert(sorted.drop_last().insert(p, x).push(sorted.last()) =~= sorted.insert(p, x));
    }
}

/// The hands as pairs of score and bid in the order of their scores.
pub fn rank_hands(hands: &Vec<Hand>, joker: bool) -> (r: Vec<(usize, usize)>)
    requires
        forall|i: int| 0 <= i < hands@.len() ==> (#[trigger] hands@[i]).cards@.len() <= 5,
    ensures
        pairs_of(r@) == ranked(hands@, joker, hands@.len() as int),
{
    let mut r: Vec<(usize, usize)> = Vec::new();
    let mut k: usize = 0;
    assert(pairs_of(r@) =~= ranked(hands@, joker, 0));
    while k < hands.len()
        invariant
            k <= hands@.len(),
            forall|i: int| 0 <= i < hands@.len() ==> (#[trigger] hands@[i]).cards@.len() <= 5,
            pairs_of(r@) == ranked(hands@, joker, k as int),
        decreases hands@.len() - k,
    {
        let hand = &hands[k];
        assert(hands@[k as int].cards@.len() <= 5);
        let score = if joker {
            let cards = turn_jokers(&hand.cards);
            score_cards(&cards)
        } else {
            score_cards(&hand.cards)
        };
        let mut p: usize = r.len();
        while p > 0 && r[p - 1].0 > score
            invariant
                p <= r@.len(),
                forall|j: int| p <= j < r@.len() ==> r@[j].0 > score,
            decreases p,
        {
            p -= 1;
        }
        let ghost before = pairs_of(r@);
        proof {
            lemma_put_in(before, (score as int, hand.value as int), p as int);
        }
        r.insert(p, (score, hand.value));
        assert(pairs_of(r@) =~= before.insert(p as int, (score as int, hand.value as int)));
        k += 1;
    }
    r
}

/// What the hands win together, given in the order of their strength.
pub fn calculate_total_winnings(sorted: &Vec<(usize, usize)>) -> (r: usize)
    requires
        winnings_fit(pairs_of(sorted@)),
    ensures
        r == winnings(pairs_of(sorted@), sorted@.len() as int),
{
    let ghost all = pairs_of(sorted@);
    let mut sum: usize = 0;
    let mut k: usize = 0;
    while k < sorted.len()
        invariant
            k <= sorted@.len(),
            all == pairs_of(sorted@),
            winnings_fit(all),
            sum == winnings(all, k as int),
        decreases sorted@.len() - k,
    {
        proof {
            assert(winnings(all, k + 1) <= usize::MAX);
            assert((k + 1) * all[k as int].1 <= usize::MAX);
            assert(all[k as int].1 == sorted@[k as int].1);
        }
        sum = sum + (k + 1) * sorted[k].1;
        k += 1;
    }
    sum
}

impl Input {
    /// This value is what the text says: one hand for each line.
    pub open spec fn is_parse_of(&self, text: Seq<u8>) -> bool {
        &&& self.hands@.len() == lines(text).len()
        &&& forall|i: int|
            0 <= i < lines(text).len() ==> (#[trigger] self.hands@[i]).is_parse_of(lines(text)[i])
    }

    /// Every hand has at most five cards.
    pub open spec fn is_valid(&self) -> bool {
        forall|i: int| 0 <= i < self.hands@.len() ==> (#[trigger] self.hands@[i]).cards@.len() <= 5
    }

    /// Reads the hands. A text is accepted if it is ASCII and each line
    /// writes a hand.
    pub fn from_str(s: &str) -> (r: Result<Input, ParseError>)
        ensures
            match r {
                Ok(v) => ascii_bytes(s@) is Some && accepts(ascii_bytes(s@)->0) && v.is_parse_of(
                    ascii_bytes(s@)->0,
                ),
                Err(_) => ascii_bytes(s@) is None || !accepts(ascii_bytes(s@)->0),
            },
    {
        let bytes = match to_ascii(s) {
            Some(b) => b,
            None => { return Err(ParseError {  }); },
        };
        let ghost text = bytes@;
        let ls = split_lines(bytes.as_slice());
        let mut hands: Vec<Hand> = Vec::new();
        let mut i: usize = 0;
        while i < ls.len()
            invariant
                i <= ls@.len(),
                rows_of(ls@) == lines(text),
                ascii_bytes(s@) == Some(text),
                hands@.len() == i,
                forall|k: int| 0 <= k < i ==> hand_accepts(#[trigger] lines(text)[k]),
                forall|k: int| 0 <= k < i ==> (#[trigger] hands@[k]).is_parse_of(lines(text)[k]),
            decreases ls@.len() - i,
        {
            assert(ls@[i as int]@ == lines(text)[i as int]);
            match Hand::read(ls[i].as_slice()) {
                Some(h) => {
                    hands.push(h);
                },
                None => {
                    proof {
                        assert(rows_of(ls@).len() == ls@.len());
                        assert(!hand_accepts(lines(text)[i as int]));
                    }
                    return Err(ParseError {  });
                },
            }
            i += 1;
        }
        Ok(Input { hands })
    }
}

/// What the hands win together.
pub fn part1(input: Input) -> (r: usize)
    requires
        input.is_valid(),
        winnings_fit(ranked(input.hands@, false, input.hands@.len() as int)),
    ensures
        r == winnings(
            ranked(input.hands@, false, input.hands@.len() as int),
            input.hands@.len() as int,
        ),
{
    let sorted = rank_hands(&input.hands, false);
    proof {
        assert(pairs_of(sorted@).len() == sorted@.len());
        lemma_ranked_len(input.hands@, false, input.hands@.len() as int);
    }
    calculate_total_winnings(&sorted)
}

/// What the hands win together when every `J` is a joker.
pub fn part2(input: Input) -> (r: usize)
    requires
        input.is_valid(),
        winnings_fit(ranked(input.hands@, true, input.hands@.len() as int)),
    ensures
        r == winnings(
            ranked(input.hands@, true, input.hands@.len() as int),
            input.hands@.len() as int,
        ),
{
    let sorted = rank_hands(&input.hands, true);
    proof {
        assert(pairs_of(sorted@).len() == sorted@.len());
        lemma_ranked_len(input.hands@, true, input.hands@.len() as int);
    }
    calculate_total_winnings(&sorted)
}

/// Putting in makes a list longer by one.
pub proof fn lemma_put_in_len(sorted: Seq<(int, int)>, x: (int, int))
    ensures
        put_in(sorted, x).len() == sorted.len() + 1,
    decreases sorted.len(),
{
    if !(sorted.len() == 0 || sorted.last().0 <= x.0) {
        lemma_put_in_len(sorted.drop_last(), x);
    }
}

/// The ranked list holds as many entries as there were hands.
pub proof fn lemma_ranked_len(hands: Seq<Hand>, joker: bool, k: int)
    requires
        0 <= k,
    ensures
        ranked(hands, joker, k).len() == k,
    decreases k,
{
    if k > 0 {
        lemma_ranked_len(hands, joker, k - 1);
        let cards = if joker {
            with_jokers(hands[k - 1].cards@)
        } else {
            hands[k - 1].cards@
        };
        lemma_put_in_len(ranked(hands, joker, k - 1), (score_of(cards), hands[k - 1].value as int));
    }
}

// ----------------------------------------------------------------------
// Reading twice
// ----------------------------------------------------------------------


/// Reading a text twice gives the same value: two lists of hands that one
/// text says have the same cards and bids.
pub proof fn lemma_parse_is_unique(a: Input, b: Input, text: Seq<u8>)
    requires
        a.is_parse_of(text),
        b.is_parse_of(text),
    ensures
        a.hands@.len() == b.hands@.len(),
        forall|i: int|
            0 <= i < a.hands@.len() ==> (#[trigger] a.hands@[i]).cards@ == b.hands@[i].cards@
                && a.hands@[i].value == b.hands@[i].value,
{
    assert forall|i: int| 0 <= i < a.hands@.len() implies (#[trigger] a.hands@[i]).cards@
        == b.hands@[i].cards@ && a.hands@[i].value == b.hands@[i].value by {
        let x = a.hands@[i];
        let y = b.hands@[i];
        assert(x.is_parse_of(lines(text)[i]));
        assert(y.is_parse_of(lines(text)[i]));
        assert(Some(x.value) == Some(y.value));
    }
}

} // verus!
