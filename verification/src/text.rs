//! Byte-level text tools: searching, splitting into pieces, lines and
//! tokens, trimming, and reading decimal and hexadecimal numbers.
//!
//! Every puzzle text is plain ASCII, so a text is modelled as its sequence
//! of bytes. Each executable function comes with a specification function
//! that defines its result.

use vstd::prelude::*;
use vstd::string::*;

verus! {

/// Why a text was rejected.
#[derive(Debug, PartialEq, Eq, Clone, Copy)]
pub struct ParseError {}

/// The line feed byte.
pub const LF: u8 = 10;

/// The carriage return byte.
pub const CR: u8 = 13;

// ----------------------------------------------------------------------
// Searching
// ----------------------------------------------------------------------

/// `pat` stands in `s` at index `i`.
pub open spec fn occurs_at(s: Seq<u8>, pat: Seq<u8>, i: int) -> bool {
    0 <= i && i + pat.len() <= s.len() && s.subrange(i, i + pat.len()) == pat
}

/// The least index at or after `i` where `pat` stands in `s`, or the
/// length of `s` where there is none.
pub open spec fn find_from(s: Seq<u8>, pat: Seq<u8>, i: int) -> int
    decreases s.len() - i,
{
    if i < 0 || i >= s.len() || i + pat.len() > s.len() {
        s.len() as int
    } else if occurs_at(s, pat, i) {
        i
    } else {
        find_from(s, pat, i + 1)
    }
}

/// What `find_from` returns lies between the start and the end, nothing
/// before it is an occurrence, and it is one unless it is the end.
pub proof fn lemma_find_from(s: Seq<u8>, pat: Seq<u8>, i: int)
    requires
        0 <= i <= s.len(),
        pat.len() > 0,
    ensures
        i <= find_from(s, pat, i) <= s.len(),
        find_from(s, pat, i) < s.len() ==> occurs_at(s, pat, find_from(s, pat, i)),
        forall|k: int| i <= k < find_from(s, pat, i) ==> !occurs_at(s, pat, k),
        find_from(s, pat, i) == s.len() ==> forall|k: int| i <= k ==> !occurs_at(s, pat, k),
    decreases s.len() - i,
{
    if i + pat.len() > s.len() {
    } else if occurs_at(s, pat, i) {
    } else {
        lemma_find_from(s, pat, i + 1);
    }
}

/// Searching from a later start that skips no occurrence finds the same.
pub proof fn lemma_find_from_skip(s: Seq<u8>, pat: Seq<u8>, i: int, j: int)
    requires
        0 <= i <= j <= s.len(),
        pat.len() > 0,
        forall|k: int| i <= k < j ==> !occurs_at(s, pat, k),
    ensures
        find_from(s, pat, i) == find_from(s, pat, j),
    decreases j - i,
{
    if i < j {
        lemma_find_from_skip(s, pat, i + 1, j);
        if i + pat.len() > s.len() {
            lemma_find_from(s, pat, j);
            if find_from(s, pat, j) < s.len() {
                assert(occurs_at(s, pat, find_from(s, pat, j)));
            }
        }
    }
}

/// Whether `pat` stands in `s` at index `i`.
pub fn matches_at(s: &[u8], pat: &[u8], i: usize) -> (b: bool)
    ensures
        b == occurs_at(s@, pat@, i as int),
{
    if i > s.len() || s.len() - i < pat.len() {
        return false;
    }
    let mut j: usize = 0;
    while j < pat.len()
        invariant
            i + pat@.len() <= s@.len() <= usize::MAX,
            j <= pat@.len(),
            forall|k: int| 0 <= k < j ==> s@[i + k] == pat@[k],
        decreases pat@.len() - j,
    {
        if s[i + j] != pat[j] {
            proof {
                let sub = s@.subrange(i as int, i + pat@.len());
                assert(sub[j as int] == s@[i + j]);
            }
            return false;
        }
        j += 1;
    }
    proof {
        assert(s@.subrange(i as int, i + pat@.len()) =~= pat@);
    }
    true
}

/// The first occurrence of `pat` in `s` at or after `from`, or the length
/// of `s`.
pub fn find(s: &[u8], pat: &[u8], from: usize) -> (r: usize)
    requires
        pat@.len() > 0,
        from <= s@.len(),
    ensures
        r == find_from(s@, pat@, from as int),
        from <= r <= s@.len(),
        r < s@.len() ==> occurs_at(s@, pat@, r as int),
{
    let mut k: usize = from;
    proof {
        lemma_find_from(s@, pat@, from as int);
    }
    while k < s.len()
        invariant
            from <= k <= s@.len(),
            pat@.len() > 0,
            find_from(s@, pat@, from as int) == find_from(s@, pat@, k as int),
        decreases s@.len() - k,
    {
        if matches_at(s, pat, k) {
            return k;
        }
        proof {
            lemma_find_from_skip(s@, pat@, k as int, k + 1);
        }
        k += 1;
    }
    s.len()
}

/// Whether two strings of bytes are equal.
pub fn same_bytes(a: &[u8], b: &[u8]) -> (r: bool)
    ensures
        r == (a@ == b@),
{
    if a.len() != b.len() {
        return false;
    }
    let mut k: usize = 0;
    while k < a.len()
        invariant
            k <= a@.len(),
            a@.len() == b@.len(),
            forall|j: int| 0 <= j < k ==> a@[j] == b@[j],
        decreases a@.len() - k,
    {
        if a[k] != b[k] {
            return false;
        }
        k += 1;
    }
    assert(a@ =~= b@);
    true
}

/// A copy of the bytes of `s` from `a` up to `b`.
pub fn copy_range(s: &[u8], a: usize, b: usize) -> (r: Vec<u8>)
    requires
        a <= b <= s@.len(),
    ensures
        r@ == s@.subrange(a as int, b as int),
{
    let mut r: Vec<u8> = Vec::new();
    let mut k: usize = a;
    while k < b
        invariant
            a <= k <= b <= s@.len(),
            r@ == s@.subrange(a as int, k as int),
        decreases b - k,
    {
        r.push(s[k]);
        proof {
            assert(r@ =~= s@.subrange(a as int, k + 1));
        }
        k += 1;
    }
    r
}

/// The contents of a list of byte strings.
pub open spec fn rows_of(v: Seq<Vec<u8>>) -> Seq<Seq<u8>> {
    Seq::new(v.len(), |i: int| v[i]@)
}

// ----------------------------------------------------------------------
// Splitting
// ----------------------------------------------------------------------

/// The pieces of `s` from index `i` on, cut at each occurrence of `pat`
/// from left to right. There is always at least one piece.
pub open spec fn split_from(s: Seq<u8>, pat: Seq<u8>, i: int) -> Seq<Seq<u8>>
    recommends
        0 <= i <= s.len(),
    decreases s.len() - i,
{
    let j = find_from(s, pat, i);
    if 0 <= i <= j < s.len() && pat.len() > 0 && j + pat.len() <= s.len() {
        seq![s.subrange(i, j)] + split_from(s, pat, j + pat.len())
    } else {
        seq![s.subrange(i, s.len() as int)]
    }
}

/// The pieces of `s` between the occurrences of `pat`.
pub open spec fn split(s: Seq<u8>, pat: Seq<u8>) -> Seq<Seq<u8>> {
    split_from(s, pat, 0)
}

/// The part before the first occurrence of `pat` and the part after it.
pub open spec fn split_once(s: Seq<u8>, pat: Seq<u8>) -> Option<(Seq<u8>, Seq<u8>)> {
    let j = find_from(s, pat, 0);
    if j < s.len() {
        Some((s.subrange(0, j), s.subrange(j + pat.len(), s.len() as int)))
    } else {
        None
    }
}

/// Cuts `s` at each occurrence of `pat`.
pub fn split_bytes(s: &[u8], pat: &[u8]) -> (r: Vec<Vec<u8>>)
    requires
        pat@.len() > 0,
    ensures
        rows_of(r@) == split(s@, pat@),
        r@.len() == split(s@, pat@).len(),
        r@.len() >= 1,
        forall|k: int| 0 <= k < r@.len() ==> (#[trigger] r@[k])@ == split(s@, pat@)[k],
{
    let mut r: Vec<Vec<u8>> = Vec::new();
    let mut start: usize = 0;
    let ghost mut done: Seq<Seq<u8>> = Seq::empty();
    loop
        invariant
            pat@.len() > 0,
            start <= s@.len(),
            r@.len() == done.len(),
            forall|k: int| 0 <= k < r@.len() ==> (#[trigger] r@[k])@ == done[k],
            split(s@, pat@) == done + split_from(s@, pat@, start as int),
        decreases s@.len() - start,
    {
        let j = find(s, pat, start);
        if j < s.len() {
            r.push(copy_range(s, start, j));
            proof {
                let piece = s@.subrange(start as int, j as int);
                let rest = split_from(s@, pat@, j + pat@.len());
                assert(split_from(s@, pat@, start as int) == seq![piece] + rest);
                assert(done + (seq![piece] + rest) =~= done.push(piece) + rest);
                done = done.push(piece);
            }
            start = j + pat.len();
        } else {
            r.push(copy_range(s, start, s.len()));
            proof {
                let piece = s@.subrange(start as int, s@.len() as int);
                assert(split_from(s@, pat@, start as int) == seq![piece]);
                assert(done + seq![piece] =~= done.push(piece));
                done = done.push(piece);
                assert(rows_of(r@) =~= done);
            }
            return r;
        }
    }
}

/// Cuts `s` at the first occurrence of `pat`, if there is one.
pub fn split_once_bytes(s: &[u8], pat: &[u8]) -> (r: Option<(Vec<u8>, Vec<u8>)>)
    requires
        pat@.len() > 0,
    ensures
        match r {
            Some((a, b)) => split_once(s@, pat@) == Some((a@, b@)),
            None => split_once(s@, pat@) is None,
        },
{
    let j = find(s, pat, 0);
    if j < s.len() {
        Some((copy_range(s, 0, j), copy_range(s, j + pat.len(), s.len())))
    } else {
        None
    }
}

// ----------------------------------------------------------------------
// Lines
// ----------------------------------------------------------------------

/// A line without the carriage return that ended it, if one did.
pub open spec fn strip_cr(line: Seq<u8>) -> Seq<u8> {
    if line.len() > 0 && line.last() == CR {
        line.drop_last()
    } else {
        line
    }
}

/// The lines of `s` from index `i` on. A line ends at a line feed, or at a
/// carriage return followed by one; the end of the text ends the last
/// line, and nothing follows a final line feed.
pub open spec fn lines_from(s: Seq<u8>, i: int) -> Seq<Seq<u8>>
    decreases s.len() - i,
{
    if i < 0 || i >= s.len() {
        Seq::empty()
    } else {
        let j = find_from(s, seq![LF], i);
        if i <= j < s.len() {
            seq![strip_cr(s.subrange(i, j))] + lines_from(s, j + 1)
        } else {
            seq![s.subrange(i, s.len() as int)]
        }
    }
}

/// The lines of a text.
pub open spec fn lines(s: Seq<u8>) -> Seq<Seq<u8>> {
    lines_from(s, 0)
}

/// Cuts a text into its lines.
pub fn split_lines(s: &[u8]) -> (r: Vec<Vec<u8>>)
    ensures
        rows_of(r@) == lines(s@),
        r@.len() == lines(s@).len(),
        forall|k: int| 0 <= k < r@.len() ==> (#[trigger] r@[k])@ == lines(s@)[k],
{
    let mut r: Vec<Vec<u8>> = Vec::new();
    let mut start: usize = 0;
    let ghost mut done: Seq<Seq<u8>> = Seq::empty();
    let pat: [u8; 1] = [LF];
    assert(pat@ =~= seq![LF]);
    while start < s.len()
        invariant
            pat@ == seq![LF],
            start <= s@.len(),
            r@.len() == done.len(),
            forall|k: int| 0 <= k < r@.len() ==> (#[trigger] r@[k])@ == done[k],
            lines(s@) == done + lines_from(s@, start as int),
        decreases s@.len() - start,
    {
        let j = find(s, pat.as_slice(), start);
        if j < s.len() {
            let end: usize = if j > start && s[j - 1] == CR { j - 1 } else { j };
            r.push(copy_range(s, start, end));
            proof {
                let raw = s@.subrange(start as int, j as int);
                let piece = s@.subrange(start as int, end as int);
                assert(piece =~= strip_cr(raw));
                let rest = lines_from(s@, j + 1);
                assert(lines_from(s@, start as int) == seq![piece] + rest);
                assert(done + (seq![piece] + rest) =~= done.push(piece) + rest);
                done = done.push(piece);
            }
            start = j + 1;
        } else {
            r.push(copy_range(s, start, s.len()));
            proof {
                let piece = s@.subrange(start as int, s@.len() as int);
                assert(lines_from(s@, start as int) == seq![piece]);
                assert(done + seq![piece] =~= done.push(piece));
                assert(lines_from(s@, s@.len() as int) == Seq::<Seq<u8>>::empty());
                assert(done.push(piece) + Seq::<Seq<u8>>::empty() =~= done.push(piece));
                done = done.push(piece);
            }
            start = s.len();
        }
    }
    proof {
        assert(lines_from(s@, start as int) == Seq::<Seq<u8>>::empty());
        assert(done + Seq::<Seq<u8>>::empty() =~= done);
        assert(rows_of(r@) =~= done);
    }
    r
}

// ----------------------------------------------------------------------
// Tokens and trimming
// ----------------------------------------------------------------------

/// The ASCII white space: the blank and the controls from tab to carriage
/// return.
pub open spec fn is_space(b: u8) -> bool {
    b == 32 || (9 <= b && b <= 13)
}

/// The first index at or after `i` that holds no white space, or the end.
pub open spec fn skip_spaces(s: Seq<u8>, i: int) -> int
    decreases s.len() - i,
{
    if 0 <= i < s.len() && is_space(s[i]) {
        skip_spaces(s, i + 1)
    } else {
        i
    }
}

/// The first index at or after `i` that holds white space, or the end.
pub open spec fn skip_word(s: Seq<u8>, i: int) -> int
    decreases s.len() - i,
{
    if 0 <= i < s.len() && !is_space(s[i]) {
        skip_word(s, i + 1)
    } else {
        i
    }
}

/// The maximal runs of bytes other than white space, from index `i` on.
pub open spec fn tokens_from(s: Seq<u8>, i: int) -> Seq<Seq<u8>>
    decreases s.len() - i,
{
    let a = skip_spaces(s, i);
    let b = skip_word(s, a);
    if 0 <= i <= a < b <= s.len() {
        seq![s.subrange(a, b)] + tokens_from(s, b)
    } else {
        Seq::empty()
    }
}

/// The maximal runs of bytes other than white space.
pub open spec fn tokens(s: Seq<u8>) -> Seq<Seq<u8>> {
    tokens_from(s, 0)
}

/// `s` without the white space at its end.
pub open spec fn trim_end(s: Seq<u8>) -> Seq<u8>
    decreases s.len(),
{
    if s.len() > 0 && is_space(s.last()) {
        trim_end(s.drop_last())
    } else {
        s
    }
}

/// `s` without the white space at its start.
pub open spec fn trim_start(s: Seq<u8>) -> Seq<u8> {
    s.subrange(skip_spaces(s, 0), s.len() as int)
}

/// `s` without the white space at both ends.
pub open spec fn trim(s: Seq<u8>) -> Seq<u8> {
    trim_end(trim_start(s))
}

/// Whether a byte is ASCII white space.
pub fn is_space_byte(b: u8) -> (r: bool)
    ensures
        r == is_space(b),
{
    b == 32 || (9 <= b && b <= 13)
}

/// The index after the white space that starts at `from`.
pub fn skip_spaces_in(s: &[u8], from: usize) -> (r: usize)
    requires
        from <= s@.len(),
    ensures
        r == skip_spaces(s@, from as int),
        from <= r <= s@.len(),
{
    let mut k: usize = from;
    while k < s.len() && is_space_byte(s[k])
        invariant
            from <= k <= s@.len(),
            skip_spaces(s@, from as int) == skip_spaces(s@, k as int),
        decreases s@.len() - k,
    {
        k += 1;
    }
    k
}

/// The index after the word that starts at `from`.
pub fn skip_word_in(s: &[u8], from: usize) -> (r: usize)
    requires
        from <= s@.len(),
    ensures
        r == skip_word(s@, from as int),
        from <= r <= s@.len(),
{
    let mut k: usize = from;
    while k < s.len() && !is_space_byte(s[k])
        invariant
            from <= k <= s@.len(),
            skip_word(s@, from as int) == skip_word(s@, k as int),
        decreases s@.len() - k,
    {
        k += 1;
    }
    k
}

/// Cuts `s` into its tokens.
pub fn split_tokens(s: &[u8]) -> (r: Vec<Vec<u8>>)
    ensures
        rows_of(r@) == tokens(s@),
        r@.len() == tokens(s@).len(),
        forall|k: int| 0 <= k < r@.len() ==> (#[trigger] r@[k])@ == tokens(s@)[k],
{
    let mut r: Vec<Vec<u8>> = Vec::new();
    let mut start: usize = 0;
    let ghost mut done: Seq<Seq<u8>> = Seq::empty();
    loop
        invariant
            start <= s@.len(),
            r@.len() == done.len(),
            forall|k: int| 0 <= k < r@.len() ==> (#[trigger] r@[k])@ == done[k],
            tokens(s@) == done + tokens_from(s@, start as int),
        decreases s@.len() - start,
    {
        let a = skip_spaces_in(s, start);
        let b = skip_word_in(s, a);
        if a < b {
            r.push(copy_range(s, a, b));
            proof {
                let piece = s@.subrange(a as int, b as int);
                let rest = tokens_from(s@, b as int);
                assert(tokens_from(s@, start as int) == seq![piece] + rest);
                assert(done + (seq![piece] + rest) =~= done.push(piece) + rest);
                done = done.push(piece);
            }
            start = b;
        } else {
            proof {
                assert(tokens_from(s@, start as int) == Seq::<Seq<u8>>::empty());
                assert(done + Seq::<Seq<u8>>::empty() =~= done);
                assert(rows_of(r@) =~= done);
            }
            return r;
        }
    }
}

/// A copy of `s` without the white space at both ends.
pub fn trim_bytes(s: &[u8]) -> (r: Vec<u8>)
    ensures
        r@ == trim(s@),
{
    let a = skip_spaces_in(s, 0);
    let mut b: usize = s.len();
    while b > a && is_space_byte(s[b - 1])
        invariant
            a <= b <= s@.len(),
            trim(s@) == trim_end(s@.subrange(a as int, b as int)),
        decreases b,
    {
        proof {
            assert(s@.subrange(a as int, b as int).drop_last() =~= s@.subrange(a as int, b - 1));
        }
        b -= 1;
    }
    copy_range(s, a, b)
}

// ----------------------------------------------------------------------
// Numbers
// ----------------------------------------------------------------------

/// The value of a byte as a digit: the decimal digits count from zero, the
/// letters of either case from ten.
pub open spec fn digit_value(b: u8) -> int {
    if 48 <= b <= 57 {
        b - 48
    } else if 97 <= b <= 122 {
        b - 87
    } else if 65 <= b <= 90 {
        b - 55
    } else {
        36
    }
}

/// Every byte of `s` is a digit of the radix.
pub open spec fn all_digits(s: Seq<u8>, radix: int) -> bool {
    forall|i: int| 0 <= i < s.len() ==> digit_value(#[trigger] s[i]) < radix
}

/// The number that the digits of `s` write in the radix.
pub open spec fn digits_value(s: Seq<u8>, radix: int) -> int
    decreases s.len(),
{
    if s.len() == 0 {
        0
    } else {
        digits_value(s.drop_last(), radix) * radix + digit_value(s.last())
    }
}

/// The number that `s` writes without a sign: one digit or more.
pub open spec fn magnitude_of(s: Seq<u8>, radix: int) -> Option<int> {
    if s.len() > 0 && all_digits(s, radix) {
        Some(digits_value(s, radix))
    } else {
        None
    }
}

/// The number that `s` writes where no minus sign is accepted: an optional
/// plus sign, then one digit or more.
pub open spec fn unsigned_of(s: Seq<u8>, radix: int) -> Option<int> {
    if s.len() > 0 && s[0] == 43 {
        magnitude_of(s.drop_first(), radix)
    } else {
        magnitude_of(s, radix)
    }
}

/// The number that `s` writes: an optional sign, then one digit or more.
pub open spec fn int_of(s: Seq<u8>, radix: int) -> Option<int> {
    if s.len() > 0 && s[0] == 45 {
        match magnitude_of(s.drop_first(), radix) {
            Some(m) => Some(-m),
            None => None,
        }
    } else {
        unsigned_of(s, radix)
    }
}

/// The number that `s` writes in the radix, where it fits 64 bits with a
/// sign.
pub open spec fn i64_in(s: Seq<u8>, radix: int) -> Option<i64> {
    match int_of(s, radix) {
        Some(v) => if i64::MIN <= v <= i64::MAX { Some(v as i64) } else { None },
        None => None,
    }
}

/// The decimal number of `s`, where it fits 64 bits with a sign.
pub open spec fn i64_of(s: Seq<u8>) -> Option<i64> {
    i64_in(s, 10)
}

/// The decimal number of `s`, where it fits 32 bits with a sign.
pub open spec fn i32_of(s: Seq<u8>) -> Option<i32> {
    match int_of(s, 10) {
        Some(v) => if i32::MIN <= v <= i32::MAX { Some(v as i32) } else { None },
        None => None,
    }
}

/// The decimal number of `s`, where it has no minus sign and fits a size.
pub open spec fn usize_of(s: Seq<u8>) -> Option<usize> {
    match unsigned_of(s, 10) {
        Some(v) => if v <= usize::MAX { Some(v as usize) } else { None },
        None => None,
    }
}

/// A number written with more digits is no smaller.
pub proof fn lemma_digits_value_grows(s: Seq<u8>, radix: int, k: int)
    requires
        0 <= k <= s.len(),
        2 <= radix <= 36,
    ensures
        0 <= digits_value(s.subrange(0, k), radix) <= digits_value(s, radix),
    decreases s.len() - k,
{
    lemma_digits_value_nonnegative(s.subrange(0, k), radix);
    if k < s.len() {
        let longer = s.subrange(0, k + 1);
        assert(longer.drop_last() =~= s.subrange(0, k));
        lemma_digits_value_grows(s, radix, k + 1);
        let v = digits_value(s.subrange(0, k), radix);
        assert(v * radix >= v) by (nonlinear_arith)
            requires
                v >= 0,
                radix >= 2,
        ;
    } else {
        assert(s.subrange(0, k) =~= s);
    }
}

/// No number written in digits is negative.
pub proof fn lemma_digits_value_nonnegative(s: Seq<u8>, radix: int)
    requires
        2 <= radix <= 36,
    ensures
        0 <= digits_value(s, radix),
    decreases s.len(),
{
    if s.len() > 0 {
        lemma_digits_value_nonnegative(s.drop_last(), radix);
        let v = digits_value(s.drop_last(), radix);
        assert(v * radix >= 0) by (nonlinear_arith)
            requires
                v >= 0,
                radix >= 2,
        ;
    }
}

/// The value of a byte as a digit.
pub fn digit_of(b: u8) -> (r: u8)
    ensures
        r == digit_value(b),
{
    if 48 <= b && b <= 57 {
        b - 48
    } else if 97 <= b && b <= 122 {
        b - 87
    } else if 65 <= b && b <= 90 {
        b - 55
    } else {
        36
    }
}

/// Reads the digits of `s` from `from` to its end as a number of 64 bits.
pub fn parse_magnitude(s: &[u8], from: usize, radix: u8) -> (r: Option<u64>)
    requires
        from <= s@.len(),
        2 <= radix <= 36,
    ensures
        r == match magnitude_of(s@.subrange(from as int, s@.len() as int), radix as int) {
            Some(v) => if v <= u64::MAX { Some(v as u64) } else { None },
            None => None,
        },
{
    let ghost d = s@.subrange(from as int, s@.len() as int);
    if from == s.len() {
        return None;
    }
    let mut acc: u64 = 0;
    let mut k: usize = from;
    while k < s.len()
        invariant
            from <= k <= s@.len(),
            2 <= radix <= 36,
            d == s@.subrange(from as int, s@.len() as int),
            all_digits(d.subrange(0, k - from), radix as int),
            acc == digits_value(d.subrange(0, k - from), radix as int),
        decreases s@.len() - k,
    {
        let v = digit_of(s[k]);
        assert(d[k - from] == s@[k as int]);
        if v >= radix {
            return None;
        }
        assert((acc as u128) * (radix as u128) <= 36 * 0xffff_ffff_ffff_ffff) by (nonlinear_arith)
            requires
                acc <= 0xffff_ffff_ffff_ffff,
                radix <= 36,
        ;
        let next: u128 = (acc as u128) * (radix as u128) + (v as u128);
        proof {
            let longer = d.subrange(0, k + 1 - from);
            assert(longer.drop_last() =~= d.subrange(0, k - from));
            assert(longer.last() == s@[k as int]);
            assert(all_digits(longer, radix as int)) by {
                assert forall|i: int| 0 <= i < longer.len() implies digit_value(
                    #[trigger] longer[i],
                ) < radix by {
                    if i < k - from {
                        assert(longer[i] == d.subrange(0, k - from)[i]);
                    }
                }
            }
            assert(next == digits_value(longer, radix as int));
        }
        if next > u64::MAX as u128 {
            proof {
                if all_digits(d, radix as int) {
                    lemma_digits_value_grows(d, radix as int, k + 1 - from);
                }
            }
            return None;
        }
        acc = next as u64;
        k += 1;
    }
    proof {
        assert(d.subrange(0, k - from) =~= d);
    }
    Some(acc)
}

/// Reads a number of 64 bits in the radix, with an optional sign.
pub fn parse_i64_radix(s: &[u8], radix: u8) -> (r: Option<i64>)
    requires
        2 <= radix <= 36,
    ensures
        r == i64_in(s@, radix as int),
{
    if s.len() == 0 {
        return None;
    }
    proof {
        assert(s@.drop_first() =~= s@.subrange(1, s@.len() as int));
        assert(s@ =~= s@.subrange(0, s@.len() as int));
        lemma_digits_value_nonnegative(s@, radix as int);
        lemma_digits_value_nonnegative(s@.drop_first(), radix as int);
    }
    if s[0] == 45 {
        match parse_magnitude(s, 1, radix) {
            Some(m) => {
                if m <= 0x7fff_ffff_ffff_ffff {
                    Some(-(m as i64))
                } else if m == 0x8000_0000_0000_0000 {
                    Some(i64::MIN)
                } else {
                    None
                }
            },
            None => None,
        }
    } else {
        let from: usize = if s[0] == 43 { 1 } else { 0 };
        match parse_magnitude(s, from, radix) {
            Some(m) => {
                if m <= 0x7fff_ffff_ffff_ffff {
                    Some(m as i64)
                } else {
                    None
                }
            },
            None => None,
        }
    }
}

/// Reads a decimal number of 64 bits with an optional sign.
pub fn parse_i64(s: &[u8]) -> (r: Option<i64>)
    ensures
        r == i64_of(s@),
{
    parse_i64_radix(s, 10)
}

/// Reads a decimal number of 32 bits with an optional sign.
pub fn parse_i32(s: &[u8]) -> (r: Option<i32>)
    ensures
        r == i32_of(s@),
{
    match parse_i64(s) {
        Some(v) => {
            if -0x8000_0000 <= v && v <= 0x7fff_ffff {
                Some(v as i32)
            } else {
                None
            }
        },
        None => None,
    }
}

/// Reads a decimal size with an optional plus sign.
pub fn parse_usize(s: &[u8]) -> (r: Option<usize>)
    ensures
        r == usize_of(s@),
{
    if s.len() == 0 {
        return None;
    }
    proof {
        assert(s@.drop_first() =~= s@.subrange(1, s@.len() as int));
        assert(s@ =~= s@.subrange(0, s@.len() as int));
        lemma_digits_value_nonnegative(s@, 10);
        lemma_digits_value_nonnegative(s@.drop_first(), 10);
    }
    let from: usize = if s[0] == 43 { 1 } else { 0 };
    match parse_magnitude(s, from, 10) {
        Some(m) => {
            if m <= usize::MAX as u64 {
                Some(m as usize)
            } else {
                None
            }
        },
        None => None,
    }
}

/// Every piece writes a decimal number of 64 bits.
pub open spec fn all_i64(ps: Seq<Seq<u8>>) -> bool {
    forall|i: int| 0 <= i < ps.len() ==> i64_of(#[trigger] ps[i]) is Some
}

/// The numbers that the pieces write.
pub open spec fn i64s_of(ps: Seq<Seq<u8>>) -> Seq<i64> {
    Seq::new(ps.len(), |i: int| i64_of(ps[i])->0)
}

/// Every piece writes a decimal number of 32 bits.
pub open spec fn all_i32(ps: Seq<Seq<u8>>) -> bool {
    forall|i: int| 0 <= i < ps.len() ==> i32_of(#[trigger] ps[i]) is Some
}

/// The numbers that the pieces write.
pub open spec fn i32s_of(ps: Seq<Seq<u8>>) -> Seq<i32> {
    Seq::new(ps.len(), |i: int| i32_of(ps[i])->0)
}

/// Reads every piece as a number of 64 bits; nothing if one is none.
pub fn parse_all_i64(ps: &Vec<Vec<u8>>) -> (r: Option<Vec<i64>>)
    ensures
        match r {
            Some(v) => all_i64(rows_of(ps@)) && v@ == i64s_of(rows_of(ps@)),
            None => !all_i64(rows_of(ps@)),
        },
{
    let mut v: Vec<i64> = Vec::new();
    let mut k: usize = 0;
    while k < ps.len()
        invariant
            k <= ps@.len(),
            v@.len() == k,
            forall|i: int| 0 <= i < k ==> i64_of(#[trigger] rows_of(ps@)[i]) == Some(v@[i]),
        decreases ps@.len() - k,
    {
        match parse_i64(ps[k].as_slice()) {
            Some(n) => {
                v.push(n);
            },
            None => {
                assert(i64_of(rows_of(ps@)[k as int]) is None);
                return None;
            },
        }
        k += 1;
    }
    assert(v@ =~= i64s_of(rows_of(ps@)));
    Some(v)
}

/// A sequence without its first element.
pub open spec fn tail<T>(s: Seq<T>) -> Seq<T> {
    if s.len() > 0 {
        s.subrange(1, s.len() as int)
    } else {
        s
    }
}

/// Reads every piece but the first as a number of 64 bits; nothing if one
/// is none.
pub fn parse_tail_i64(ps: &Vec<Vec<u8>>) -> (r: Option<Vec<i64>>)
    ensures
        match r {
            Some(v) => all_i64(tail(rows_of(ps@))) && v@ == i64s_of(tail(rows_of(ps@))),
            None => !all_i64(tail(rows_of(ps@))),
        },
{
    let mut v: Vec<i64> = Vec::new();
    if ps.len() == 0 {
        assert(v@ =~= i64s_of(tail(rows_of(ps@))));
        return Some(v);
    }
    let ghost rest = tail(rows_of(ps@));
    let mut k: usize = 1;
    while k < ps.len()
        invariant
            1 <= k <= ps@.len(),
            rest == tail(rows_of(ps@)),
            v@.len() == k - 1,
            forall|i: int| 0 <= i < k - 1 ==> i64_of(#[trigger] rest[i]) == Some(v@[i]),
        decreases ps@.len() - k,
    {
        assert(rest[k - 1] == ps@[k as int]@);
        match parse_i64(ps[k].as_slice()) {
            Some(n) => {
                v.push(n);
            },
            None => {
                assert(i64_of(rest[k - 1]) is None);
                return None;
            },
        }
        k += 1;
    }
    assert(v@ =~= i64s_of(rest));
    Some(v)
}

/// Reads every piece as a number of 32 bits; nothing if one is none.
pub fn parse_all_i32(ps: &Vec<Vec<u8>>) -> (r: Option<Vec<i32>>)
    ensures
        match r {
            Some(v) => all_i32(rows_of(ps@)) && v@ == i32s_of(rows_of(ps@)),
            None => !all_i32(rows_of(ps@)),
        },
{
    let mut v: Vec<i32> = Vec::new();
    let mut k: usize = 0;
    while k < ps.len()
        invariant
            k <= ps@.len(),
            v@.len() == k,
            forall|i: int| 0 <= i < k ==> i32_of(#[trigger] rows_of(ps@)[i]) == Some(v@[i]),
        decreases ps@.len() - k,
    {
        match parse_i32(ps[k].as_slice()) {
            Some(n) => {
                v.push(n);
            },
            None => {
                assert(i32_of(rows_of(ps@)[k as int]) is None);
                return None;
            },
        }
        k += 1;
    }
    assert(v@ =~= i32s_of(rows_of(ps@)));
    Some(v)
}

// ----------------------------------------------------------------------
// Strings
// ----------------------------------------------------------------------

/// The bytes of a text of ASCII characters; other texts have none here.
pub open spec fn ascii_bytes(s: Seq<char>) -> Option<Seq<u8>> {
    if vstd::utf8::is_ascii_chars(s) {
        Some(Seq::new(s.len(), |i: int| s[i] as u8))
    } else {
        None
    }
}

/// The characters that the bytes of `b` stand for, one each.
pub open spec fn chars_of(b: Seq<u8>) -> Seq<char> {
    Seq::new(b.len(), |i: int| b[i] as char)
}

/// The bytes of a text, where all of it is ASCII.
pub fn to_ascii(s: &str) -> (r: Option<Vec<u8>>)
    ensures
        match r {
            Some(v) => ascii_bytes(s@) == Some(v@),
            None => ascii_bytes(s@) is None,
        },
{
    if s.is_ascii() {
        let v = s.as_bytes_vec();
        proof {
            is_ascii_spec_bytes(s);
            assert(v@ =~= Seq::new(s@.len(), |i: int| s@[i] as u8));
        }
        Some(v)
    } else {
        None
    }
}

/// `String::push` appends one character to the string and changes nothing
/// else of it.
pub assume_specification[ String::push ](s: &mut String, ch: char)
    ensures
        final(s)@ == old(s)@.push(ch),
;

/// The string whose characters are the bytes of `b`, one each.
pub fn string_of(b: &[u8]) -> (r: String)
    ensures
        r@ == chars_of(b@),
{
    let mut r = String::new();
    let mut k: usize = 0;
    while k < b.len()
        invariant
            k <= b@.len(),
            r@ == chars_of(b@.subrange(0, k as int)),
        decreases b@.len() - k,
    {
        r.push(b[k] as char);
        proof {
            assert(r@ =~= chars_of(b@.subrange(0, k + 1)));
        }
        k += 1;
    }
    proof {
        assert(b@.subrange(0, k as int) =~= b@);
    }
    r
}

} // verus!
