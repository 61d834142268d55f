//! The greatest common divisor, computed by halving (Stein's algorithm),
//! and the least common multiple, of two numbers and of a whole sequence.

use vstd::arithmetic::div_mod::{lemma_fundamental_div_mod, lemma_mod_multiples_basic};
use vstd::prelude::*;

verus! {

/// `d` is positive and divides `n` without a remainder.
pub open spec fn divides(d: int, n: int) -> bool {
    d > 0 && n % d == 0
}

/// `g` is the greatest common divisor of `a` and `b`: it divides both, and
/// every number that divides both divides it. That of zero and zero is
/// zero.
pub open spec fn is_gcd(g: int, a: int, b: int) -> bool {
    if a == 0 && b == 0 {
        g == 0
    } else {
        &&& divides(g, a)
        &&& divides(g, b)
        &&& forall|d: int| divides(d, a) && divides(d, b) ==> #[trigger] divides(d, g)
    }
}

/// The greatest common divisor of two natural numbers, after Euclid.
pub open spec fn gcd_of(a: nat, b: nat) -> nat
    decreases b,
{
    if b == 0 {
        a
    } else {
        gcd_of(b, a % b)
    }
}

/// The least common multiple of two natural numbers that are not both
/// zero.
pub open spec fn lcm_of(a: nat, b: nat) -> nat {
    if gcd_of(a, b) == 0 {
        0
    } else {
        (a * b) / gcd_of(a, b)
    }
}

/// The greatest common divisor of all numbers of a sequence, taken from
/// left to right.
pub open spec fn gcd_fold(s: Seq<i64>) -> nat
    decreases s.len(),
{
    if s.len() == 0 {
        0
    } else if s.len() == 1 {
        s[0] as nat
    } else {
        gcd_of(gcd_fold(s.drop_last()), s.last() as nat)
    }
}

/// The least common multiple of all numbers of a sequence, taken from
/// left to right.
pub open spec fn lcm_fold(s: Seq<i64>) -> nat
    decreases s.len(),
{
    if s.len() == 0 {
        0
    } else if s.len() == 1 {
        s[0] as nat
    } else {
        lcm_of(lcm_fold(s.drop_last()), s.last() as nat)
    }
}

/// Every step of `lcm_fold` can be computed in 64 bits: no two numbers
/// that meet are both zero, and their product fits.
pub open spec fn lcm_fold_fits(s: Seq<i64>) -> bool
    decreases s.len(),
{
    if s.len() <= 1 {
        true
    } else {
        &&& lcm_fold_fits(s.drop_last())
        &&& lcm_fold(s.drop_last()) * s.last() <= i64::MAX
        &&& !(lcm_fold(s.drop_last()) == 0 && s.last() == 0)
    }
}

/// No number of the sequence is negative.
pub open spec fn all_nonnegative(s: Seq<i64>) -> bool {
    forall|i: int| 0 <= i < s.len() ==> #[trigger] s[i] >= 0
}

proof fn lemma_witness(d: int, n: int)
    requires
        divides(d, n),
    ensures
        n == d * (n / d),
{
    lemma_fundamental_div_mod(n, d);
}

proof fn lemma_multiple(d: int, k: int)
    requires
        d > 0,
    ensures
        divides(d, d * k),
{
    lemma_mod_multiples_basic(k, d);
    assert(d * k == k * d) by (nonlinear_arith);
}

/// A divisor of a positive number is no greater than it.
pub proof fn lemma_divisor_bound(d: int, n: int)
    requires
        divides(d, n),
        n > 0,
    ensures
        d <= n,
{
    lemma_witness(d, n);
    let q = n / d;
    assert(d <= n) by (nonlinear_arith)
        requires
            n == d * q,
            d > 0,
            n > 0,
    ;
}

/// Two numbers have one greatest common divisor only.
pub proof fn lemma_gcd_unique(g1: int, g2: int, a: int, b: int)
    requires
        is_gcd(g1, a, b),
        is_gcd(g2, a, b),
    ensures
        g1 == g2,
{
    if !(a == 0 && b == 0) {
        assert(divides(g1, g2));
        assert(divides(g2, g1));
        lemma_divisor_bound(g1, g2);
        lemma_divisor_bound(g2, g1);
    }
}

/// What Euclid's algorithm computes is the greatest common divisor.
pub proof fn lemma_gcd_of(a: nat, b: nat)
    ensures
        is_gcd(gcd_of(a, b) as int, a as int, b as int),
    decreases b,
{
    if b == 0 {
        if a != 0 {
            lemma_multiple(a as int, 1);
            lemma_multiple(a as int, 0);
        }
    } else {
        let r = a % b;
        let g = gcd_of(b, r) as int;
        lemma_gcd_of(b, r);
        lemma_fundamental_div_mod(a as int, b as int);
        let q = (a as int) / (b as int);
        lemma_witness(g, b as int);
        lemma_witness(g, r as int);
        let gb = (b as int) / g;
        let gr = (r as int) / g;
        assert(a == g * (gb * q + gr)) by (nonlinear_arith)
            requires
                a == b * q + r,
                b == g * gb,
                r == g * gr,
        ;
        lemma_multiple(g, gb * q + gr);
        assert forall|d: int| divides(d, a as int) && divides(d, b as int) implies #[trigger] divides(
            d,
            g,
        ) by {
            lemma_witness(d, a as int);
            lemma_witness(d, b as int);
            let da = (a as int) / d;
            let db = (b as int) / d;
            assert(r == d * (da - db * q)) by (nonlinear_arith)
                requires
                    a == b * q + r,
                    a == d * da,
                    b == d * db,
            ;
            lemma_multiple(d, da - db * q);
            assert(divides(d, r as int));
        }
    }
}

/// The greatest common divisor does not depend on the order of the two.
pub proof fn lemma_gcd_commutes(a: nat, b: nat)
    ensures
        gcd_of(a, b) == gcd_of(b, a),
{
    lemma_gcd_of(a, b);
    lemma_gcd_of(b, a);
    lemma_gcd_unique(gcd_of(a, b) as int, gcd_of(b, a) as int, a as int, b as int);
}

/// The greatest common divisor of two numbers, one of them positive, is
/// positive and no greater than a positive one of them.
pub proof fn lemma_gcd_bound(a: nat, b: nat)
    requires
        a > 0 || b > 0,
    ensures
        gcd_of(a, b) > 0,
        a > 0 ==> gcd_of(a, b) <= a,
        b > 0 ==> gcd_of(a, b) <= b,
{
    lemma_gcd_of(a, b);
    if a > 0 {
        lemma_divisor_bound(gcd_of(a, b) as int, a as int);
    }
    if b > 0 {
        lemma_divisor_bound(gcd_of(a, b) as int, b as int);
    }
}

/// An odd number that divides an even one divides its half.
proof fn lemma_odd_divisor_halves(d: int, n: int)
    requires
        divides(d, n),
        d % 2 == 1,
        n % 2 == 0,
    ensures
        divides(d, n / 2),
{
    lemma_witness(d, n);
    let k = n / d;
    let dh = d / 2;
    let kh = k / 2;
    if k % 2 != 0 {
        assert(n == 2 * (2 * dh * kh + dh + kh) + 1) by (nonlinear_arith)
            requires
                n == d * k,
                d == 2 * dh + 1,
                k == 2 * kh + 1,
        ;
    }
    assert(n == 2 * (d * kh)) by (nonlinear_arith)
        requires
            n == d * k,
            k == 2 * kh,
    ;
    lemma_multiple(d, kh);
}

/// A divisor of an odd number is odd.
proof fn lemma_divisor_of_odd(d: int, n: int)
    requires
        divides(d, n),
        n % 2 == 1,
    ensures
        d % 2 == 1,
{
    lemma_witness(d, n);
    let k = n / d;
    let dh = d / 2;
    if d % 2 == 0 {
        assert(n == 2 * (dh * k)) by (nonlinear_arith)
            requires
                n == d * k,
                d == 2 * dh,
        ;
    }
}

/// Halving an even number beside an odd one keeps the greatest common
/// divisor.
pub proof fn lemma_gcd_even_odd(a: nat, b: nat)
    requires
        a % 2 == 0,
        b % 2 == 1,
    ensures
        gcd_of(a, b) == gcd_of(a / 2, b),
{
    let h = a / 2;
    let g = gcd_of(h, b) as int;
    lemma_gcd_of(h, b);
    lemma_witness(g, h as int);
    let p = (h as int) / g;
    assert(a == g * (2 * p)) by (nonlinear_arith)
        requires
            a == 2 * h,
            h == g * p,
    ;
    lemma_multiple(g, 2 * p);
    assert forall|d: int| divides(d, a as int) && divides(d, b as int) implies #[trigger] divides(
        d,
        g,
    ) by {
        lemma_divisor_of_odd(d, b as int);
        lemma_odd_divisor_halves(d, a as int);
    }
    lemma_gcd_of(a, b);
    lemma_gcd_unique(gcd_of(a, b) as int, g, a as int, b as int);
}

/// Halving two even numbers halves the greatest common divisor.
pub proof fn lemma_gcd_even_even(a: nat, b: nat)
    requires
        a % 2 == 0,
        b % 2 == 0,
    ensures
        gcd_of(a, b) == 2 * gcd_of(a / 2, b / 2),
{
    let ha = a / 2;
    let hb = b / 2;
    let g = gcd_of(ha, hb) as int;
    lemma_gcd_of(ha, hb);
    lemma_gcd_of(a, b);
    if a == 0 && b == 0 {
    } else {
        lemma_witness(g, ha as int);
        lemma_witness(g, hb as int);
        let p = (ha as int) / g;
        let q = (hb as int) / g;
        assert(a == (2 * g) * p) by (nonlinear_arith)
            requires
                a == 2 * ha,
                ha == g * p,
        ;
        assert(b == (2 * g) * q) by (nonlinear_arith)
            requires
                b == 2 * hb,
                hb == g * q,
        ;
        lemma_multiple(2 * g, p);
        lemma_multiple(2 * g, q);
        assert forall|d: int| divides(d, a as int) && divides(d, b as int) implies #[trigger] divides(
            d,
            2 * g,
        ) by {
            if d % 2 == 1 {
                lemma_odd_divisor_halves(d, a as int);
                lemma_odd_divisor_halves(d, b as int);
                assert(divides(d, g));
                lemma_witness(d, g);
                let m = g / d;
                assert(2 * g == d * (2 * m)) by (nonlinear_arith)
                    requires
                        g == d * m,
                ;
                lemma_multiple(d, 2 * m);
            } else {
                let e = d / 2;
                lemma_witness(d, a as int);
                lemma_witness(d, b as int);
                let ka = (a as int) / d;
                let kb = (b as int) / d;
                assert(ha == e * ka) by (nonlinear_arith)
                    requires
                        a == 2 * ha,
                        a == d * ka,
                        d == 2 * e,
                ;
                assert(hb == e * kb) by (nonlinear_arith)
                    requires
                        b == 2 * hb,
                        b == d * kb,
                        d == 2 * e,
                ;
                lemma_multiple(e, ka);
                lemma_multiple(e, kb);
                assert(divides(e, g));
                lemma_witness(e, g);
                let m = g / e;
                assert(2 * g == d * m) by (nonlinear_arith)
                    requires
                        g == e * m,
                        d == 2 * e,
                ;
                lemma_multiple(d, m);
            }
        }
        lemma_gcd_unique(gcd_of(a, b) as int, 2 * g, a as int, b as int);
    }
}

/// Of two odd numbers, half the difference beside the smaller keeps the
/// greatest common divisor.
pub proof fn lemma_gcd_odd_odd(x: nat, y: nat)
    requires
        x % 2 == 1,
        y % 2 == 1,
        x <= y,
    ensures
        gcd_of(x, y) == gcd_of(((y - x) / 2) as nat, x),
{
    let h = ((y - x) / 2) as nat;
    let g = gcd_of(h, x) as int;
    lemma_gcd_of(h, x);
    lemma_witness(g, h as int);
    lemma_witness(g, x as int);
    let p = (h as int) / g;
    let q = (x as int) / g;
    assert(y == g * (q + 2 * p)) by (nonlinear_arith)
        requires
            y - x == 2 * h,
            h == g * p,
            x == g * q,
    ;
    lemma_multiple(g, q + 2 * p);
    assert forall|d: int| divides(d, x as int) && divides(d, y as int) implies #[trigger] divides(
        d,
        g,
    ) by {
        lemma_witness(d, x as int);
        lemma_witness(d, y as int);
        let kx = (x as int) / d;
        let ky = (y as int) / d;
        assert(y - x == d * (ky - kx)) by (nonlinear_arith)
            requires
                x == d * kx,
                y == d * ky,
        ;
        lemma_multiple(d, ky - kx);
        lemma_divisor_of_odd(d, x as int);
        lemma_odd_divisor_halves(d, y - x);
        assert(divides(d, h as int));
    }
    lemma_gcd_of(x, y);
    lemma_gcd_unique(gcd_of(x, y) as int, g, x as int, y as int);
}

/// The product of the greatest common divisor and the least common
/// multiple of two positive numbers is the product of the two.
pub proof fn lemma_gcd_times_lcm(a: nat, b: nat)
    requires
        a > 0,
        b > 0,
    ensures
        gcd_of(a, b) * lcm_of(a, b) == a * b,
{
    let g = gcd_of(a, b) as int;
    lemma_gcd_bound(a, b);
    lemma_gcd_of(a, b);
    lemma_witness(g, a as int);
    let p = (a as int) / g;
    assert(a * b == g * (p * b)) by (nonlinear_arith)
        requires
            a == g * p,
    ;
    lemma_multiple(g, p * b);
    lemma_witness(g, (a * b) as int);
}

/// The least common multiple of two positive numbers is a multiple of
/// both.
pub proof fn lemma_lcm_is_common_multiple(a: nat, b: nat)
    requires
        a > 0,
        b > 0,
    ensures
        divides(a as int, lcm_of(a, b) as int),
        divides(b as int, lcm_of(a, b) as int),
{
    let g = gcd_of(a, b) as int;
    let l = lcm_of(a, b) as int;
    lemma_gcd_bound(a, b);
    lemma_gcd_of(a, b);
    lemma_gcd_times_lcm(a, b);
    lemma_witness(g, a as int);
    lemma_witness(g, b as int);
    let p = (a as int) / g;
    let q = (b as int) / g;
    assert(l == a * q && l == b * p) by (nonlinear_arith)
        requires
            g * l == a * b,
            a == g * p,
            b == g * q,
            g > 0,
    ;
    lemma_multiple(a as int, q);
    lemma_multiple(b as int, p);
}

/// The greatest common divisor of two numbers that are not negative, by
/// halving: common factors of two are taken out, other factors of two are
/// dropped, and of two odd numbers the greater is replaced by half the
/// difference.
pub fn gcd(a: i64, b: i64) -> (g: i64)
    requires
        a >= 0,
        b >= 0,
    ensures
        g == gcd_of(a as nat, b as nat),
        is_gcd(g as int, a as int, b as int),
        0 <= g,
        a > 0 ==> g <= a,
        b > 0 ==> g <= b,
    decreases a + b,
{
    proof {
        lemma_gcd_of(a as nat, b as nat);
        if a > 0 || b > 0 {
            lemma_gcd_bound(a as nat, b as nat);
        }
    }
    if a == b {
        proof {
            if a > 0 {
                lemma_gcd_bound(a as nat, b as nat);
                lemma_multiple(a as int, 1);
                assert(divides(a as int, gcd_of(a as nat, b as nat) as int));
                lemma_divisor_bound(a as int, gcd_of(a as nat, b as nat) as int);
            }
        }
        b
    } else if a == 0 {
        proof {
            lemma_gcd_commutes(a as nat, b as nat);
        }
        b
    } else if b == 0 {
        a
    } else if a % 2 == 0 && b % 2 == 1 {
        proof {
            lemma_gcd_even_odd(a as nat, b as nat);
        }
        gcd(a / 2, b)
    } else if a % 2 == 1 && b % 2 == 0 {
        proof {
            lemma_gcd_even_odd(b as nat, a as nat);
            lemma_gcd_commutes(a as nat, b as nat);
        }
        gcd(b / 2, a)
    } else if a % 2 == 0 && b % 2 == 0 {
        proof {
            lemma_gcd_even_even(a as nat, b as nat);
        }
        gcd(a / 2, b / 2) * 2
    } else {
        let x: i64 = if a < b { a } else { b };
        let y: i64 = if a < b { b } else { a };
        proof {
            lemma_gcd_odd_odd(x as nat, y as nat);
            lemma_gcd_commutes(a as nat, b as nat);
        }
        gcd((y - x) / 2, x)
    }
}

/// The greatest common divisor of all numbers of a list that is not empty
/// and holds no negative number.
pub fn gcd_vec(numbers: Vec<i64>) -> (g: i64)
    requires
        numbers@.len() >= 1,
        all_nonnegative(numbers@),
    ensures
        g == gcd_fold(numbers@),
{
    let mut acc: i64 = numbers[0];
    let mut k: usize = 1;
    assert(numbers@.subrange(0, 1).len() == 1);
    while k < numbers.len()
        invariant
            1 <= k <= numbers@.len(),
            all_nonnegative(numbers@),
            acc >= 0,
            acc == gcd_fold(numbers@.subrange(0, k as int)),
        decreases numbers@.len() - k,
    {
        proof {
            let longer = numbers@.subrange(0, k + 1);
            assert(longer.drop_last() =~= numbers@.subrange(0, k as int));
            assert(longer.last() == numbers@[k as int]);
        }
        acc = gcd(acc, numbers[k]);
        k += 1;
    }
    proof {
        assert(numbers@.subrange(0, k as int) =~= numbers@);
    }
    acc
}

/// The least common multiple of two numbers that are not negative and not
/// both zero: their product divided by their greatest common divisor.
pub fn lcm(a: i64, b: i64) -> (l: i64)
    requires
        a >= 0,
        b >= 0,
        a > 0 || b > 0,
        a * b <= i64::MAX,
    ensures
        l == lcm_of(a as nat, b as nat),
        l >= 0,
{
    proof {
        lemma_gcd_bound(a as nat, b as nat);
        assert(a * b >= 0) by (nonlinear_arith)
            requires
                a >= 0,
                b >= 0,
        ;
    }
    a * b / gcd(a, b)
}

/// The least common multiple of all numbers of a list that is not empty
/// and holds no negative number.
pub fn lcm_vec(numbers: Vec<i64>) -> (l: i64)
    requires
        numbers@.len() >= 1,
        all_nonnegative(numbers@),
        lcm_fold_fits(numbers@),
    ensures
        l == lcm_fold(numbers@),
{
    let mut acc: i64 = numbers[0];
    let mut k: usize = 1;
    assert(numbers@.subrange(0, 1).len() == 1);
    proof {
        lemma_lcm_fold_fits_prefix(numbers@, 1);
    }
    while k < numbers.len()
        invariant
            1 <= k <= numbers@.len(),
            all_nonnegative(numbers@),
            lcm_fold_fits(numbers@),
            acc >= 0,
            acc == lcm_fold(numbers@.subrange(0, k as int)),
        decreases numbers@.len() - k,
    {
        proof {
            let longer = numbers@.subrange(0, k + 1);
            assert(longer.drop_last() =~= numbers@.subrange(0, k as int));
            assert(longer.last() == numbers@[k as int]);
            lemma_lcm_fold_fits_prefix(numbers@, k + 1);
        }
        acc = lcm(acc, numbers[k]);
        k += 1;
    }
    proof {
        assert(numbers@.subrange(0, k as int) =~= numbers@);
    }
    acc
}

/// Where the whole fold can be computed, so can each start of it.
proof fn lemma_lcm_fold_fits_prefix(s: Seq<i64>, k: int)
    requires
        lcm_fold_fits(s),
        0 <= k <= s.len(),
    ensures
        lcm_fold_fits(s.subrange(0, k)),
    decreases s.len(),
{
    if k == s.len() {
        assert(s.subrange(0, k) =~= s);
    } else {
        lemma_lcm_fold_fits_prefix(s.drop_last(), k);
        assert(s.drop_last().subrange(0, k) =~= s.subrange(0, k));
    }
}

} // verus!
