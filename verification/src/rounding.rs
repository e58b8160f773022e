//! Rounding as in the IEEE 754 binary format of 32 bits, on whole numbers: what
//! a sum or a quotient becomes when only 24 significant bits of it are kept.
use vstd::arithmetic::power2::{
    lemma2_to64, lemma_pow2_adds, lemma_pow2_pos, lemma_pow2_unfold, pow2,
};
use vstd::prelude::*;

verus! {

/// The least of `u`, `2 * u`, `4 * u` and so on of which `p / q` holds fewer than
/// 2^24.
pub open spec fn unit_from(p: nat, q: nat, u: nat) -> nat
    decreases p - u,
{
    if q == 0 || u == 0 || p < u * 0x100_0000 * q {
        u
    } else {
        proof {
            lemma_unit_room(p, q, u);
        }
        unit_from(p, q, 2 * u)
    }
}

/// A number of which more than 2^24 units are left is at least two of them.
pub proof fn lemma_unit_room(p: nat, q: nat, u: nat)
    requires
        q > 0,
        u > 0,
        p >= u * 0x100_0000 * q,
    ensures
        p >= 2 * u,
{
    assert(u * 0x100_0000 * q >= u * 0x100_0000) by (nonlinear_arith)
        requires
            q >= 1,
            u >= 1,
    ;
}

/// The whole number nearest to `p / q` among those with 24 significant bits; of
/// two that are equally near, the one whose last bit is zero.
pub open spec fn nearest_of(p: nat, q: nat) -> nat {
    let u = unit_from(p, q, 1);
    let d = u * q;
    let m = p / d;
    if 2 * (p % d) < d || (2 * (p % d) == d && m % 2 == 0) {
        m * u
    } else {
        (m + 1) * u
    }
}

/// The unit is no larger than it must be.
proof fn lemma_unit(p: nat, q: nat, u: nat)
    requires
        q > 0,
        u > 0,
    ensures
        unit_from(p, q, u) >= u,
        p < unit_from(p, q, u) * 0x100_0000 * q,
        unit_from(p, q, u) == u || p >= (unit_from(p, q, u) / 2) * 0x100_0000 * q,
        unit_from(p, q, u) == u || unit_from(p, q, u) % 2 == 0,
    decreases p - u,
{
    if p >= u * 0x100_0000 * q {
        lemma_unit_room(p, q, u);
        lemma_unit(p, q, 2 * u);
        assert((2 * u) / 2 == u);
    }
}

/// What is rounded to 24 bits is not lost altogether.
pub proof fn lemma_nearest_positive(p: nat)
    requires
        p > 0,
    ensures
        nearest_of(p, 1) > 0,
{
    let u = unit_from(p, 1, 1);
    lemma_unit(p, 1, 1);
    let m = p / (u * 1);
    assert(m >= 1) by (nonlinear_arith)
        requires
            u >= 1,
            p >= u,
            m == p / (u * 1),
    ;
    assert(m * u > 0 && (m + 1) * u > 0) by (nonlinear_arith)
        requires
            m >= 1,
            u >= 1,
    ;
}

/// A sum that has reached 2^41 grows no further by the square of a byte, nor
/// does a smaller one beyond it.
pub proof fn lemma_sum_bounded(p: nat)
    requires
        p <= 0x200_0000_0000 + 65025,
    ensures
        nearest_of(p, 1) <= 0x200_0000_0000,
{
    reveal_with_fuel(unit_from, 20);
    let u = unit_from(p, 1, 1);
    if p < 0x200_0000_0000 {
        assert(u <= 0x2_0000);
        lemma_below_limit(p, u, 0x200_0000_0000);
    } else {
        assert(u == 0x4_0000);
    }
}

/// A count that has reached 2^26 grows no further by three, nor does a smaller
/// one beyond it.
pub proof fn lemma_count_bounded(p: nat)
    requires
        p <= 0x400_0000 + 3,
    ensures
        nearest_of(p, 1) <= 0x400_0000,
{
    reveal_with_fuel(unit_from, 6);
    let u = unit_from(p, 1, 1);
    if p < 0x400_0000 {
        assert(u <= 4);
        lemma_below_limit(p, u, 0x400_0000);
    } else {
        assert(u == 8);
    }
}

proof fn lemma_below_limit(p: nat, u: nat, limit: nat)
    requires
        u == unit_from(p, 1, 1),
        u * 0x100_0000 <= limit,
    ensures
        nearest_of(p, 1) <= limit,
{
    lemma_unit(p, 1, 1);
    let m = p / (u * 1);
    assert(m < 0x100_0000) by (nonlinear_arith)
        requires
            u >= 1,
            p < u * 0x100_0000 * 1,
            m == p / (u * 1),
    ;
    assert(m * u <= (m + 1) * u <= 0x100_0000 * u) by (nonlinear_arith)
        requires
            m + 1 <= 0x100_0000,
            u >= 1,
    ;
}

/// Rounding does not take a number beyond a power of two from 2^24 on.
pub proof fn lemma_nearest_below(p: nat, limit: nat)
    requires
        p <= limit,
        limit == 0x1_0000_0000 || limit == 0x100_0000_0000_0000,
    ensures
        nearest_of(p, 1) <= limit,
{
    reveal_with_fuel(unit_from, 40);
    let u = unit_from(p, 1, 1);
    if p < limit {
        assert(u * 0x100_0000 <= limit);
        lemma_below_limit(p, u, limit);
    } else {
        assert(u * 0x80_0000 == limit);
        assert(p / (u * 1) == 0x80_0000) by (nonlinear_arith)
            requires
                p == u * 0x80_0000,
                u > 0,
        ;
        assert(p % (u * 1) == 0) by (nonlinear_arith)
            requires
                p == u * 0x80_0000,
                u > 0,
        ;
    }
}

/// Rounding moves a quotient of 25 bits or more by less than a unit of its last
/// place, and not below 2^25.
pub proof fn lemma_nearest_near(p: nat, q: nat)
    requires
        q > 0,
        p >= 0x200_0000 * q,
    ensures
        nearest_of(p, q) >= 0x200_0000,
        nearest_of(p, q) * q * 0x80_0000 <= p * 0x80_0001,
{
    let u = unit_from(p, q, 1);
    lemma_unit(p, q, 1);
    assert(u > 2) by (nonlinear_arith)
        requires
            p >= 0x200_0000 * q,
            p < u * 0x100_0000 * q,
            q > 0,
    ;
    let half = u / 2;
    assert(u == 2 * half);
    assert((2 * half) * q == 2 * (half * q)) by (nonlinear_arith);
    assert(half * 0x100_0000 * q == 0x100_0000 * (half * q)) by (nonlinear_arith);
    let d = u * q;
    let m = p / d;
    assert(d > 0) by (nonlinear_arith)
        requires
            u > 0,
            q > 0,
            d == u * q,
    ;
    vstd::arithmetic::div_mod::lemma_fundamental_div_mod(p as int, d as int);
    assert(m >= 0x80_0000) by (nonlinear_arith)
        requires
            p >= 0x80_0000 * d,
            p == d * m + p % d,
            0 <= p % d < d,
    ;
    assert(m * u >= 0x80_0000 * u && (m + 1) * u >= m * u) by (nonlinear_arith)
        requires
            m >= 0x80_0000,
            u > 0,
    ;
    let r = nearest_of(p, q);
    assert(m * u * q == d * m) by (nonlinear_arith)
        requires
            d == u * q,
    ;
    assert((m + 1) * u * q == d * m + d) by (nonlinear_arith)
        requires
            d == u * q,
    ;
    assert(r * q <= p + d);
    assert(r * q * 0x80_0000 <= p * 0x80_0001) by (nonlinear_arith)
        requires
            r * q <= p + d,
            0x80_0000 * d <= p,
    ;
}

/// A third of a length from 6 to 2^32 pixels, taken 2^24 times, lies between
/// 2 and 2^31 times 2^24.
pub proof fn lemma_third(n: nat)
    requires
        6 <= n <= 0xffff_ffff,
    ensures
        2 <= nearest_of(nearest_of(n, 1) * 0x100_0000, 3) / 0x100_0000 <= 0x7fff_ffff,
{
    lemma_nearest_below(n, 0x1_0000_0000);
    let length = nearest_of(n, 1);
    if n < 0x100_0000 {
        assert(length == n);
    } else {
        let u = unit_from(n, 1, 1);
        lemma_unit(n, 1, 1);
        let m = n / (u * 1);
        assert(m >= 6) by (nonlinear_arith)
            requires
                u > 1,
                n >= (u / 2) * 0x100_0000 * 1,
                m == n / (u * 1),
        ;
        assert(m * u >= 6 && (m + 1) * u >= 6) by (nonlinear_arith)
            requires
                m >= 6,
                u >= 1,
        ;
    }
    let p = length * 0x100_0000;
    lemma_nearest_near(p, 3);
}

/// Rounds `p / q` to 24 significant bits.
pub fn nearest(p: u128, q: u128) -> (r: u128)
    requires
        0 < q <= 0x1_0000_0000,
        p <= 0x4000_0000_0000_0000_0000_0000_0000,
    ensures
        r == nearest_of(p as nat, q as nat),
{
    let mut u: u128 = 1;
    assert(u * 0x100_0000 * q <= 0x100_0000 * 0x1_0000_0000);
    while p >= u * 0x100_0000 * q
        invariant
            0 < q <= 0x1_0000_0000,
            p <= 0x4000_0000_0000_0000_0000_0000_0000,
            u > 0,
            u * 0x100_0000 * q <= 0x8000_0000_0000_0000_0000_0000_0000,
            u * 0x100_0000 <= u * 0x100_0000 * q,
            unit_from(p as nat, q as nat, 1) == unit_from(p as nat, q as nat, u as nat),
        decreases p - u,
    {
        proof {
            lemma_unit_room(p as nat, q as nat, u as nat);
            assert((2 * u) * 0x100_0000 * q == 2 * (u * 0x100_0000 * q)) by (nonlinear_arith);
        }
        u = 2 * u;
    }
    assert(u * q <= u * 0x100_0000 * q) by (nonlinear_arith)
        requires
            u >= 1,
            q >= 1,
    ;
    assert(u * q >= 1) by (nonlinear_arith)
        requires
            u >= 1,
            q >= 1,
    ;
    let d: u128 = u * q;
    let m: u128 = p / d;
    let left: u128 = p % d;
    proof {
        assert(m < 0x100_0000) by (nonlinear_arith)
            requires
                d >= 1,
                p < u * 0x100_0000 * q,
                d == u * q,
                m == p / d,
        ;
        assert(m * u <= (m + 1) * u <= 0x100_0000 * u) by (nonlinear_arith)
            requires
                m + 1 <= 0x100_0000,
                u >= 1,
        ;
        assert(left < d);
    }
    if 2 * left < d || (2 * left == d && m % 2 == 0) {
        m * u
    } else {
        (m + 1) * u
    }
}

// ---------------------------------------------------------------------------
// What rounding keeps
// ---------------------------------------------------------------------------

/// A whole number of at most 24 bits stays as it is, and nothing stays nothing.
pub proof fn short_numbers_stay(p: nat, q: nat)
    requires
        q > 0,
    ensures
        p < 0x100_0000 ==> nearest_of(p, 1) == p,
        nearest_of(0, q) == 0,
{
    if p < 0x100_0000 {
        assert(unit_from(p, 1, 1) == 1);
    }
    assert(1 * 0x100_0000 * q > 0) by (nonlinear_arith)
        requires
            q > 0,
    ;
    assert(unit_from(0, q, 1) == 1);
    assert(0nat / (1 * q) == 0 && 0nat % (1 * q) == 0) by (nonlinear_arith)
        requires
            q > 0,
    ;
}

/// Rounding goes to the nearest: no multiple of the unit of the last place lies nearer
/// to `p / q` than the result, and of two that are equally near the even one is taken.
pub proof fn rounding_goes_to_the_nearest(p: nat, q: nat, k: nat)
    requires
        q > 0,
    ensures
        ({
            let u = unit_from(p, q, 1);
            let r = nearest_of(p, q);
            let off = if r * q >= p {
                r * q - p
            } else {
                p - r * q
            };
            let other = if k * u * q >= p {
                k * u * q - p
            } else {
                p - k * u * q
            };
            &&& u > 0
            &&& r % u == 0
            &&& r / u <= 0x100_0000
            &&& off <= other
            &&& off == other && k * u != r ==> (r / u) % 2 == 0
        }),
{
    let u = unit_from(p, q, 1);
    lemma_unit(p, q, 1);
    let d = u * q;
    assert(d > 0) by (nonlinear_arith)
        requires
            u > 0,
            q > 0,
            d == u * q,
    ;
    let m = p / d;
    let left = p % d;
    vstd::arithmetic::div_mod::lemma_fundamental_div_mod(p as int, d as int);
    assert(m * u * q == d * m) by (nonlinear_arith)
        requires
            d == u * q,
    ;
    assert((m + 1) * u * q == d * m + d) by (nonlinear_arith)
        requires
            d == u * q,
    ;
    assert(k * u * q == d * k) by (nonlinear_arith)
        requires
            d == u * q,
    ;
    assert(m < 0x100_0000) by (nonlinear_arith)
        requires
            d * m <= p,
            p < u * 0x100_0000 * q,
            d == u * q,
            d > 0,
    ;
    assert((m * u) / u == m && (m * u) % u == 0 && ((m + 1) * u) / u == m + 1 && ((m + 1) * u) % u
        == 0) by {
        vstd::arithmetic::div_mod::lemma_div_multiples_vanish(m as int, u as int);
        vstd::arithmetic::div_mod::lemma_div_multiples_vanish((m + 1) as int, u as int);
        vstd::arithmetic::div_mod::lemma_mod_multiples_basic(m as int, u as int);
        vstd::arithmetic::div_mod::lemma_mod_multiples_basic((m + 1) as int, u as int);
        assert(u * m == m * u && u * (m + 1) == (m + 1) * u) by (nonlinear_arith);
    }
    if k < m {
        assert(d * k <= d * m - d) by (nonlinear_arith)
            requires
                k + 1 <= m,
                d > 0,
        ;
    } else if k > m + 1 {
        assert(d * k >= d * m + 2 * d) by (nonlinear_arith)
            requires
                k >= m + 2,
                d > 0,
        ;
    } else if k == m + 1 {
        assert(d * k == d * m + d) by (nonlinear_arith)
            requires
                k == m + 1,
        ;
    }
}

/// The unit is a power of two, and only as large as 24 bits make it: below 2^24 it is
/// one.
pub proof fn unit_of_the_last_place(p: nat, q: nat)
    requires
        q > 0,
    ensures
        p < 0x100_0000 * q ==> unit_from(p, q, 1) == 1,
        p >= 0x100_0000 * q ==> (unit_from(p, q, 1) / 2) * 0x100_0000 * q <= p,
        p < unit_from(p, q, 1) * 0x100_0000 * q,
{
    lemma_unit(p, q, 1);
}

/// Rounding moves a number by no more than its 2^24th part.
pub proof fn rounding_moves_little(p: nat)
    ensures
        p * 0xff_ffff <= nearest_of(p, 1) * 0x100_0000 <= p * 0x100_0001,
{
    let u = unit_from(p, 1, 1);
    lemma_unit(p, 1, 1);
    rounding_goes_to_the_nearest(p, 1, p / u);
    rounding_goes_to_the_nearest(p, 1, p / u + 1);
    let m = p / u;
    vstd::arithmetic::div_mod::lemma_fundamental_div_mod(p as int, u as int);
    assert(m * u * 1 == u * m && (m + 1) * u * 1 == u * m + u) by (nonlinear_arith);
    if u == 1 {
        short_numbers_stay(p, 1);
    }
}

/// A number of 24 bits times a power of two stays as it is.
pub proof fn short_products_stay(m: nat, t: nat)
    requires
        m < 0x100_0000,
    ensures
        nearest_of(m * pow2(t), 1) == m * pow2(t),
{
    let p = m * pow2(t);
    assert(p == m * (1 * pow2(t)));
    lemma_unit_divides(p, 1, m, t);
    lemma_unit(p, 1, 1);
    let u = unit_from(p, 1, 1);
    assert(u * 1 == u);
    vstd::arithmetic::div_mod::lemma_fundamental_div_mod(p as int, u as int);
    assert((p / u) * u == u * (p / u)) by (nonlinear_arith);
}

proof fn lemma_unit_divides(p: nat, u: nat, m: nat, t: nat)
    requires
        u > 0,
        m < 0x100_0000,
        p == m * (u * pow2(t)),
    ensures
        p % unit_from(p, 1, u) == 0,
    decreases t,
{
    if p < u * 0x100_0000 * 1 {
        assert(p == (m * pow2(t)) * u) by (nonlinear_arith)
            requires
                p == m * (u * pow2(t)),
        ;
        vstd::arithmetic::div_mod::lemma_mod_multiples_basic((m * pow2(t)) as int, u as int);
    } else {
        if t == 0 {
            lemma2_to64();
            assert(p < u * 0x100_0000) by (nonlinear_arith)
                requires
                    p == m * (u * 1),
                    m < 0x100_0000,
                    u > 0,
            ;
        }
        lemma_pow2_unfold(t);
        assert(p == m * ((2 * u) * pow2((t - 1) as nat))) by (nonlinear_arith)
            requires
                p == m * (u * pow2(t)),
                pow2(t) == 2 * pow2((t - 1) as nat),
        ;
        lemma_unit_divides(p, 2 * u, m, (t - 1) as nat);
    }
}

/// A unit of at most 2^24 divides 2^24: it is a power of two.
pub proof fn units_divide_a_power_of_two(p: nat, q: nat, u: nat, s: nat)
    requires
        q > 0,
        s <= 24,
        u == pow2(s),
        unit_from(p, q, u) <= 0x100_0000,
    ensures
        0x100_0000nat % unit_from(p, q, u) == 0,
    decreases 24 - s,
{
    lemma2_to64();
    lemma_pow2_pos(s);
    if p < u * 0x100_0000 * q {
        lemma_pow2_adds(s, (24 - s) as nat);
        vstd::arithmetic::div_mod::lemma_mod_multiples_basic(
            pow2((24 - s) as nat) as int,
            pow2(s) as int,
        );
        assert(pow2((24 - s) as nat) * pow2(s) == pow2(24)) by (nonlinear_arith)
            requires
                pow2(s) * pow2((24 - s) as nat) == pow2(24),
        ;
    } else {
        lemma_unit_room(p, q, u);
        lemma_unit(p, q, 2 * u);
        lemma_pow2_unfold(s + 1);
        if s == 24 {
            assert(false);
        }
        units_divide_a_power_of_two(p, q, 2 * u, s + 1);
    }
}

/// A third of a length of at most 22 bits, taken 2^24 times and rounded, holds as many
/// whole pixels as the division by three gives.
pub proof fn thirds_are_exact(n: nat)
    requires
        n < 0x40_0000,
    ensures
        nearest_of(nearest_of(n, 1) * 0x100_0000, 3) / 0x100_0000 == n / 3,
{
    short_numbers_stay(n, 1);
    let p = n * 0x100_0000;
    let u = unit_from(p, 3, 1);
    let r = nearest_of(p, 3);
    lemma_unit(p, 3, 1);
    lemma2_to64();
    assert(u <= 0x40_0000) by {
        if u > 1 {
            assert((u / 2) * 0x100_0000 * 3 <= p);
        }
    }
    units_divide_a_power_of_two(p, 3, 1, 0);
    let j = 0x100_0000nat / u;
    vstd::arithmetic::div_mod::lemma_fundamental_div_mod(0x100_0000, u as int);
    assert(u * j == 0x100_0000);
    let t = n / 3;
    assert((t * j) * u == t * 0x100_0000) by (nonlinear_arith)
        requires
            u * j == 0x100_0000,
    ;
    rounding_goes_to_the_nearest(p, 3, t * j);
    rounding_goes_to_the_nearest(p, 3, p / (u * 3));
    rounding_goes_to_the_nearest(p, 3, p / (u * 3) + 1);
    let m = p / (u * 3);
    vstd::arithmetic::div_mod::lemma_fundamental_div_mod(p as int, (u * 3) as int);
    assert(m * u * 3 == (u * 3) * m && (m + 1) * u * 3 == (u * 3) * m + u * 3) by (nonlinear_arith);
    assert(r * 3 < p + 0x100_0000);
    assert(t * 0x100_0000 <= r);
}

} // verus!
