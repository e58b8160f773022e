//! Quotients as numbers of the IEEE 754 binary format of 64 bits.
use vstd::arithmetic::power2::{lemma_pow2, lemma_pow2_pos, lemma_pow2_unfold, pow2};
use vstd::prelude::*;
use crate::float_bits::Float64;

verus! {

/// `p / q` rounded to a whole number; halfway between two, to the even one.
pub open spec fn half_even(p: nat, q: nat) -> nat {
    if 2 * (p % q) < q || (2 * (p % q) == q && (p / q) % 2 == 0) {
        p / q
    } else {
        p / q + 1
    }
}

/// How many binary places of `p / q` it takes to have 53 significant bits.
pub open spec fn places(p: nat, q: nat) -> nat
    decreases 2 * (q * 0x10_0000_0000_0000) - p,
{
    if p == 0 || p >= q * 0x10_0000_0000_0000 {
        0
    } else {
        1 + places(2 * p, q)
    }
}

/// Bit pattern of the number nearest to `p / q`, where that is below 2^53: 53
/// significant bits, the first of which is not written, and the exponent before
/// them.
pub open spec fn quotient_bits(p: nat, q: nat) -> int {
    if p == 0 {
        0
    } else {
        (1074 - places(p, q)) * 0x10_0000_0000_0000 + half_even(p * pow2(places(p, q)), q)
    }
}

/// Where both parts of a quotient are multiplied by the same, its rounding stays.
pub proof fn lemma_half_even_cancels(p: nat, q: nat, c: nat)
    requires
        q > 0,
        c > 0,
    ensures
        half_even(p * c, q * c) == half_even(p, q),
{
    let (m, r) = (p / q, p % q);
    vstd::arithmetic::div_mod::lemma_fundamental_div_mod(p as int, q as int);
    assert(p * c == (q * c) * m + r * c && r * c < q * c && q * c > 0) by (nonlinear_arith)
        requires
            p == q * m + r,
            0 <= r < q,
            c > 0,
    ;
    assert((q * c) * m == m * (q * c)) by (nonlinear_arith);
    vstd::arithmetic::div_mod::lemma_fundamental_div_mod_converse(
        (p * c) as int,
        (q * c) as int,
        m as int,
        (r * c) as int,
    );
    assert(2 * (r * c) < q * c <==> 2 * r < q) by (nonlinear_arith)
        requires
            c > 0,
    ;
    assert(2 * (r * c) == q * c <==> 2 * r == q) by (nonlinear_arith)
        requires
            c > 0,
    ;
}

/// What divides evenly is not rounded.
pub proof fn lemma_half_even_exact(m: nat, q: nat)
    requires
        q > 0,
    ensures
        half_even(m * q, q) == m,
{
    vstd::arithmetic::div_mod::lemma_fundamental_div_mod_converse(
        (m * q) as int,
        q as int,
        m as int,
        0,
    );
}

/// The places taken so far and those still to take make up all of them.
proof fn lemma_places_step(p: nat, q: nat, k: nat)
    requires
        p > 0,
        p * pow2(k) < q * 0x10_0000_0000_0000,
        places(p, q) == k + places(p * pow2(k), q),
    ensures
        places(p, q) == (k + 1) + places(p * pow2(k + 1), q),
{
    lemma_pow2_unfold(k + 1);
    lemma_pow2_pos(k);
    assert(p * pow2(k) > 0) by (nonlinear_arith)
        requires
            p > 0,
            pow2(k) > 0,
    ;
    assert(p * (2 * pow2(k)) == 2 * (p * pow2(k))) by (nonlinear_arith);
}

/// No more places are needed than the denominator has bits, and 52.
proof fn lemma_few_places(p: nat, q: nat, k: nat, b: nat)
    requires
        p > 0,
        q <= pow2(b),
        p * pow2(k) < q * 0x10_0000_0000_0000,
    ensures
        k < b + 52,
{
    if k >= b + 52 {
        lemma_pow2_grows(b + 52, k);
        vstd::arithmetic::power2::lemma_pow2_adds(b, 52);
        vstd::arithmetic::power2::lemma2_to64_rest();
        assert(p * pow2(k) >= pow2(k)) by (nonlinear_arith)
            requires
                p >= 1,
                pow2(k) >= 0,
        ;
    }
}

proof fn lemma_pow2_of_96()
    ensures
        pow2(96) == 0x1_0000_0000_0000_0000_0000_0000,
{
    vstd::arithmetic::power2::lemma_pow2_adds(48, 48);
    vstd::arithmetic::power2::lemma2_to64_rest();
}

/// A power of two with no fewer zeros is no smaller, and a multiple.
pub proof fn lemma_pow2_grows(a: nat, b: nat)
    requires
        a <= b,
    ensures
        0 < pow2(a) <= pow2(b),
        pow2(b) == pow2(a) * pow2((b - a) as nat),
{
    lemma_pow2_pos(a);
    lemma_pow2_pos((b - a) as nat);
    vstd::arithmetic::power2::lemma_pow2_adds(a, (b - a) as nat);
    let (x, y) = (pow2(a), pow2((b - a) as nat));
    assert(x <= x * y) by (nonlinear_arith)
        requires
            x >= 0,
            y >= 1,
    ;
}

/// A smaller power of two has fewer zeros.
pub proof fn lemma_fewer_zeros(e: nat, b: nat)
    requires
        pow2(e) < pow2(b),
    ensures
        e < b,
{
    if e >= b {
        lemma_pow2_grows(b, e);
    }
}

/// The number nearest to `p / q`.
pub fn quotient(p: u128, q: u128) -> (r: Float64)
    requires
        0 < q <= 0x1_0000_0000_0000_0000_0000_0000,
        p < q * 0x20_0000_0000_0000,
    ensures
        r.bits == quotient_bits(p as nat, q as nat),
{
    if p == 0 {
        return Float64 { bits: 0 };
    }
    let mut whole: u128 = p / q;
    let mut left: u128 = p % q;
    let mut k: u64 = 0;
    proof {
        lemma_pow2(0);
        vstd::arithmetic::power2::lemma2_to64();
        assert(p * 1 == p) by (nonlinear_arith);
        assert(p == whole * q + left) by {
            vstd::arithmetic::div_mod::lemma_fundamental_div_mod(p as int, q as int);
            assert(q * whole == whole * q) by (nonlinear_arith);
        }
        assert(whole < 0x20_0000_0000_0000) by (nonlinear_arith)
            requires
                p < q * 0x20_0000_0000_0000,
                p == whole * q + left,
                left >= 0,
                q > 0,
        ;
    }
    while whole < 0x10_0000_0000_0000
        invariant
            0 < p,
            0 < q <= 0x1_0000_0000_0000_0000_0000_0000,
            whole < 0x20_0000_0000_0000,
            left < q,
            p * pow2(k as nat) == whole * q + left,
            places(p as nat, q as nat) == k + places((p * pow2(k as nat)) as nat, q as nat),
            k <= 148,
        decreases 148 - k,
    {
        let ghost s: int = p * pow2(k as nat);
        proof {
            assert((whole + 1) * q <= 0x10_0000_0000_0000 * q) by (nonlinear_arith)
                requires
                    whole + 1 <= 0x10_0000_0000_0000,
                    q > 0,
            ;
            assert((whole + 1) * q == whole * q + q) by (nonlinear_arith);
            lemma_pow2_of_96();
            lemma_few_places(p as nat, q as nat, k as nat, 96);
            lemma_places_step(p as nat, q as nat, k as nat);
            lemma_pow2_unfold((k + 1) as nat);
            assert(p * (2 * pow2(k as nat)) == 2 * s) by (nonlinear_arith)
                requires
                    s == p * pow2(k as nat),
            ;
            assert((2 * whole) * q == 2 * (whole * q)) by (nonlinear_arith);
            assert((2 * whole + 1) * q == 2 * (whole * q) + q) by (nonlinear_arith);
        }
        if 2 * left >= q {
            whole = 2 * whole + 1;
            left = 2 * left - q;
        } else {
            whole = 2 * whole;
            left = 2 * left;
        }
        k = k + 1;
    }
    proof {
        let s = (p * pow2(k as nat)) as nat;
        assert(s >= q * 0x10_0000_0000_0000) by (nonlinear_arith)
            requires
                s == whole * q + left,
                whole >= 0x10_0000_0000_0000,
                left >= 0,
                q > 0,
        ;
        assert(places(s, q as nat) == 0);
        assert(q * whole == whole * q) by (nonlinear_arith);
        vstd::arithmetic::div_mod::lemma_fundamental_div_mod_converse(
            s as int,
            q as int,
            whole as int,
            left as int,
        );
    }
    let up: bool = 2 * left > q || (2 * left == q && whole % 2 == 1);
    let rounded: u64 = if up {
        whole as u64 + 1
    } else {
        whole as u64
    };
    Float64 { bits: (1074 - k) * 0x10_0000_0000_0000 + rounded }
}

// ---------------------------------------------------------------------------
// Order
// ---------------------------------------------------------------------------

/// The larger of two quotients needs no more places.
proof fn lemma_places_shrink(p1: nat, q1: nat, p2: nat, q2: nat)
    requires
        0 < p1,
        0 < q1,
        0 < q2,
        p1 * q2 <= p2 * q1,
    ensures
        places(p2, q2) <= places(p1, q1),
    decreases places(p2, q2),
{
    let limit: nat = 0x10_0000_0000_0000;
    if p2 > 0 && p2 < q2 * limit {
        assert(p1 < q1 * limit) by (nonlinear_arith)
            requires
                p1 * q2 <= p2 * q1,
                p2 < q2 * limit,
                q1 > 0,
                q2 > 0,
        ;
        assert((2 * p1) * q2 <= (2 * p2) * q1) by (nonlinear_arith)
            requires
                p1 * q2 <= p2 * q1,
        ;
        lemma_places_shrink(2 * p1, q1, 2 * p2, q2);
    }
}

/// With its places, a quotient has 53 bits before the point.
proof fn lemma_scaled_range(p: nat, q: nat)
    requires
        0 < p,
        0 < q,
        p < q * 0x20_0000_0000_0000,
    ensures
        q * 0x10_0000_0000_0000 <= p * pow2(places(p, q)) < q * 0x20_0000_0000_0000,
    decreases places(p, q),
{
    if p < q * 0x10_0000_0000_0000 {
        lemma_scaled_range(2 * p, q);
        let k = places(2 * p, q);
        lemma_pow2_unfold(k + 1);
        assert((2 * p) * pow2(k) == p * (2 * pow2(k))) by (nonlinear_arith);
    } else {
        vstd::arithmetic::power2::lemma2_to64();
        assert(p * 1 == p) by (nonlinear_arith);
    }
}

/// Rounding a quotient of 53 bits gives 53 bits, or the next power of two.
proof fn lemma_half_even_range(s: nat, q: nat)
    requires
        0 < q,
        q * 0x10_0000_0000_0000 <= s < q * 0x20_0000_0000_0000,
    ensures
        0x10_0000_0000_0000 <= half_even(s, q) <= 0x20_0000_0000_0000,
{
    let m = s / q;
    vstd::arithmetic::div_mod::lemma_fundamental_div_mod(s as int, q as int);
    assert(0x10_0000_0000_0000 <= m < 0x20_0000_0000_0000) by (nonlinear_arith)
        requires
            q * 0x10_0000_0000_0000 <= s < q * 0x20_0000_0000_0000,
            s == q * m + s % q,
            0 <= s % q < q,
    ;
}

/// Rounding to whole numbers keeps the order of quotients.
proof fn lemma_half_even_monotone(s1: nat, q1: nat, s2: nat, q2: nat)
    requires
        0 < q1,
        0 < q2,
        s1 * q2 <= s2 * q1,
    ensures
        half_even(s1, q1) <= half_even(s2, q2),
{
    let (a, b) = (s1 / q1, s2 / q2);
    let (r1, r2) = (s1 % q1, s2 % q2);
    vstd::arithmetic::div_mod::lemma_fundamental_div_mod(s1 as int, q1 as int);
    vstd::arithmetic::div_mod::lemma_fundamental_div_mod(s2 as int, q2 as int);
    assert(a <= b) by (nonlinear_arith)
        requires
            s1 * q2 <= s2 * q1,
            s1 == q1 * a + r1,
            s2 == q2 * b + r2,
            0 <= r1 < q1,
            0 <= r2 < q2,
    ;
    if a == b {
        assert(r1 * q2 <= r2 * q1) by (nonlinear_arith)
            requires
                s1 * q2 <= s2 * q1,
                s1 == q1 * a + r1,
                s2 == q2 * a + r2,
        ;
        if 2 * r1 >= q1 {
            assert(2 * r2 >= q2) by (nonlinear_arith)
                requires
                    r1 * q2 <= r2 * q1,
                    2 * r1 >= q1,
                    q1 > 0,
                    q2 > 0,
            ;
        }
        if 2 * r1 > q1 {
            assert(2 * r2 > q2) by (nonlinear_arith)
                requires
                    r1 * q2 <= r2 * q1,
                    2 * r1 > q1,
                    q1 > 0,
                    q2 > 0,
            ;
        }
    }
}

/// A larger quotient has no lower number: rounding keeps the order.
pub proof fn quotients_keep_their_order(p1: nat, q1: nat, p2: nat, q2: nat)
    requires
        0 < q1,
        0 < q2 <= pow2(1000),
        p1 < q1 * 0x20_0000_0000_0000,
        p2 < q2 * 0x20_0000_0000_0000,
        p1 * q2 <= p2 * q1,
    ensures
        quotient_bits(p1, q1) <= quotient_bits(p2, q2),
{
    if p2 > 0 {
        let k2 = places(p2, q2);
        lemma_scaled_range(p2, q2);
        lemma_half_even_range(p2 * pow2(k2), q2);
        quotient_is_a_number(p2, q2, 1000);
        if p1 > 0 {
            let k1 = places(p1, q1);
            lemma_scaled_range(p1, q1);
            lemma_half_even_range(p1 * pow2(k1), q1);
            lemma_places_shrink(p1, q1, p2, q2);
            if k1 == k2 {
                let t = pow2(k1);
                assert((p1 * t) * q2 <= (p2 * t) * q1) by (nonlinear_arith)
                    requires
                        p1 * q2 <= p2 * q1,
                        t >= 0,
                ;
                lemma_half_even_monotone(p1 * t, q1, p2 * t, q2);
            }
        }
    } else {
        assert(p1 == 0) by (nonlinear_arith)
            requires
                p1 * q2 <= 0 * q1,
                q2 > 0,
                p1 >= 0,
        ;
    }
}

/// The nearest number to a quotient is a number, and not a negative one; a denominator
/// of few bits keeps it away from zero.
pub proof fn quotient_is_a_number(p: nat, q: nat, b: nat)
    requires
        0 < q <= pow2(b),
        b <= 1000,
        p < q * 0x20_0000_0000_0000,
    ensures
        0 <= quotient_bits(p, q) <= 0x4340_0000_0000_0000,
        p > 0 ==> quotient_bits(p, q) >= (1023 - b) * 0x10_0000_0000_0000,
{
    if p > 0 {
        let k = places(p, q);
        lemma_scaled_range(p, q);
        lemma_half_even_range(p * pow2(k), q);
        if k > 0 {
            lemma_last_place(p, q);
            lemma_few_places(p, q, (k - 1) as nat, b);
        }
    }
}

/// One place fewer than needed is too few.
proof fn lemma_last_place(p: nat, q: nat)
    requires
        places(p, q) > 0,
    ensures
        p > 0,
        p * pow2((places(p, q) - 1) as nat) < q * 0x10_0000_0000_0000,
    decreases places(p, q),
{
    let k = places(2 * p, q);
    if k == 0 {
        vstd::arithmetic::power2::lemma2_to64();
        assert(p * 1 == p) by (nonlinear_arith);
    } else {
        lemma_last_place(2 * p, q);
        lemma_pow2_unfold(k);
        let t = pow2((k - 1) as nat);
        assert((2 * p) * t == p * (2 * t)) by (nonlinear_arith);
    }
}

// ---------------------------------------------------------------------------
// Powers of two
// ---------------------------------------------------------------------------

/// Where both parts of a quotient are multiplied by the same, it needs as many places.
proof fn lemma_places_cancel(p: nat, q: nat, c: nat)
    requires
        q > 0,
        c > 0,
    ensures
        places(p * c, q * c) == places(p, q),
    decreases places(p, q),
{
    let limit: nat = 0x10_0000_0000_0000;
    assert(p * c == 0 <==> p == 0) by (nonlinear_arith)
        requires
            c > 0,
            p >= 0,
    ;
    assert(p * c >= (q * c) * limit <==> p >= q * limit) by (nonlinear_arith)
        requires
            c > 0,
    ;
    if p > 0 && p < q * limit {
        lemma_places_cancel(2 * p, q, c);
        assert((2 * p) * c == 2 * (p * c)) by (nonlinear_arith);
    }
}

/// Where both parts of a quotient are multiplied by the same, its number stays.
pub proof fn lemma_quotient_cancels(p: nat, q: nat, c: nat)
    requires
        q > 0,
        c > 0,
    ensures
        quotient_bits(p * c, q * c) == quotient_bits(p, q),
{
    lemma_places_cancel(p, q, c);
    let t = pow2(places(p, q));
    assert((p * c) * t == (p * t) * c) by (nonlinear_arith);
    assert(p * c == 0 <==> p == 0) by (nonlinear_arith)
        requires
            c > 0,
            p >= 0,
    ;
    lemma_half_even_cancels(p * t, q, c);
}

/// Halving a quotient takes one off the exponent of its number.
proof fn lemma_quotient_halves(p: nat, q: nat)
    requires
        0 < q,
        0 < p < q * 0x20_0000_0000_0000,
    ensures
        quotient_bits(p, q * 2) == quotient_bits(p, q) - 0x10_0000_0000_0000,
{
    lemma_places_cancel(p, q, 2);
    assert(p * 2 == 2 * p);
    let k = places(p, q);
    assert(places(p, q * 2) == 1 + k);
    lemma_pow2_unfold(k + 1);
    let t = pow2(k);
    assert(p * (2 * t) == (p * t) * 2) by (nonlinear_arith);
    lemma_half_even_cancels(p * t, q, 2);
}

/// Each halving takes one off the exponent.
proof fn lemma_quotient_shrinks(p: nat, q: nat, j: nat)
    requires
        0 < q,
        0 < p < q * 0x20_0000_0000_0000,
    ensures
        quotient_bits(p, q * pow2(j)) == quotient_bits(p, q) - j * 0x10_0000_0000_0000,
    decreases j,
{
    if j == 0 {
        vstd::arithmetic::power2::lemma2_to64();
        assert(q * 1 == q) by (nonlinear_arith);
    } else {
        let i = (j - 1) as nat;
        lemma_quotient_shrinks(p, q, i);
        lemma_pow2_unfold(j);
        lemma_pow2_pos(i);
        let t = pow2(i);
        assert(q * (2 * t) == (q * t) * 2) by (nonlinear_arith);
        assert(q * t > 0 && p < (q * t) * 0x20_0000_0000_0000) by (nonlinear_arith)
            requires
                q > 0,
                t >= 1,
                p < q * 0x20_0000_0000_0000,
        ;
        lemma_quotient_halves(p, q * t);
    }
}

/// Powers of two on the two sides of a quotient add to the exponent of its number and
/// take from it.
pub proof fn lemma_quotient_scales(p: nat, q: nat, up: nat, down: nat)
    requires
        0 < q,
        0 < p < q * 0x20_0000_0000_0000,
        p * pow2(up) < q * pow2(down) * 0x20_0000_0000_0000,
    ensures
        quotient_bits(p * pow2(up), q * pow2(down)) == quotient_bits(p, q) + (up - down)
            * 0x10_0000_0000_0000,
{
    lemma_pow2_pos(up);
    lemma_pow2_pos(down);
    if up <= down {
        let j = (down - up) as nat;
        vstd::arithmetic::power2::lemma_pow2_adds(j, up);
        let (t, u) = (pow2(j), pow2(up));
        lemma_pow2_pos(j);
        assert(q * (t * u) == (q * t) * u && q * t > 0) by (nonlinear_arith)
            requires
                q > 0,
                t > 0,
        ;
        lemma_quotient_cancels(p, q * t, u);
        lemma_quotient_shrinks(p, q, j);
    } else {
        let j = (up - down) as nat;
        vstd::arithmetic::power2::lemma_pow2_adds(j, down);
        let (t, u) = (pow2(j), pow2(down));
        lemma_pow2_pos(j);
        assert(p * (t * u) == (p * t) * u && p * t > 0) by (nonlinear_arith)
            requires
                p > 0,
                t > 0,
        ;
        assert(p * t < q * 0x20_0000_0000_0000) by (nonlinear_arith)
            requires
                (p * t) * u < q * u * 0x20_0000_0000_0000,
                u > 0,
        ;
        lemma_quotient_cancels(p * t, q, u);
        lemma_quotient_shrinks(p * t, q, j);
        lemma_quotient_cancels(p, q, t);
    }
}

// ---------------------------------------------------------------------------
// What rounding to the even one keeps
// ---------------------------------------------------------------------------

/// Rounding goes no further than half a unit, and from halfway only to an even number.
pub proof fn half_even_is_nearest(p: nat, q: nat)
    requires
        q > 0,
    ensures
        2 * (half_even(p, q) * q) <= 2 * p + q,
        2 * p <= 2 * (half_even(p, q) * q) + q,
        2 * (half_even(p, q) * q) == 2 * p + q || 2 * p == 2 * (half_even(p, q) * q) + q
            ==> half_even(p, q) % 2 == 0,
{
    let m = p / q;
    vstd::arithmetic::div_mod::lemma_fundamental_div_mod(p as int, q as int);
    assert(m * q == q * m && (m + 1) * q == q * m + q) by (nonlinear_arith);
}

/// The number of a quotient is the nearest there is: its 53 significant bits, in units
/// of the last of the places that it takes to have so many, lie within half such a unit.
pub proof fn quotients_are_nearest(p: nat, q: nat) -> (k: nat)
    requires
        0 < p,
        0 < q,
        p < q * 0x20_0000_0000_0000,
    ensures
        ({
            let m = quotient_bits(p, q) - (1074 - k) * 0x10_0000_0000_0000;
            &&& 0x10_0000_0000_0000 <= m <= 0x20_0000_0000_0000
            &&& 2 * (m * q) <= 2 * (p * pow2(k)) + q
            &&& 2 * (p * pow2(k)) <= 2 * (m * q) + q
        }),
{
    let k = places(p, q);
    lemma_scaled_range(p, q);
    lemma_half_even_range(p * pow2(k), q);
    half_even_is_nearest(p * pow2(k), q);
    k
}

/// A number over itself is one, and over the half of it two.
pub proof fn equal_parts_make_one(q: nat)
    requires
        q > 0,
    ensures
        quotient_bits(q, q) == 0x3ff0_0000_0000_0000,
        quotient_bits(2 * q, q) == 0x4000_0000_0000_0000,
        quotient_bits(0, q) == 0,
{
    assert(1 * q == q && (2 * q) == 2nat * q) by (nonlinear_arith);
    lemma_quotient_cancels(1, 1, q);
    lemma_quotient_cancels(2, 1, q);
    lemma_one();
}

proof fn lemma_one()
    ensures
        quotient_bits(1, 1) == 0x3ff0_0000_0000_0000,
        quotient_bits(2, 1) == 0x4000_0000_0000_0000,
{
    vstd::arithmetic::power2::lemma2_to64();
    vstd::arithmetic::power2::lemma2_to64_rest();
    reveal_with_fuel(places, 54);
    assert(places(2, 1) == 51);
    assert(places(1, 1) == 52);
}

} // verus!
