//! Exact integer models of the IEEE-754 double-precision operations that
//! the resampler performs: round-to-nearest-even to 53 significant bits of
//! values that are integers scaled by a power of two.

use vstd::arithmetic::power2::{
    lemma2_to64, lemma2_to64_rest, lemma_pow2_adds, lemma_pow2_pos, lemma_pow2_strictly_increases,
    lemma_pow2_unfold, pow2,
};
use vstd::arithmetic::div_mod::{
    lemma_div_denominator, lemma_div_is_ordered, lemma_div_multiples_vanish,
    lemma_fundamental_div_mod, lemma_mod_multiples_basic,
};
use vstd::arithmetic::mul::lemma_mul_inequality;
use vstd::prelude::*;

verus! {

/// 2^53: the first integer that needs more than 53 significant bits.
pub open spec fn two53() -> nat {
    0x20_0000_0000_0000
}

/// How many low bits of `x` fall outside a 53-bit significand.
pub open spec fn excess(x: nat) -> nat
    decreases x,
{
    if x < two53() {
        0
    } else {
        1 + excess(x / 2)
    }
}

/// `x` rounded to the nearest value with at most 53 significant bits, ties
/// to an even significand: the double nearest to `x` (and, for `x / 2^k`,
/// `round53(x) / 2^k` is the double nearest to `x / 2^k`).
pub open spec fn round53(x: nat) -> nat {
    let p = pow2(excess(x));
    let q = x / p;
    let r = x % p;
    (if 2 * r > p || (2 * r == p && q % 2 == 1) {
        q + 1
    } else {
        q
    }) * p
}

/// `round53` on signed values: rounding is symmetric about zero.
pub open spec fn round53_signed(x: int) -> int {
    if x >= 0 {
        round53(x as nat) as int
    } else {
        -(round53((-x) as nat) as int)
    }
}

/// The smallest `k >= from` at which `s * 2^k` reaches `d * 2^52`.
pub open spec fn quotient_exp_from(s: nat, d: nat, from: nat) -> nat
    decreases 100 - from,
{
    if from >= 100 || s * pow2(from) >= d * pow2(52) {
        from
    } else {
        quotient_exp_from(s, d, from + 1)
    }
}

/// The scale `k` at which the double nearest to `s / d` is `m / 2^k` with a
/// 53-bit significand `m`.
pub open spec fn quotient_exp(s: nat, d: nat) -> nat {
    quotient_exp_from(s, d, 0)
}

/// The significand of the double nearest to `s / d` (a value of `2^53`
/// stands for a rounding up to the next power of two).
pub open spec fn quotient_mant(s: nat, d: nat) -> nat {
    let n = s * pow2(quotient_exp(s, d));
    let q = n / d;
    let r = n % d;
    if 2 * r > d || (2 * r == d && q % 2 == 1) {
        q + 1
    } else {
        q
    }
}

proof fn lemma_pow2_strictly_increases_le(a: nat, b: nat)
    requires
        a <= b,
    ensures
        pow2(a) <= pow2(b),
{
    if a < b {
        lemma_pow2_strictly_increases(a, b);
    }
}

proof fn lemma_half_quotient(x: nat, p: nat)
    requires
        p > 0,
    ensures
        (x / p) / 2 == x / (p * 2),
{
    vstd::arithmetic::div_mod::lemma_div_denominator(x as int, p as int, 2);
}

/// `round53` computed with machine integers.
pub fn round53_u128(x: u128) -> (r: u128)
    requires
        x < 0x100_0000_0000_0000_0000_0000_0000_0000,
    ensures
        r == round53(x as nat),
        r <= 2 * x,
{
    let mut y: u128 = x;
    let mut p: u128 = 1;
    let ghost mut s: nat = 0;
    proof {
        lemma2_to64();
    }
    while y >= 0x20_0000_0000_0000
        invariant
            x < 0x100_0000_0000_0000_0000_0000_0000_0000,
            p >= 1,
            p == pow2(s),
            y == (x as nat) / (p as nat),
            y * p <= x,
            excess(x as nat) == s + excess(y as nat),
        decreases y,
    {
        proof {
            lemma_half_quotient(x as nat, p as nat);
            lemma_pow2_unfold(s + 1);
            assert(p * 2 <= y * p) by (nonlinear_arith)
                requires
                    y >= 2,
                    p >= 1,
            ;
            assert((y / 2) * (p * 2) <= y * p) by (nonlinear_arith)
                requires
                    y >= 0,
            ;
        }
        y = y / 2;
        p = p * 2;
        proof {
            s = s + 1;
        }
    }
    assert(excess(y as nat) == 0);
    assert(s == excess(x as nat));
    let r = x % p;
    proof {
        vstd::arithmetic::div_mod::lemma_fundamental_div_mod(x as int, p as int);
        assert(r < p);
    }
    if 2 * r > p || (2 * r == p && y % 2 == 1) {
        proof {
            assert((y + 1) * p <= 2 * x) by (nonlinear_arith)
                requires
                    y * p <= x,
                    x == p * y + r,
                    2 * r >= p,
                    p >= 1,
            ;
        }
        (y + 1) * p
    } else {
        proof {
            assert(y * p <= 2 * x) by (nonlinear_arith)
                requires
                    y * p <= x,
            ;
        }
        y * p
    }
}

/// The significand `m <= 2^53` and the scale `2^k < 2^85` of the double
/// nearest to `s / d` (the value of `s as f64 / d as f64`).
pub fn quotient_parts(s: u32, d: u32) -> (res: (u128, u128))
    requires
        s > 0,
        d > 0,
    ensures
        res.0 == quotient_mant(s as nat, d as nat),
        res.1 == pow2(quotient_exp(s as nat, d as nat)),
        res.0 <= two53(),
        1 <= res.1 < 0x20_0000_0000_0000_0000_0000,
{
    proof {
        lemma2_to64();
        lemma2_to64_rest();
        assert(pow2(52) == 0x10_0000_0000_0000);
    }
    assert((d as int) * 0x10_0000_0000_0000 <= 0xffff_ffff * 0x10_0000_0000_0000) by (nonlinear_arith)
        requires
            d <= 0xffff_ffff,
    ;
    let target: u128 = (d as u128) * 0x10_0000_0000_0000;
    assert(target <= 0xffff_ffff_0_0000_0000_0000);
    assert(target < 0x10_0000_0000_0000_0000_0000);
    let mut n: u128 = s as u128;
    let mut pk: u128 = 1;
    let ghost mut k: nat = 0;
    while n < target
        invariant
            target == d * pow2(52),
            pow2(52) == 0x10_0000_0000_0000,
            n == s * pk,
            pk == pow2(k),
            pk >= 1,
            pk <= n,
            n < 2 * target,
            target < 0x10_0000_0000_0000_0000_0000,
            quotient_exp(s as nat, d as nat) == quotient_exp_from(s as nat, d as nat, k),
            s >= 1,
        decreases 2 * target - n,
    {
        proof {
            if k >= 84 {
                lemma_pow2_strictly_increases_le(84, k);
                lemma_pow2_adds(64, 20);
                lemma2_to64();
                assert(pow2(84) == 0x10_0000_0000_0000_0000_0000);
                assert(pk >= 0x10_0000_0000_0000_0000_0000);
            }
            assert(k < 100);
            lemma_pow2_unfold(k + 1);
            assert(s * (pk * 2) == n * 2) by (nonlinear_arith)
                requires
                    n == s * pk,
            ;
        }
        n = n * 2;
        pk = pk * 2;
        proof {
            k = k + 1;
        }
    }
    assert(quotient_exp_from(s as nat, d as nat, k) == k);
    let q = n / (d as u128);
    let r = n % (d as u128);
    assert(q < two53()) by (nonlinear_arith)
        requires
            q == (n as int) / (d as int),
            n < 2 * target,
            target == d * 0x10_0000_0000_0000,
            d > 0,
    ;
    let m = if 2 * r > (d as u128) || (2 * r == (d as u128) && q % 2 == 1) {
        q + 1
    } else {
        q
    };
    (m, pk)
}

/// `round53_signed` computed with machine integers.
pub fn round53_i128(x: i128) -> (r: i128)
    requires
        -0x100_0000_0000_0000_0000_0000_0000_0000 < x < 0x100_0000_0000_0000_0000_0000_0000_0000,
    ensures
        r == round53_signed(x as int),
        x >= 0 ==> 0 <= r <= 2 * x,
        x < 0 ==> 2 * x <= r <= 0,
{
    if x >= 0 {
        round53_u128(x as u128) as i128
    } else {
        let m = round53_u128((-x) as u128);
        -(m as i128)
    }
}

/// `excess(x)` is the least scale at which `x` fits 53 bits.
proof fn lemma_excess_bounds(x: nat)
    ensures
        x / pow2(excess(x)) < two53(),
        excess(x) > 0 ==> x / pow2((excess(x) - 1) as nat) >= two53(),
    decreases x,
{
    lemma2_to64();
    if x >= two53() {
        let h = x / 2;
        lemma_excess_bounds(h);
        let e1 = excess(h);
        lemma_pow2_pos(e1);
        lemma_pow2_unfold(e1 + 1);
        lemma_div_denominator(x as int, 2, pow2(e1) as int);
        assert(pow2(e1 + 1) == 2 * pow2(e1));
        assert(x / pow2(excess(x)) == h / pow2(e1));
        if e1 > 0 {
            lemma_pow2_unfold(e1);
            lemma_pow2_pos((e1 - 1) as nat);
            lemma_div_denominator(x as int, 2, pow2((e1 - 1) as nat) as int);
            assert(x / pow2(e1) == h / pow2((e1 - 1) as nat));
        } else {
            assert(pow2(0) == 1);
            assert(x / 1 == x);
        }
        assert((excess(x) - 1) as nat == e1);
    }
}

/// A value that fits 53 bits at scale `u` has an excess of at most `u`.
proof fn lemma_excess_le(x: nat, u: nat)
    requires
        x / pow2(u) < two53(),
    ensures
        excess(x) <= u,
    decreases x,
{
    lemma2_to64();
    if x >= two53() {
        if u == 0 {
            assert(pow2(0) == 1);
            assert(x / 1 == x);
        }
        assert(u > 0);
        lemma_pow2_pos((u - 1) as nat);
        lemma_pow2_unfold(u);
        lemma_div_denominator(x as int, 2, pow2((u - 1) as nat) as int);
        lemma_excess_le(x / 2, (u - 1) as nat);
    }
}

proof fn lemma_excess_mono(x: nat, y: nat)
    requires
        x <= y,
    ensures
        excess(x) <= excess(y),
    decreases y,
{
    if x >= two53() {
        lemma_excess_mono(x / 2, y / 2);
    }
}

/// Rounding to 53 bits is monotone.
pub proof fn lemma_round53_mono(x: nat, y: nat)
    requires
        x <= y,
    ensures
        round53(x) <= round53(y),
{
    lemma_excess_mono(x, y);
    lemma_excess_bounds(x);
    lemma_excess_bounds(y);
    let ex = excess(x);
    let ey = excess(y);
    let px = pow2(ex);
    let py = pow2(ey);
    let qx = x / px;
    let qy = y / py;
    lemma_pow2_pos(ex);
    lemma_pow2_pos(ey);
    lemma_fundamental_div_mod(x as int, px as int);
    lemma_fundamental_div_mod(y as int, py as int);
    let rx = if 2 * (x % px) > px || (2 * (x % px) == px && qx % 2 == 1) { qx + 1 } else { qx };
    let ry = if 2 * (y % py) > py || (2 * (y % py) == py && qy % 2 == 1) { qy + 1 } else { qy };
    assert(round53(x) == rx * px);
    assert(round53(y) == ry * py);
    if ex == ey {
        lemma_div_is_ordered(x as int, y as int, px as int);
        if qx < qy {
            assert(rx <= ry);
        } else {
            assert(x % px <= y % py);
            assert(rx <= ry);
        }
        lemma_mul_inequality(rx as int, ry as int, px as int);
    } else {
        let e1 = (ey - 1) as nat;
        lemma_pow2_unfold(ey);
        lemma_pow2_strictly_increases_le(ex, e1);
        lemma_div_denominator(y as int, pow2(e1) as int, 2);
        assert(qy >= two53() / 2);
        assert(rx <= two53());
        assert(rx * px <= two53() * pow2(e1)) by (nonlinear_arith)
            requires
                rx <= two53(),
                px <= pow2(e1),
        ;
        assert(two53() * pow2(e1) <= qy * py) by (nonlinear_arith)
            requires
                qy >= two53() / 2,
                py == 2 * pow2(e1),
                two53() == 0x20_0000_0000_0000,
        ;
        assert(qy * py <= ry * py) by (nonlinear_arith)
            requires
                qy <= ry,
        ;
    }
}

/// Values of at most 53 significant bits are left as they are.
pub proof fn lemma_round53_exact(v: nat, e: nat)
    requires
        v < two53(),
    ensures
        round53(v * pow2(e)) == v * pow2(e),
{
    let x = v * pow2(e);
    lemma_pow2_pos(e);
    lemma_div_multiples_vanish(v as int, pow2(e) as int);
    lemma_excess_le(x, e);
    let ex = excess(x);
    let p = pow2(ex);
    let rest = pow2((e - ex) as nat);
    lemma_pow2_adds(ex, (e - ex) as nat);
    assert(x == (v * rest) * p) by (nonlinear_arith)
        requires
            x == v * pow2(e),
            pow2(e) == p * rest,
    ;
    lemma_pow2_pos(ex);
    lemma_mod_multiples_basic((v * rest) as int, p as int);
    lemma_div_multiples_vanish((v * rest) as int, p as int);
    assert(p * (v * rest) == x) by (nonlinear_arith)
        requires
            x == (v * rest) * p,
    ;
    assert(x % p == 0);
    assert(x / p == v * rest);
    assert(round53(x) == (x / p) * p);
}

/// Signed rounding to 53 bits is monotone.
pub proof fn lemma_round53_signed_mono(x: int, y: int)
    requires
        x <= y,
    ensures
        round53_signed(x) <= round53_signed(y),
{
    if x >= 0 {
        lemma_round53_mono(x as nat, y as nat);
    } else if y < 0 {
        lemma_round53_mono((-y) as nat, (-x) as nat);
    }
}

/// Signed values of at most 53 significant bits are left as they are.
pub proof fn lemma_round53_signed_exact(v: int, e: nat)
    requires
        -two53() < v < two53(),
    ensures
        round53_signed(v * pow2(e)) == v * pow2(e),
{
    lemma_pow2_pos(e);
    if v >= 0 {
        assert(v * pow2(e) >= 0) by (nonlinear_arith)
            requires
                v >= 0,
        ;
        lemma_round53_exact(v as nat, e);
    } else {
        assert(v * pow2(e) < 0 && -(v * pow2(e)) == (-v) * pow2(e)) by (nonlinear_arith)
            requires
                v < 0,
                pow2(e) > 0,
        ;
        lemma_round53_exact((-v) as nat, e);
    }
}

/// Rounding to 53 bits moves a value by at most `2^-53` of it.
pub proof fn lemma_round53_error(x: nat)
    ensures
        two53() * (round53(x) - x) <= x,
        two53() * (x - round53(x)) <= x,
{
    let e = excess(x);
    let p = pow2(e);
    lemma_pow2_pos(e);
    lemma_excess_bounds(x);
    lemma_fundamental_div_mod(x as int, p as int);
    let q = x / p;
    let r = x % p;
    let up = 2 * r > p || (2 * r == p && q % 2 == 1);
    let rq = if up { q + 1 } else { q };
    assert(round53(x) == rq * p);
    if e == 0 {
        lemma2_to64();
        assert(p == 1);
        assert(0 <= r < p);
        assert(r == 0);
        assert(x == q + r) by (nonlinear_arith)
            requires
                x == p * q + r,
                p == 1,
        ;
        assert(q == x);
        if up {
            assert(false);
        }
        assert(round53(x) == x);
    } else {
        let h = pow2((e - 1) as nat);
        lemma_pow2_unfold(e);
        lemma_pow2_pos((e - 1) as nat);
        lemma_fundamental_div_mod(x as int, h as int);
        assert(x >= two53() * h) by (nonlinear_arith)
            requires
                x == h * (x / h) + x % h,
                x / h >= two53(),
                x % h >= 0,
                h > 0,
        ;
        assert(rq * p == q * p + (if up { p } else { 0 })) by (nonlinear_arith)
            requires
                rq == (if up { q + 1 } else { q }),
        ;
        assert(x == q * p + r) by (nonlinear_arith)
            requires
                x == p * q + r,
        ;
    }
}

/// Signed rounding to 53 bits moves a value by at most `2^-53` of its
/// magnitude.
pub proof fn lemma_round53_signed_error(x: int)
    ensures
        two53() * (round53_signed(x) - x) <= (if x >= 0 { x } else { -x }),
        two53() * (x - round53_signed(x)) <= (if x >= 0 { x } else { -x }),
{
    if x >= 0 {
        lemma_round53_error(x as nat);
    } else {
        lemma_round53_error((-x) as nat);
    }
}

proof fn lemma_quotient_exp_reaches(s: nat, d: nat, from: nat)
    requires
        s >= 1,
        d < 0x1_0000_0000,
        from <= 84,
    ensures
        s * pow2(quotient_exp_from(s, d, from)) >= d * pow2(52),
    decreases 84 - from,
{
    if s * pow2(from) < d * pow2(52) {
        if from == 84 {
            lemma_pow2_adds(32, 52);
            lemma2_to64();
            lemma_pow2_pos(52);
            assert(d * pow2(52) < pow2(32) * pow2(52)) by (nonlinear_arith)
                requires
                    d < pow2(32),
                    pow2(52) > 0,
            ;
            assert(s * pow2(84) >= pow2(84)) by (nonlinear_arith)
                requires
                    s >= 1,
            ;
            assert(false);
        }
        lemma_quotient_exp_reaches(s, d, from + 1);
    }
}

/// The double nearest to `s / d` is within `2^-53` of it:
/// `quotient_mant(s, d) / 2^k` differs from `s / d` by at most `2^-53 * s / d`.
pub proof fn lemma_quotient_error(s: nat, d: nat)
    requires
        0 < s,
        0 < d < 0x1_0000_0000,
    ensures
        two53() * (quotient_mant(s, d) * d - s * pow2(quotient_exp(s, d))) <= s * pow2(
            quotient_exp(s, d),
        ),
        two53() * (s * pow2(quotient_exp(s, d)) - quotient_mant(s, d) * d) <= s * pow2(
            quotient_exp(s, d),
        ),
{
    let k = quotient_exp(s, d);
    lemma_quotient_exp_reaches(s, d, 0);
    let n = s * pow2(k);
    let q = n / d;
    let r = n % d;
    let m = quotient_mant(s, d);
    lemma_fundamental_div_mod(n as int, d as int);
    lemma2_to64_rest();
    assert(n >= d * 0x10_0000_0000_0000);
    let up = 2 * r > d || (2 * r == d && q % 2 == 1);
    assert(m == if up { q + 1 } else { q });
    assert(m * d == q * d + (if up { d } else { 0 })) by (nonlinear_arith)
        requires
            m == (if up { q + 1 } else { q }),
    ;
    assert(n == q * d + r) by (nonlinear_arith)
        requires
            n == d * q + r,
    ;
    assert(2 * (m * d - n) <= d && 2 * (n - m * d) <= d);
}

} // verus!
