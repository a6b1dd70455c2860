//! Greatest common divisor and integer square root.
use crate::arith::{divides, lemma_divides_trans};
use vstd::arithmetic::div_mod::{lemma_fundamental_div_mod, lemma_mod_multiples_basic};
use vstd::arithmetic::power2::pow2;
use vstd::prelude::*;

verus! {

/// Greatest common divisor, by Euclid's recurrence; `gcd(0, 0) == 0`.
pub open spec fn gcd(a: nat, b: nat) -> nat
    decreases b,
{
    if b == 0 {
        a
    } else {
        gcd(b, a % b)
    }
}

/// `r` is the integer square root of `n`: the largest `r` with `r * r <= n`.
pub open spec fn is_isqrt(r: int, n: int) -> bool {
    r >= 0 && r * r <= n && n < (r + 1) * (r + 1)
}

/// A multiple of a multiple is a multiple: `g | x` and `g | y` give `g | x * q + y`.
pub proof fn lemma_divides_linear(g: int, x: int, y: int, q: int)
    requires
        g > 0,
        divides(g, x),
        divides(g, y),
    ensures
        divides(g, x * q + y),
{
    lemma_fundamental_div_mod(x, g);
    lemma_fundamental_div_mod(y, g);
    let k = x / g;
    let l = y / g;
    assert(x * q + y == g * (k * q + l)) by (nonlinear_arith)
        requires
            x == g * k + 0,
            y == g * l + 0,
    ;
    lemma_mod_multiples_basic(k * q + l, g);
    assert((k * q + l) * g == g * (k * q + l)) by (nonlinear_arith);
}

/// `d | n` with `n > 0` and `d > 0` gives `d <= n`.
pub proof fn lemma_divisor_le(d: int, n: int)
    requires
        d > 0,
        n > 0,
        divides(d, n),
    ensures
        d <= n,
{
    lemma_fundamental_div_mod(n, d);
    let k = n / d;
    assert(d <= n) by (nonlinear_arith)
        requires
            n == d * k + 0,
            n > 0,
            d > 0,
    ;
}

/// The greatest common divisor divides both arguments.
pub proof fn lemma_gcd_divides(a: nat, b: nat)
    requires
        a > 0 || b > 0,
    ensures
        gcd(a, b) > 0,
        divides(gcd(a, b) as int, a as int),
        divides(gcd(a, b) as int, b as int),
    decreases b,
{
    if b == 0 {
        assert(a % a == 0) by {
            lemma_mod_multiples_basic(1, a as int);
        }
    } else {
        lemma_gcd_divides(b, a % b);
        let g = gcd(a, b) as int;
        lemma_fundamental_div_mod(a as int, b as int);
        lemma_divides_linear(g, b as int, (a % b) as int, (a / b) as int);
        assert(b as int * (a / b) as int + (a % b) as int == a as int);
    }
}

/// Every common divisor of `a` and `b` divides their greatest common divisor.
pub proof fn lemma_gcd_greatest(a: nat, b: nat, d: int)
    requires
        d > 0,
        divides(d, a as int),
        divides(d, b as int),
    ensures
        divides(d, gcd(a, b) as int),
    decreases b,
{
    if b > 0 {
        lemma_fundamental_div_mod(a as int, b as int);
        lemma_divides_linear(d, b as int, a as int, -((a / b) as int));
        assert(b as int * -((a / b) as int) + a as int == (a % b) as int) by (nonlinear_arith)
            requires
                a as int == b as int * (a / b) as int + (a % b) as int,
        ;
        lemma_gcd_greatest(b, a % b, d);
    }
}

/// The greatest common divisor `g` of `u` and `v` (not both zero) divides both, and
/// `u / g` and `v / g` have no common divisor but 1.
pub proof fn lemma_gcd_quotients_coprime(u: nat, v: nat)
    requires
        u > 0 || v > 0,
    ensures
        divides(gcd(u, v) as int, u as int),
        divides(gcd(u, v) as int, v as int),
        gcd(u / gcd(u, v), v / gcd(u, v)) == 1,
{
    lemma_gcd_divides(u, v);
    let g = gcd(u, v);
    let u1 = u / g;
    let v1 = v / g;
    lemma_fundamental_div_mod(u as int, g as int);
    lemma_fundamental_div_mod(v as int, g as int);
    assert(u1 > 0 || v1 > 0) by (nonlinear_arith)
        requires
            u == g * u1 + 0,
            v == g * v1 + 0,
            u > 0 || v > 0,
    ;
    lemma_gcd_divides(u1, v1);
    let h = gcd(u1, v1) as int;
    assert(h * g > 0) by (nonlinear_arith)
        requires
            h > 0,
            g > 0,
    ;
    // h * g divides u and v, hence divides g, hence h == 1.
    assert(divides(h * g, u as int)) by {
        lemma_fundamental_div_mod(u1 as int, h);
        let k = u1 as int / h;
        assert(u as int == (h * g) * k) by (nonlinear_arith)
            requires
                u == g * u1 + 0,
                u1 == h * k + 0,
        ;
        lemma_mod_multiples_basic(k, h * g);
        assert(k * (h * g) == (h * g) * k) by (nonlinear_arith);
        assert(h * g != 0) by (nonlinear_arith)
            requires
                h > 0,
                g > 0,
        ;
    }
    assert(divides(h * g, v as int)) by {
        lemma_fundamental_div_mod(v1 as int, h);
        let k = v1 as int / h;
        assert(v as int == (h * g) * k) by (nonlinear_arith)
            requires
                v == g * v1 + 0,
                v1 == h * k + 0,
        ;
        lemma_mod_multiples_basic(k, h * g);
        assert(k * (h * g) == (h * g) * k) by (nonlinear_arith);
        assert(h * g != 0) by (nonlinear_arith)
            requires
                h > 0,
                g > 0,
        ;
    }
    assert(h * g > 0) by (nonlinear_arith)
        requires
            h > 0,
            g > 0,
    ;
    lemma_gcd_greatest(u, v, h * g);
    lemma_divisor_le(h * g, g as int);
    assert(h <= 1) by (nonlinear_arith)
        requires
            h * g <= g,
            g > 0,
    ;
}

/// `gcd` is symmetric.
pub proof fn lemma_gcd_symmetric(a: nat, b: nat)
    ensures
        gcd(a, b) == gcd(b, a),
{
    if a > 0 || b > 0 {
        lemma_gcd_divides(a, b);
        lemma_gcd_divides(b, a);
        lemma_gcd_greatest(b, a, gcd(a, b) as int);
        lemma_gcd_greatest(a, b, gcd(b, a) as int);
        lemma_divisor_le(gcd(a, b) as int, gcd(b, a) as int);
        lemma_divisor_le(gcd(b, a) as int, gcd(a, b) as int);
    } else {
        assert(gcd(0, 0) == 0);
    }
}

/// `gcd(2a, 2b) == 2 gcd(a, b)`.
pub proof fn lemma_gcd_double(a: nat, b: nat)
    ensures
        gcd(2 * a, 2 * b) == 2 * gcd(a, b),
    decreases b,
{
    if b > 0 {
        lemma_fundamental_div_mod(a as int, b as int);
        let q = a / b;
        let r = a % b;
        assert(2 * a == (2 * b) * q + 2 * r) by (nonlinear_arith)
            requires
                a == b * q + r,
        ;
        vstd::arithmetic::div_mod::lemma_fundamental_div_mod_converse(
            (2 * a) as int,
            (2 * b) as int,
            q as int,
            (2 * r) as int,
        );
        assert((2 * a) % (2 * b) == 2 * r);
        lemma_gcd_double(b, r);
    }
}

/// `gcd(a - b, b) == gcd(a, b)` for `a >= b > 0`.
pub proof fn lemma_gcd_subtract(a: nat, b: nat)
    requires
        a >= b,
        b > 0,
    ensures
        gcd((a - b) as nat, b) == gcd(a, b),
{
    vstd::arithmetic::div_mod::lemma_mod_sub_multiples_vanish(a as int, b as int);
    assert(((a - b) as nat) % b == a % b);
}

/// An odd divisor of `2 m` divides `m`.
proof fn lemma_odd_divides_half(d: int, m: int)
    requires
        d > 0,
        d % 2 == 1,
        divides(d, 2 * m),
    ensures
        divides(d, m),
{
    lemma_fundamental_div_mod(2 * m, d);
    let t = (2 * m) / d;
    assert(2 * m == d * t);
    if t % 2 == 1 {
        let a = d / 2;
        let b = t / 2;
        assert(d * t == 2 * (2 * a * b + a + b) + 1) by (nonlinear_arith)
            requires
                d == 2 * a + 1,
                t == 2 * b + 1,
        ;
        assert(false);
    }
    assert(m == d * (t / 2)) by (nonlinear_arith)
        requires
            2 * m == d * t,
            t % 2 == 0,
    ;
    lemma_mod_multiples_basic(t / 2, d);
    assert((t / 2) * d == d * (t / 2)) by (nonlinear_arith);
}

/// Removing a factor 2 from `k` keeps its gcd with an odd `n`.
pub proof fn lemma_gcd_halve(n: nat, k: nat)
    requires
        n % 2 == 1,
        k > 0,
        k % 2 == 0,
    ensures
        gcd(n, k) == gcd(n, k / 2),
{
    lemma_gcd_divides(n, k);
    lemma_gcd_divides(n, k / 2);
    let g = gcd(n, k) as int;
    let h = gcd(n, k / 2) as int;
    // g is odd, as it divides the odd n
    if g % 2 == 0 {
        lemma_divides_trans(2, g, n as int);
    }
    assert(k as int == 2 * (k / 2) as int);
    lemma_odd_divides_half(g, (k / 2) as int);
    lemma_gcd_greatest(n, k / 2, g);
    lemma_divides_linear(h, (k / 2) as int, 0, 2);
    assert((k / 2) as int * 2 + 0 == k as int);
    lemma_gcd_greatest(n, k, h);
    lemma_divisor_le(g, h);
    lemma_divisor_le(h, g);
}


/// A Newton step from any positive `x` never drops below a lower bound `s` of the
/// square root.
proof fn lemma_newton_lower(n: int, x: int, s: int)
    requires
        x >= 1,
        s >= 0,
        s * s <= n,
    ensures
        (x + n / x) / 2 >= s,
{
    lemma_fundamental_div_mod(n, x);
    let q = n / x;
    let r = n % x;
    assert(0 <= r < x);
    if (x + q) / 2 < s {
        assert(x + q <= 2 * s - 1);
        assert(n < x * (q + 1)) by (nonlinear_arith)
            requires
                n == x * q + r,
                r < x,
        ;
        assert(x * (q + 1) <= x * (2 * s - x)) by (nonlinear_arith)
            requires
                q + 1 <= 2 * s - x,
                x >= 1,
        ;
        assert(x * (2 * s - x) <= s * s) by (nonlinear_arith);
        assert(false);
    }
}

/// Above the square root, a Newton step strictly decreases.
proof fn lemma_newton_decreases(n: int, x: int)
    requires
        x >= 1,
        n >= 0,
        x * x > n,
    ensures
        (x + n / x) / 2 < x,
{
    lemma_fundamental_div_mod(n, x);
    let q = n / x;
    assert(q < x) by (nonlinear_arith)
        requires
            n == x * q + n % x,
            0 <= n % x,
            x * x > n,
            x >= 1,
    ;
}

/// Bound that keeps `x + n / x` in range while iterating.
proof fn lemma_newton_sum_bound(n: int, x: int)
    requires
        1 <= x <= n / 2,
        (x + 1) * (x + 1) > n,
    ensures
        x + n / x <= if n < 4 {
            4
        } else {
            n
        },
{
    if x == 1 {
        assert(n < 4) by (nonlinear_arith)
            requires
                x == 1,
                (x + 1) * (x + 1) > n,
        ;
    } else {
        vstd::arithmetic::div_mod::lemma_div_is_ordered_by_denominator(n, 2, x);
    }
}

/// Lower bound of the Newton iterate, as the loop states it.
proof fn lemma_newton_next(n: int, x: int)
    requires
        x >= 1,
        n >= 1,
    ensures
        ((x + n / x) / 2 + 1) * ((x + n / x) / 2 + 1) > n,
        (x + n / x) / 2 >= 1,
{
    let y = (x + n / x) / 2;
    lemma_newton_lower(n, x, 1);
    if (y + 1) * (y + 1) <= n {
        lemma_newton_lower(n, x, y + 1);
    }
}

proof fn lemma_half_start(n: int)
    requires
        n >= 2,
    ensures
        (n / 2 + 1) * (n / 2 + 1) > n,
        n / 2 >= 1,
{
    let h = n / 2;
    assert(n <= 2 * h + 1);
    assert((h + 1) * (h + 1) == h * h + 2 * h + 1) by (nonlinear_arith);
    assert(h * h >= 1) by (nonlinear_arith)
        requires
            h >= 1,
    ;
}

proof fn lemma_pow2_le(e1: nat, e2: nat)
    requires
        e1 <= e2,
    ensures
        pow2(e1) <= pow2(e2),
{
    if e1 < e2 {
        vstd::arithmetic::power2::lemma_pow2_strictly_increases(e1, e2);
    }
}

proof fn lemma_pow2_value_32()
    ensures
        pow2(32) == 0x1_0000_0000,
{
    vstd::arithmetic::power2::lemma2_to64();
}

proof fn lemma_pow2_value_64()
    ensures
        pow2(64) == 0x1_0000_0000_0000_0000,
{
    vstd::arithmetic::power2::lemma2_to64_rest();
}

proof fn lemma_pow2_value_128()
    ensures
        pow2(128) == u128::MAX + 1,
{
    vstd::arithmetic::power2::lemma2_to64_rest();
    vstd::arithmetic::power2::lemma_pow2_adds(64, 64);
}

/// Integer utilities that each supported width provides.
pub trait NumUtil: Sized {
    /// Greatest common divisor of `u` and `v`.
    fn gcd(u: Self, v: Self) -> Self;

    /// Largest integer whose square does not exceed `self`.
    fn integer_square_root(self) -> Self;
}

impl NumUtil for u32 {
    /// Binary GCD: common factors 2 are set aside, then the larger of two odd numbers is
    /// replaced by half their difference until they are equal.
    fn gcd(u: u32, v: u32) -> (r: u32)
        ensures
            r as nat == gcd(u as nat, v as nat),
    {
        if u == 0 {
            proof {
                lemma_gcd_symmetric(0, v as nat);
            }
            return v;
        }
        if v == 0 {
            return u;
        }
        let mut a = u;
        let mut b = v;
        let mut shift: u32 = 0;
        proof {
            vstd::arithmetic::power2::lemma2_to64();
        }
        while a % 2 == 0 && b % 2 == 0
            invariant
                a > 0,
                b > 0,
                shift <= 32,
                gcd(u as nat, v as nat) == pow2(shift as nat) * gcd(a as nat, b as nat),
                a as int * pow2(shift as nat) <= u,
            decreases a,
        {
            proof {
                lemma_gcd_double((a / 2) as nat, (b / 2) as nat);
                vstd::arithmetic::power2::lemma_pow2_adds(shift as nat, 1);
                vstd::arithmetic::power2::lemma2_to64();
                let p = pow2(shift as nat) as int;
                assert(pow2(shift as nat) * gcd(a as nat, b as nat) == pow2((shift + 1) as nat) * gcd(
                    (a / 2) as nat,
                    (b / 2) as nat,
                )) by (nonlinear_arith)
                    requires
                        gcd(a as nat, b as nat) == 2 * gcd((a / 2) as nat, (b / 2) as nat),
                        pow2((shift + 1) as nat) == pow2(shift as nat) * 2,
                ;
                assert((a / 2) as int * pow2((shift + 1) as nat) == a as int * pow2(shift as nat)) by (nonlinear_arith)
                    requires
                        a % 2 == 0,
                        pow2((shift + 1) as nat) == pow2(shift as nat) * 2,
                ;
                if shift >= 32 {
                    lemma_pow2_le(32, shift as nat);
                    lemma_pow2_value_32();
                    assert(a as int * pow2(shift as nat) >= 2 * pow2(shift as nat)) by (nonlinear_arith)
                        requires
                            a >= 2,
                    ;
                }
            }
            a = a / 2;
            b = b / 2;
            shift = shift + 1;
        }
        if a % 2 == 0 {
            while a % 2 == 0
                invariant
                    a > 0,
                    b > 0,
                    b % 2 == 1,
                    gcd(u as nat, v as nat) == pow2(shift as nat) * gcd(a as nat, b as nat),
                decreases a,
            {
                proof {
                    lemma_gcd_symmetric(a as nat, b as nat);
                    lemma_gcd_halve(b as nat, a as nat);
                    lemma_gcd_symmetric((a / 2) as nat, b as nat);
                }
                a = a / 2;
            }
        }
        while b % 2 == 0
            invariant
                a > 0,
                b > 0,
                a % 2 == 1,
                gcd(u as nat, v as nat) == pow2(shift as nat) * gcd(a as nat, b as nat),
            decreases b,
        {
            proof {
                lemma_gcd_halve(a as nat, b as nat);
            }
            b = b / 2;
        }
        while a != b
            invariant
                a > 0,
                b > 0,
                a % 2 == 1,
                b % 2 == 1,
                gcd(u as nat, v as nat) == pow2(shift as nat) * gcd(a as nat, b as nat),
            decreases a + b,
        {
            if a > b {
                proof {
                    lemma_gcd_subtract(a as nat, b as nat);
                    lemma_gcd_symmetric((a - b) as nat, b as nat);
                    lemma_gcd_halve(b as nat, (a - b) as nat);
                    lemma_gcd_symmetric(((a - b) / 2) as nat, b as nat);
                }
                a = (a - b) / 2;
                let ghost top = a;
                while a % 2 == 0
                    invariant
                        a <= top,
                        a > 0,
                        b > 0,
                        b % 2 == 1,
                        gcd(u as nat, v as nat) == pow2(shift as nat) * gcd(a as nat, b as nat),
                    decreases a,
                {
                    proof {
                        lemma_gcd_symmetric(a as nat, b as nat);
                        lemma_gcd_halve(b as nat, a as nat);
                        lemma_gcd_symmetric((a / 2) as nat, b as nat);
                    }
                    a = a / 2;
                }
            } else {
                proof {
                    lemma_gcd_symmetric(a as nat, b as nat);
                    lemma_gcd_subtract(b as nat, a as nat);
                    lemma_gcd_symmetric((b - a) as nat, a as nat);
                    lemma_gcd_halve(a as nat, (b - a) as nat);
                }
                b = (b - a) / 2;
                let ghost top = b;
                while b % 2 == 0
                    invariant
                        b <= top,
                        a > 0,
                        b > 0,
                        a % 2 == 1,
                        gcd(u as nat, v as nat) == pow2(shift as nat) * gcd(a as nat, b as nat),
                    decreases b,
                {
                    proof {
                        lemma_gcd_halve(a as nat, b as nat);
                    }
                    b = b / 2;
                }
            }
        }
        proof {
            assert(gcd(a as nat, a as nat) == a) by {
                vstd::arithmetic::div_mod::lemma_mod_self_0(a as int);
                assert(gcd(a as nat, 0) == a);
            }
            lemma_gcd_divides(u as nat, v as nat);
            lemma_divisor_le(gcd(u as nat, v as nat) as int, u as int);
            vstd::arithmetic::power2::lemma2_to64();
            assert(pow2(shift as nat) * a == a as int * pow2(shift as nat)) by (nonlinear_arith);
        }
        let mut r = a;
        let mut i: u32 = 0;
        while i < shift
            invariant
                i <= shift,
                r as int == a as int * pow2(i as nat),
                a as int * pow2(shift as nat) <= u32::MAX,
            decreases shift - i,
        {
            proof {
                vstd::arithmetic::power2::lemma_pow2_adds(i as nat, 1);
                vstd::arithmetic::power2::lemma2_to64();
                lemma_pow2_le((i + 1) as nat, shift as nat);
                assert(a as int * pow2((i + 1) as nat) <= a as int * pow2(shift as nat)) by (nonlinear_arith)
                    requires
                        pow2((i + 1) as nat) <= pow2(shift as nat),
                        a >= 0,
                ;
                assert(r as int * 2 == a as int * pow2((i + 1) as nat)) by (nonlinear_arith)
                    requires
                        r as int == a as int * pow2(i as nat),
                        pow2((i + 1) as nat) == pow2(i as nat) * 2,
                ;
            }
            r = r * 2;
            i = i + 1;
        }
        r
    }

    /// Newton's method from `n / 2`, stopping once the iterate stops decreasing.
    fn integer_square_root(self) -> (r: u32)
        ensures
            is_isqrt(r as int, self as int),
    {
        let n = self;
        let mut result = n / 2;
        if result == 0 {
            assert(is_isqrt(n as int, n as int)) by (nonlinear_arith)
                requires
                    0 <= n <= 1,
            ;
            return n;
        }
        proof {
            lemma_half_start(n as int);
            lemma_newton_sum_bound(n as int, result as int);
        }
        let mut next = (result + n / result) / 2;
        while next < result
            invariant
                1 <= result <= n / 2,
                (result + 1) * (result + 1) > n,
                next == (result + n / result) / 2,
            decreases result,
        {
            proof {
                lemma_newton_next(n as int, result as int);
            }
            result = next;
            proof {
                lemma_newton_sum_bound(n as int, result as int);
            }
            next = (result + n / result) / 2;
        }
        proof {
            if result * result > n {
                lemma_newton_decreases(n as int, result as int);
            }
        }
        result
    }
}

impl NumUtil for u64 {
    /// Binary GCD: common factors 2 are set aside, then the larger of two odd numbers is
    /// replaced by half their difference until they are equal.
    fn gcd(u: u64, v: u64) -> (r: u64)
        ensures
            r as nat == gcd(u as nat, v as nat),
    {
        if u == 0 {
            proof {
                lemma_gcd_symmetric(0, v as nat);
            }
            return v;
        }
        if v == 0 {
            return u;
        }
        let mut a = u;
        let mut b = v;
        let mut shift: u32 = 0;
        proof {
            vstd::arithmetic::power2::lemma2_to64();
        }
        while a % 2 == 0 && b % 2 == 0
            invariant
                a > 0,
                b > 0,
                shift <= 64,
                gcd(u as nat, v as nat) == pow2(shift as nat) * gcd(a as nat, b as nat),
                a as int * pow2(shift as nat) <= u,
            decreases a,
        {
            proof {
                lemma_gcd_double((a / 2) as nat, (b / 2) as nat);
                vstd::arithmetic::power2::lemma_pow2_adds(shift as nat, 1);
                vstd::arithmetic::power2::lemma2_to64();
                let p = pow2(shift as nat) as int;
                assert(pow2(shift as nat) * gcd(a as nat, b as nat) == pow2((shift + 1) as nat) * gcd(
                    (a / 2) as nat,
                    (b / 2) as nat,
                )) by (nonlinear_arith)
                    requires
                        gcd(a as nat, b as nat) == 2 * gcd((a / 2) as nat, (b / 2) as nat),
                        pow2((shift + 1) as nat) == pow2(shift as nat) * 2,
                ;
                assert((a / 2) as int * pow2((shift + 1) as nat) == a as int * pow2(shift as nat)) by (nonlinear_arith)
                    requires
                        a % 2 == 0,
                        pow2((shift + 1) as nat) == pow2(shift as nat) * 2,
                ;
                if shift >= 64 {
                    lemma_pow2_le(64, shift as nat);
                    lemma_pow2_value_64();
                    assert(a as int * pow2(shift as nat) >= 2 * pow2(shift as nat)) by (nonlinear_arith)
                        requires
                            a >= 2,
                    ;
                }
            }
            a = a / 2;
            b = b / 2;
            shift = shift + 1;
        }
        if a % 2 == 0 {
            while a % 2 == 0
                invariant
                    a > 0,
                    b > 0,
                    b % 2 == 1,
                    gcd(u as nat, v as nat) == pow2(shift as nat) * gcd(a as nat, b as nat),
                decreases a,
            {
                proof {
                    lemma_gcd_symmetric(a as nat, b as nat);
                    lemma_gcd_halve(b as nat, a as nat);
                    lemma_gcd_symmetric((a / 2) as nat, b as nat);
                }
                a = a / 2;
            }
        }
        while b % 2 == 0
            invariant
                a > 0,
                b > 0,
                a % 2 == 1,
                gcd(u as nat, v as nat) == pow2(shift as nat) * gcd(a as nat, b as nat),
            decreases b,
        {
            proof {
                lemma_gcd_halve(a as nat, b as nat);
            }
            b = b / 2;
        }
        while a != b
            invariant
                a > 0,
                b > 0,
                a % 2 == 1,
                b % 2 == 1,
                gcd(u as nat, v as nat) == pow2(shift as nat) * gcd(a as nat, b as nat),
            decreases a + b,
        {
            if a > b {
                proof {
                    lemma_gcd_subtract(a as nat, b as nat);
                    lemma_gcd_symmetric((a - b) as nat, b as nat);
                    lemma_gcd_halve(b as nat, (a - b) as nat);
                    lemma_gcd_symmetric(((a - b) / 2) as nat, b as nat);
                }
                a = (a - b) / 2;
                let ghost top = a;
                while a % 2 == 0
                    invariant
                        a <= top,
                        a > 0,
                        b > 0,
                        b % 2 == 1,
                        gcd(u as nat, v as nat) == pow2(shift as nat) * gcd(a as nat, b as nat),
                    decreases a,
                {
                    proof {
                        lemma_gcd_symmetric(a as nat, b as nat);
                        lemma_gcd_halve(b as nat, a as nat);
                        lemma_gcd_symmetric((a / 2) as nat, b as nat);
                    }
                    a = a / 2;
                }
            } else {
                proof {
                    lemma_gcd_symmetric(a as nat, b as nat);
                    lemma_gcd_subtract(b as nat, a as nat);
                    lemma_gcd_symmetric((b - a) as nat, a as nat);
                    lemma_gcd_halve(a as nat, (b - a) as nat);
                }
                b = (b - a) / 2;
                let ghost top = b;
                while b % 2 == 0
                    invariant
                        b <= top,
                        a > 0,
                        b > 0,
                        a % 2 == 1,
                        gcd(u as nat, v as nat) == pow2(shift as nat) * gcd(a as nat, b as nat),
                    decreases b,
                {
                    proof {
                        lemma_gcd_halve(a as nat, b as nat);
                    }
                    b = b / 2;
                }
            }
        }
        proof {
            assert(gcd(a as nat, a as nat) == a) by {
                vstd::arithmetic::div_mod::lemma_mod_self_0(a as int);
                assert(gcd(a as nat, 0) == a);
            }
            lemma_gcd_divides(u as nat, v as nat);
            lemma_divisor_le(gcd(u as nat, v as nat) as int, u as int);
            vstd::arithmetic::power2::lemma2_to64();
            assert(pow2(shift as nat) * a == a as int * pow2(shift as nat)) by (nonlinear_arith);
        }
        let mut r = a;
        let mut i: u32 = 0;
        while i < shift
            invariant
                i <= shift,
                r as int == a as int * pow2(i as nat),
                a as int * pow2(shift as nat) <= u64::MAX,
            decreases shift - i,
        {
            proof {
                vstd::arithmetic::power2::lemma_pow2_adds(i as nat, 1);
                vstd::arithmetic::power2::lemma2_to64();
                lemma_pow2_le((i + 1) as nat, shift as nat);
                assert(a as int * pow2((i + 1) as nat) <= a as int * pow2(shift as nat)) by (nonlinear_arith)
                    requires
                        pow2((i + 1) as nat) <= pow2(shift as nat),
                        a >= 0,
                ;
                assert(r as int * 2 == a as int * pow2((i + 1) as nat)) by (nonlinear_arith)
                    requires
                        r as int == a as int * pow2(i as nat),
                        pow2((i + 1) as nat) == pow2(i as nat) * 2,
                ;
            }
            r = r * 2;
            i = i + 1;
        }
        r
    }

    /// Newton's method from `n / 2`, stopping once the iterate stops decreasing.
    fn integer_square_root(self) -> (r: u64)
        ensures
            is_isqrt(r as int, self as int),
    {
        let n = self;
        let mut result = n / 2;
        if result == 0 {
            assert(is_isqrt(n as int, n as int)) by (nonlinear_arith)
                requires
                    0 <= n <= 1,
            ;
            return n;
        }
        proof {
            lemma_half_start(n as int);
            lemma_newton_sum_bound(n as int, result as int);
        }
        let mut next = (result + n / result) / 2;
        while next < result
            invariant
                1 <= result <= n / 2,
                (result + 1) * (result + 1) > n,
                next == (result + n / result) / 2,
            decreases result,
        {
            proof {
                lemma_newton_next(n as int, result as int);
            }
            result = next;
            proof {
                lemma_newton_sum_bound(n as int, result as int);
            }
            next = (result + n / result) / 2;
        }
        proof {
            if result * result > n {
                lemma_newton_decreases(n as int, result as int);
            }
        }
        result
    }
}

impl NumUtil for u128 {
    /// Binary GCD: common factors 2 are set aside, then the larger of two odd numbers is
    /// replaced by half their difference until they are equal.
    fn gcd(u: u128, v: u128) -> (r: u128)
        ensures
            r as nat == gcd(u as nat, v as nat),
    {
        if u == 0 {
            proof {
                lemma_gcd_symmetric(0, v as nat);
            }
            return v;
        }
        if v == 0 {
            return u;
        }
        let mut a = u;
        let mut b = v;
        let mut shift: u32 = 0;
        proof {
            vstd::arithmetic::power2::lemma2_to64();
        }
        while a % 2 == 0 && b % 2 == 0
            invariant
                a > 0,
                b > 0,
                shift <= 128,
                gcd(u as nat, v as nat) == pow2(shift as nat) * gcd(a as nat, b as nat),
                a as int * pow2(shift as nat) <= u,
            decreases a,
        {
            proof {
                lemma_gcd_double((a / 2) as nat, (b / 2) as nat);
                vstd::arithmetic::power2::lemma_pow2_adds(shift as nat, 1);
                vstd::arithmetic::power2::lemma2_to64();
                let p = pow2(shift as nat) as int;
                assert(pow2(shift as nat) * gcd(a as nat, b as nat) == pow2((shift + 1) as nat) * gcd(
                    (a / 2) as nat,
                    (b / 2) as nat,
                )) by (nonlinear_arith)
                    requires
                        gcd(a as nat, b as nat) == 2 * gcd((a / 2) as nat, (b / 2) as nat),
                        pow2((shift + 1) as nat) == pow2(shift as nat) * 2,
                ;
                assert((a / 2) as int * pow2((shift + 1) as nat) == a as int * pow2(shift as nat)) by (nonlinear_arith)
                    requires
                        a % 2 == 0,
                        pow2((shift + 1) as nat) == pow2(shift as nat) * 2,
                ;
                if shift >= 128 {
                    lemma_pow2_le(128, shift as nat);
                    lemma_pow2_value_128();
                    assert(a as int * pow2(shift as nat) >= 2 * pow2(shift as nat)) by (nonlinear_arith)
                        requires
                            a >= 2,
                    ;
                }
            }
            a = a / 2;
            b = b / 2;
            shift = shift + 1;
        }
        if a % 2 == 0 {
            while a % 2 == 0
                invariant
                    a > 0,
                    b > 0,
                    b % 2 == 1,
                    gcd(u as nat, v as nat) == pow2(shift as nat) * gcd(a as nat, b as nat),
                decreases a,
            {
                proof {
                    lemma_gcd_symmetric(a as nat, b as nat);
                    lemma_gcd_halve(b as nat, a as nat);
                    lemma_gcd_symmetric((a / 2) as nat, b as nat);
                }
                a = a / 2;
            }
        }
        while b % 2 == 0
            invariant
                a > 0,
                b > 0,
                a % 2 == 1,
                gcd(u as nat, v as nat) == pow2(shift as nat) * gcd(a as nat, b as nat),
            decreases b,
        {
            proof {
                lemma_gcd_halve(a as nat, b as nat);
            }
            b = b / 2;
        }
        while a != b
            invariant
                a > 0,
                b > 0,
                a % 2 == 1,
                b % 2 == 1,
                gcd(u as nat, v as nat) == pow2(shift as nat) * gcd(a as nat, b as nat),
            decreases a + b,
        {
            if a > b {
                proof {
                    lemma_gcd_subtract(a as nat, b as nat);
                    lemma_gcd_symmetric((a - b) as nat, b as nat);
                    lemma_gcd_halve(b as nat, (a - b) as nat);
                    lemma_gcd_symmetric(((a - b) / 2) as nat, b as nat);
                }
                a = (a - b) / 2;
                let ghost top = a;
                while a % 2 == 0
                    invariant
                        a <= top,
                        a > 0,
                        b > 0,
                        b % 2 == 1,
                        gcd(u as nat, v as nat) == pow2(shift as nat) * gcd(a as nat, b as nat),
                    decreases a,
                {
                    proof {
                        lemma_gcd_symmetric(a as nat, b as nat);
                        lemma_gcd_halve(b as nat, a as nat);
                        lemma_gcd_symmetric((a / 2) as nat, b as nat);
                    }
                    a = a / 2;
                }
            } else {
                proof {
                    lemma_gcd_symmetric(a as nat, b as nat);
                    lemma_gcd_subtract(b as nat, a as nat);
                    lemma_gcd_symmetric((b - a) as nat, a as nat);
                    lemma_gcd_halve(a as nat, (b - a) as nat);
                }
                b = (b - a) / 2;
                let ghost top = b;
                while b % 2 == 0
                    invariant
                        b <= top,
                        a > 0,
                        b > 0,
                        a % 2 == 1,
                        gcd(u as nat, v as nat) == pow2(shift as nat) * gcd(a as nat, b as nat),
                    decreases b,
                {
                    proof {
                        lemma_gcd_halve(a as nat, b as nat);
                    }
                    b = b / 2;
                }
            }
        }
        proof {
            assert(gcd(a as nat, a as nat) == a) by {
                vstd::arithmetic::div_mod::lemma_mod_self_0(a as int);
                assert(gcd(a as nat, 0) == a);
            }
            lemma_gcd_divides(u as nat, v as nat);
            lemma_divisor_le(gcd(u as nat, v as nat) as int, u as int);
            vstd::arithmetic::power2::lemma2_to64();
            assert(pow2(shift as nat) * a == a as int * pow2(shift as nat)) by (nonlinear_arith);
        }
        let mut r = a;
        let mut i: u32 = 0;
        while i < shift
            invariant
                i <= shift,
                r as int == a as int * pow2(i as nat),
                a as int * pow2(shift as nat) <= u128::MAX,
            decreases shift - i,
        {
            proof {
                vstd::arithmetic::power2::lemma_pow2_adds(i as nat, 1);
                vstd::arithmetic::power2::lemma2_to64();
                lemma_pow2_le((i + 1) as nat, shift as nat);
                assert(a as int * pow2((i + 1) as nat) <= a as int * pow2(shift as nat)) by (nonlinear_arith)
                    requires
                        pow2((i + 1) as nat) <= pow2(shift as nat),
                        a >= 0,
                ;
                assert(r as int * 2 == a as int * pow2((i + 1) as nat)) by (nonlinear_arith)
                    requires
                        r as int == a as int * pow2(i as nat),
                        pow2((i + 1) as nat) == pow2(i as nat) * 2,
                ;
            }
            r = r * 2;
            i = i + 1;
        }
        r
    }

    /// Newton's method from `n / 2`, stopping once the iterate stops decreasing.
    fn integer_square_root(self) -> (r: u128)
        ensures
            is_isqrt(r as int, self as int),
    {
        let n = self;
        let mut result = n / 2;
        if result == 0 {
            assert(is_isqrt(n as int, n as int)) by (nonlinear_arith)
                requires
                    0 <= n <= 1,
            ;
            return n;
        }
        proof {
            lemma_half_start(n as int);
            lemma_newton_sum_bound(n as int, result as int);
        }
        let mut next = (result + n / result) / 2;
        while next < result
            invariant
                1 <= result <= n / 2,
                (result + 1) * (result + 1) > n,
                next == (result + n / result) / 2,
            decreases result,
        {
            proof {
                lemma_newton_next(n as int, result as int);
            }
            result = next;
            proof {
                lemma_newton_sum_bound(n as int, result as int);
            }
            next = (result + n / result) / 2;
        }
        proof {
            if result * result > n {
                lemma_newton_decreases(n as int, result as int);
            }
        }
        result
    }
}

} // verus!
