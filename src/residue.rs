//! Quadratic residues and modular square roots: Euler's criterion, Tonelli–Shanks, lifting to
//! prime powers, and roots modulo powers of two.
use crate::arith::{add_mod_u128, divides, is_prime_spec, mul_mod_u128, pow_mod, pow_mod_u128};
use vstd::arithmetic::power::{lemma_pow_adds, lemma_pow_multiplies, lemma_square_is_pow2, pow};
use vstd::arithmetic::power2::pow2;
use vstd::prelude::*;

verus! {

/// Euler's criterion as the sieve uses it: `n^((p - 1) / 2) ≡ 1 (mod p)`, with 0, 1 and
/// moduli up to 2 always accepted.
pub open spec fn euler_residue(n: int, p: int) -> bool {
    n == 0 || n == 1 || p <= 2 || pow_mod(n, ((p - 1) / 2) as nat, p) == 1
}

/// `n` with every factor 4 removed.
pub open spec fn strip_fours(n: nat) -> nat
    decreases n,
{
    if n > 0 && n % 4 == 0 {
        strip_fours(n / 4)
    } else {
        n
    }
}

/// Whether `n` is taken for a square modulo `base^exponent`: modulo powers of two by the
/// shape of `n`, otherwise by Euler's criterion modulo `base`.
pub open spec fn prime_power_residue(n: int, base: int, exponent: int) -> bool {
    if n <= 1 || exponent == 0 || base <= 1 {
        true
    } else if base == 2 {
        if exponent == 1 {
            true
        } else if exponent == 2 {
            n % 4 <= 1
        } else {
            (strip_fours(n as nat) - 1) % 8 == 0
        }
    } else {
        euler_residue(n, base)
    }
}

/// `r` is a square root of `n` modulo `m`.
pub open spec fn is_root(r: int, n: int, m: int) -> bool {
    (r * r) % m == n % m
}

/// Euler's criterion for `n` modulo the odd prime `p`.
pub fn eulers_criterion(n: u128, p: u128) -> (r: bool)
    ensures
        r == euler_residue(n as int, p as int),
{
    if n == 0 || n == 1 || p <= 2 {
        return true;
    }
    pow_mod_u128(n, (p - 1) / 2, p) == 1
}

/// Whether `n` is a quadratic residue modulo the prime `prime`, by Euler's criterion.
pub fn is_prime_mod_res(n: u128, prime: u128) -> (r: bool)
    ensures
        r == euler_residue(n as int, prime as int),
{
    eulers_criterion(n, prime)
}

/// Whether `n` is a quadratic residue modulo `primebase^exponent`.
pub fn is_prime_power_mod_res(n: u128, primebase: u128, exponent: u32) -> (r: bool)
    ensures
        r == prime_power_residue(n as int, primebase as int, exponent as int),
{
    if n <= 1 || exponent == 0 || primebase <= 1 {
        return true;
    }
    if primebase == 2 {
        if exponent == 1 {
            return true;
        }
        if exponent == 2 {
            return n % 4 <= 1;
        }
        let mut m = n;
        while m % 4 == 0
            invariant
                m > 0,
                strip_fours(m as nat) == strip_fours(n as nat),
            decreases m,
        {
            m = m / 4;
        }
        return (m - 1) % 8 == 0;
    }
    eulers_criterion(n, primebase)
}

proof fn lemma_square_of_power(s: int, e: nat, p: int)
    requires
        p > 0,
    ensures
        (pow_mod(s, e, p) * pow_mod(s, e, p)) % p == pow(s, 2 * e) % p,
{
    lemma_pow_multiplies(s, e, 2);
    lemma_square_is_pow2(pow(s, e));
    vstd::arithmetic::div_mod::lemma_mul_mod_noop(pow(s, e), pow(s, e), p);
    assert(e * 2 == 2 * e);
}

proof fn lemma_ts_start(s: int, q: nat, p: int)
    requires
        p > 0,
        q % 2 == 1,
    ensures
        ((pow(s, q / 2 + 1) % p) * (pow(s, q / 2 + 1) % p)) % p == (s * (pow(s, q) % p)) % p,
{
    let e = (q / 2 + 1) as nat;
    lemma_square_of_power(s, e, p);
    assert(2 * e == q + 1);
    lemma_pow_adds(s, q, 1);
    vstd::arithmetic::power::lemma_pow1(s);
    vstd::arithmetic::div_mod::lemma_mul_mod_noop_right(s, pow(s, q), p);
    assert(pow(s, q) * s == s * pow(s, q)) by (nonlinear_arith);
}

proof fn lemma_ts_step(s: int, rr: int, tt: int, bb: int, pp: int)
    requires
        pp > 0,
        (rr * rr) % pp == (s * tt) % pp,
    ensures
        (((rr * bb) % pp) * ((rr * bb) % pp)) % pp == (s * ((tt * ((bb * bb) % pp)) % pp)) % pp,
{
    let x = rr * bb;
    vstd::arithmetic::div_mod::lemma_mul_mod_noop(x, x, pp);
    assert(x * x == (rr * rr) * (bb * bb)) by (nonlinear_arith)
        requires
            x == rr * bb,
    ;
    vstd::arithmetic::div_mod::lemma_mul_mod_noop_left(rr * rr, bb * bb, pp);
    vstd::arithmetic::div_mod::lemma_mul_mod_noop_left(s * tt, bb * bb, pp);
    let w = (bb * bb) % pp;
    let y = tt * w;
    vstd::arithmetic::div_mod::lemma_mul_mod_noop_right(s, y, pp);
    assert(s * y == (s * tt) * w) by (nonlinear_arith)
        requires
            y == tt * w,
    ;
    vstd::arithmetic::div_mod::lemma_mul_mod_noop_right(s * tt, bb * bb, pp);
}

/// The facts about an odd prime `p` that Tonelli–Shanks relies on, which this library uses as
/// a hypothesis and does not prove: some number in `[2, p)` fails Euler's criterion, each such
/// number `z` has `z^((p-1)/2) ≡ -1 (mod p)`, and 1 has no square roots but `±1`.
pub open spec fn sqrt_facts(p: int) -> bool {
    &&& exists|z: int| 2 <= z < p && !#[trigger] euler_residue(z, p)
    &&& forall|z: int| 2 <= z < p && !#[trigger] euler_residue(z, p) ==> pow_mod(z, ((p - 1) / 2) as nat, p) == p - 1
    &&& forall|x: int| 0 <= x < p && #[trigger] ((x * x) % p) == 1 ==> x == 1 || x == p - 1
}

proof fn lemma_pow_pow_mod(c: int, a: nat, b: nat, p: int)
    requires
        p > 0,
    ensures
        pow_mod(pow_mod(c, a, p), b, p) == pow_mod(c, a * b, p),
{
    vstd::arithmetic::power::lemma_pow_mod_noop(pow(c, a), b, p);
    lemma_pow_multiplies(c, a, b);
}

proof fn lemma_square_pow2(x: int, k: nat, p: int)
    requires
        p > 0,
    ensures
        (pow_mod(x, pow2(k), p) * pow_mod(x, pow2(k), p)) % p == pow_mod(x, pow2(k + 1), p),
{
    lemma_square_of_power(x, pow2(k), p);
    vstd::arithmetic::power2::lemma_pow2_adds(k, 1);
    vstd::arithmetic::power2::lemma2_to64();
    assert(2 * pow2(k) == pow2(k + 1));
}

proof fn lemma_mul_pow_mod(x: int, y: int, e: nat, p: int)
    requires
        p > 0,
    ensures
        pow_mod((x * y) % p, e, p) == (pow_mod(x, e, p) * pow_mod(y, e, p)) % p,
{
    vstd::arithmetic::power::lemma_pow_mod_noop(x * y, e, p);
    vstd::arithmetic::power::lemma_pow_distributes(x, y, e);
    vstd::arithmetic::div_mod::lemma_mul_mod_noop(pow(x, e), pow(y, e), p);
}

proof fn lemma_minus_one_squared(p: int)
    requires
        p >= 2,
    ensures
        ((p - 1) * (p - 1)) % p == 1,
{
    assert((p - 1) * (p - 1) == (p - 2) * p + 1) by (nonlinear_arith);
    vstd::arithmetic::div_mod::lemma_fundamental_div_mod_converse((p - 1) * (p - 1), p, p - 2, 1);
}

/// `2^k` for `k < 128`.
fn power_of_two(k: u32) -> (r: u128)
    requires
        k < 128,
    ensures
        r as int == pow2(k as nat),
{
    let mut r: u128 = 1;
    let mut i: u32 = 0;
    proof {
        vstd::arithmetic::power2::lemma2_to64();
    }
    while i < k
        invariant
            i <= k < 128,
            r as int == pow2(i as nat),
        decreases k - i,
    {
        proof {
            vstd::arithmetic::power2::lemma_pow2_adds(i as nat, 1);
            vstd::arithmetic::power2::lemma2_to64();
            vstd::arithmetic::power2::lemma_pow2_strictly_increases((i + 1) as nat, 128);
            vstd::arithmetic::power2::lemma2_to64_rest();
            vstd::arithmetic::power2::lemma_pow2_adds(64, 64);
        }
        r = r * 2;
        i = i + 1;
    }
    r
}

/// Calculates `r` with `r * r ≡ square (mod prime_modulus)` for a prime modulus.
///
/// For `p ≡ 3 (mod 4)` the root is `square^((p + 1) / 4)`; otherwise Tonelli–Shanks. 0 is
/// returned where the iteration finds no root.
pub fn tonelli_shanks(square: u128, prime_modulus: u128) -> (r: u128)
    ensures
        prime_modulus <= 1 ==> r == 0,
        prime_modulus == 2 ==> r == square % 2,
        prime_modulus > 2 ==> r < prime_modulus,
        prime_modulus > 2 && prime_modulus % 4 == 3 ==> r == pow_mod(
            square as int,
            (prime_modulus / 4 + 1) as nat,
            prime_modulus as int,
        ),
        prime_modulus > 2 && prime_modulus % 4 == 3 && euler_residue(
            square as int,
            prime_modulus as int,
        ) ==> is_root(r as int, square as int, prime_modulus as int),
        prime_modulus > 2 && prime_modulus % 4 != 3 && r != 0 ==> is_root(
            r as int,
            square as int,
            prime_modulus as int,
        ),
        prime_modulus > 2 && is_prime_spec(prime_modulus as int) && sqrt_facts(prime_modulus as int)
            && euler_residue(square as int, prime_modulus as int) && square % prime_modulus != 0
            ==> is_root(r as int, square as int, prime_modulus as int),
{
    let p = prime_modulus;
    if p <= 1 {
        return 0;
    }
    if p == 2 {
        return square % 2;
    }
    let ghost s = square as int;
    if p % 4 == 3 {
        let r = pow_mod_u128(square, p / 4 + 1, p);
        proof {
            let e = (p / 4 + 1) as nat;
            lemma_square_of_power(s, e, p as int);
            if euler_residue(s, p as int) {
                let h = ((p - 1) / 2) as nat;
                assert(2 * e == h + 1);
                lemma_pow_adds(s, h, 1);
                vstd::arithmetic::power::lemma_pow1(s);
                if s == 0 {
                    vstd::arithmetic::power::lemma0_pow(2 * e);
                } else if s == 1 {
                    vstd::arithmetic::power::lemma1_pow(2 * e);
                } else {
                    vstd::arithmetic::div_mod::lemma_mul_mod_noop(pow(s, h), s, p as int);
                    vstd::arithmetic::div_mod::lemma_small_mod(1, p as nat);
                    vstd::arithmetic::div_mod::lemma_mul_mod_noop(1, s, p as int);
                }
            }
        }
        return r;
    }
    let ghost h = is_prime_spec(p as int) && sqrt_facts(p as int) && euler_residue(s, p as int) && s
        % (p as int) != 0;
    proof {
        vstd::arithmetic::power2::lemma2_to64();
        vstd::arithmetic::power2::lemma2_to64_rest();
        vstd::arithmetic::power2::lemma_pow2_adds(64, 63);
        if h {
            assert(!divides(2, p as int));
        }
    }
    // p - 1 = q * 2^s with q odd
    let mut q = p - 1;
    let mut two_power: u32 = 0;
    while q % 2 == 0 && q > 0
        invariant
            two_power < 128,
            q <= p - 1,
            q >= 1,
            p > 2,
            q as int * pow2(two_power as nat) == p - 1,
            pow2(127) == 0x8000_0000_0000_0000_0000_0000_0000_0000,
        decreases q,
    {
        proof {
            vstd::arithmetic::power2::lemma_pow2_adds(two_power as nat, 1);
            vstd::arithmetic::power2::lemma2_to64();
            assert((q / 2) as int * pow2((two_power + 1) as nat) == p - 1) by (nonlinear_arith)
                requires
                    q % 2 == 0,
                    q as int * pow2(two_power as nat) == p - 1,
                    pow2((two_power + 1) as nat) == pow2(two_power as nat) * 2,
            ;
            if two_power + 1 >= 128 {
                vstd::arithmetic::power2::lemma_pow2_adds(64, 64);
                if two_power + 1 > 128 {
                    vstd::arithmetic::power2::lemma_pow2_strictly_increases(128, (two_power + 1) as nat);
                }
                assert((q / 2) as int * pow2((two_power + 1) as nat) >= pow2((two_power + 1) as nat)) by (nonlinear_arith)
                    requires
                        q / 2 >= 1,
                        pow2((two_power + 1) as nat) >= 0,
                ;
                assert(false);
            }
        }
        q = q / 2;
        two_power = two_power + 1;
    }
    proof {
        if h {
            assert(p % 2 == 1);
            if two_power == 0 {
                assert(q as int * 1 == p - 1);
            }
            assert(two_power >= 1);
            vstd::arithmetic::power2::lemma_pow2_adds((two_power - 1) as nat, 1);
            assert((p - 1) / 2 == q as int * pow2((two_power - 1) as nat)) by (nonlinear_arith)
                requires
                    q as int * pow2(two_power as nat) == p - 1,
                    pow2(two_power as nat) == pow2((two_power - 1) as nat) * 2,
            ;
        }
    }
    // a quadratic non-residue
    let mut z: u128 = 2;
    while z < p && eulers_criterion(z, p)
        invariant
            p == prime_modulus,
            p > 2,
            p % 4 != 3,
            q >= 1,
            q % 2 == 1,
            two_power < 128,
            2 <= z,
            h ==> forall|y: int| 2 <= y < z ==> #[trigger] euler_residue(y, p as int),
        decreases p - z,
    {
        z = z + 1;
    }
    if z >= p {
        proof {
            if h {
                let y = choose|y: int| 2 <= y < p && !#[trigger] euler_residue(y, p as int);
                assert(euler_residue(y, p as int));
            }
        }
        return 0;
    }
    let mut c = pow_mod_u128(z, q, p);
    let mut t = pow_mod_u128(square, q, p);
    let mut r = pow_mod_u128(square, q / 2 + 1, p);
    let mut m: u32 = two_power;
    proof {
        lemma_ts_start(s, q as nat, p as int);
        if h {
            let e = pow2((m - 1) as nat);
            lemma_pow_pow_mod(z as int, q as nat, e, p as int);
            lemma_pow_pow_mod(s, q as nat, e, p as int);
            assert(q as nat * e == ((p - 1) / 2) as nat);
            assert(!euler_residue(z as int, p as int));
            assert(pow_mod(z as int, ((p - 1) / 2) as nat, p as int) == p - 1);
            assert(c as int == pow_mod(z as int, q as nat, p as int));
            assert(pow_mod(c as int, e, p as int) == p - 1);
            if s == 1 {
                vstd::arithmetic::power::lemma1_pow(((p - 1) / 2) as nat);
                vstd::arithmetic::div_mod::lemma_small_mod(1, p as nat);
            }
            vstd::arithmetic::div_mod::lemma_small_mod(0, p as nat);
            assert(s != 0);
            assert(pow_mod(s, ((p - 1) / 2) as nat, p as int) == 1);
            assert(pow_mod(t as int, e, p as int) == 1);
        }
    }
    while t != 0 && t != 1
        invariant
            p == prime_modulus,
            s == square as int,
            p % 4 != 3,
            p > 2,
            r < p,
            t < p,
            c < p,
            m < 128,
            (r as int * r as int) % (p as int) == (s * t as int) % (p as int),
            h == (is_prime_spec(p as int) && sqrt_facts(p as int) && euler_residue(s, p as int) && s % (p as int) != 0),
            h ==> sqrt_facts(p as int) && m >= 1 && pow_mod(t as int, pow2((m - 1) as nat), p as int) == 1
                && pow_mod(c as int, pow2((m - 1) as nat), p as int) == p - 1,
        decreases m,
    {
        let mut temp_t = t;
        let mut new_m: u32 = 0;
        let mut i: u32 = 1;
        proof {
            vstd::arithmetic::power2::lemma2_to64();
            vstd::arithmetic::power::lemma_pow1(t as int);
            vstd::arithmetic::div_mod::lemma_small_mod(t as nat, p as nat);
        }
        while i < m && new_m == 0
            invariant
                p > 2,
                temp_t < p,
                1 <= i,
                i <= m || m == 0,
                t < p,
                t != 1,
                p == prime_modulus,
                s == square as int,
                h == (is_prime_spec(p as int) && sqrt_facts(p as int) && euler_residue(s, p as int) && s % (p as int) != 0),
                h ==> sqrt_facts(p as int) && m >= 1 && pow_mod(t as int, pow2((m - 1) as nat), p as int) == 1
                    && pow_mod(c as int, pow2((m - 1) as nat), p as int) == p - 1,
                new_m == 0 ==> temp_t as int == pow_mod(t as int, pow2((i - 1) as nat), p as int)
                    && forall|j: int| 0 <= j < i ==> #[trigger] pow_mod(t as int, pow2(j as nat), p as int) != 1,
                new_m != 0 ==> new_m == i && i < m && pow_mod(t as int, pow2(i as nat), p as int) == 1
                    && forall|j: int| 0 <= j < i ==> #[trigger] pow_mod(t as int, pow2(j as nat), p as int) != 1,
            decreases m - i, if new_m == 0 { 1int } else { 0int },
        {
            let squared = mul_mod_u128(temp_t, temp_t, p);
            proof {
                lemma_square_pow2(t as int, (i - 1) as nat, p as int);
            }
            if squared == 1 {
                new_m = i;
            } else {
                temp_t = squared;
                i = i + 1;
            }
        }
        if new_m >= m {
            proof {
                if h {
                    if new_m == 0 {
                        assert(i == m);
                        assert(pow_mod(t as int, pow2((m - 1) as nat), p as int) != 1);
                    }
                }
            }
            return 0;
        }
        proof {
            if h {
                if new_m == 0 {
                    assert(i == m);
                    assert(pow_mod(t as int, pow2((m - 1) as nat), p as int) != 1);
                }
            }
        }
        let k = m - new_m - 1;
        let b = pow_mod_u128(c, power_of_two(k), p);
        let b_squared = mul_mod_u128(b, b, p);
        let ghost old_r = r;
        let ghost old_t = t;
        let ghost old_c = c;
        let ghost old_m = m;
        let ghost nm = new_m;
        m = new_m;
        c = b_squared;
        t = mul_mod_u128(t, b_squared, p);
        r = mul_mod_u128(r, b, p);
        proof {
            lemma_ts_step(s, old_r as int, old_t as int, b as int, p as int);
            if h {
                let pp = p as int;
                let x = pow_mod(old_t as int, pow2((nm - 1) as nat), pp);
                lemma_square_pow2(old_t as int, (nm - 1) as nat, pp);
                assert(x != 1);
                assert(0 <= x < pp);
                assert((x * x) % pp == 1);
                assert(x == pp - 1);
                lemma_square_pow2(old_c as int, k as nat, pp);
                let e = pow2((nm - 1) as nat);
                lemma_pow_pow_mod(old_c as int, pow2((k + 1) as nat), e, pp);
                vstd::arithmetic::power2::lemma_pow2_adds((k + 1) as nat, (nm - 1) as nat);
                assert((k + 1) as nat + (nm - 1) as nat == (old_m - 1) as nat);
                assert(pow_mod(c as int, e, pp) == pp - 1);
                lemma_mul_pow_mod(old_t as int, c as int, e, pp);
                lemma_minus_one_squared(pp);
            }
        }
    }
    if t == 1 {
        proof {
            vstd::arithmetic::div_mod::lemma_small_mod(r as nat, p as nat);
        }
        r
    } else {
        proof {
            if h {
                vstd::arithmetic::power2::lemma_pow2_pos((m - 1) as nat);
                vstd::arithmetic::power::lemma0_pow(pow2((m - 1) as nat));
                vstd::arithmetic::div_mod::lemma_small_mod(0, p as nat);
                assert(pow_mod(t as int, pow2((m - 1) as nat), p as int) == 0);
            }
        }
        0
    }
}

/// A square root of `square` modulo the prime `prime`.
pub fn prime_mod_sqrt(square: u128, prime: u128) -> (r: u128)
    ensures
        prime <= 1 ==> r == 0,
        prime == 2 ==> r == square % 2,
        prime > 2 ==> r < prime,
        prime > 2 && prime % 4 == 3 && euler_residue(square as int, prime as int) ==> is_root(
            r as int,
            square as int,
            prime as int,
        ),
        prime > 2 && prime % 4 != 3 && r != 0 ==> is_root(r as int, square as int, prime as int),
        prime > 2 && is_prime_spec(prime as int) && sqrt_facts(prime as int) && euler_residue(
            square as int,
            prime as int,
        ) && square % prime != 0 ==> is_root(r as int, square as int, prime as int),
{
    tonelli_shanks(square, prime)
}

/// `(x - y) mod m` for reduced operands.
fn sub_mod_u128(x: u128, y: u128, m: u128) -> (r: u128)
    requires
        x < m,
        y < m,
    ensures
        r as int == (x as int - y as int) % (m as int),
        r < m,
{
    if x >= y {
        proof {
            vstd::arithmetic::div_mod::lemma_small_mod((x - y) as nat, m as nat);
        }
        x - y
    } else {
        let r = m - (y - x);
        proof {
            vstd::arithmetic::div_mod::lemma_mod_add_multiples_vanish(x as int - y as int, m as int);
            vstd::arithmetic::div_mod::lemma_small_mod(r as nat, m as nat);
        }
        r
    }
}

/// A lifting step reduces modulo a multiple `P` of `m`, so it keeps a root modulo `m`.
proof fn lemma_lift_keeps_root(
    lr: int,
    sq: int,
    cp: int,
    m: int,
    r: int,
    s: int,
    f: int,
    inv: int,
    quotient: int,
    next: int,
)
    requires
        m > 0,
        cp > 0,
        cp % m == 0,
        r == lr % (cp * m),
        s == sq % (cp * m),
        f == (((r * r) % (cp * m)) - s) % (cp * m),
        quotient == (inv * f) % (cp * m),
        next == (r - quotient) % (cp * m),
        (lr * lr) % m == sq % m,
    ensures
        (next * next) % m == sq % m,
{
    let pp = cp * m;
    assert(pp > 0) by (nonlinear_arith)
        requires
            pp == cp * m,
            cp > 0,
            m > 0,
    ;
    assert(pp == m * cp) by (nonlinear_arith)
        requires
            pp == cp * m,
    ;
    vstd::arithmetic::div_mod::lemma_mod_mod(lr, m, cp);
    vstd::arithmetic::div_mod::lemma_mod_mod(sq, m, cp);
    vstd::arithmetic::div_mod::lemma_mod_mod(r * r, m, cp);
    vstd::arithmetic::div_mod::lemma_mod_mod((r * r) % pp - s, m, cp);
    vstd::arithmetic::div_mod::lemma_mod_mod(inv * f, m, cp);
    vstd::arithmetic::div_mod::lemma_mod_mod(r - quotient, m, cp);
    // f ≡ r^2 - s ≡ lr^2 - sq ≡ 0 (mod m)
    vstd::arithmetic::div_mod::lemma_sub_mod_noop((r * r) % pp, s, m);
    vstd::arithmetic::div_mod::lemma_sub_mod_noop(r * r, sq, m);
    vstd::arithmetic::div_mod::lemma_mul_mod_noop(r, r, m);
    vstd::arithmetic::div_mod::lemma_mul_mod_noop(lr, lr, m);
    vstd::arithmetic::div_mod::lemma_sub_mod_noop(lr * lr, sq, m);
    vstd::arithmetic::div_mod::lemma_mod_self_0(m);
    assert(f % m == 0) by {
        assert(f % m == ((r * r) % pp - s) % m);
        assert(((r * r) % pp - s) % m == (((r * r) % pp) % m - s % m) % m);
        assert(((r * r) % pp) % m == (r * r) % m);
        assert(s % m == sq % m);
        assert(((r * r) % m - sq % m) % m == (r * r - sq) % m);
        assert((r * r) % m == (lr * lr) % m);
        assert((lr * lr - sq) % m == ((lr * lr) % m - sq % m) % m);
        vstd::arithmetic::div_mod::lemma_mod_self_0(m);
        assert(((lr * lr) % m - sq % m) == 0);
        vstd::arithmetic::div_mod::lemma_small_mod(0, m as nat);
        assert((r * r - sq) % m == ((r * r) % m - sq % m) % m);
    }
    vstd::arithmetic::div_mod::lemma_mul_mod_noop_right(inv, f, m);
    assert(quotient % m == 0) by {
        assert(quotient % m == (inv * f) % m);
        assert((inv * (f % m)) % m == (inv * f) % m);
        assert(inv * 0 == 0);
        vstd::arithmetic::div_mod::lemma_small_mod(0, m as nat);
    }
    vstd::arithmetic::div_mod::lemma_sub_mod_noop(r, quotient, m);
    assert(next % m == lr % m) by {
        assert(next % m == (r - quotient) % m);
        assert((r - quotient) % m == (r % m - quotient % m) % m);
        vstd::arithmetic::div_mod::lemma_mod_twice(lr, m);
        assert(r % m == lr % m);
    }
    vstd::arithmetic::div_mod::lemma_mul_mod_noop(next, next, m);
}

/// Lifts a square root of `square` modulo an odd prime to its powers, one power per step.
pub struct OddPrime {
    /// The number whose root is lifted.
    pub square: u128,
    /// The prime.
    pub modulo: u128,
    /// The power of the prime of the last step; 1 before the first.
    pub current_power: u128,
    /// The root of the last step.
    pub last_root: u128,
}

impl OddPrime {
    /// Starts lifting a root of `square` modulo powers of `modulo`.
    pub fn new(square: u128, modulo: u128) -> (r: Self)
        ensures
            r.square == square,
            r.modulo == modulo,
            r.current_power == 1,
            r.last_root == 0,
    {
        Self { square, modulo, current_power: 1, last_root: 0 }
    }

    /// The root modulo the next power: first the root modulo the prime, then each step
    /// `r - (r^2 - square) * (2 r)^(P - 2) (mod P)` with `P` the new power. `None` once the
    /// power would overflow.
    ///
    /// The step keeps the root modulo the prime: a root modulo the prime stays one.
    pub fn next(&mut self) -> (r: Option<u128>)
        ensures
            final(self).square == old(self).square,
            final(self).modulo == old(self).modulo,
            old(self).current_power == 1 ==> r == Some(final(self).last_root)
                && final(self).current_power == old(self).modulo,
            old(self).current_power == 1 && old(self).modulo > 2 && old(self).modulo % 4 == 3
                && euler_residue(old(self).square as int, old(self).modulo as int) ==> is_root(
                final(self).last_root as int,
                old(self).square as int,
                old(self).modulo as int,
            ),
            old(self).current_power == 1 && old(self).modulo > 2 && is_prime_spec(old(self).modulo as int)
                && sqrt_facts(old(self).modulo as int) && euler_residue(old(self).square as int, old(self).modulo as int)
                && old(self).square % old(self).modulo != 0 ==> is_root(
                final(self).last_root as int,
                old(self).square as int,
                old(self).modulo as int,
            ),
            old(self).current_power == 1 && old(self).modulo > 2 && old(self).modulo % 4 != 3
                && final(self).last_root != 0 ==> is_root(
                final(self).last_root as int,
                old(self).square as int,
                old(self).modulo as int,
            ),
            old(self).current_power != 1 && r is Some ==> final(self).current_power == old(self).current_power * old(self).modulo && r == Some(final(self).last_root),
            old(self).current_power != 1 && r is None ==> old(self).current_power as int * old(self).modulo > u128::MAX || old(self).current_power * old(self).modulo < 2,
            old(self).current_power != 1 && r is Some && old(self).last_root == 0
                && old(self).current_power * old(self).modulo > 2 ==> final(self).last_root == 0,
            old(self).current_power != 1 && r is Some && old(self).modulo > 0 && old(self).current_power % old(self).modulo == 0 && is_root(
                old(self).last_root as int,
                old(self).square as int,
                old(self).modulo as int,
            ) ==> is_root(
                final(self).last_root as int,
                old(self).square as int,
                old(self).modulo as int,
            ),
    {
        if self.current_power == 1 {
            self.current_power = self.modulo;
            self.last_root = prime_mod_sqrt(self.square, self.modulo);
            return Some(self.last_root);
        }
        let cp = self.current_power.checked_mul(self.modulo);
        if cp.is_none() {
            return None;
        }
        let power = cp.unwrap();
        if power < 2 {
            return None;
        }
        let r = self.last_root % power;
        let s = self.square % power;
        let f = sub_mod_u128(mul_mod_u128(r, r, power), s, power);
        let f_prime = mul_mod_u128(r, 2 % power, power);
        let inverse = pow_mod_u128(f_prime, power - 2, power);
        let quotient = mul_mod_u128(inverse, f, power);
        let next_root = sub_mod_u128(r, quotient, power);
        proof {
            if self.last_root == 0 {
                vstd::arithmetic::div_mod::lemma_small_mod(0, power as nat);
                assert(r == 0);
                let two = (2u128 % power) as int;
                assert(r as int * two == 0) by (nonlinear_arith)
                    requires
                        r == 0,
                ;
                assert(f_prime == 0);
                if power > 2 {
                    vstd::arithmetic::power::lemma0_pow((power - 2) as nat);
                    assert(inverse == 0);
                    assert(inverse as int * f as int == 0) by (nonlinear_arith)
                        requires
                            inverse == 0,
                    ;
                    assert(quotient == 0);
                }
            }
            let m = self.modulo as int;
            let pp = power as int;
            if self.current_power == 0 {
                assert(power == 0);
            }
            if m > 0 && self.current_power % self.modulo == 0 && is_root(
                self.last_root as int,
                self.square as int,
                m,
            ) {
                lemma_lift_keeps_root(
                    self.last_root as int,
                    self.square as int,
                    self.current_power as int,
                    m,
                    r as int,
                    s as int,
                    f as int,
                    inverse as int,
                    quotient as int,
                    next_root as int,
                );
            }
        }
        self.current_power = power;
        self.last_root = next_root;
        Some(next_root)
    }
}

/// For an odd prime, a root `b` with `b^2 ≡ square` modulo `prime^exponent`, by lifting the
/// root modulo `prime`; 0 for exponent 0.
pub fn odd_prime_power_mod_sqrt(square: u128, prime: u128, exponent: u32) -> (r: u128)
    ensures
        exponent == 0 ==> r == 0,
        exponent >= 1 && prime > 2 && prime % 4 == 3 && euler_residue(square as int, prime as int)
            && pow(prime as int, exponent as nat) <= u128::MAX ==> is_root(
            r as int,
            square as int,
            prime as int,
        ),
        exponent >= 1 && prime > 2 && prime % 4 != 3 && pow(prime as int, exponent as nat)
            <= u128::MAX ==> r == 0 || is_root(r as int, square as int, prime as int),
        exponent >= 1 && prime > 2 && is_prime_spec(prime as int) && sqrt_facts(prime as int)
            && euler_residue(square as int, prime as int) && square % prime != 0 && pow(
            prime as int,
            exponent as nat,
        ) <= u128::MAX ==> is_root(r as int, square as int, prime as int),
{
    if exponent == 0 {
        return 0;
    }
    let ghost other = prime > 2 && prime % 4 != 3 && pow(prime as int, exponent as nat)
        <= u128::MAX;
    let ghost cond = prime > 2 && (prime % 4 == 3 && euler_residue(square as int, prime as int) || (
    is_prime_spec(prime as int) && sqrt_facts(prime as int) && euler_residue(square as int, prime as int)
        && square % prime != 0)) && pow(prime as int, exponent as nat) <= u128::MAX;
    let mut it = OddPrime::new(square, prime);
    let first = it.next();
    let mut root = match first {
        Some(x) => x,
        None => 0,
    };
    proof {
        vstd::arithmetic::power::lemma_pow1(prime as int);
    }
    let mut k: u32 = 1;
    while k < exponent
        invariant
            1 <= k <= exponent,
            it.square == square,
            it.modulo == prime,
            it.current_power as int == pow(prime as int, k as nat),
            cond ==> prime > 2 && pow(prime as int, exponent as nat) <= u128::MAX,
            cond ==> is_root(it.last_root as int, square as int, prime as int),
            other ==> prime > 2 && prime % 4 != 3 && pow(prime as int, exponent as nat) <= u128::MAX,
            other ==> it.last_root == 0 || is_root(it.last_root as int, square as int, prime as int),
            root == it.last_root,
            it.current_power != 1 || prime == 1,
        decreases exponent - k,
    {
        let ghost before = it;
        proof {
            if prime >= 2 {
                vstd::arithmetic::power::lemma_pow_positive(prime as int, k as nat);
                vstd::arithmetic::power::lemma_pow_adds(prime as int, k as nat, 1);
                vstd::arithmetic::power::lemma_pow1(prime as int);
                vstd::arithmetic::power::lemma_pow_increases(prime as nat, (k + 1) as nat, exponent as nat);
                vstd::arithmetic::power::lemma_pow_increases(prime as nat, 1, k as nat);
                assert(pow(prime as int, k as nat) % (prime as int) == 0) by {
                    vstd::arithmetic::power::lemma_pow_adds(prime as int, (k - 1) as nat, 1);
                    vstd::arithmetic::div_mod::lemma_mod_multiples_basic(pow(prime as int, (k - 1) as nat), prime as int);
                }
                assert(pow(prime as int, k as nat) >= 1);
                assert(pow(prime as int, (k + 1) as nat) == pow(prime as int, k as nat) * prime);
                assert(pow(prime as int, (k + 1) as nat) >= 2) by (nonlinear_arith)
                    requires
                        pow(prime as int, (k + 1) as nat) == pow(prime as int, k as nat) * prime,
                        pow(prime as int, k as nat) >= 1,
                        prime >= 2,
                ;
                assert(pow(prime as int, (k + 1) as nat) >= prime) by (nonlinear_arith)
                    requires
                        pow(prime as int, (k + 1) as nat) == pow(prime as int, k as nat) * prime,
                        pow(prime as int, k as nat) >= 1,
                        prime >= 2,
                ;
            }
        }
        match it.next() {
            Some(x) => {
                root = x;
            },
            None => {
                proof {
                    if cond {
                        assert(false);
                    }
                }
                return root;
            },
        }
        proof {
            if prime >= 2 {
                assert(it.current_power as int == pow(prime as int, (k + 1) as nat));
            } else if prime == 1 {
                vstd::arithmetic::power::lemma1_pow((k + 1) as nat);
                vstd::arithmetic::power::lemma1_pow(k as nat);
                assert(before.current_power == 1);
                assert(it.current_power == 1);
            } else {
                vstd::arithmetic::power::lemma0_pow((k + 1) as nat);
                vstd::arithmetic::power::lemma0_pow(k as nat);
                assert(before.current_power == 0);
                assert(it.current_power == 0);
            }
        }
        k = k + 1;
    }
    root
}

fn insert_unique_sorted128(v: &mut Vec<u128>, x: u128)
    requires
        forall|i: int, j: int| 0 <= i < j < old(v)@.len() ==> old(v)@[i] < old(v)@[j],
    ensures
        forall|i: int, j: int| 0 <= i < j < final(v)@.len() ==> final(v)@[i] < final(v)@[j],
        forall|y: u128| #[trigger] final(v)@.contains(y) <==> (old(v)@.contains(y) || y == x),
{
    let ghost s = v@;
    let mut i: usize = 0;
    while i < v.len() && v[i] < x
        invariant
            s == v@,
            i <= v@.len(),
            forall|k: int| 0 <= k < i ==> #[trigger] v@[k] < x,
        decreases v@.len() - i,
    {
        i = i + 1;
    }
    if i < v.len() && v[i] == x {
        return;
    }
    v.insert(i, x);
    proof {
        let t = v@;
        assert(t == s.insert(i as int, x));
        assert forall|a: int, b: int| 0 <= a < b < t.len() implies t[a] < t[b] by {
            if b < i {
            } else if a > i {
                assert(t[a] == s[a - 1]);
                assert(t[b] == s[b - 1]);
            } else if a == i {
                assert(t[b] == s[b - 1]);
                if b - 1 > i {
                    assert(s[i as int] < s[b - 1]);
                }
            } else if b == i {
            } else {
                assert(t[b] == s[b - 1]);
                assert(s[a] < s[b - 1]);
            }
        }
        assert forall|y: u128| #[trigger] t.contains(y) <==> (s.contains(y) || y == x) by {
            if t.contains(y) {
                let k = choose|k: int| 0 <= k < t.len() && t[k] == y;
                if k < i {
                    assert(s[k] == y);
                } else if k > i {
                    assert(s[k - 1] == y);
                }
            }
            if s.contains(y) {
                let k = choose|k: int| 0 <= k < s.len() && s[k] == y;
                if k < i {
                    assert(t[k] == y);
                } else {
                    assert(t[k + 1] == y);
                }
            }
            if y == x {
                assert(t[i as int] == x);
            }
        }
    }
}

fn copy_roots(v: &Vec<u128>) -> (r: Vec<u128>)
    ensures
        r@ == v@,
{
    let mut r: Vec<u128> = Vec::new();
    let mut i: usize = 0;
    while i < v.len()
        invariant
            i <= v@.len(),
            r@ == v@.subrange(0, i as int),
        decreases v@.len() - i,
    {
        r.push(v[i]);
        i = i + 1;
        proof {
            assert(r@ =~= v@.subrange(0, i as int));
        }
    }
    proof {
        assert(r@ =~= v@);
    }
    r
}

/// Every listed root is below `modulus` and squares to `square` modulo it.
pub open spec fn all_roots(roots: Seq<u128>, square: u128, modulus: u128) -> bool {
    forall|i: int|
        0 <= i < roots.len() ==> #[trigger] roots[i] < modulus && is_root(
            roots[i] as int,
            square as int,
            modulus as int,
        )
}

/// Every square root of `square` below `modulus` is listed.
pub open spec fn roots_listed(roots: Seq<u128>, square: u128, modulus: u128) -> bool {
    forall|x: u128| x < modulus && #[trigger] is_root(x as int, square as int, modulus as int) ==> roots.contains(x)
}

/// The list is in strictly increasing order.
pub open spec fn increasing128(s: Seq<u128>) -> bool {
    forall|i: int, j: int| 0 <= i < j < s.len() ==> s[i] < s[j]
}

/// A root modulo `2 h` reduces to a root modulo `h`.
proof fn lemma_root_reduces(x: int, s: int, h: int)
    requires
        h > 0,
        (x * x) % (2 * h) == s % (2 * h),
    ensures
        ((x % h) * (x % h)) % h == s % h,
{
    vstd::arithmetic::div_mod::lemma_mul_mod_noop(x, x, h);
    vstd::arithmetic::div_mod::lemma_mod_mod(x * x, h, 2);
    vstd::arithmetic::div_mod::lemma_mod_mod(s, h, 2);
    assert(h * 2 == 2 * h);
}

/// The square roots of `square` modulo `2, 4, 8, ...`, one power per step.
pub struct BinaryModulo {
    /// The number whose roots are sought.
    pub square: u128,
    /// The modulus of the last step; 1 before the first.
    pub current_power: u128,
    /// The roots of the last step, in increasing order.
    pub last_roots: Vec<u128>,
}

impl BinaryModulo {
    /// Starts the search for roots of `square`.
    pub fn new(square: u128) -> (r: Self)
        ensures
            r.square == square,
            r.current_power == 1,
            r.last_roots@.len() == 0,
    {
        Self { square, current_power: 1, last_roots: Vec::new() }
    }

    /// The roots modulo the next power of two: the candidates `x` and `x + P / 2` of each
    /// previous root `x`, kept where they square to `square` modulo the new power `P`.
    /// Modulo 4 the roots are `b` and `b + 2` with `b` the parity of `square`, which are
    /// roots when `square` is one. `None` once the power would pass `2^127`.
    pub fn next(&mut self) -> (r: Option<Vec<u128>>)
        requires
            old(self).current_power == 1 || old(self).current_power == 2 || (old(self).current_power >= 4 && old(self).current_power % 2 == 0 && forall|i: int|
                0 <= i < old(self).last_roots@.len() ==> #[trigger] old(self).last_roots@[i] < old(self).current_power),
            old(self).current_power >= 4 && (old(self).current_power != 4 || old(self).square % 4
                <= 1) ==> all_roots(old(self).last_roots@, old(self).square, old(self).current_power),
            old(self).current_power >= 4 ==> roots_listed(
                old(self).last_roots@,
                old(self).square,
                old(self).current_power,
            ) && increasing128(old(self).last_roots@),
        ensures
            final(self).square == old(self).square,
            old(self).current_power == 1 ==> final(self).current_power == 2,
            old(self).current_power == 2 ==> final(self).current_power == 4,
            old(self).current_power >= 4 && r is Some ==> final(self).current_power == 2 * old(self).current_power,
            old(self).current_power >= 4 && r is None ==> old(self).current_power
                >= 0x8000_0000_0000_0000_0000_0000_0000_0000,
            r matches Some(v) ==> v@ == final(self).last_roots@,
            old(self).current_power < 4 ==> r is Some,
            forall|i: int|
                0 <= i < final(self).last_roots@.len() ==> #[trigger] final(self).last_roots@[i]
                    < final(self).current_power,
            final(self).current_power != 4 || old(self).square % 4 <= 1 ==> all_roots(
                final(self).last_roots@,
                old(self).square,
                final(self).current_power,
            ),
            r is Some ==> roots_listed(final(self).last_roots@, old(self).square, final(self).current_power)
                && increasing128(final(self).last_roots@),
    {
        if self.current_power == 1 {
            self.current_power = 2;
            let mut roots: Vec<u128> = Vec::new();
            roots.push(self.square % 2);
            proof {
                let b = (self.square % 2) as int;
                assert(b * b == b) by (nonlinear_arith)
                    requires
                        0 <= b <= 1,
                ;
                vstd::arithmetic::div_mod::lemma_mod_twice(self.square as int, 2);
                assert forall|x: u128| x < 2 && #[trigger] is_root(x as int, self.square as int, 2) implies roots@.contains(x) by {
                    assert(x == 0 || x == 1);
                    assert(x as int * x as int == x as int) by (nonlinear_arith)
                        requires
                            x == 0 || x == 1,
                    ;
                    assert(roots@[0] == self.square % 2);
                }
            }
            self.last_roots = roots;
            return Some(copy_roots(&self.last_roots));
        }
        if self.current_power == 2 {
            self.current_power = 4;
            let bit: u128 = if self.square % 4 == 0 {
                0
            } else {
                1
            };
            let mut roots: Vec<u128> = Vec::new();
            roots.push(bit);
            roots.push(2 + bit);
            proof {
                if self.square % 4 <= 1 {
                    let b = bit as int;
                    assert(b * b == b) by (nonlinear_arith)
                        requires
                            0 <= b <= 1,
                    ;
                    assert((2 + b) * (2 + b) == b + 4 * (1 + b)) by (nonlinear_arith)
                        requires
                            0 <= b <= 1,
                    ;
                    vstd::arithmetic::div_mod::lemma_mod_multiples_vanish(1 + b, b, 4);
                    vstd::arithmetic::div_mod::lemma_small_mod(b as nat, 4);
                    assert(roots@[0] == bit);
                    assert(roots@[1] == 2 + bit);
                }
                assert forall|x: u128| x < 4 && #[trigger] is_root(x as int, self.square as int, 4) implies roots@.contains(x) by {
                    assert(roots@[0] == bit);
                    assert(roots@[1] == 2 + bit);
                    let sq = x as int * x as int;
                    if x == 0 {
                        assert(sq == 0);
                        assert(roots@[0] == x);
                    } else if x == 1 {
                        assert(sq == 1);
                        assert(roots@[0] == x);
                    } else if x == 2 {
                        assert(sq == 4);
                        assert(roots@[1] == x);
                    } else {
                        assert(sq == 9) by (nonlinear_arith)
                            requires
                                x == 3,
                                sq == x as int * x as int,
                        ;
                        assert(roots@[1] == x);
                    }
                }
            }
            self.last_roots = roots;
            return Some(copy_roots(&self.last_roots));
        }
        if self.current_power >= 0x8000_0000_0000_0000_0000_0000_0000_0000 {
            return None;
        }
        let half = self.current_power;
        let power = half * 2;
        let round_square = self.square % power;
        let mut roots: Vec<u128> = Vec::new();
        let mut i: usize = 0;
        while i < self.last_roots.len()
            invariant
                power == 2 * half,
                half >= 4,
                half == self.current_power,
                power <= 0x1_0000_0000_0000_0000_0000_0000_0000_0000 - 1,
                round_square == self.square % power,
                i <= self.last_roots@.len(),
                forall|k: int| 0 <= k < self.last_roots@.len() ==> #[trigger] self.last_roots@[k] < half,
                forall|a: int, b: int| 0 <= a < b < roots@.len() ==> roots@[a] < roots@[b],
                all_roots(roots@, self.square, power),
                forall|j: int|
                    0 <= j < i ==> (is_root(self.last_roots@[j] as int, self.square as int, power as int)
                        ==> roots@.contains(#[trigger] self.last_roots@[j])) && (is_root(
                        self.last_roots@[j] + half,
                        self.square as int,
                        power as int,
                    ) ==> roots@.contains((self.last_roots@[j] + half) as u128)),
            decreases self.last_roots@.len() - i,
        {
            let x = self.last_roots[i];
            let y = x + half;
            let ghost before = roots@;
            let ghost at_start = roots@;
            if mul_mod_u128(x, x, power) == round_square {
                proof {
                    vstd::arithmetic::div_mod::lemma_mod_twice(self.square as int, power as int);
                }
                insert_unique_sorted128(&mut roots, x);
                proof {
                    assert forall|k: int| 0 <= k < roots@.len() implies #[trigger] roots@[k] < power
                        && is_root(roots@[k] as int, self.square as int, power as int) by {
                        assert(roots@.contains(roots@[k]));
                        if roots@[k] != x {
                            assert(before.contains(roots@[k]));
                            let j = choose|j: int| 0 <= j < before.len() && before[j] == roots@[k];
                        }
                    }
                }
            }
            let ghost mid = roots@;
            if mul_mod_u128(y, y, power) == round_square {
                proof {
                    vstd::arithmetic::div_mod::lemma_mod_twice(self.square as int, power as int);
                }
                insert_unique_sorted128(&mut roots, y);
                proof {
                    assert forall|k: int| 0 <= k < roots@.len() implies #[trigger] roots@[k] < power
                        && is_root(roots@[k] as int, self.square as int, power as int) by {
                        assert(roots@.contains(roots@[k]));
                        if roots@[k] != y {
                            assert(mid.contains(roots@[k]));
                            let j = choose|j: int| 0 <= j < mid.len() && mid[j] == roots@[k];
                        }
                    }
                }
            }
            proof {
                let t = roots@;
                assert forall|j: int| 0 <= j < i + 1 implies (is_root(
                    self.last_roots@[j] as int,
                    self.square as int,
                    power as int,
                ) ==> t.contains(#[trigger] self.last_roots@[j])) && (is_root(
                    self.last_roots@[j] + half,
                    self.square as int,
                    power as int,
                ) ==> t.contains((self.last_roots@[j] + half) as u128)) by {
                    vstd::arithmetic::div_mod::lemma_mod_twice(self.square as int, power as int);
                    if j < i {
                        if at_start.contains(self.last_roots@[j]) {
                            let q = choose|q: int| 0 <= q < at_start.len() && at_start[q] == self.last_roots@[j];
                            assert(mid.contains(at_start[q]));
                            assert(t.contains(at_start[q]));
                        }
                        let z = (self.last_roots@[j] + half) as u128;
                        if at_start.contains(z) {
                            let q = choose|q: int| 0 <= q < at_start.len() && at_start[q] == z;
                            assert(mid.contains(at_start[q]));
                            assert(t.contains(at_start[q]));
                        }
                    } else {
                        if mid.contains(x) {
                            assert(t.contains(x));
                        }
                    }
                }
            }
            i = i + 1;
        }
        proof {
            assert forall|z: u128| z < power && #[trigger] is_root(z as int, self.square as int, power as int) implies roots@.contains(z) by {
                lemma_root_reduces(z as int, self.square as int, half as int);
                let w = (z % half) as u128;
                assert(is_root(w as int, self.square as int, half as int));
                assert(self.last_roots@.contains(w));
                let j = choose|j: int| 0 <= j < self.last_roots@.len() && self.last_roots@[j] == w;
                assert(self.last_roots@[j] == w);
                if z < half {
                    vstd::arithmetic::div_mod::lemma_small_mod(z as nat, half as nat);
                    assert(z == w);
                } else {
                    vstd::arithmetic::div_mod::lemma_small_mod((z - half) as nat, half as nat);
                    vstd::arithmetic::div_mod::lemma_mod_sub_multiples_vanish(z as int, half as int);
                    assert(z == w + half);
                    assert(is_root(self.last_roots@[j] + half, self.square as int, power as int));
                }
            }
        }
        self.current_power = power;
        self.last_roots = roots;
        Some(copy_roots(&self.last_roots))
    }
}

/// All the square roots of `square` modulo `2^exponent`, in increasing order; `[0]` for
/// exponent 0.
pub fn binary_power_mod_sqrt(square: u128, exponent: u32) -> (r: Vec<u128>)
    requires
        exponent <= 127,
        prime_power_residue(square as int, 2, exponent as int),
    ensures
        exponent == 0 ==> r@ == seq![0u128],
        exponent > 0 ==> all_roots(r@, square, pow2(exponent as nat) as u128),
        exponent > 0 ==> roots_listed(r@, square, pow2(exponent as nat) as u128),
        increasing128(r@),
{
    if exponent == 0 {
        let mut v: Vec<u128> = Vec::new();
        v.push(0);
        proof {
            assert(v@ =~= seq![0u128]);
        }
        return v;
    }
    let mut it = BinaryModulo::new(square);
    let mut roots: Vec<u128> = Vec::new();
    let mut k: u32 = 0;
    proof {
        vstd::arithmetic::power2::lemma2_to64();
    }
    while k < exponent
        invariant
            k <= exponent,
            exponent <= 127,
            prime_power_residue(square as int, 2, exponent as int),
            it.square == square,
            it.current_power as int == pow2(k as nat),
            forall|i: int| 0 <= i < it.last_roots@.len() ==> #[trigger] it.last_roots@[i] < it.current_power,
            k > 0 ==> roots@ == it.last_roots@,
            k > 0 && (it.current_power != 4 || square % 4 <= 1) ==> all_roots(roots@, square, it.current_power),
            k > 0 ==> roots_listed(it.last_roots@, square, it.current_power) && increasing128(it.last_roots@),
        decreases exponent - k,
    {
        proof {
            vstd::arithmetic::power2::lemma2_to64();
            if k >= 2 {
                vstd::arithmetic::power2::lemma_pow2_adds(2, (k - 2) as nat);
                vstd::arithmetic::power2::lemma_pow2_pos((k - 2) as nat);
                vstd::arithmetic::power2::lemma_pow2_strictly_increases(k as nat, 127);
                vstd::arithmetic::power2::lemma2_to64_rest();
                vstd::arithmetic::power2::lemma_pow2_adds(64, 63);
                vstd::arithmetic::power2::lemma_pow2_adds(1, (k - 1) as nat);
            }
        }
        let step = it.next();
        match step {
            Some(v) => {
                roots = v;
            },
            None => {
                proof {
                    assert(false);
                }
            },
        }
        proof {
            vstd::arithmetic::power2::lemma_pow2_adds(k as nat, 1);
        }
        k = k + 1;
    }
    proof {
        if exponent == 2 {
            assert(square <= 1 || square % 4 <= 1);
        }
    }
    roots
}

} // verus!
