//! Mathematical vocabulary shared by the whole library, and modular arithmetic on
//! `u64` and `u128`.
use twoword::TwoWord;
use vstd::arithmetic::div_mod::{lemma_add_mod_noop, lemma_mul_mod_noop_general};
use vstd::arithmetic::power::{
    lemma_pow0, lemma_pow1, lemma_pow_adds, lemma_pow_mod_noop, lemma_pow_multiplies,
    lemma_square_is_pow2, pow,
};
use vstd::prelude::*;

verus! {

/// `d` is a nonzero divisor of `n`.
pub open spec fn divides(d: int, n: int) -> bool {
    d != 0 && n % d == 0
}

/// `n` is a prime number.
pub open spec fn is_prime_spec(n: int) -> bool {
    n >= 2 && forall|d: int| 2 <= d < n ==> !#[trigger] divides(d, n)
}

/// Product of a sequence of factors.
pub open spec fn product32(s: Seq<u32>) -> int
    decreases s.len(),
{
    if s.len() == 0 {
        1
    } else {
        product32(s.drop_last()) * s.last()
    }
}

/// Product of a sequence of factors.
pub open spec fn product64(s: Seq<u64>) -> int
    decreases s.len(),
{
    if s.len() == 0 {
        1
    } else {
        product64(s.drop_last()) * s.last()
    }
}

/// Product of a sequence of factors.
pub open spec fn product128(s: Seq<u128>) -> int
    decreases s.len(),
{
    if s.len() == 0 {
        1
    } else {
        product128(s.drop_last()) * s.last()
    }
}

/// The sequence is in non-decreasing order.
pub open spec fn sorted32(s: Seq<u32>) -> bool {
    forall|i: int, j: int| 0 <= i < j < s.len() ==> s[i] <= s[j]
}

/// The sequence is in non-decreasing order.
pub open spec fn sorted64(s: Seq<u64>) -> bool {
    forall|i: int, j: int| 0 <= i < j < s.len() ==> s[i] <= s[j]
}

/// The sequence is in non-decreasing order.
pub open spec fn sorted128(s: Seq<u128>) -> bool {
    forall|i: int, j: int| 0 <= i < j < s.len() ==> s[i] <= s[j]
}

pub proof fn lemma_product32_push(s: Seq<u32>, x: u32)
    ensures
        product32(s.push(x)) == product32(s) * x,
{
    assert(s.push(x).drop_last() =~= s);
}

pub proof fn lemma_product64_push(s: Seq<u64>, x: u64)
    ensures
        product64(s.push(x)) == product64(s) * x,
{
    assert(s.push(x).drop_last() =~= s);
}

pub proof fn lemma_product128_push(s: Seq<u128>, x: u128)
    ensures
        product128(s.push(x)) == product128(s) * x,
{
    assert(s.push(x).drop_last() =~= s);
}

/// Divisibility is transitive.
pub proof fn lemma_divides_trans(a: int, b: int, c: int)
    requires
        a > 0,
        b > 0,
        divides(a, b),
        divides(b, c),
    ensures
        divides(a, c),
{
    vstd::arithmetic::div_mod::lemma_fundamental_div_mod(b, a);
    vstd::arithmetic::div_mod::lemma_fundamental_div_mod(c, b);
    let k = b / a;
    let l = c / b;
    assert(c == a * (k * l)) by (nonlinear_arith)
        requires
            b == a * k + 0,
            c == b * l + 0,
    ;
    vstd::arithmetic::div_mod::lemma_mod_multiples_basic(k * l, a);
    assert((k * l) * a == a * (k * l)) by (nonlinear_arith);
}

/// `n >= 2` with no divisor in `[2, s]`, where `(s + 1)^2 > n`, is prime.
pub proof fn lemma_prime_by_root(n: int, s: int)
    requires
        n >= 2,
        s >= 0,
        (s + 1) * (s + 1) > n,
        forall|d: int| 2 <= d <= s ==> !#[trigger] divides(d, n),
    ensures
        is_prime_spec(n),
{
    assert forall|d: int| 2 <= d < n implies !#[trigger] divides(d, n) by {
        if divides(d, n) && d > s {
            vstd::arithmetic::div_mod::lemma_fundamental_div_mod(n, d);
            let e = n / d;
            assert(n == d * e);
            assert(e >= 2) by (nonlinear_arith)
                requires
                    n == d * e,
                    d < n,
                    d >= 2,
            ;
            assert(e <= s) by (nonlinear_arith)
                requires
                    n == d * e,
                    d >= s + 1,
                    (s + 1) * (s + 1) > n,
                    e >= 0,
                    s >= 0,
            ;
            vstd::arithmetic::div_mod::lemma_mod_multiples_basic(d, e);
            assert(divides(e, n));
        }
    }
}

/// Modular exponentiation `base^exponent mod modulus`.
pub open spec fn pow_mod(base: int, exponent: nat, modulus: int) -> int {
    pow(base, exponent) % modulus
}

/// `2^128` as an integer.
pub open spec fn word128() -> int {
    u128::MAX as int + 1
}

proof fn lemma_pow_halve(b: int, e: nat)
    ensures
        pow(b, e) == pow(b * b, e / 2) * (if e % 2 == 1 { b } else { 1 }),
{
    lemma_square_is_pow2(b);
    lemma_pow_multiplies(b, 2, e / 2);
    lemma_pow_adds(b, 2 * (e / 2), e % 2);
    lemma_pow0(b);
    lemma_pow1(b);
    assert(2 * (e / 2) + e % 2 == e);
}

/// One step of square-and-multiply keeps `result * b^e` unchanged modulo `m`.
proof fn lemma_square_multiply_step(result: int, b: int, e: nat, m: int)
    requires
        m > 0,
        e > 0,
    ensures
        ((if e % 2 == 1 { (result * b) % m } else { result }) * pow((b * b) % m, e / 2)) % m
            == (result * pow(b, e)) % m,
{
    lemma_pow_halve(b, e);
    let r1 = if e % 2 == 1 { result * b } else { result };
    let p = pow(b * b, e / 2);
    lemma_pow_mod_noop(b * b, e / 2, m);
    lemma_mul_mod_noop_general(r1, p, m);
    lemma_mul_mod_noop_general(r1, pow((b * b) % m, e / 2), m);
    if e % 2 == 1 {
        assert(result * pow(b, e) == r1 * p) by {
            assert(pow(b, e) == p * b);
            assert(result * (p * b) == (result * b) * p) by (nonlinear_arith);
        }
    } else {
        assert(pow(b, e) == p * 1);
    }
}

/// `(a * b) mod modulus`.
pub fn mul_mod_u64(a: u64, b: u64, modulus: u64) -> (r: u64)
    requires
        modulus > 0,
    ensures
        r as int == (a as int * b as int) % (modulus as int),
        r < modulus,
{
    assert(a as int * b as int <= 0xffff_ffff_ffff_ffff * 0xffff_ffff_ffff_ffff) by (nonlinear_arith)
        requires a <= 0xffff_ffff_ffff_ffff, b <= 0xffff_ffff_ffff_ffff;
    let p: u128 = (a as u128) * (b as u128);
    (p % (modulus as u128)) as u64
}

/// `base^exponent mod modulus`, by square-and-multiply.
pub fn pow_mod_u64(base: u64, exponent: u64, modulus: u64) -> (r: u64)
    requires
        modulus > 0,
    ensures
        r as int == pow_mod(base as int, exponent as nat, modulus as int),
        r < modulus,
{
    let ghost m = modulus as int;
    let mut result: u64 = 1 % modulus;
    let mut b: u64 = base % modulus;
    let mut e: u64 = exponent;
    proof {
        lemma_pow_mod_noop(base as int, exponent as nat, m);
        lemma_mul_mod_noop_general(1, pow(b as int, e as nat), m);
    }
    while e > 0
        invariant
            modulus > 0,
            m == modulus as int,
            result < modulus,
            b < modulus,
            (result as int * pow(b as int, e as nat)) % m == pow(base as int, exponent as nat) % m,
        decreases e,
    {
        proof {
            lemma_square_multiply_step(result as int, b as int, e as nat, m);
        }
        if e % 2 == 1 {
            result = mul_mod_u64(result, b, modulus);
        }
        b = mul_mod_u64(b, b, modulus);
        e = e / 2;
    }
    proof {
        lemma_pow0(b as int);
        vstd::arithmetic::div_mod::lemma_small_mod(result as nat, modulus as nat);
    }
    result
}

/// `(x + y) mod modulus` for reduced operands, without overflow.
pub fn add_mod_u128(x: u128, y: u128, modulus: u128) -> (r: u128)
    requires
        x < modulus,
        y < modulus,
    ensures
        r as int == (x as int + y as int) % (modulus as int),
        r < modulus,
{
    if x >= modulus - y {
        let r = x - (modulus - y);
        proof {
            vstd::arithmetic::div_mod::lemma_mod_sub_multiples_vanish(x as int + y as int, modulus as int);
            vstd::arithmetic::div_mod::lemma_small_mod(r as nat, modulus as nat);
        }
        r
    } else {
        proof {
            vstd::arithmetic::div_mod::lemma_small_mod((x + y) as nat, modulus as nat);
        }
        x + y
    }
}

/// Relies on twoword's `TwoWord::mult`: the full product of two `u128` values as a high and
/// a low word.
#[verifier::external_body]
fn wide_mul(a: u128, b: u128) -> (r: (u128, u128))
    ensures
        r.0 as int * word128() + r.1 as int == a as int * b as int,
{
    let w = TwoWord::mult(a, b);
    (w.higher, w.lower)
}

/// `(a * b) mod modulus`: the double-width product, reduced by doubling the high word
/// 128 times modulo `modulus`.
pub fn mul_mod_u128(a: u128, b: u128, modulus: u128) -> (r: u128)
    requires
        modulus > 0,
    ensures
        r as int == (a as int * b as int) % (modulus as int),
        r < modulus,
{
    if a <= 0xffff_ffff_ffff_ffff && b <= 0xffff_ffff_ffff_ffff {
        assert(a as int * b as int <= 0xffff_ffff_ffff_ffff * 0xffff_ffff_ffff_ffff) by (nonlinear_arith)
            requires
                a <= 0xffff_ffff_ffff_ffff,
                b <= 0xffff_ffff_ffff_ffff,
                a >= 0,
                b >= 0,
        ;
        return (a * b) % modulus;
    }
    let ghost m = modulus as int;
    let (hi, lo) = wide_mul(a, b);
    let mut r: u128 = hi % modulus;
    let mut i: u32 = 0;
    proof {
        vstd::arithmetic::power2::lemma2_to64();
    }
    while i < 128
        invariant
            modulus > 0,
            m == modulus as int,
            r < modulus,
            i <= 128,
            r as int == (hi as int * vstd::arithmetic::power2::pow2(i as nat)) % m,
        decreases 128 - i,
    {
        let ghost old_r = r;
        r = add_mod_u128(r, r, modulus);
        proof {
            let p = vstd::arithmetic::power2::pow2(i as nat) as int;
            vstd::arithmetic::power2::lemma_pow2_adds(i as nat, 1);
            vstd::arithmetic::power2::lemma2_to64();
            lemma_add_mod_noop(hi as int * p, hi as int * p, m);
            assert(hi as int * p + hi as int * p == hi as int * (p * 2)) by (nonlinear_arith);
        }
        i = i + 1;
    }
    proof {
        vstd::arithmetic::power2::lemma2_to64_rest();
        assert(vstd::arithmetic::power2::pow2(128) == word128()) by {
            vstd::arithmetic::power2::lemma_pow2_adds(64, 64);
            vstd::arithmetic::power2::lemma2_to64();
        }
        vstd::arithmetic::div_mod::lemma_small_mod(lo as nat % modulus as nat, modulus as nat);
        lemma_add_mod_noop(hi as int * word128(), lo as int, m);
    }
    add_mod_u128(r, lo % modulus, modulus)
}

/// `base^exponent mod modulus`, by square-and-multiply.
pub fn pow_mod_u128(base: u128, exponent: u128, modulus: u128) -> (r: u128)
    requires
        modulus > 0,
    ensures
        r as int == pow_mod(base as int, exponent as nat, modulus as int),
        r < modulus,
{
    let ghost m = modulus as int;
    let mut result: u128 = 1 % modulus;
    let mut b: u128 = base % modulus;
    let mut e: u128 = exponent;
    proof {
        lemma_pow_mod_noop(base as int, exponent as nat, m);
        lemma_mul_mod_noop_general(1, pow(b as int, e as nat), m);
    }
    while e > 0
        invariant
            modulus > 0,
            m == modulus as int,
            result < modulus,
            b < modulus,
            (result as int * pow(b as int, e as nat)) % m == pow(base as int, exponent as nat) % m,
        decreases e,
    {
        proof {
            lemma_square_multiply_step(result as int, b as int, e as nat, m);
        }
        if e % 2 == 1 {
            result = mul_mod_u128(result, b, modulus);
        }
        b = mul_mod_u128(b, b, modulus);
        e = e / 2;
    }
    proof {
        lemma_pow0(b as int);
        vstd::arithmetic::div_mod::lemma_small_mod(result as nat, modulus as nat);
    }
    result
}

} // verus!
