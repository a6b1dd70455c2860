//! Trial division by 2, 3, 5 and then by the wheel `6k + 1`, `6k + 5`.
use crate::arith::{divides, is_prime_spec, lemma_divides_trans, lemma_prime_by_root, lemma_product128_push, lemma_product32_push, lemma_product64_push, product128, product32, product64, sorted128, sorted32, sorted64};
use crate::util::{is_isqrt, NumUtil};
use vstd::prelude::*;

verus! {

/// `n` has no divisor in `[2, c]`.
pub open spec fn no_divisor_upto(n: int, c: int) -> bool {
    forall|d: int| 2 <= d <= c ==> !#[trigger] divides(d, n)
}

proof fn lemma_wheel_gap(n: int, d: int)
    requires
        n >= 1,
        !divides(2, n),
        !divides(3, n),
        d >= 2,
        d % 6 == 0 || d % 6 == 2 || d % 6 == 3 || d % 6 == 4,
    ensures
        !divides(d, n),
{
    if divides(d, n) {
        if d % 2 == 0 {
            lemma_divides_trans(2, d, n);
        } else {
            lemma_divides_trans(3, d, n);
        }
    }
}

/// Find prime factors using trial division.
pub trait TrialDivision: Sized {
    /// Returns the factors of `self` up to `inclusive_bound`, and whether the list is complete.
    ///
    /// The last element may not be prime, except when the second element of the tuple is true.
    fn trial_division(self, inclusive_bound: &Self) -> (Vec<Self>, bool);

    /// Tries every candidate up to the square root of `self`.
    fn exhaustive_trial_division(self) -> Vec<Self>;
}

/// Every element of the sequence is prime.
pub open spec fn all_prime32(s: Seq<u32>) -> bool {
    forall|i: int| 0 <= i < s.len() ==> is_prime_spec(#[trigger] s[i] as int)
}

/// What trial division of `n` with bound `bound` returns: the factors multiply to `n` in
/// non-decreasing order; when `exhaustive` they are all prime, otherwise all but the last
/// are, and the last (a residue above 1) exceeds `bound` and has no divisor in `[2, bound]`.
pub open spec fn trial_result32(n: int, bound: int, factors: Seq<u32>, exhaustive: bool) -> bool {
    &&& product32(factors) == n
    &&& sorted32(factors)
    &&& exhaustive ==> all_prime32(factors)
    &&& !exhaustive ==> {
        &&& factors.len() >= 1
        &&& all_prime32(factors.drop_last())
        &&& factors.last() > 1
        &&& factors.last() > bound
        &&& no_divisor_upto(factors.last() as int, bound)
    }
}

/// Removes every factor `f` from `n`, appending one `f` per division.
fn divide_out32(n: &mut u32, f: u32, result: &mut Vec<u32>) -> (changed: bool)
    requires
        f >= 2,
        *old(n) >= 1,
        no_divisor_upto(*old(n) as int, f - 1),
        forall|i: int| 0 <= i < old(result)@.len() ==> #[trigger] old(result)@[i] <= f,
    ensures
        *final(n) >= 1,
        divides(*final(n) as int, *old(n) as int),
        !divides(f as int, *final(n) as int),
        product32(final(result)@) * *final(n) == product32(old(result)@) * *old(n),
        final(result)@.len() >= old(result)@.len(),
        final(result)@.subrange(0, old(result)@.len() as int) == old(result)@,
        forall|i: int| old(result)@.len() <= i < final(result)@.len() ==> #[trigger] final(result)@[i] == f,
        forall|i: int| old(result)@.len() <= i < final(result)@.len() ==> is_prime_spec(
            #[trigger] final(result)@[i] as int,
        ),
        changed == (*final(n) != *old(n)),
        forall|i: int| 0 <= i < final(result)@.len() ==> #[trigger] final(result)@[i] <= f,
        all_prime32(old(result)@) ==> all_prime32(final(result)@),
        sorted32(old(result)@) ==> sorted32(final(result)@),
{
    let ghost n0 = *n;
    let ghost r0 = result@;
    let mut changed = false;
    proof {
        vstd::arithmetic::div_mod::lemma_mod_multiples_basic(1, n0 as int);
    }
    while *n % f == 0
        invariant
            f >= 2,
            *n >= 1,
            divides(*n as int, n0 as int),
            no_divisor_upto(n0 as int, f - 1),
            product32(result@) * *n == product32(r0) * n0,
            result@.len() >= r0.len(),
            result@.subrange(0, r0.len() as int) == r0,
            forall|i: int| r0.len() <= i < result@.len() ==> #[trigger] result@[i] == f,
            forall|i: int| r0.len() <= i < result@.len() ==> is_prime_spec(#[trigger] result@[i] as int),
            changed == (*n != n0),
            n0 >= 1,
            forall|i: int| 0 <= i < r0.len() ==> #[trigger] r0[i] <= f,
            forall|i: int| 0 <= i < result@.len() ==> #[trigger] result@[i] <= f,
            all_prime32(r0) ==> all_prime32(result@),
            sorted32(r0) ==> sorted32(result@),
        decreases *n,
    {
        let ghost before = *n;
        proof {
            // f divides n0 and has no smaller divisor, so f is prime
            assert(divides(f as int, *n as int));
            lemma_divides_trans(f as int, *n as int, n0 as int);
            assert forall|d: int| 2 <= d < f implies !#[trigger] divides(d, f as int) by {
                if divides(d, f as int) {
                    lemma_divides_trans(d, f as int, n0 as int);
                }
            }
            vstd::arithmetic::div_mod::lemma_fundamental_div_mod(*n as int, f as int);
            lemma_product32_push(result@, f);
            crate::util::lemma_divisor_le(before as int, n0 as int);
        }
        let ghost rb = result@;
        result.push(f);
        *n = *n / f;
        changed = true;
        proof {
            let q = *n as int;
            assert(before == f * q);
            assert(q >= 1 && q < before) by (nonlinear_arith)
                requires
                    before == f * q,
                    f >= 2,
                    before >= 1,
            ;
            vstd::arithmetic::div_mod::lemma_mod_multiples_basic(f as int, q);
            assert(divides(q, before as int)) by {
                assert((f as int * q) % q == 0) by {
                    assert(f as int * q == q * f) by (nonlinear_arith);
                    vstd::arithmetic::div_mod::lemma_mod_multiples_basic(f as int, q);
                }
            }
            lemma_divides_trans(q, before as int, n0 as int);
            assert(product32(result@) * q == product32(rb) * before) by {
                assert(product32(result@) == product32(rb) * f);
                assert(product32(rb) * f * q == product32(rb) * (f * q)) by (nonlinear_arith);
            }
            assert(result@.subrange(0, r0.len() as int) =~= r0);
            assert forall|i: int| 0 <= i < result@.len() implies #[trigger] result@[i] <= f by {
                if i < rb.len() {
                    assert(result@[i] == rb[i]);
                }
            }
            if all_prime32(r0) {
                assert forall|i: int| 0 <= i < result@.len() implies is_prime_spec(#[trigger] result@[i] as int) by {
                    if i < rb.len() {
                        assert(result@[i] == rb[i]);
                    }
                }
            }
            if sorted32(r0) {
                assert forall|i: int, j: int| 0 <= i < j < result@.len() implies result@[i] <= result@[j] by {
                    if j < rb.len() {
                        assert(result@[i] == rb[i]);
                        assert(result@[j] == rb[j]);
                    } else {
                        assert(result@[i] <= f);
                    }
                }
            }
        }
    }
    changed
}

impl TrialDivision for u32 {
    fn trial_division(self, inclusive_bound: &u32) -> (r: (Vec<u32>, bool))
        ensures
            self >= 1 ==> trial_result32(self as int, *inclusive_bound as int, r.0@, r.1),
            self >= 1 && !r.1 ==> *inclusive_bound < self,
    {
        let mut n = self;
        let mut result: Vec<u32> = Vec::new();
        if n == 0 {
            return (result, false);
        }
        divide_out32(&mut n, 2, &mut result);
        let ghost n2 = n;
        divide_out32(&mut n, 3, &mut result);
        proof {
            if divides(2, n as int) {
                lemma_divides_trans(2, n as int, n2 as int);
            }
            assert forall|d: int| 2 <= d <= 4 implies !#[trigger] divides(d, n as int) by {
                if d == 4 {
                    lemma_wheel_gap(n as int, 4);
                }
            }
        }
        let ghost n3 = n;
        divide_out32(&mut n, 5, &mut result);
        proof {
            if divides(2, n as int) {
                lemma_divides_trans(2, n as int, n3 as int);
            }
            if divides(3, n as int) {
                lemma_divides_trans(3, n as int, n3 as int);
            }
            crate::util::lemma_divisor_le(n as int, n3 as int);
            crate::util::lemma_divisor_le(n3 as int, n2 as int);
            crate::util::lemma_divisor_le(n2 as int, self as int);
        }
        let mut max_possible_factor = n.integer_square_root();
        let mut current_factor: u32 = 6;
        proof {
            assert forall|d: int| 2 <= d <= 6 implies !#[trigger] divides(d, n as int) by {
                if d == 6 || d == 4 {
                    lemma_wheel_gap(n as int, d);
                }
            }
        }
        loop
            invariant
                n >= 1,
                n <= self,
                product32(result@) * n == self,
                sorted32(result@),
                all_prime32(result@),
                forall|i: int| 0 <= i < result@.len() ==> #[trigger] result@[i] < current_factor,
                current_factor % 6 == 0,
                6 <= current_factor <= 0x1_0006,
                no_divisor_upto(n as int, current_factor as int),
                is_isqrt(max_possible_factor as int, n as int),
            decreases u32::MAX - current_factor,
        {
            let ghost n_start = n;
            let f1 = current_factor + 1;
            let changed1 = divide_out32(&mut n, f1, &mut result);
            proof {
                assert forall|d: int| 2 <= d <= current_factor + 4 implies !#[trigger] divides(d, n as int) by {
                    if d <= current_factor {
                        if divides(d, n as int) {
                            lemma_divides_trans(d, n as int, n_start as int);
                        }
                    } else if d > current_factor + 1 {
                        if divides(2, n as int) {
                            lemma_divides_trans(2, n as int, n_start as int);
                        }
                        if divides(3, n as int) {
                            lemma_divides_trans(3, n as int, n_start as int);
                        }
                        lemma_wheel_gap(n as int, d);
                    }
                }
            }
            let ghost n_mid = n;
            let f5 = current_factor + 5;
            let changed5 = divide_out32(&mut n, f5, &mut result);
            proof {
                assert forall|d: int| 2 <= d <= current_factor + 6 implies !#[trigger] divides(d, n as int) by {
                    if d <= current_factor + 4 {
                        if divides(d, n as int) {
                            lemma_divides_trans(d, n as int, n_mid as int);
                        }
                    } else if d == current_factor + 6 {
                        if divides(2, n as int) {
                            lemma_divides_trans(2, n as int, n_mid as int);
                        }
                        if divides(3, n as int) {
                            lemma_divides_trans(3, n as int, n_mid as int);
                        }
                        lemma_wheel_gap(n as int, d);
                    }
                }
                assert forall|i: int| 0 <= i < result@.len() implies #[trigger] result@[i] <= current_factor + 5 by {}
                crate::util::lemma_divisor_le(n as int, n_mid as int);
                crate::util::lemma_divisor_le(n_mid as int, n_start as int);
            }
            if n == 1 {
                proof {
                    assert(product32(result@) * 1 == product32(result@));
                }
                return (result, true);
            }
            if changed1 || changed5 {
                max_possible_factor = n.integer_square_root();
            }
            proof {
                // the residual has no divisor up to current_factor + 5, so it exceeds it
                if n <= current_factor + 5 {
                    vstd::arithmetic::div_mod::lemma_mod_self_0(n as int);
                    assert(divides(n as int, n as int));
                }
                let m = max_possible_factor as int;
                assert(m <= n) by (nonlinear_arith)
                    requires
                        m * m <= n,
                        m >= 0,
                ;
                assert(m < 0x1_0000) by (nonlinear_arith)
                    requires
                        m * m <= n,
                        n <= 0xffff_ffff,
                        m >= 0,
                ;
            }
            if current_factor > max_possible_factor {
                proof {
                    lemma_prime_by_root(n as int, max_possible_factor as int);
                    lemma_product32_push(result@, n);
                }
                result.push(n);
                proof {
                    assert(result@.drop_last() =~= result@.subrange(0, result@.len() - 1));
                }
                return (result, true);
            }
            if current_factor > *inclusive_bound {
                proof {
                    lemma_product32_push(result@, n);
                }
                let ghost before = result@;
                result.push(n);
                proof {
                    assert(result@.drop_last() =~= before);
                }
                return (result, false);
            }
            current_factor = current_factor + 6;
        }
    }

    fn exhaustive_trial_division(self) -> (r: Vec<u32>)
        ensures
            self >= 1 ==> product32(r@) == self && sorted32(r@) && all_prime32(r@),
    {
        self.trial_division(&self).0
    }
}


/// Every element of the sequence is prime.
pub open spec fn all_prime64(s: Seq<u64>) -> bool {
    forall|i: int| 0 <= i < s.len() ==> is_prime_spec(#[trigger] s[i] as int)
}

/// What trial division of `n` with bound `bound` returns: the factors multiply to `n` in
/// non-decreasing order; when `exhaustive` they are all prime, otherwise all but the last
/// are, and the last (a residue above 1) exceeds `bound` and has no divisor in `[2, bound]`.
pub open spec fn trial_result64(n: int, bound: int, factors: Seq<u64>, exhaustive: bool) -> bool {
    &&& product64(factors) == n
    &&& sorted64(factors)
    &&& exhaustive ==> all_prime64(factors)
    &&& !exhaustive ==> {
        &&& factors.len() >= 1
        &&& all_prime64(factors.drop_last())
        &&& factors.last() > 1
        &&& factors.last() > bound
        &&& no_divisor_upto(factors.last() as int, bound)
    }
}

/// Removes every factor `f` from `n`, appending one `f` per division.
fn divide_out64(n: &mut u64, f: u64, result: &mut Vec<u64>) -> (changed: bool)
    requires
        f >= 2,
        *old(n) >= 1,
        no_divisor_upto(*old(n) as int, f - 1),
        forall|i: int| 0 <= i < old(result)@.len() ==> #[trigger] old(result)@[i] <= f,
    ensures
        *final(n) >= 1,
        divides(*final(n) as int, *old(n) as int),
        !divides(f as int, *final(n) as int),
        product64(final(result)@) * *final(n) == product64(old(result)@) * *old(n),
        final(result)@.len() >= old(result)@.len(),
        final(result)@.subrange(0, old(result)@.len() as int) == old(result)@,
        forall|i: int| old(result)@.len() <= i < final(result)@.len() ==> #[trigger] final(result)@[i] == f,
        forall|i: int| old(result)@.len() <= i < final(result)@.len() ==> is_prime_spec(
            #[trigger] final(result)@[i] as int,
        ),
        changed == (*final(n) != *old(n)),
        forall|i: int| 0 <= i < final(result)@.len() ==> #[trigger] final(result)@[i] <= f,
        all_prime64(old(result)@) ==> all_prime64(final(result)@),
        sorted64(old(result)@) ==> sorted64(final(result)@),
{
    let ghost n0 = *n;
    let ghost r0 = result@;
    let mut changed = false;
    proof {
        vstd::arithmetic::div_mod::lemma_mod_multiples_basic(1, n0 as int);
    }
    while *n % f == 0
        invariant
            f >= 2,
            *n >= 1,
            divides(*n as int, n0 as int),
            no_divisor_upto(n0 as int, f - 1),
            product64(result@) * *n == product64(r0) * n0,
            result@.len() >= r0.len(),
            result@.subrange(0, r0.len() as int) == r0,
            forall|i: int| r0.len() <= i < result@.len() ==> #[trigger] result@[i] == f,
            forall|i: int| r0.len() <= i < result@.len() ==> is_prime_spec(#[trigger] result@[i] as int),
            changed == (*n != n0),
            n0 >= 1,
            forall|i: int| 0 <= i < r0.len() ==> #[trigger] r0[i] <= f,
            forall|i: int| 0 <= i < result@.len() ==> #[trigger] result@[i] <= f,
            all_prime64(r0) ==> all_prime64(result@),
            sorted64(r0) ==> sorted64(result@),
        decreases *n,
    {
        let ghost before = *n;
        proof {
            // f divides n0 and has no smaller divisor, so f is prime
            assert(divides(f as int, *n as int));
            lemma_divides_trans(f as int, *n as int, n0 as int);
            assert forall|d: int| 2 <= d < f implies !#[trigger] divides(d, f as int) by {
                if divides(d, f as int) {
                    lemma_divides_trans(d, f as int, n0 as int);
                }
            }
            vstd::arithmetic::div_mod::lemma_fundamental_div_mod(*n as int, f as int);
            lemma_product64_push(result@, f);
            crate::util::lemma_divisor_le(before as int, n0 as int);
        }
        let ghost rb = result@;
        result.push(f);
        *n = *n / f;
        changed = true;
        proof {
            let q = *n as int;
            assert(before == f * q);
            assert(q >= 1 && q < before) by (nonlinear_arith)
                requires
                    before == f * q,
                    f >= 2,
                    before >= 1,
            ;
            vstd::arithmetic::div_mod::lemma_mod_multiples_basic(f as int, q);
            assert(divides(q, before as int)) by {
                assert((f as int * q) % q == 0) by {
                    assert(f as int * q == q * f) by (nonlinear_arith);
                    vstd::arithmetic::div_mod::lemma_mod_multiples_basic(f as int, q);
                }
            }
            lemma_divides_trans(q, before as int, n0 as int);
            assert(product64(result@) * q == product64(rb) * before) by {
                assert(product64(result@) == product64(rb) * f);
                assert(product64(rb) * f * q == product64(rb) * (f * q)) by (nonlinear_arith);
            }
            assert(result@.subrange(0, r0.len() as int) =~= r0);
            assert forall|i: int| 0 <= i < result@.len() implies #[trigger] result@[i] <= f by {
                if i < rb.len() {
                    assert(result@[i] == rb[i]);
                }
            }
            if all_prime64(r0) {
                assert forall|i: int| 0 <= i < result@.len() implies is_prime_spec(#[trigger] result@[i] as int) by {
                    if i < rb.len() {
                        assert(result@[i] == rb[i]);
                    }
                }
            }
            if sorted64(r0) {
                assert forall|i: int, j: int| 0 <= i < j < result@.len() implies result@[i] <= result@[j] by {
                    if j < rb.len() {
                        assert(result@[i] == rb[i]);
                        assert(result@[j] == rb[j]);
                    } else {
                        assert(result@[i] <= f);
                    }
                }
            }
        }
    }
    changed
}

impl TrialDivision for u64 {
    fn trial_division(self, inclusive_bound: &u64) -> (r: (Vec<u64>, bool))
        ensures
            self >= 1 ==> trial_result64(self as int, *inclusive_bound as int, r.0@, r.1),
            self >= 1 && !r.1 ==> *inclusive_bound < self,
    {
        let mut n = self;
        let mut result: Vec<u64> = Vec::new();
        if n == 0 {
            return (result, false);
        }
        divide_out64(&mut n, 2, &mut result);
        let ghost n2 = n;
        divide_out64(&mut n, 3, &mut result);
        proof {
            if divides(2, n as int) {
                lemma_divides_trans(2, n as int, n2 as int);
            }
            assert forall|d: int| 2 <= d <= 4 implies !#[trigger] divides(d, n as int) by {
                if d == 4 {
                    lemma_wheel_gap(n as int, 4);
                }
            }
        }
        let ghost n3 = n;
        divide_out64(&mut n, 5, &mut result);
        proof {
            if divides(2, n as int) {
                lemma_divides_trans(2, n as int, n3 as int);
            }
            if divides(3, n as int) {
                lemma_divides_trans(3, n as int, n3 as int);
            }
            crate::util::lemma_divisor_le(n as int, n3 as int);
            crate::util::lemma_divisor_le(n3 as int, n2 as int);
            crate::util::lemma_divisor_le(n2 as int, self as int);
        }
        let mut max_possible_factor = n.integer_square_root();
        let mut current_factor: u64 = 6;
        proof {
            assert forall|d: int| 2 <= d <= 6 implies !#[trigger] divides(d, n as int) by {
                if d == 6 || d == 4 {
                    lemma_wheel_gap(n as int, d);
                }
            }
        }
        loop
            invariant
                n >= 1,
                n <= self,
                product64(result@) * n == self,
                sorted64(result@),
                all_prime64(result@),
                forall|i: int| 0 <= i < result@.len() ==> #[trigger] result@[i] < current_factor,
                current_factor % 6 == 0,
                6 <= current_factor <= 0x1_0000_0006,
                no_divisor_upto(n as int, current_factor as int),
                is_isqrt(max_possible_factor as int, n as int),
            decreases u64::MAX - current_factor,
        {
            let ghost n_start = n;
            let f1 = current_factor + 1;
            let changed1 = divide_out64(&mut n, f1, &mut result);
            proof {
                assert forall|d: int| 2 <= d <= current_factor + 4 implies !#[trigger] divides(d, n as int) by {
                    if d <= current_factor {
                        if divides(d, n as int) {
                            lemma_divides_trans(d, n as int, n_start as int);
                        }
                    } else if d > current_factor + 1 {
                        if divides(2, n as int) {
                            lemma_divides_trans(2, n as int, n_start as int);
                        }
                        if divides(3, n as int) {
                            lemma_divides_trans(3, n as int, n_start as int);
                        }
                        lemma_wheel_gap(n as int, d);
                    }
                }
            }
            let ghost n_mid = n;
            let f5 = current_factor + 5;
            let changed5 = divide_out64(&mut n, f5, &mut result);
            proof {
                assert forall|d: int| 2 <= d <= current_factor + 6 implies !#[trigger] divides(d, n as int) by {
                    if d <= current_factor + 4 {
                        if divides(d, n as int) {
                            lemma_divides_trans(d, n as int, n_mid as int);
                        }
                    } else if d == current_factor + 6 {
                        if divides(2, n as int) {
                            lemma_divides_trans(2, n as int, n_mid as int);
                        }
                        if divides(3, n as int) {
                            lemma_divides_trans(3, n as int, n_mid as int);
                        }
                        lemma_wheel_gap(n as int, d);
                    }
                }
                assert forall|i: int| 0 <= i < result@.len() implies #[trigger] result@[i] <= current_factor + 5 by {}
                crate::util::lemma_divisor_le(n as int, n_mid as int);
                crate::util::lemma_divisor_le(n_mid as int, n_start as int);
            }
            if n == 1 {
                proof {
                    assert(product64(result@) * 1 == product64(result@));
                }
                return (result, true);
            }
            if changed1 || changed5 {
                max_possible_factor = n.integer_square_root();
            }
            proof {
                // the residual has no divisor up to current_factor + 5, so it exceeds it
                if n <= current_factor + 5 {
                    vstd::arithmetic::div_mod::lemma_mod_self_0(n as int);
                    assert(divides(n as int, n as int));
                }
                let m = max_possible_factor as int;
                assert(m <= n) by (nonlinear_arith)
                    requires
                        m * m <= n,
                        m >= 0,
                ;
                assert(m < 0x1_0000_0000) by (nonlinear_arith)
                    requires
                        m * m <= n,
                        n <= 0xffff_ffff_ffff_ffff,
                        m >= 0,
                ;
            }
            if current_factor > max_possible_factor {
                proof {
                    lemma_prime_by_root(n as int, max_possible_factor as int);
                    lemma_product64_push(result@, n);
                }
                result.push(n);
                proof {
                    assert(result@.drop_last() =~= result@.subrange(0, result@.len() - 1));
                }
                return (result, true);
            }
            if current_factor > *inclusive_bound {
                proof {
                    lemma_product64_push(result@, n);
                }
                let ghost before = result@;
                result.push(n);
                proof {
                    assert(result@.drop_last() =~= before);
                }
                return (result, false);
            }
            current_factor = current_factor + 6;
        }
    }

    fn exhaustive_trial_division(self) -> (r: Vec<u64>)
        ensures
            self >= 1 ==> product64(r@) == self && sorted64(r@) && all_prime64(r@),
    {
        self.trial_division(&self).0
    }
}


/// Every element of the sequence is prime.
pub open spec fn all_prime128(s: Seq<u128>) -> bool {
    forall|i: int| 0 <= i < s.len() ==> is_prime_spec(#[trigger] s[i] as int)
}

/// What trial division of `n` with bound `bound` returns: the factors multiply to `n` in
/// non-decreasing order; when `exhaustive` they are all prime, otherwise all but the last
/// are, and the last (a residue above 1) exceeds `bound` and has no divisor in `[2, bound]`.
pub open spec fn trial_result128(n: int, bound: int, factors: Seq<u128>, exhaustive: bool) -> bool {
    &&& product128(factors) == n
    &&& sorted128(factors)
    &&& exhaustive ==> all_prime128(factors)
    &&& !exhaustive ==> {
        &&& factors.len() >= 1
        &&& all_prime128(factors.drop_last())
        &&& factors.last() > 1
        &&& factors.last() > bound
        &&& no_divisor_upto(factors.last() as int, bound)
    }
}

/// Removes every factor `f` from `n`, appending one `f` per division.
fn divide_out128(n: &mut u128, f: u128, result: &mut Vec<u128>) -> (changed: bool)
    requires
        f >= 2,
        *old(n) >= 1,
        no_divisor_upto(*old(n) as int, f - 1),
        forall|i: int| 0 <= i < old(result)@.len() ==> #[trigger] old(result)@[i] <= f,
    ensures
        *final(n) >= 1,
        divides(*final(n) as int, *old(n) as int),
        !divides(f as int, *final(n) as int),
        product128(final(result)@) * *final(n) == product128(old(result)@) * *old(n),
        final(result)@.len() >= old(result)@.len(),
        final(result)@.subrange(0, old(result)@.len() as int) == old(result)@,
        forall|i: int| old(result)@.len() <= i < final(result)@.len() ==> #[trigger] final(result)@[i] == f,
        forall|i: int| old(result)@.len() <= i < final(result)@.len() ==> is_prime_spec(
            #[trigger] final(result)@[i] as int,
        ),
        changed == (*final(n) != *old(n)),
        forall|i: int| 0 <= i < final(result)@.len() ==> #[trigger] final(result)@[i] <= f,
        all_prime128(old(result)@) ==> all_prime128(final(result)@),
        sorted128(old(result)@) ==> sorted128(final(result)@),
{
    let ghost n0 = *n;
    let ghost r0 = result@;
    let mut changed = false;
    proof {
        vstd::arithmetic::div_mod::lemma_mod_multiples_basic(1, n0 as int);
    }
    while *n % f == 0
        invariant
            f >= 2,
            *n >= 1,
            divides(*n as int, n0 as int),
            no_divisor_upto(n0 as int, f - 1),
            product128(result@) * *n == product128(r0) * n0,
            result@.len() >= r0.len(),
            result@.subrange(0, r0.len() as int) == r0,
            forall|i: int| r0.len() <= i < result@.len() ==> #[trigger] result@[i] == f,
            forall|i: int| r0.len() <= i < result@.len() ==> is_prime_spec(#[trigger] result@[i] as int),
            changed == (*n != n0),
            n0 >= 1,
            forall|i: int| 0 <= i < r0.len() ==> #[trigger] r0[i] <= f,
            forall|i: int| 0 <= i < result@.len() ==> #[trigger] result@[i] <= f,
            all_prime128(r0) ==> all_prime128(result@),
            sorted128(r0) ==> sorted128(result@),
        decreases *n,
    {
        let ghost before = *n;
        proof {
            // f divides n0 and has no smaller divisor, so f is prime
            assert(divides(f as int, *n as int));
            lemma_divides_trans(f as int, *n as int, n0 as int);
            assert forall|d: int| 2 <= d < f implies !#[trigger] divides(d, f as int) by {
                if divides(d, f as int) {
                    lemma_divides_trans(d, f as int, n0 as int);
                }
            }
            vstd::arithmetic::div_mod::lemma_fundamental_div_mod(*n as int, f as int);
            lemma_product128_push(result@, f);
            crate::util::lemma_divisor_le(before as int, n0 as int);
        }
        let ghost rb = result@;
        result.push(f);
        *n = *n / f;
        changed = true;
        proof {
            let q = *n as int;
            assert(before == f * q);
            assert(q >= 1 && q < before) by (nonlinear_arith)
                requires
                    before == f * q,
                    f >= 2,
                    before >= 1,
            ;
            vstd::arithmetic::div_mod::lemma_mod_multiples_basic(f as int, q);
            assert(divides(q, before as int)) by {
                assert((f as int * q) % q == 0) by {
                    assert(f as int * q == q * f) by (nonlinear_arith);
                    vstd::arithmetic::div_mod::lemma_mod_multiples_basic(f as int, q);
                }
            }
            lemma_divides_trans(q, before as int, n0 as int);
            assert(product128(result@) * q == product128(rb) * before) by {
                assert(product128(result@) == product128(rb) * f);
                assert(product128(rb) * f * q == product128(rb) * (f * q)) by (nonlinear_arith);
            }
            assert(result@.subrange(0, r0.len() as int) =~= r0);
            assert forall|i: int| 0 <= i < result@.len() implies #[trigger] result@[i] <= f by {
                if i < rb.len() {
                    assert(result@[i] == rb[i]);
                }
            }
            if all_prime128(r0) {
                assert forall|i: int| 0 <= i < result@.len() implies is_prime_spec(#[trigger] result@[i] as int) by {
                    if i < rb.len() {
                        assert(result@[i] == rb[i]);
                    }
                }
            }
            if sorted128(r0) {
                assert forall|i: int, j: int| 0 <= i < j < result@.len() implies result@[i] <= result@[j] by {
                    if j < rb.len() {
                        assert(result@[i] == rb[i]);
                        assert(result@[j] == rb[j]);
                    } else {
                        assert(result@[i] <= f);
                    }
                }
            }
        }
    }
    changed
}

impl TrialDivision for u128 {
    fn trial_division(self, inclusive_bound: &u128) -> (r: (Vec<u128>, bool))
        ensures
            self >= 1 ==> trial_result128(self as int, *inclusive_bound as int, r.0@, r.1),
            self >= 1 && !r.1 ==> *inclusive_bound < self,
    {
        let mut n = self;
        let mut result: Vec<u128> = Vec::new();
        if n == 0 {
            return (result, false);
        }
        divide_out128(&mut n, 2, &mut result);
        let ghost n2 = n;
        divide_out128(&mut n, 3, &mut result);
        proof {
            if divides(2, n as int) {
                lemma_divides_trans(2, n as int, n2 as int);
            }
            assert forall|d: int| 2 <= d <= 4 implies !#[trigger] divides(d, n as int) by {
                if d == 4 {
                    lemma_wheel_gap(n as int, 4);
                }
            }
        }
        let ghost n3 = n;
        divide_out128(&mut n, 5, &mut result);
        proof {
            if divides(2, n as int) {
                lemma_divides_trans(2, n as int, n3 as int);
            }
            if divides(3, n as int) {
                lemma_divides_trans(3, n as int, n3 as int);
            }
            crate::util::lemma_divisor_le(n as int, n3 as int);
            crate::util::lemma_divisor_le(n3 as int, n2 as int);
            crate::util::lemma_divisor_le(n2 as int, self as int);
        }
        let mut max_possible_factor = n.integer_square_root();
        let mut current_factor: u128 = 6;
        proof {
            assert forall|d: int| 2 <= d <= 6 implies !#[trigger] divides(d, n as int) by {
                if d == 6 || d == 4 {
                    lemma_wheel_gap(n as int, d);
                }
            }
        }
        loop
            invariant
                n >= 1,
                n <= self,
                product128(result@) * n == self,
                sorted128(result@),
                all_prime128(result@),
                forall|i: int| 0 <= i < result@.len() ==> #[trigger] result@[i] < current_factor,
                current_factor % 6 == 0,
                6 <= current_factor <= 0x1_0000_0000_0000_0006,
                no_divisor_upto(n as int, current_factor as int),
                is_isqrt(max_possible_factor as int, n as int),
            decreases u128::MAX - current_factor,
        {
            let ghost n_start = n;
            let f1 = current_factor + 1;
            let changed1 = divide_out128(&mut n, f1, &mut result);
            proof {
                assert forall|d: int| 2 <= d <= current_factor + 4 implies !#[trigger] divides(d, n as int) by {
                    if d <= current_factor {
                        if divides(d, n as int) {
                            lemma_divides_trans(d, n as int, n_start as int);
                        }
                    } else if d > current_factor + 1 {
                        if divides(2, n as int) {
                            lemma_divides_trans(2, n as int, n_start as int);
                        }
                        if divides(3, n as int) {
                            lemma_divides_trans(3, n as int, n_start as int);
                        }
                        lemma_wheel_gap(n as int, d);
                    }
                }
            }
            let ghost n_mid = n;
            let f5 = current_factor + 5;
            let changed5 = divide_out128(&mut n, f5, &mut result);
            proof {
                assert forall|d: int| 2 <= d <= current_factor + 6 implies !#[trigger] divides(d, n as int) by {
                    if d <= current_factor + 4 {
                        if divides(d, n as int) {
                            lemma_divides_trans(d, n as int, n_mid as int);
                        }
                    } else if d == current_factor + 6 {
                        if divides(2, n as int) {
                            lemma_divides_trans(2, n as int, n_mid as int);
                        }
                        if divides(3, n as int) {
                            lemma_divides_trans(3, n as int, n_mid as int);
                        }
                        lemma_wheel_gap(n as int, d);
                    }
                }
                assert forall|i: int| 0 <= i < result@.len() implies #[trigger] result@[i] <= current_factor + 5 by {}
                crate::util::lemma_divisor_le(n as int, n_mid as int);
                crate::util::lemma_divisor_le(n_mid as int, n_start as int);
            }
            if n == 1 {
                proof {
                    assert(product128(result@) * 1 == product128(result@));
                }
                return (result, true);
            }
            if changed1 || changed5 {
                max_possible_factor = n.integer_square_root();
            }
            proof {
                // the residual has no divisor up to current_factor + 5, so it exceeds it
                if n <= current_factor + 5 {
                    vstd::arithmetic::div_mod::lemma_mod_self_0(n as int);
                    assert(divides(n as int, n as int));
                }
                let m = max_possible_factor as int;
                assert(m <= n) by (nonlinear_arith)
                    requires
                        m * m <= n,
                        m >= 0,
                ;
                assert(m < 0x1_0000_0000_0000_0000) by (nonlinear_arith)
                    requires
                        m * m <= n,
                        n <= 0xffff_ffff_ffff_ffff_ffff_ffff_ffff_ffff,
                        m >= 0,
                ;
            }
            if current_factor > max_possible_factor {
                proof {
                    lemma_prime_by_root(n as int, max_possible_factor as int);
                    lemma_product128_push(result@, n);
                }
                result.push(n);
                proof {
                    assert(result@.drop_last() =~= result@.subrange(0, result@.len() - 1));
                }
                return (result, true);
            }
            if current_factor > *inclusive_bound {
                proof {
                    lemma_product128_push(result@, n);
                }
                let ghost before = result@;
                result.push(n);
                proof {
                    assert(result@.drop_last() =~= before);
                }
                return (result, false);
            }
            current_factor = current_factor + 6;
        }
    }

    fn exhaustive_trial_division(self) -> (r: Vec<u128>)
        ensures
            self >= 1 ==> product128(r@) == self && sorted128(r@) && all_prime128(r@),
    {
        self.trial_division(&self).0
    }
}

} // verus!
