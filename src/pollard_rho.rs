//! Pollard's rho factor search over `x -> x^2 + c (mod n)`, driven by Brent's cycle search
//! with batched gcd checks.
use crate::arith::{add_mod_u128, mul_mod_u128, mul_mod_u64};
use crate::brent_cycle::{find_cycle, CycleConditionChecker, MapFunction};
use crate::util::NumUtil;
use vstd::prelude::*;

verus! {

/// Steps of the cycle search, and of the walk that locates the factor, before an attempt
/// gives up.
pub const RHO_STEP_BUDGET: u64 = 67_108_864;

/// Find factors of a number with Pollard's rho algorithm and Brent's cycle detection.
pub trait PollardRho: Sized {
    /// Searches a proper factor, iterating `x = x * x + increment` from `x = start`.
    ///
    /// Returns a factor if one has been found, or `None` if the attempt was unsuccessful.
    fn pollard_rho(self, start: &Self, increment: &Self) -> Option<Self>;
}

/// Whether the batched gcd is taken at this step: where `power - count` is 1 modulo
/// `2^max(5, log2(power) / 2)`.
fn batch_check_due(count: u64, power: u64) -> (r: bool) {
    let power_count = power.trailing_zeros();
    proof {
        vstd::std_specs::bits::axiom_u64_trailing_zeros(power);
    }
    let shift = if power_count / 2 > 5 {
        power_count / 2
    } else {
        5
    };
    let gap = if power >= count {
        power - count
    } else {
        0
    };
    assert((1u64 << shift) >= 1u64) by (bit_vector)
        requires
            shift < 64u32,
    ;
    gap & ((1u64 << shift) - 1) == 1
}

struct RhoMapper64 {
    increment: u64,
    n: u64,
}

impl MapFunction<u64> for RhoMapper64 {
    fn run(&mut self, x: u64) -> u64 {
        if self.n == 0 {
            return x;
        }
        let square = mul_mod_u64(x, x, self.n);
        ((square as u128 + self.increment as u128) % (self.n as u128)) as u64
    }
}

struct RhoCondition64 {
    accum: u64,
    n: u64,
    last_tortoise: u64,
    last_hare: u64,
}

impl CycleConditionChecker<u64, u64> for RhoCondition64 {
    /// Multiplies `|hare - tortoise|` into the accumulator, and at the batch points stops
    /// once the accumulator shares a factor with `n`.
    fn check(&mut self, tortoise: &u64, hare: &u64, count: &u64, power: &u64) -> bool {
        if self.n == 0 {
            return true;
        }
        let diff = if *hare > *tortoise {
            *hare - *tortoise
        } else {
            *tortoise - *hare
        };
        self.accum = mul_mod_u64(self.accum, diff, self.n);
        self.last_tortoise = *tortoise;
        if batch_check_due(*count, *power) {
            let d = u64::gcd(self.accum, self.n);
            if d != 1 {
                return true;
            }
            self.last_hare = *hare;
        }
        false
    }
}

impl RhoCondition64 {
    /// Walks again from the last hare that passed a batch check, one gcd per step, until
    /// `|hare - last_tortoise|` shares a factor with `n`; `n` itself when the walk runs out.
    fn extract(self, mapper: RhoMapper64) -> (d: u64) {
        let mut mapper = mapper;
        let mut hare = mapper.run(self.last_hare);
        let mut steps: u64 = 0;
        while steps < RHO_STEP_BUDGET
            decreases RHO_STEP_BUDGET - steps,
        {
            let diff = if hare > self.last_tortoise {
                hare - self.last_tortoise
            } else {
                self.last_tortoise - hare
            };
            let d = u64::gcd(diff, self.n);
            if d != 1 {
                return d;
            }
            hare = mapper.run(hare);
            steps = steps + 1;
        }
        self.n
    }
}

impl PollardRho for u64 {
    fn pollard_rho(self, start: &u64, increment: &u64) -> (r: Option<u64>)
        ensures
            r matches Some(d) ==> 1 < d < self && self % d == 0,
    {
        let n = self;
        if n < 2 {
            return None;
        }
        let start = *start % n;
        let increment = *increment % n;
        let condition = RhoCondition64 { accum: 1 % n, n, last_tortoise: start, last_hare: start };
        let (e, _, found) = find_cycle(RhoMapper64 { increment, n }, condition, start, RHO_STEP_BUDGET);
        if !found {
            return None;
        }
        let d = e.extract(RhoMapper64 { increment, n });
        if d > 1 && d < n && n % d == 0 {
            Some(d)
        } else {
            None
        }
    }
}

struct RhoMapper128 {
    increment: u128,
    n: u128,
}

impl MapFunction<u128> for RhoMapper128 {
    fn run(&mut self, x: u128) -> u128 {
        if self.n == 0 {
            return x;
        }
        let square = mul_mod_u128(x, x, self.n);
        add_mod_u128(square, self.increment % self.n, self.n)
    }
}

struct RhoCondition128 {
    accum: u128,
    n: u128,
    last_tortoise: u128,
    last_hare: u128,
}

impl CycleConditionChecker<u128, u64> for RhoCondition128 {
    /// Multiplies `|hare - tortoise|` into the accumulator, and at the batch points stops
    /// once the accumulator shares a factor with `n`.
    fn check(&mut self, tortoise: &u128, hare: &u128, count: &u64, power: &u64) -> bool {
        if self.n == 0 {
            return true;
        }
        let diff = if *hare > *tortoise {
            *hare - *tortoise
        } else {
            *tortoise - *hare
        };
        self.accum = mul_mod_u128(self.accum, diff, self.n);
        self.last_tortoise = *tortoise;
        if batch_check_due(*count, *power) {
            let d = u128::gcd(self.accum, self.n);
            if d != 1 {
                return true;
            }
            self.last_hare = *hare;
        }
        false
    }
}

impl RhoCondition128 {
    /// Walks again from the last hare that passed a batch check, one gcd per step, until
    /// `|hare - last_tortoise|` shares a factor with `n`; `n` itself when the walk runs out.
    fn extract(self, mapper: RhoMapper128) -> (d: u128) {
        let mut mapper = mapper;
        let mut hare = mapper.run(self.last_hare);
        let mut steps: u64 = 0;
        while steps < RHO_STEP_BUDGET
            decreases RHO_STEP_BUDGET - steps,
        {
            let diff = if hare > self.last_tortoise {
                hare - self.last_tortoise
            } else {
                self.last_tortoise - hare
            };
            let d = u128::gcd(diff, self.n);
            if d != 1 {
                return d;
            }
            hare = mapper.run(hare);
            steps = steps + 1;
        }
        self.n
    }
}

impl PollardRho for u128 {
    fn pollard_rho(self, start: &u128, increment: &u128) -> (r: Option<u128>)
        ensures
            r matches Some(d) ==> 1 < d < self && self % d == 0,
    {
        let n = self;
        if n < 2 {
            return None;
        }
        let start = *start % n;
        let increment = *increment % n;
        let condition = RhoCondition128 { accum: 1 % n, n, last_tortoise: start, last_hare: start };
        let (e, _, found) = find_cycle(RhoMapper128 { increment, n }, condition, start, RHO_STEP_BUDGET);
        if !found {
            return None;
        }
        let d = e.extract(RhoMapper128 { increment, n });
        if d > 1 && d < n && n % d == 0 {
            Some(d)
        } else {
            None
        }
    }
}

} // verus!
