//! Brent's cycle search: a tortoise that jumps to the hare at powers of two.
use vstd::arithmetic::power2::pow2;
use vstd::prelude::*;

verus! {

/// Decides when the cycle search stops; it may record what it has seen.
pub trait CycleConditionChecker<T, CountType> {
    /// Whether the search stops at this tortoise and hare, `count` steps after the last
    /// jump, with jumps every `power` steps.
    fn check(&mut self, tortoise: &T, hare: &T, count: &CountType, power: &CountType) -> bool;
}

/// The map whose iteration is searched for a cycle.
pub trait MapFunction<T> {
    /// Image of `n`.
    fn run(&mut self, n: T) -> T;
}

/// `p` is a power of two.
pub open spec fn is_power_of_two(p: int) -> bool {
    exists|k: nat| pow2(k) == p
}

/// Runs Brent's search from `start` for at most `max_steps` hare steps.
///
/// Returns the condition (with whatever state it gathered), the count since the last
/// jump (below the current power of two), and whether the condition held; `false` means the budget ran out, and then the
/// count is what is left of `max_steps + 1` after the largest power of two `p` with
/// `count < p`.
pub fn find_cycle<T: Copy, Mapper: MapFunction<T>, ConditionChecker: CycleConditionChecker<T, u64>>(
    mapper: Mapper,
    cycle_condition: ConditionChecker,
    start: T,
    max_steps: u64,
) -> (r: (ConditionChecker, u64, bool))
    requires
        max_steps <= u64::MAX / 2,
    ensures
        !r.2 ==> is_power_of_two(max_steps + 1 - r.1) && r.1 < max_steps + 1 - r.1,
        r.2 ==> exists|p: int| is_power_of_two(p) && r.1 < p && p <= max_steps + 1,
{
    let mut mapper = mapper;
    let mut cycle_condition = cycle_condition;
    let mut tortoise = start;
    let mut hare = mapper.run(start);
    let mut power: u64 = 1;
    let mut count: u64 = 0;
    let mut steps: u64 = 0;
    let ghost mut k: nat = 0;
    proof {
        vstd::arithmetic::power2::lemma2_to64();
    }
    while !cycle_condition.check(&tortoise, &hare, &count, &power)
        invariant
            power >= 1,
            count < power,
            steps + 1 == power + count,
            steps <= max_steps,
            max_steps <= u64::MAX / 2,
            power == pow2(k),
        decreases max_steps - steps,
    {
        if steps == max_steps {
            return (cycle_condition, count, false);
        }
        steps = steps + 1;
        count = count + 1;
        if power == count {
            tortoise = hare;
            power = power * 2;
            count = 0;
            proof {
                vstd::arithmetic::power2::lemma_pow2_adds(k, 1);
                vstd::arithmetic::power2::lemma2_to64();
                k = k + 1;
            }
        }
        hare = mapper.run(hare);
    }
    proof {
        assert(is_power_of_two(power as int));
    }
    (cycle_condition, count, true)
}

} // verus!
