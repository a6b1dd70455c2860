//! Observers notified while a number is being factored.
use vstd::prelude::*;

verus! {

/// Observer with callbacks relating to events during the factorization of an integer.
///
/// Observers only report progress; they have no say in the result.
pub trait FactoringEventSubscriptor<T> {
    /// Number `n` has been split: `primes` are known prime, `composites` known composite,
    /// and the primality of `unknown` is not known yet.
    fn factorized(&mut self, n: &T, primes: &[T], composites: &[T], unknown: &[T]);

    /// Factor `n` is now known to be prime.
    fn is_prime(&mut self, n: &T);

    /// Factor `n` is now known to be composite.
    fn is_composite(&mut self, n: &T);
}

/// Observer that ignores every event.
#[derive(Debug, Clone, Copy, PartialEq, Eq, PartialOrd, Ord)]
pub struct EmptyFactoringEventSubscriptor {}

impl<T> FactoringEventSubscriptor<T> for EmptyFactoringEventSubscriptor {
    fn factorized(&mut self, n: &T, primes: &[T], composites: &[T], unknown: &[T]) {
    }

    fn is_prime(&mut self, n: &T) {
    }

    fn is_composite(&mut self, n: &T) {
    }
}

impl<T, E: FactoringEventSubscriptor<T>> FactoringEventSubscriptor<T> for &mut E {
    fn factorized(&mut self, n: &T, primes: &[T], composites: &[T], unknown: &[T]) {
        (**self).factorized(n, primes, composites, unknown);
    }

    fn is_prime(&mut self, n: &T) {
        (**self).is_prime(n);
    }

    fn is_composite(&mut self, n: &T) {
        (**self).is_composite(n);
    }
}

/// Passes the events of a 64-bit factorization on to an observer of 128-bit numbers.
pub struct WrappingFactoringEventSubscriptor<Inner> {
    /// The observer that receives the widened events.
    pub inner: Inner,
}

impl<Inner: FactoringEventSubscriptor<u128>> WrappingFactoringEventSubscriptor<Inner> {
    /// Wraps `inner`.
    pub fn new(inner: Inner) -> (r: Self)
        ensures
            r.inner == inner,
    {
        Self { inner }
    }
}

/// The values widened to `u128`.
fn widen(values: &[u64]) -> (r: Vec<u128>)
    ensures
        r@.len() == values@.len(),
        forall|i: int| 0 <= i < values@.len() ==> #[trigger] r@[i] == values@[i] as u128,
{
    let mut r: Vec<u128> = Vec::new();
    let mut i: usize = 0;
    while i < values.len()
        invariant
            i <= values@.len(),
            r@.len() == i,
            forall|k: int| 0 <= k < i ==> #[trigger] r@[k] == values@[k] as u128,
        decreases values@.len() - i,
    {
        r.push(values[i] as u128);
        i = i + 1;
    }
    r
}

impl<Inner: FactoringEventSubscriptor<u128>> FactoringEventSubscriptor<u64> for WrappingFactoringEventSubscriptor<
    Inner,
> {
    fn factorized(&mut self, n: &u64, primes: &[u64], composites: &[u64], unknown: &[u64]) {
        let p = widen(primes);
        let c = widen(composites);
        let u = widen(unknown);
        self.inner.factorized(&(*n as u128), p.as_slice(), c.as_slice(), u.as_slice());
    }

    fn is_prime(&mut self, n: &u64) {
        self.inner.is_prime(&(*n as u128));
    }

    fn is_composite(&mut self, n: &u64) {
        self.inner.is_composite(&(*n as u128));
    }
}

} // verus!
