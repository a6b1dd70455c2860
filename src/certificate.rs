//! The Lucas certificate: elements ordered by the number they certify.
use crate::arith::{divides, product128, product64};
use crate::lucas_primality::{ints128, ints64, lucas_spec, LucasPrimalityResult};
use vstd::prelude::*;

verus! {

/// Element of the certificate tree, for one number.
#[derive(Debug, Clone, PartialEq, Eq)]
pub struct LucasCertificateElement<T> {
    /// The number certified to be prime.
    pub n: T,
    /// The base for which the Lucas test returns `Prime`.
    pub base: T,
    /// The distinct prime divisors of `n - 1`.
    pub unique_prime_divisors: Vec<T>,
}

/// The certificate: its elements, in increasing order of `n`.
#[derive(Debug, Clone)]
pub struct LucasCertificate<T> {
    #[allow(missing_docs)]
    pub elements: Vec<LucasCertificateElement<T>>,
}

impl<T> Default for LucasCertificate<T> {
    fn default() -> (r: Self)
        ensures
            r.elements@.len() == 0,
    {
        LucasCertificate { elements: Vec::new() }
    }
}

/// Adding and querying parts of a certificate.
pub trait LucasCertificateTrait<T> {
    /// The elements are in strictly increasing order of `n`.
    spec fn sorted_by_n(&self) -> bool;

    /// Adds an element, unless one for the same number is present.
    fn push(&mut self, e: LucasCertificateElement<T>)
        requires
            old(self).sorted_by_n(),
    ;

    /// Whether the certificate holds an element for `i`.
    fn contains(&self, i: &T) -> bool
        requires
            self.sorted_by_n(),
    ;
}

/// Some element certifies `p`.
pub open spec fn cert_has64(s: Seq<LucasCertificateElement<u64>>, p: u64) -> bool {
    exists|k: int| 0 <= k < s.len() && #[trigger] s[k].n == p
}

/// The elements are in strictly increasing order of `n`.
pub open spec fn cert_sorted64(s: Seq<LucasCertificateElement<u64>>) -> bool {
    forall|i: int, j: int| 0 <= i < j < s.len() ==> s[i].n < s[j].n
}

/// `m` is a product of primes from `ps` (repeated division by them ends at 1).
pub open spec fn smooth64(m: int, ps: Seq<u64>) -> bool {
    exists|f: Seq<u64>|
        product64(f) == m && forall|i: int| 0 <= i < f.len() ==> ps.contains(#[trigger] f[i])
}

/// `e` is a valid element within the certificate `s`: either the sentinel for 2
/// (`base` 1, divisors `[1]`), or `n > 2` where `base` passes the Lucas test over its listed
/// primes, each listed prime is at least 2, divides `n - 1` and is certified in `s`, and
/// `n - 1` is a product of listed primes.
pub open spec fn element_valid64(s: Seq<LucasCertificateElement<u64>>, e: LucasCertificateElement<u64>) -> bool {
    let divs = e.unique_prime_divisors@;
    if e.n == 2 {
        e.base == 1 && divs == seq![1u64]
    } else {
        &&& e.n > 2
        &&& crate::factor_list::strictly_sorted64(divs)
        &&& lucas_spec(e.n as int, ints64(divs), e.base as int) == LucasPrimalityResult::Prime
        &&& forall|j: int|
            0 <= j < divs.len() ==> #[trigger] divs[j] >= 2 && divides(divs[j] as int, e.n - 1)
                && cert_has64(s, divs[j])
        &&& smooth64(e.n - 1, divs)
    }
}

/// A valid certificate: sorted by `n`, and every element valid within it.
pub open spec fn cert_valid64(s: Seq<LucasCertificateElement<u64>>) -> bool {
    &&& cert_sorted64(s)
    &&& forall|i: int| 0 <= i < s.len() ==> element_valid64(s, #[trigger] s[i])
}

/// Validity of an element survives growing the certificate.
pub proof fn lemma_element_valid_grows64(
    s1: Seq<LucasCertificateElement<u64>>,
    s2: Seq<LucasCertificateElement<u64>>,
    e: LucasCertificateElement<u64>,
)
    requires
        element_valid64(s1, e),
        forall|p: u64| cert_has64(s1, p) ==> cert_has64(s2, p),
    ensures
        element_valid64(s2, e),
{
    let divs = e.unique_prime_divisors@;
    if e.n != 2 {
        assert forall|j: int| 0 <= j < divs.len() implies #[trigger] divs[j] >= 2 && divides(
            divs[j] as int,
            e.n - 1,
        ) && cert_has64(s2, divs[j]) by {
            assert(cert_has64(s1, divs[j]));
        }
    }
}

impl LucasCertificateTrait<u64> for LucasCertificate<u64> {
    open spec fn sorted_by_n(&self) -> bool {
        cert_sorted64(self.elements@)
    }

    fn push(&mut self, e: LucasCertificateElement<u64>)
        ensures
            cert_sorted64(final(self).elements@),
            cert_has64(old(self).elements@, e.n) ==> final(self).elements@ == old(self).elements@,
            !cert_has64(old(self).elements@, e.n) ==> exists|i: int|
                0 <= i <= old(self).elements@.len() && final(self).elements@ == old(
                    self,
                ).elements@.insert(i, e),
            forall|p: u64|
                #[trigger] cert_has64(final(self).elements@, p) <==> (cert_has64(
                    old(self).elements@,
                    p,
                ) || p == e.n),
            cert_valid64(old(self).elements@) && element_valid64(old(self).elements@, e)
                ==> cert_valid64(final(self).elements@),
    {
        let ghost s = self.elements@;
        let mut lo: usize = 0;
        let mut hi: usize = self.elements.len();
        while lo < hi
            invariant
                s == self.elements@,
                cert_sorted64(s),
                0 <= lo <= hi <= s.len(),
                forall|k: int| 0 <= k < lo ==> #[trigger] s[k].n < e.n,
                forall|k: int| hi <= k < s.len() ==> #[trigger] s[k].n > e.n,
            decreases hi - lo,
        {
            let mid = lo + (hi - lo) / 2;
            let m = self.elements[mid].n;
            if m == e.n {
                proof {
                    assert(cert_has64(s, e.n));
                }
                return;
            } else if m < e.n {
                lo = mid + 1;
            } else {
                hi = mid;
            }
        }
        proof {
            if cert_has64(s, e.n) {
                let k = choose|k: int| 0 <= k < s.len() && #[trigger] s[k].n == e.n;
                assert(k < lo || k >= hi);
            }
        }
        let ghost en = e.n;
        let ghost ee = e;
        self.elements.insert(lo, e);
        proof {
            let t = self.elements@;
            assert(t == s.insert(lo as int, ee));
            assert forall|i: int, j: int| 0 <= i < j < t.len() implies t[i].n < t[j].n by {
                if j < lo {
                } else if i > lo {
                    assert(t[i] == s[i - 1]);
                    assert(t[j] == s[j - 1]);
                } else if i == lo {
                    assert(t[j] == s[j - 1]);
                } else if j == lo {
                } else {
                    assert(t[j] == s[j - 1]);
                }
            }
            assert forall|p: u64| #[trigger] cert_has64(t, p) <==> (cert_has64(s, p) || p == en) by {
                if cert_has64(t, p) {
                    let k = choose|k: int| 0 <= k < t.len() && #[trigger] t[k].n == p;
                    if k < lo {
                        assert(s[k].n == p);
                    } else if k > lo {
                        assert(s[k - 1].n == p);
                    }
                }
                if cert_has64(s, p) {
                    let k = choose|k: int| 0 <= k < s.len() && #[trigger] s[k].n == p;
                    if k < lo {
                        assert(t[k].n == p);
                    } else {
                        assert(t[k + 1].n == p);
                    }
                }
                if p == en {
                    assert(t[lo as int].n == p);
                }
            }
            if cert_valid64(s) && element_valid64(s, ee) {
                assert forall|i: int| 0 <= i < t.len() implies element_valid64(t, #[trigger] t[i]) by {
                    if i < lo {
                        lemma_element_valid_grows64(s, t, s[i]);
                    } else if i > lo {
                        assert(t[i] == s[i - 1]);
                        lemma_element_valid_grows64(s, t, s[i - 1]);
                    } else {
                        lemma_element_valid_grows64(s, t, ee);
                    }
                }
            }
        }
    }

    fn contains(&self, i: &u64) -> (r: bool)
        ensures
            r == cert_has64(self.elements@, *i),
    {
        let ghost s = self.elements@;
        let mut lo: usize = 0;
        let mut hi: usize = self.elements.len();
        while lo < hi
            invariant
                s == self.elements@,
                cert_sorted64(s),
                0 <= lo <= hi <= s.len(),
                forall|k: int| 0 <= k < lo ==> #[trigger] s[k].n < *i,
                forall|k: int| hi <= k < s.len() ==> #[trigger] s[k].n > *i,
            decreases hi - lo,
        {
            let mid = lo + (hi - lo) / 2;
            let m = self.elements[mid].n;
            if m == *i {
                return true;
            } else if m < *i {
                lo = mid + 1;
            } else {
                hi = mid;
            }
        }
        proof {
            if cert_has64(s, *i) {
                let k = choose|k: int| 0 <= k < s.len() && #[trigger] s[k].n == *i;
                assert(k < lo || k >= hi);
            }
        }
        false
    }
}

/// The two elements hold the same values.
pub open spec fn same_element64(a: LucasCertificateElement<u64>, b: LucasCertificateElement<u64>) -> bool {
    a.n == b.n && a.base == b.base && a.unique_prime_divisors@ == b.unique_prime_divisors@
}

/// A copy of the element with the same fields.
fn copy_element64(e: &LucasCertificateElement<u64>) -> (r: LucasCertificateElement<u64>)
    ensures
        same_element64(r, *e),
{
    let mut divisors: Vec<u64> = Vec::new();
    let mut i: usize = 0;
    while i < e.unique_prime_divisors.len()
        invariant
            i <= e.unique_prime_divisors@.len(),
            divisors@ == e.unique_prime_divisors@.subrange(0, i as int),
        decreases e.unique_prime_divisors@.len() - i,
    {
        divisors.push(e.unique_prime_divisors[i]);
        i = i + 1;
        proof {
            assert(divisors@ =~= e.unique_prime_divisors@.subrange(0, i as int));
        }
    }
    proof {
        assert(divisors@ =~= e.unique_prime_divisors@);
    }
    LucasCertificateElement { n: e.n, base: e.base, unique_prime_divisors: divisors }
}

/// A copy of the certificate, element by element.
pub fn copy_certificate64(c: &LucasCertificate<u64>) -> (r: LucasCertificate<u64>)
    ensures
        r.elements@.len() == c.elements@.len(),
        forall|i: int| 0 <= i < c.elements@.len() ==> same_element64(#[trigger] r.elements@[i], c.elements@[i]),
        forall|p: u64| #[trigger] cert_has64(r.elements@, p) <==> cert_has64(c.elements@, p),
        cert_valid64(c.elements@) ==> cert_valid64(r.elements@),
{
    let mut elements: Vec<LucasCertificateElement<u64>> = Vec::new();
    let mut i: usize = 0;
    while i < c.elements.len()
        invariant
            i <= c.elements@.len(),
            elements@.len() == i,
            forall|k: int| 0 <= k < i ==> same_element64(#[trigger] elements@[k], c.elements@[k]),
        decreases c.elements@.len() - i,
    {
        elements.push(copy_element64(&c.elements[i]));
        i = i + 1;
    }
    let r = LucasCertificate { elements };
    proof {
        let a = r.elements@;
        let b = c.elements@;
        assert forall|p: u64| #[trigger] cert_has64(a, p) <==> cert_has64(b, p) by {
            if cert_has64(a, p) {
                let k = choose|k: int| 0 <= k < a.len() && #[trigger] a[k].n == p;
                assert(b[k].n == p);
            }
            if cert_has64(b, p) {
                let k = choose|k: int| 0 <= k < b.len() && #[trigger] b[k].n == p;
                assert(a[k].n == p);
            }
        }
        if cert_valid64(b) {
            assert forall|i: int| 0 <= i < a.len() implies element_valid64(a, #[trigger] a[i]) by {
                assert(element_valid64(b, b[i]));
                lemma_element_valid_grows64(b, a, b[i]);
                let e = a[i];
                let d = b[i];
                assert(e.unique_prime_divisors@ == d.unique_prime_divisors@);
            }
        }
    }
    r
}

impl LucasCertificate<u64> {
    /// Gets the first proof element for number `i`.
    pub fn get(&self, i: &u64) -> (r: Option<LucasCertificateElement<u64>>)
        ensures
            r matches Some(e) ==> e.n == *i && exists|k: int|
                0 <= k < self.elements@.len() && same_element64(self.elements@[k], e) && forall|j: int|
                    0 <= j < k ==> #[trigger] self.elements@[j].n != *i,
            r is None ==> !cert_has64(self.elements@, *i),
    {
        let mut k: usize = 0;
        while k < self.elements.len()
            invariant
                k <= self.elements@.len(),
                forall|j: int| 0 <= j < k ==> #[trigger] self.elements@[j].n != *i,
            decreases self.elements@.len() - k,
        {
            if self.elements[k].n == *i {
                let e = copy_element64(&self.elements[k]);
                return Some(e);
            }
            k = k + 1;
        }
        None
    }

    /// Gets the element with the largest `n`, presumably the number that was meant to be
    /// certified.
    pub fn get_max(&self) -> (r: Option<LucasCertificateElement<u64>>)
        ensures
            self.elements@.len() == 0 ==> r is None,
            self.elements@.len() > 0 ==> (r matches Some(e) && same_element64(e, self.elements@.last())),
    {
        if self.elements.len() == 0 {
            None
        } else {
            Some(copy_element64(&self.elements[self.elements.len() - 1]))
        }
    }
}

/// Some element certifies `p`.
pub open spec fn cert_has128(s: Seq<LucasCertificateElement<u128>>, p: u128) -> bool {
    exists|k: int| 0 <= k < s.len() && #[trigger] s[k].n == p
}

/// The elements are in strictly increasing order of `n`.
pub open spec fn cert_sorted128(s: Seq<LucasCertificateElement<u128>>) -> bool {
    forall|i: int, j: int| 0 <= i < j < s.len() ==> s[i].n < s[j].n
}

/// `m` is a product of primes from `ps` (repeated division by them ends at 1).
pub open spec fn smooth128(m: int, ps: Seq<u128>) -> bool {
    exists|f: Seq<u128>|
        product128(f) == m && forall|i: int| 0 <= i < f.len() ==> ps.contains(#[trigger] f[i])
}

/// `e` is a valid element within the certificate `s`: either the sentinel for 2
/// (`base` 1, divisors `[1]`), or `n > 2` where `base` passes the Lucas test over its listed
/// primes, each listed prime is at least 2, divides `n - 1` and is certified in `s`, and
/// `n - 1` is a product of listed primes.
pub open spec fn element_valid128(s: Seq<LucasCertificateElement<u128>>, e: LucasCertificateElement<u128>) -> bool {
    let divs = e.unique_prime_divisors@;
    if e.n == 2 {
        e.base == 1 && divs == seq![1u128]
    } else {
        &&& e.n > 2
        &&& crate::factor_list::strictly_sorted128(divs)
        &&& lucas_spec(e.n as int, ints128(divs), e.base as int) == LucasPrimalityResult::Prime
        &&& forall|j: int|
            0 <= j < divs.len() ==> #[trigger] divs[j] >= 2 && divides(divs[j] as int, e.n - 1)
                && cert_has128(s, divs[j])
        &&& smooth128(e.n - 1, divs)
    }
}

/// A valid certificate: sorted by `n`, and every element valid within it.
pub open spec fn cert_valid128(s: Seq<LucasCertificateElement<u128>>) -> bool {
    &&& cert_sorted128(s)
    &&& forall|i: int| 0 <= i < s.len() ==> element_valid128(s, #[trigger] s[i])
}

/// Validity of an element survives growing the certificate.
pub proof fn lemma_element_valid_grows128(
    s1: Seq<LucasCertificateElement<u128>>,
    s2: Seq<LucasCertificateElement<u128>>,
    e: LucasCertificateElement<u128>,
)
    requires
        element_valid128(s1, e),
        forall|p: u128| cert_has128(s1, p) ==> cert_has128(s2, p),
    ensures
        element_valid128(s2, e),
{
    let divs = e.unique_prime_divisors@;
    if e.n != 2 {
        assert forall|j: int| 0 <= j < divs.len() implies #[trigger] divs[j] >= 2 && divides(
            divs[j] as int,
            e.n - 1,
        ) && cert_has128(s2, divs[j]) by {
            assert(cert_has128(s1, divs[j]));
        }
    }
}

impl LucasCertificateTrait<u128> for LucasCertificate<u128> {
    open spec fn sorted_by_n(&self) -> bool {
        cert_sorted128(self.elements@)
    }

    fn push(&mut self, e: LucasCertificateElement<u128>)
        ensures
            cert_sorted128(final(self).elements@),
            cert_has128(old(self).elements@, e.n) ==> final(self).elements@ == old(self).elements@,
            !cert_has128(old(self).elements@, e.n) ==> exists|i: int|
                0 <= i <= old(self).elements@.len() && final(self).elements@ == old(
                    self,
                ).elements@.insert(i, e),
            forall|p: u128|
                #[trigger] cert_has128(final(self).elements@, p) <==> (cert_has128(
                    old(self).elements@,
                    p,
                ) || p == e.n),
            cert_valid128(old(self).elements@) && element_valid128(old(self).elements@, e)
                ==> cert_valid128(final(self).elements@),
    {
        let ghost s = self.elements@;
        let mut lo: usize = 0;
        let mut hi: usize = self.elements.len();
        while lo < hi
            invariant
                s == self.elements@,
                cert_sorted128(s),
                0 <= lo <= hi <= s.len(),
                forall|k: int| 0 <= k < lo ==> #[trigger] s[k].n < e.n,
                forall|k: int| hi <= k < s.len() ==> #[trigger] s[k].n > e.n,
            decreases hi - lo,
        {
            let mid = lo + (hi - lo) / 2;
            let m = self.elements[mid].n;
            if m == e.n {
                proof {
                    assert(cert_has128(s, e.n));
                }
                return;
            } else if m < e.n {
                lo = mid + 1;
            } else {
                hi = mid;
            }
        }
        proof {
            if cert_has128(s, e.n) {
                let k = choose|k: int| 0 <= k < s.len() && #[trigger] s[k].n == e.n;
                assert(k < lo || k >= hi);
            }
        }
        let ghost en = e.n;
        let ghost ee = e;
        self.elements.insert(lo, e);
        proof {
            let t = self.elements@;
            assert(t == s.insert(lo as int, ee));
            assert forall|i: int, j: int| 0 <= i < j < t.len() implies t[i].n < t[j].n by {
                if j < lo {
                } else if i > lo {
                    assert(t[i] == s[i - 1]);
                    assert(t[j] == s[j - 1]);
                } else if i == lo {
                    assert(t[j] == s[j - 1]);
                } else if j == lo {
                } else {
                    assert(t[j] == s[j - 1]);
                }
            }
            assert forall|p: u128| #[trigger] cert_has128(t, p) <==> (cert_has128(s, p) || p == en) by {
                if cert_has128(t, p) {
                    let k = choose|k: int| 0 <= k < t.len() && #[trigger] t[k].n == p;
                    if k < lo {
                        assert(s[k].n == p);
                    } else if k > lo {
                        assert(s[k - 1].n == p);
                    }
                }
                if cert_has128(s, p) {
                    let k = choose|k: int| 0 <= k < s.len() && #[trigger] s[k].n == p;
                    if k < lo {
                        assert(t[k].n == p);
                    } else {
                        assert(t[k + 1].n == p);
                    }
                }
                if p == en {
                    assert(t[lo as int].n == p);
                }
            }
            if cert_valid128(s) && element_valid128(s, ee) {
                assert forall|i: int| 0 <= i < t.len() implies element_valid128(t, #[trigger] t[i]) by {
                    if i < lo {
                        lemma_element_valid_grows128(s, t, s[i]);
                    } else if i > lo {
                        assert(t[i] == s[i - 1]);
                        lemma_element_valid_grows128(s, t, s[i - 1]);
                    } else {
                        lemma_element_valid_grows128(s, t, ee);
                    }
                }
            }
        }
    }

    fn contains(&self, i: &u128) -> (r: bool)
        ensures
            r == cert_has128(self.elements@, *i),
    {
        let ghost s = self.elements@;
        let mut lo: usize = 0;
        let mut hi: usize = self.elements.len();
        while lo < hi
            invariant
                s == self.elements@,
                cert_sorted128(s),
                0 <= lo <= hi <= s.len(),
                forall|k: int| 0 <= k < lo ==> #[trigger] s[k].n < *i,
                forall|k: int| hi <= k < s.len() ==> #[trigger] s[k].n > *i,
            decreases hi - lo,
        {
            let mid = lo + (hi - lo) / 2;
            let m = self.elements[mid].n;
            if m == *i {
                return true;
            } else if m < *i {
                lo = mid + 1;
            } else {
                hi = mid;
            }
        }
        proof {
            if cert_has128(s, *i) {
                let k = choose|k: int| 0 <= k < s.len() && #[trigger] s[k].n == *i;
                assert(k < lo || k >= hi);
            }
        }
        false
    }
}

/// The two elements hold the same values.
pub open spec fn same_element128(a: LucasCertificateElement<u128>, b: LucasCertificateElement<u128>) -> bool {
    a.n == b.n && a.base == b.base && a.unique_prime_divisors@ == b.unique_prime_divisors@
}

/// A copy of the element with the same fields.
fn copy_element128(e: &LucasCertificateElement<u128>) -> (r: LucasCertificateElement<u128>)
    ensures
        same_element128(r, *e),
{
    let mut divisors: Vec<u128> = Vec::new();
    let mut i: usize = 0;
    while i < e.unique_prime_divisors.len()
        invariant
            i <= e.unique_prime_divisors@.len(),
            divisors@ == e.unique_prime_divisors@.subrange(0, i as int),
        decreases e.unique_prime_divisors@.len() - i,
    {
        divisors.push(e.unique_prime_divisors[i]);
        i = i + 1;
        proof {
            assert(divisors@ =~= e.unique_prime_divisors@.subrange(0, i as int));
        }
    }
    proof {
        assert(divisors@ =~= e.unique_prime_divisors@);
    }
    LucasCertificateElement { n: e.n, base: e.base, unique_prime_divisors: divisors }
}

/// A copy of the certificate, element by element.
pub fn copy_certificate128(c: &LucasCertificate<u128>) -> (r: LucasCertificate<u128>)
    ensures
        r.elements@.len() == c.elements@.len(),
        forall|i: int| 0 <= i < c.elements@.len() ==> same_element128(#[trigger] r.elements@[i], c.elements@[i]),
        forall|p: u128| #[trigger] cert_has128(r.elements@, p) <==> cert_has128(c.elements@, p),
        cert_valid128(c.elements@) ==> cert_valid128(r.elements@),
{
    let mut elements: Vec<LucasCertificateElement<u128>> = Vec::new();
    let mut i: usize = 0;
    while i < c.elements.len()
        invariant
            i <= c.elements@.len(),
            elements@.len() == i,
            forall|k: int| 0 <= k < i ==> same_element128(#[trigger] elements@[k], c.elements@[k]),
        decreases c.elements@.len() - i,
    {
        elements.push(copy_element128(&c.elements[i]));
        i = i + 1;
    }
    let r = LucasCertificate { elements };
    proof {
        let a = r.elements@;
        let b = c.elements@;
        assert forall|p: u128| #[trigger] cert_has128(a, p) <==> cert_has128(b, p) by {
            if cert_has128(a, p) {
                let k = choose|k: int| 0 <= k < a.len() && #[trigger] a[k].n == p;
                assert(b[k].n == p);
            }
            if cert_has128(b, p) {
                let k = choose|k: int| 0 <= k < b.len() && #[trigger] b[k].n == p;
                assert(a[k].n == p);
            }
        }
        if cert_valid128(b) {
            assert forall|i: int| 0 <= i < a.len() implies element_valid128(a, #[trigger] a[i]) by {
                assert(element_valid128(b, b[i]));
                lemma_element_valid_grows128(b, a, b[i]);
                let e = a[i];
                let d = b[i];
                assert(e.unique_prime_divisors@ == d.unique_prime_divisors@);
            }
        }
    }
    r
}

impl LucasCertificate<u128> {
    /// Gets the first proof element for number `i`.
    pub fn get(&self, i: &u128) -> (r: Option<LucasCertificateElement<u128>>)
        ensures
            r matches Some(e) ==> e.n == *i && exists|k: int|
                0 <= k < self.elements@.len() && same_element128(self.elements@[k], e) && forall|j: int|
                    0 <= j < k ==> #[trigger] self.elements@[j].n != *i,
            r is None ==> !cert_has128(self.elements@, *i),
    {
        let mut k: usize = 0;
        while k < self.elements.len()
            invariant
                k <= self.elements@.len(),
                forall|j: int| 0 <= j < k ==> #[trigger] self.elements@[j].n != *i,
            decreases self.elements@.len() - k,
        {
            if self.elements[k].n == *i {
                let e = copy_element128(&self.elements[k]);
                return Some(e);
            }
            k = k + 1;
        }
        None
    }

    /// Gets the element with the largest `n`, presumably the number that was meant to be
    /// certified.
    pub fn get_max(&self) -> (r: Option<LucasCertificateElement<u128>>)
        ensures
            self.elements@.len() == 0 ==> r is None,
            self.elements@.len() > 0 ==> (r matches Some(e) && same_element128(e, self.elements@.last())),
    {
        if self.elements.len() == 0 {
            None
        } else {
            Some(copy_element128(&self.elements[self.elements.len() - 1]))
        }
    }
}

} // verus!
