//! Lists of factors: sorted insertion, deduplication, and facts about their products.
use crate::arith::{divides, product128, product64, sorted128, sorted64};
use vstd::prelude::*;

verus! {

/// Sum of `x - 1` over the list: shrinks whenever a factor is split or removed.
pub open spec fn weight64(s: Seq<u64>) -> int
    decreases s.len(),
{
    if s.len() == 0 {
        0
    } else {
        weight64(s.drop_last()) + s.last() - 1
    }
}

/// The weight of a list of positive factors is not negative.
pub proof fn lemma_weight64_nonneg(s: Seq<u64>)
    requires
        forall|j: int| 0 <= j < s.len() ==> #[trigger] s[j] >= 1,
    ensures
        weight64(s) >= 0,
    decreases s.len(),
{
    if s.len() > 0 {
        assert forall|j: int| 0 <= j < s.drop_last().len() implies #[trigger] s.drop_last()[j] >= 1 by {
            assert(s.drop_last()[j] == s[j]);
        }
        lemma_weight64_nonneg(s.drop_last());
    }
}

/// The sequence is in strictly increasing order.
pub open spec fn strictly_sorted64(s: Seq<u64>) -> bool {
    forall|i: int, j: int| 0 <= i < j < s.len() ==> s[i] < s[j]
}

pub proof fn lemma_product64_insert(s: Seq<u64>, i: int, x: u64)
    requires
        0 <= i <= s.len(),
    ensures
        product64(s.insert(i, x)) == product64(s) * x,
    decreases s.len(),
{
    if i == s.len() {
        assert(s.insert(i, x) =~= s.push(x));
        crate::arith::lemma_product64_push(s, x);
    } else {
        let t = s.insert(i, x);
        assert(t.drop_last() =~= s.drop_last().insert(i, x));
        assert(t.last() == s.last());
        lemma_product64_insert(s.drop_last(), i, x);
        assert(product64(s.drop_last()) * x * s.last() == product64(s.drop_last()) * s.last() * x)
            by (nonlinear_arith);
    }
}

/// Every element of a list of positive factors divides their product.
pub proof fn lemma_product64_divides(s: Seq<u64>, k: int)
    requires
        0 <= k < s.len(),
        forall|j: int| 0 <= j < s.len() ==> #[trigger] s[j] >= 1,
    ensures
        divides(s[k] as int, product64(s)),
    decreases s.len(),
{
    let p = product64(s.drop_last());
    if k == s.len() - 1 {
        vstd::arithmetic::div_mod::lemma_mod_multiples_basic(p, s[k] as int);
    } else {
        lemma_product64_divides(s.drop_last(), k);
        assert(s.drop_last()[k] == s[k]);
        crate::util::lemma_divides_linear(s[k] as int, p, 0, s.last() as int);
    }
}

/// A product of factors that are all at least 1 is at least 1.
pub proof fn lemma_product64_positive(s: Seq<u64>)
    requires
        forall|j: int| 0 <= j < s.len() ==> #[trigger] s[j] >= 1,
    ensures
        product64(s) >= 1,
    decreases s.len(),
{
    if s.len() > 0 {
        assert forall|j: int| 0 <= j < s.drop_last().len() implies #[trigger] s.drop_last()[j] >= 1 by {
            assert(s.drop_last()[j] == s[j]);
        }
        lemma_product64_positive(s.drop_last());
        let p = product64(s.drop_last());
        assert(p * s.last() >= 1) by (nonlinear_arith)
            requires
                p >= 1,
                s.last() >= 1,
        ;
    }
}

/// Inserts `x` into a sorted vector at its place.
pub fn insert_sorted64(v: &mut Vec<u64>, x: u64)
    requires
        sorted64(old(v)@),
    ensures
        sorted64(final(v)@),
        exists|i: int| 0 <= i <= old(v)@.len() && final(v)@ == old(v)@.insert(i, x),
        product64(final(v)@) == product64(old(v)@) * x,
{
    let ghost s = v@;
    let mut i: usize = 0;
    while i < v.len() && v[i] <= x
        invariant
            s == v@,
            i <= v@.len(),
            forall|k: int| 0 <= k < i ==> #[trigger] v@[k] <= x,
        decreases v@.len() - i,
    {
        i = i + 1;
    }
    v.insert(i, x);
    proof {
        let t = v@;
        assert(t == s.insert(i as int, x));
        assert forall|a: int, b: int| 0 <= a < b < t.len() implies t[a] <= t[b] by {
            if b < i {
            } else if a > i {
                assert(t[a] == s[a - 1]);
                assert(t[b] == s[b - 1]);
            } else if a == i {
                assert(t[b] == s[b - 1]);
                assert(s[i as int] > x);
                if b - 1 > i {
                    assert(s[i as int] <= s[b - 1]);
                }
            } else {
                if b == i {
                } else {
                    assert(t[b] == s[b - 1]);
                    assert(s[a] <= s[b - 1]);
                }
            }
        }
        lemma_product64_insert(s, i as int, x);
    }
}

/// The distinct values of a sorted vector, in increasing order.
pub fn dedup_sorted64(v: &Vec<u64>) -> (r: Vec<u64>)
    requires
        sorted64(v@),
    ensures
        strictly_sorted64(r@),
        forall|x: u64| r@.contains(x) <==> v@.contains(x),
{
    let mut r: Vec<u64> = Vec::new();
    let mut i: usize = 0;
    while i < v.len()
        invariant
            sorted64(v@),
            i <= v@.len(),
            strictly_sorted64(r@),
            forall|x: u64| r@.contains(x) <==> v@.subrange(0, i as int).contains(x),
            i > 0 ==> r@.len() > 0 && r@.last() == v@[i - 1],
            i == 0 ==> r@.len() == 0,
        decreases v@.len() - i,
    {
        let x = v[i];
        let ghost before = r@;
        if r.len() == 0 || r[r.len() - 1] != x {
            r.push(x);
            proof {
                assert(r@ == before.push(x));
                assert forall|a: int, b: int| 0 <= a < b < r@.len() implies r@[a] < r@[b] by {
                    assert(r@[a] == before[a]);
                    if b == r@.len() - 1 {
                        assert(r@[b] == x);
                        assert(i > 0);
                        assert(v@[i - 1] <= x);
                        assert(before.last() == v@[i - 1]);
                        assert(before.last() != x);
                        if a < before.len() - 1 {
                            assert(before[a] < before[before.len() - 1]);
                        }
                    } else {
                        assert(r@[b] == before[b]);
                    }
                }
            }
        }
        proof {
            assert forall|y: u64| r@.contains(y) <==> v@.subrange(0, i + 1).contains(y) by {
                assert(v@.subrange(0, i + 1) =~= v@.subrange(0, i as int).push(x));
                if r@.contains(y) && !before.contains(y) {
                    assert(y == x);
                    assert(v@.subrange(0, i + 1)[i as int] == x);
                }
                if v@.subrange(0, i + 1).contains(y) {
                    let k = choose|k: int| 0 <= k < i + 1 && #[trigger] v@.subrange(0, i + 1)[k] == y;
                    if k == i {
                        assert(r@.last() == x);
                        assert(r@[r@.len() - 1] == y);
                    } else {
                        assert(v@.subrange(0, i as int)[k] == y);
                        assert(before.contains(y));
                        let m = choose|m: int| 0 <= m < before.len() && #[trigger] before[m] == y;
                        assert(r@[m] == y);
                    }
                }
                if before.contains(y) {
                    let m = choose|m: int| 0 <= m < before.len() && #[trigger] before[m] == y;
                    assert(r@[m] == y);
                }
            }
        }
        i = i + 1;
    }
    proof {
        assert(v@.subrange(0, v@.len() as int) =~= v@);
    }
    r
}



/// Sum of `x - 1` over the list: shrinks whenever a factor is split or removed.
pub open spec fn weight128(s: Seq<u128>) -> int
    decreases s.len(),
{
    if s.len() == 0 {
        0
    } else {
        weight128(s.drop_last()) + s.last() - 1
    }
}

/// The weight of a list of positive factors is not negative.
pub proof fn lemma_weight128_nonneg(s: Seq<u128>)
    requires
        forall|j: int| 0 <= j < s.len() ==> #[trigger] s[j] >= 1,
    ensures
        weight128(s) >= 0,
    decreases s.len(),
{
    if s.len() > 0 {
        assert forall|j: int| 0 <= j < s.drop_last().len() implies #[trigger] s.drop_last()[j] >= 1 by {
            assert(s.drop_last()[j] == s[j]);
        }
        lemma_weight128_nonneg(s.drop_last());
    }
}

/// The sequence is in strictly increasing order.
pub open spec fn strictly_sorted128(s: Seq<u128>) -> bool {
    forall|i: int, j: int| 0 <= i < j < s.len() ==> s[i] < s[j]
}

pub proof fn lemma_product128_insert(s: Seq<u128>, i: int, x: u128)
    requires
        0 <= i <= s.len(),
    ensures
        product128(s.insert(i, x)) == product128(s) * x,
    decreases s.len(),
{
    if i == s.len() {
        assert(s.insert(i, x) =~= s.push(x));
        crate::arith::lemma_product128_push(s, x);
    } else {
        let t = s.insert(i, x);
        assert(t.drop_last() =~= s.drop_last().insert(i, x));
        assert(t.last() == s.last());
        lemma_product128_insert(s.drop_last(), i, x);
        assert(product128(s.drop_last()) * x * s.last() == product128(s.drop_last()) * s.last() * x)
            by (nonlinear_arith);
    }
}

/// Every element of a list of positive factors divides their product.
pub proof fn lemma_product128_divides(s: Seq<u128>, k: int)
    requires
        0 <= k < s.len(),
        forall|j: int| 0 <= j < s.len() ==> #[trigger] s[j] >= 1,
    ensures
        divides(s[k] as int, product128(s)),
    decreases s.len(),
{
    let p = product128(s.drop_last());
    if k == s.len() - 1 {
        vstd::arithmetic::div_mod::lemma_mod_multiples_basic(p, s[k] as int);
    } else {
        lemma_product128_divides(s.drop_last(), k);
        assert(s.drop_last()[k] == s[k]);
        crate::util::lemma_divides_linear(s[k] as int, p, 0, s.last() as int);
    }
}

/// Inserts `x` into a sorted vector at its place.
pub fn insert_sorted128(v: &mut Vec<u128>, x: u128)
    requires
        sorted128(old(v)@),
    ensures
        sorted128(final(v)@),
        exists|i: int| 0 <= i <= old(v)@.len() && final(v)@ == old(v)@.insert(i, x),
        product128(final(v)@) == product128(old(v)@) * x,
{
    let ghost s = v@;
    let mut i: usize = 0;
    while i < v.len() && v[i] <= x
        invariant
            s == v@,
            i <= v@.len(),
            forall|k: int| 0 <= k < i ==> #[trigger] v@[k] <= x,
        decreases v@.len() - i,
    {
        i = i + 1;
    }
    v.insert(i, x);
    proof {
        let t = v@;
        assert(t == s.insert(i as int, x));
        assert forall|a: int, b: int| 0 <= a < b < t.len() implies t[a] <= t[b] by {
            if b < i {
            } else if a > i {
                assert(t[a] == s[a - 1]);
                assert(t[b] == s[b - 1]);
            } else if a == i {
                assert(t[b] == s[b - 1]);
                assert(s[i as int] > x);
                if b - 1 > i {
                    assert(s[i as int] <= s[b - 1]);
                }
            } else {
                if b == i {
                } else {
                    assert(t[b] == s[b - 1]);
                    assert(s[a] <= s[b - 1]);
                }
            }
        }
        lemma_product128_insert(s, i as int, x);
    }
}

/// The distinct values of a sorted vector, in increasing order.
pub fn dedup_sorted128(v: &Vec<u128>) -> (r: Vec<u128>)
    requires
        sorted128(v@),
    ensures
        strictly_sorted128(r@),
        forall|x: u128| r@.contains(x) <==> v@.contains(x),
{
    let mut r: Vec<u128> = Vec::new();
    let mut i: usize = 0;
    while i < v.len()
        invariant
            sorted128(v@),
            i <= v@.len(),
            strictly_sorted128(r@),
            forall|x: u128| r@.contains(x) <==> v@.subrange(0, i as int).contains(x),
            i > 0 ==> r@.len() > 0 && r@.last() == v@[i - 1],
            i == 0 ==> r@.len() == 0,
        decreases v@.len() - i,
    {
        let x = v[i];
        let ghost before = r@;
        if r.len() == 0 || r[r.len() - 1] != x {
            r.push(x);
            proof {
                assert(r@ == before.push(x));
                assert forall|a: int, b: int| 0 <= a < b < r@.len() implies r@[a] < r@[b] by {
                    assert(r@[a] == before[a]);
                    if b == r@.len() - 1 {
                        assert(r@[b] == x);
                        assert(i > 0);
                        assert(v@[i - 1] <= x);
                        assert(before.last() == v@[i - 1]);
                        assert(before.last() != x);
                        if a < before.len() - 1 {
                            assert(before[a] < before[before.len() - 1]);
                        }
                    } else {
                        assert(r@[b] == before[b]);
                    }
                }
            }
        }
        proof {
            assert forall|y: u128| r@.contains(y) <==> v@.subrange(0, i + 1).contains(y) by {
                assert(v@.subrange(0, i + 1) =~= v@.subrange(0, i as int).push(x));
                if r@.contains(y) && !before.contains(y) {
                    assert(y == x);
                    assert(v@.subrange(0, i + 1)[i as int] == x);
                }
                if v@.subrange(0, i + 1).contains(y) {
                    let k = choose|k: int| 0 <= k < i + 1 && #[trigger] v@.subrange(0, i + 1)[k] == y;
                    if k == i {
                        assert(r@.last() == x);
                        assert(r@[r@.len() - 1] == y);
                    } else {
                        assert(v@.subrange(0, i as int)[k] == y);
                        assert(before.contains(y));
                        let m = choose|m: int| 0 <= m < before.len() && #[trigger] before[m] == y;
                        assert(r@[m] == y);
                    }
                }
                if before.contains(y) {
                    let m = choose|m: int| 0 <= m < before.len() && #[trigger] before[m] == y;
                    assert(r@[m] == y);
                }
            }
        }
        i = i + 1;
    }
    proof {
        assert(v@.subrange(0, v@.len() as int) =~= v@);
    }
    r
}

} // verus!
