//! A bit-packed vector over GF(2), the row type of the sieve's linear algebra.
use vstd::prelude::*;

verus! {

/// Bits stored 128 to a cell, bit `i` being bit `i % 128` of cell `i / 128`.
#[derive(Clone, Debug, PartialEq, Eq, PartialOrd, Ord)]
pub struct BitVector {
    /// The cells.
    pub elements: Vec<u128>,
}

/// Bit `j` of the cell `e`.
pub open spec fn cell_bit(e: u128, j: int) -> bool {
    (e >> (j as u128)) & 1u128 == 1u128
}

/// Bit `i` of the vector made of `cells`.
pub open spec fn vector_bit(cells: Seq<u128>, i: int) -> bool {
    cell_bit(cells[i / 128], i % 128)
}

impl BitVector {
    /// A zero vector with room for `size` bits.
    pub fn new(size: usize) -> (r: Self)
        ensures
            r.elements@.len() == (size as int + 127) / 128,
            forall|i: int| 0 <= i < r.elements@.len() ==> #[trigger] r.elements@[i] == 0,
    {
        let cells: usize = size / 128 + if size % 128 == 0 {
            0
        } else {
            1
        };
        let mut elements: Vec<u128> = Vec::new();
        let mut i: usize = 0;
        while i < cells
            invariant
                i <= cells,
                elements@.len() == i,
                forall|k: int| 0 <= k < i ==> #[trigger] elements@[k] == 0,
            decreases cells - i,
        {
            elements.push(0);
            i = i + 1;
        }
        BitVector { elements }
    }

    /// Index of the lowest set bit, or `128 * cells` when no bit is set.
    pub fn trailing_zeros(&self) -> (r: usize)
        requires
            self.elements@.len() * 128 <= usize::MAX,
        ensures
            r <= self.elements@.len() * 128,
            forall|i: int| 0 <= i < r ==> !vector_bit(self.elements@, i),
            r < self.elements@.len() * 128 ==> vector_bit(self.elements@, r as int),
    {
        let mut r: usize = 0;
        let mut c: usize = 0;
        while c < self.elements.len()
            invariant
                self.elements@.len() * 128 <= usize::MAX,
                c <= self.elements@.len(),
                r == c * 128,
                forall|i: int| 0 <= i < r ==> !vector_bit(self.elements@, i),
            decreases self.elements@.len() - c,
        {
            let e = self.elements[c];
            let mut j: u32 = 0;
            while j < 128
                invariant
                    j <= 128,
                    e == self.elements@[c as int],
                    c < self.elements@.len(),
                    r == c * 128,
                    self.elements@.len() * 128 <= usize::MAX,
                    forall|k: int| 0 <= k < j ==> !cell_bit(e, k),
                    forall|i: int| 0 <= i < r ==> !vector_bit(self.elements@, i),
                decreases 128 - j,
            {
                if (e >> j) & 1 == 1 {
                    proof {
                        assert((r + j) / 128 == c && (r + j) % 128 == j as int) by (nonlinear_arith)
                            requires
                                r == c * 128,
                                j < 128,
                        ;
                        assert forall|i: int| 0 <= i < r + j implies !vector_bit(self.elements@, i) by {
                            if i >= r {
                                assert(i / 128 == c && i % 128 == i - r) by (nonlinear_arith)
                                    requires
                                        r == c * 128,
                                        r <= i < r + 128,
                                ;
                            }
                        }
                    }
                    return r + j as usize;
                }
                j = j + 1;
            }
            proof {
                assert forall|i: int| 0 <= i < r + 128 implies !vector_bit(self.elements@, i) by {
                    if i >= r {
                        assert(i / 128 == c && i % 128 == i - r) by (nonlinear_arith)
                            requires
                                r == c * 128,
                                r <= i < r + 128,
                        ;
                    }
                }
            }
            r = r + 128;
            c = c + 1;
        }
        r
    }

    /// Whether every bit is zero.
    pub fn is_zero(&self) -> (r: bool)
        ensures
            r == forall|i: int| 0 <= i < self.elements@.len() ==> #[trigger] self.elements@[i] == 0,
    {
        let mut i: usize = 0;
        while i < self.elements.len()
            invariant
                i <= self.elements@.len(),
                forall|k: int| 0 <= k < i ==> #[trigger] self.elements@[k] == 0,
            decreases self.elements@.len() - i,
        {
            if self.elements[i] != 0 {
                return false;
            }
            i = i + 1;
        }
        true
    }

    /// Adds `other` (exclusive or), cell by cell over the cells both have.
    pub fn add(&mut self, other: &Self)
        ensures
            final(self).elements@.len() == old(self).elements@.len(),
            forall|i: int|
                0 <= i < old(self).elements@.len() ==> #[trigger] final(self).elements@[i] == if i
                    < other.elements@.len() {
                    old(self).elements@[i] ^ other.elements@[i]
                } else {
                    old(self).elements@[i]
                },
    {
        let mut i: usize = 0;
        while i < self.elements.len() && i < other.elements.len()
            invariant
                self.elements@.len() == old(self).elements@.len(),
                i <= self.elements@.len(),
                i <= other.elements@.len(),
                forall|k: int|
                    0 <= k < self.elements@.len() ==> #[trigger] self.elements@[k] == if k < i {
                        old(self).elements@[k] ^ other.elements@[k]
                    } else {
                        old(self).elements@[k]
                    },
            decreases self.elements@.len() - i,
        {
            let x = self.elements[i] ^ other.elements[i];
            self.elements.set(i, x);
            i = i + 1;
        }
    }

    /// The mask of bit `index` within its cell, and the cell's index.
    pub fn bit_helper(index: usize) -> (r: (u128, usize))
        ensures
            r.0 == 1u128 << ((index % 128) as u128),
            r.1 == index / 128,
    {
        let bit_index = index % 128;
        let cell_index = index / 128;
        let mask = 1u128 << (bit_index as u128);
        (mask, cell_index)
    }

    /// Sets bit `index` to `value`.
    pub fn set(&mut self, index: usize, value: bool)
        requires
            index / 128 < old(self).elements@.len(),
        ensures
            final(self).elements@ == old(self).elements@.update(
                (index / 128) as int,
                if value {
                    old(self).elements@[(index / 128) as int] | (1u128 << ((index % 128) as u128))
                } else {
                    old(self).elements@[(index / 128) as int] & !(1u128 << ((index % 128) as u128))
                },
            ),
    {
        let (mask, cell_index) = Self::bit_helper(index);
        let cell = self.elements[cell_index];
        if value {
            self.elements.set(cell_index, cell | mask);
        } else {
            self.elements.set(cell_index, cell & !mask);
        }
    }

    /// Bit `index`.
    pub fn get(&self, index: usize) -> (r: bool)
        requires
            index / 128 < self.elements@.len(),
        ensures
            r == (self.elements@[(index / 128) as int] & (1u128 << ((index % 128) as u128)) != 0),
    {
        let (mask, cell_index) = Self::bit_helper(index);
        (self.elements[cell_index] & mask) != 0
    }

    /// Flips bit `index`.
    pub fn flip(&mut self, index: usize)
        requires
            index / 128 < old(self).elements@.len(),
        ensures
            final(self).elements@ == old(self).elements@.update(
                (index / 128) as int,
                old(self).elements@[(index / 128) as int] ^ (1u128 << ((index % 128) as u128)),
            ),
    {
        let (mask, cell_index) = Self::bit_helper(index);
        let cell = self.elements[cell_index];
        self.elements.set(cell_index, cell ^ mask);
    }
}

} // verus!
