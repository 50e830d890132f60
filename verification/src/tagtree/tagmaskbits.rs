//! A fixed 32-bit set of slot indices.  Bit `i` stands for child slot `i`
//! of a branch node; the mask supports single-bit updates, union,
//! intersection, and consuming iteration from the lowest set bit upward.

use vstd::prelude::*;

verus! {

/// Holds of `m` when bit `i` is set.  Indices at or above the fixed
/// width of 32 are never considered set.
pub open spec fn bit32(m: u32, i: u32) -> bool {
    i < 32 && ((m >> i) & 1u32) == 1u32
}

/// Number of set bits of `m` strictly below index `k`.
pub open spec fn count_bits_below(m: u32, k: int) -> nat
    decreases k,
{
    if k <= 0 {
        0
    } else {
        count_bits_below(m, k - 1) + (if bit32(m, (k - 1) as u32) {
            1nat
        } else {
            0nat
        })
    }
}

/// A 32-bit mask of child slots.
#[derive(Debug, PartialEq, Eq, Structural, Clone, Copy)]
pub struct TagMaskBits(pub u32);

impl TagMaskBits {
    /// The fixed fan-out: one bit per child slot.
    pub const BITS: usize = 32;

    /// Proves that a mask is zero exactly when none of its bits is set.
    pub proof fn lemma_zero_iff_no_bits(m: u32)
        ensures
            (m == 0) <==> (forall|j: u32| !bit32(m, j)),
    {
        if m != 0 {
            vstd::std_specs::bits::axiom_u32_trailing_zeros(m);
            let tz = vstd::std_specs::bits::u32_trailing_zeros(m);
            assert(tz < 32);
            assert(bit32(m, tz));
        } else {
            assert(forall|j: u32| j < 32 ==> ((m >> j) & 1u32) == 0u32) by (bit_vector)
                requires
                    m == 0,
            ;
        }
    }

    /// Proves that the all-set mask names every slot.
    pub proof fn lemma_all_bits()
        ensures
            forall|j: u32| j < 32 ==> bit32(0xffff_ffffu32, j),
    {
        assert forall|j: u32| j < 32 implies bit32(0xffff_ffffu32, j) by {
            assert(j < 32 ==> ((0xffff_ffffu32 >> j) & 1u32) == 1u32) by (bit_vector);
        }
    }

    /// Proves which slots the two half-partition masks name: the low
    /// half holds slots 0 to 15, the high half slots 16 to 31.
    pub proof fn lemma_half_bits()
        ensures
            forall|j: u32| bit32(0x0000_ffffu32, j) <==> j < 16,
            forall|j: u32| bit32(0xffff_0000u32, j) <==> (16 <= j < 32),
    {
        assert forall|j: u32| bit32(0x0000_ffffu32, j) <==> j < 16 by {
            assert(j < 32 ==> ((((0x0000_ffffu32 >> j) & 1u32) == 1u32) <==> j < 16))
                by (bit_vector);
        }
        assert forall|j: u32| bit32(0xffff_0000u32, j) <==> (16 <= j < 32) by {
            assert(j < 32 ==> ((((0xffff_0000u32 >> j) & 1u32) == 1u32) <==> j >= 16))
                by (bit_vector);
        }
    }

    /// Clear bit `idx`; the other bits keep their values.
    pub fn unset_bit(&mut self, idx: usize)
        requires
            idx < 32,
        ensures
            forall|j: u32| bit32(final(self).0, j) == (bit32(old(self).0, j) && j != idx as u32),
            bit32(old(self).0, idx as u32) ==> final(self).0 < old(self).0,
    {
        let m: u32 = self.0;
        let i: u32 = idx as u32;
        self.0 = m & !(1u32 << i);
        assert(i < 32 && ((m >> i) & 1u32) == 1u32 ==> (m & !(1u32 << i)) < m) by (bit_vector);
        assert(forall|j: u32|
            j < 32 && i < 32 ==> (((m & !(1u32 << i)) >> j) & 1u32 == 1u32) == ((((m >> j) & 1u32)
                == 1u32) && j != i)) by (bit_vector);
    }

    /// Set bit `idx`; the other bits keep their values.
    pub fn set_bit(&mut self, idx: usize)
        requires
            idx < 32,
        ensures
            forall|j: u32| bit32(final(self).0, j) == (bit32(old(self).0, j) || j == idx as u32),
    {
        let m: u32 = self.0;
        let i: u32 = idx as u32;
        self.0 = m | (1u32 << i);
        assert(forall|j: u32|
            j < 32 && i < 32 ==> (((m | (1u32 << i)) >> j) & 1u32 == 1u32) == ((((m >> j) & 1u32)
                == 1u32) || j == i)) by (bit_vector);
    }

    /// Report whether bit `idx` is set.
    pub fn is_set(&self, idx: usize) -> (r: bool)
        requires
            idx < 32,
        ensures
            r == bit32(self.0, idx as u32),
    {
        let m: u32 = self.0;
        let i: u32 = idx as u32;
        let r = (m & (1u32 << i)) != 0;
        assert(i < 32 ==> ((m & (1u32 << i)) != 0) == (((m >> i) & 1u32) == 1u32)) by (bit_vector);
        r
    }

    /// Grow this mask to the union of itself and `other`.
    pub fn set_union(&mut self, other: &Self)
        ensures
            forall|j: u32| bit32(final(self).0, j) == (bit32(old(self).0, j) || bit32(other.0, j)),
    {
        let a: u32 = self.0;
        let b: u32 = other.0;
        self.0 = a | b;
        assert(forall|j: u32|
            j < 32 ==> (((a | b) >> j) & 1u32 == 1u32) == ((((a >> j) & 1u32) == 1u32) || (((b >> j)
                & 1u32) == 1u32))) by (bit_vector);
    }

    /// Shrink this mask to the intersection of itself and `other`.
    pub fn set_intersect(&mut self, other: &Self)
        ensures
            forall|j: u32| bit32(final(self).0, j) == (bit32(old(self).0, j) && bit32(other.0, j)),
    {
        let a: u32 = self.0;
        let b: u32 = other.0;
        self.0 = a & b;
        assert(forall|j: u32|
            j < 32 ==> (((a & b) >> j) & 1u32 == 1u32) == ((((a >> j) & 1u32) == 1u32) && (((b >> j)
                & 1u32) == 1u32))) by (bit_vector);
    }

    /// The intersection of two masks, leaving both operands alone.
    pub fn intersect(&self, other: &Self) -> (r: Self)
        ensures
            r.0 == (self.0 & other.0),
            forall|j: u32| bit32(r.0, j) == (bit32(self.0, j) && bit32(other.0, j)),
    {
        let a: u32 = self.0;
        let b: u32 = other.0;
        let r = TagMaskBits(a & b);
        assert(forall|j: u32|
            j < 32 ==> (((a & b) >> j) & 1u32 == 1u32) == ((((a >> j) & 1u32) == 1u32) && (((b >> j)
                & 1u32) == 1u32))) by (bit_vector);
        r
    }

    /// Remove every bit of `other` from this mask.
    pub fn set_subtract(&mut self, other: &Self)
        ensures
            forall|j: u32| bit32(final(self).0, j) == (bit32(old(self).0, j) && !bit32(other.0, j)),
    {
        let a: u32 = self.0;
        let b: u32 = other.0;
        self.0 = a & !b;
        assert(forall|j: u32|
            j < 32 ==> (((a & !b) >> j) & 1u32 == 1u32) == ((((a >> j) & 1u32) == 1u32) && !(((b
                >> j) & 1u32) == 1u32))) by (bit_vector);
    }

    /// The index of the highest set bit, or nothing for the empty mask.
    pub fn last_idx(&self) -> (r: Option<usize>)
        ensures
            match r {
                Option::Some(i) => i < 32 && bit32(self.0, i as u32) && (forall|j: u32|
                    j > i as u32 ==> !bit32(self.0, j)),
                Option::None => self.0 == 0,
            },
    {
        let mut k: usize = 32;
        while k > 0
            invariant
                k <= 32,
                forall|j: u32| j >= k as u32 ==> !bit32(self.0, j),
            decreases k,
        {
            k = k - 1;
            if self.is_set(k) {
                return Some(k);
            }
        }
        proof {
            Self::lemma_zero_iff_no_bits(self.0);
        }
        None
    }

    /// Take the lowest set bit out of the mask and report its index;
    /// nothing is left to take from the empty mask.
    pub fn next(&mut self) -> (r: Option<usize>)
        ensures
            match r {
                Option::Some(i) => {
                    &&& i < 32
                    &&& bit32(old(self).0, i as u32)
                    &&& forall|j: u32| j < i as u32 ==> !bit32(old(self).0, j)
                    &&& forall|j: u32|
                        bit32(final(self).0, j) == (bit32(old(self).0, j) && j != i as u32)
                    &&& final(self).0 < old(self).0
                },
                Option::None => old(self).0 == 0 && final(self).0 == 0,
            },
    {
        let mut k: usize = 0;
        while k < 32
            invariant
                k <= 32,
                forall|j: u32| j < k as u32 ==> !bit32(self.0, j),
                self.0 == old(self).0,
            decreases 32 - k,
        {
            if self.is_set(k) {
                self.unset_bit(k);
                return Some(k);
            }
            k = k + 1;
        }
        proof {
            Self::lemma_zero_iff_no_bits(self.0);
        }
        None
    }

    /// The number of set bits: how many slots the mask names.
    pub fn len(&self) -> (r: usize)
        ensures
            r == count_bits_below(self.0, 32),
    {
        let mut k: usize = 0;
        let mut n: usize = 0;
        while k < 32
            invariant
                k <= 32,
                n <= k,
                n == count_bits_below(self.0, k as int),
            decreases 32 - k,
        {
            if self.is_set(k) {
                n = n + 1;
            }
            k = k + 1;
        }
        n
    }
}

} // verus!
