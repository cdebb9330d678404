use vstd::prelude::*;

use bitvec::vec::BitVec;
use core::cmp::Ordering;

use crate::model::{first_set, lex_cmp};

verus! {

/// A square occupancy grid stored as a packed bit-vector, row-major.
///
/// The side length is not stored: every operation takes it alongside.
#[verifier::external_body]
pub struct Grid {
    bits: BitVec,
}

/// The bits held by a grid, in index order.
pub uninterp spec fn bits_of(g: Grid) -> Seq<bool>;

impl View for Grid {
    type V = Seq<bool>;

    open spec fn view(&self) -> Seq<bool> {
        bits_of(*self)
    }
}

impl Clone for Grid {
    /// Relies on `BitVec::clone`: the copy holds the same bits.
    #[verifier::external_body]
    fn clone(&self) -> (r: Self)
        ensures
            bits_of(r) == bits_of(*self),
    {
        Grid { bits: self.bits.clone() }
    }
}

impl Grid {
    /// Relies on `BitVec::repeat`: `len` bits, all clear; it panics beyond
    /// `usize::MAX >> 3` bits.
    #[verifier::external_body]
    pub(crate) fn zeros(len: usize) -> (r: Grid)
        requires
            8 * len <= usize::MAX,
        ensures
            bits_of(r) == Seq::new(len as nat, |_i: int| false),
    {
        Grid { bits: BitVec::repeat(false, len) }
    }

    /// Relies on `BitVec::new`: no bits at all.
    #[verifier::external_body]
    pub(crate) fn empty() -> (r: Grid)
        ensures
            bits_of(r) == Seq::<bool>::empty(),
    {
        Grid { bits: BitVec::new() }
    }

    /// Relies on `BitSlice::len`: the number of bits, which a bit-vector
    /// keeps within `usize::MAX >> 3`.
    #[verifier::external_body]
    pub(crate) fn len(&self) -> (r: usize)
        ensures
            r == self@.len(),
            8 * r <= usize::MAX,
    {
        self.bits.len()
    }

    /// Relies on indexing a `BitSlice`: the bit at `i`.
    #[verifier::external_body]
    pub(crate) fn get(&self, i: usize) -> (r: bool)
        requires
            i < self@.len(),
        ensures
            r == self@[i as int],
    {
        self.bits[i]
    }

    /// Relies on `BitSlice::set`: writes one bit and leaves the rest.
    #[verifier::external_body]
    pub(crate) fn set(&mut self, i: usize, v: bool)
        requires
            i < old(self)@.len(),
        ensures
            final(self)@ == old(self)@.update(i as int, v),
    {
        self.bits.set(i, v)
    }

    /// Relies on `BitSlice::leading_zeros`: the index of the first set bit,
    /// or the length when no bit is set.
    #[verifier::external_body]
    pub(crate) fn leading_zeros(&self) -> (r: usize)
        ensures
            r == first_set(bits_of(*self)),
    {
        self.bits.leading_zeros()
    }

    /// Relies on `BitSlice::shift_start`: moves every bit `by` places toward
    /// index zero and clears the vacated tail; panics when `by` exceeds the
    /// length.
    #[verifier::external_body]
    pub(crate) fn shift_start(&mut self, by: usize)
        requires
            by <= old(self)@.len(),
        ensures
            final(self)@ == Seq::new(
                old(self)@.len(),
                |i: int| if i + by < old(self)@.len() { old(self)@[i + by] } else { false },
            ),
    {
        self.bits.shift_start(by)
    }

    /// Relies on `BitOrAssign` between bit-slices: the `n` bits of `self`
    /// starting at `at` are or-ed with the `n` bits of `other` starting at
    /// `from`.
    #[verifier::external_body]
    pub(crate) fn or_range(&mut self, at: usize, other: &Grid, from: usize, n: usize)
        requires
            at + n <= old(self)@.len(),
            from + n <= other@.len(),
        ensures
            final(self)@ == Seq::new(
                old(self)@.len(),
                |i: int|
                    if at <= i < at + n {
                        old(self)@[i] || other@[i - at + from]
                    } else {
                        old(self)@[i]
                    },
            ),
    {
        self.bits[at..at + n] |= &other.bits[from..from + n];
    }

    /// Relies on `BitAndAssign` of a bit-vector by one of equal length: each
    /// bit is and-ed with the bit of `other` at the same index.
    #[verifier::external_body]
    pub(crate) fn and_assign(&mut self, other: &Grid)
        requires
            old(self)@.len() == other@.len(),
        ensures
            final(self)@ == Seq::new(old(self)@.len(), |i: int| old(self)@[i] && other@[i]),
    {
        self.bits &= &other.bits;
    }

    /// Relies on `Not` for `BitVec`: every bit inverted.
    #[verifier::external_body]
    pub(crate) fn invert(self) -> (r: Grid)
        ensures
            r@ == Seq::new(self@.len(), |i: int| !self@[i]),
    {
        Grid { bits: !self.bits }
    }

    /// Relies on `BitVec::extend_from_bitslice`: appends the bits of `other`
    /// in `from..to`; it panics when the result would exceed
    /// `usize::MAX >> 3` bits.
    #[verifier::external_body]
    pub(crate) fn extend_from_range(&mut self, other: &Grid, from: usize, to: usize)
        requires
            from <= to <= other@.len(),
            8 * (old(self)@.len() + (to - from)) <= usize::MAX,
        ensures
            final(self)@ == old(self)@ + other@.subrange(from as int, to as int),
    {
        self.bits.extend_from_bitslice(&other.bits[from..to])
    }

    /// Relies on `Ord` for `BitVec`: bits compared pairwise from index zero,
    /// a set bit above a clear one, then the lengths.
    #[verifier::external_body]
    pub(crate) fn compare(&self, other: &Grid) -> (r: Ordering)
        ensures
            r == lex_cmp(self@, other@),
    {
        self.bits.cmp(&other.bits)
    }

    /// Relies on `PartialEq` for `BitVec`: equal lengths and equal bits.
    #[verifier::external_body]
    pub(crate) fn same_bits(&self, other: &Grid) -> (r: bool)
        ensures
            r == (self@ == other@),
    {
        self.bits == other.bits
    }
}

impl Grid {
    /// A grid holding the given bits in order.
    pub fn from_bools(v: &Vec<bool>) -> (r: Grid)
        requires
            8 * v@.len() <= usize::MAX,
        ensures
            r@ == v@,
    {
        let mut r = Grid::zeros(v.len());
        let mut i: usize = 0;
        while i < v.len()
            invariant
                0 <= i <= v.len(),
                r@.len() == v@.len(),
                forall|k: int| 0 <= k < i ==> #[trigger] r@[k] == v@[k],
            decreases v.len() - i,
        {
            r.set(i, v[i]);
            i = i + 1;
        }
        proof {
            assert(r@ =~= v@);
        }
        r
    }

    /// The bits of the grid in order.
    pub fn to_bools(&self) -> (r: Vec<bool>)
        ensures
            r@ == self@,
    {
        let n = self.len();
        let mut r: Vec<bool> = Vec::new();
        let mut i: usize = 0;
        while i < n
            invariant
                0 <= i <= n,
                n == self@.len(),
                r@ == self@.subrange(0, i as int),
            decreases n - i,
        {
            r.push(self.get(i));
            i = i + 1;
            proof {
                assert(r@ =~= self@.subrange(0, i as int));
            }
        }
        proof {
            assert(r@ =~= self@);
        }
        r
    }
}

} // verus!
