//! Integer widths that a sparse matrix can be stored in.
//!
//! Row pointers, column indices and values each pick their own unsigned width.
//! Every width comes with the number its values stand for, so that contracts
//! elsewhere can speak about plain naturals.

use vstd::prelude::*;

verus! {

/// Width of the row pointers of a sparse matrix.
pub trait IndPtrStorage: Copy + Sized {
    /// The number a stored value stands for.
    spec fn as_nat(self) -> nat;

    /// The largest number this width can hold.
    spec fn max_nat() -> nat;

    /// The value converted to `usize`; high bits that do not fit are dropped.
    spec fn spec_index(self) -> usize;

    /// `val` converted to this width; high bits that do not fit are dropped.
    spec fn spec_from_usize(val: usize) -> Self;

    /// No value stands for more than `max_nat`.
    proof fn lemma_bounded(self)
        ensures
            self.as_nat() <= Self::max_nat(),
    ;

    /// Two values that stand for the same number are the same value.
    proof fn lemma_injective(self, other: Self)
        ensures
            self.as_nat() == other.as_nat() ==> self == other,
    ;

    /// Converting to `usize` keeps the number whenever it fits.
    proof fn lemma_index_exact(self)
        ensures
            self.as_nat() <= usize::MAX ==> self.spec_index() == self.as_nat(),
    ;

    /// Converting from `usize` keeps the number whenever it fits.
    proof fn lemma_from_usize_exact(val: usize)
        ensures
            val <= Self::max_nat() ==> Self::spec_from_usize(val).as_nat() == val,
    ;

    /// The value as a position, which every width here can give.
    fn try_index(&self) -> (r: Option<usize>)
        ensures
            r == Some(self.spec_index()),
    ;

    /// The value as a position.
    fn index(self) -> (r: usize)
        ensures
            r == self.spec_index(),
    ;

    /// The value as a position.
    fn index_unchecked(self) -> (r: usize)
        ensures
            r == self.spec_index(),
    ;

    /// The position `val` in this width.
    fn from_usize(val: usize) -> (r: Self)
        ensures
            r == Self::spec_from_usize(val),
    ;
}

/// Width of the column indices of a sparse matrix.
pub trait IndexStorage: Copy + Sized {
    /// The number a stored value stands for.
    spec fn as_nat(self) -> nat;

    /// The largest number this width can hold.
    spec fn max_nat() -> nat;

    /// The value converted to `usize`; high bits that do not fit are dropped.
    spec fn spec_index(self) -> usize;

    /// `val` converted to this width; high bits that do not fit are dropped.
    spec fn spec_from_usize(val: usize) -> Self;

    /// No value stands for more than `max_nat`.
    proof fn lemma_bounded(self)
        ensures
            self.as_nat() <= Self::max_nat(),
    ;

    /// Two values that stand for the same number are the same value.
    proof fn lemma_injective(self, other: Self)
        ensures
            self.as_nat() == other.as_nat() ==> self == other,
    ;

    /// Converting to `usize` keeps the number whenever it fits.
    proof fn lemma_index_exact(self)
        ensures
            self.as_nat() <= usize::MAX ==> self.spec_index() == self.as_nat(),
    ;

    /// Converting from `usize` keeps the number whenever it fits.
    proof fn lemma_from_usize_exact(val: usize)
        ensures
            val <= Self::max_nat() ==> Self::spec_from_usize(val).as_nat() == val,
    ;

    /// The value as a position, which every width here can give.
    fn try_index(&self) -> (r: Option<usize>)
        ensures
            r == Some(self.spec_index()),
    ;

    /// The value as a position.
    fn index(self) -> (r: usize)
        ensures
            r == self.spec_index(),
    ;

    /// The value as a position.
    fn index_unchecked(self) -> (r: usize)
        ensures
            r == self.spec_index(),
    ;

    /// The position `val` in this width.
    fn from_usize(val: usize) -> (r: Self)
        ensures
            r == Self::spec_from_usize(val),
    ;
}

/// Width of the stored values of a sparse matrix: unsigned counts.
pub trait DataStorage: Copy + Sized {
    /// The number a stored value stands for.
    spec fn value(self) -> nat;

    /// The largest number this width can hold.
    spec fn max_value() -> nat;

    /// No value stands for more than `max_value`.
    proof fn lemma_bounded(self)
        ensures
            self.value() <= Self::max_value(),
    ;

    /// Two values that stand for the same number are the same value.
    proof fn lemma_injective(self, other: Self)
        ensures
            self.value() == other.value() ==> self == other,
    ;

    fn zero() -> (r: Self)
        ensures
            r.value() == 0,
    ;

    fn one() -> (r: Self)
        ensures
            r.value() == 1,
    ;

    fn is_zero(&self) -> (r: bool)
        ensures
            r == (self.value() == 0),
    ;

    /// Strict order on the numbers stored.
    fn less_than(&self, other: &Self) -> (r: bool)
        ensures
            r == (self.value() < other.value()),
    ;

    /// `self + v * w`, for an accumulator that has room for the product.
    fn add_product(self, v: Self, w: Self) -> (r: Self)
        requires
            self.value() + v.value() * w.value() <= Self::max_value(),
        ensures
            r.value() == self.value() + v.value() * w.value(),
    ;
}

impl IndPtrStorage for u8 {
    open spec fn as_nat(self) -> nat {
        self as nat
    }

    open spec fn max_nat() -> nat {
        u8::MAX as nat
    }

    open spec fn spec_index(self) -> usize {
        self as usize
    }

    open spec fn spec_from_usize(val: usize) -> Self {
        val as u8
    }

    proof fn lemma_bounded(self) {
    }

    proof fn lemma_injective(self, other: Self) {
    }

    proof fn lemma_index_exact(self) {
    }

    proof fn lemma_from_usize_exact(val: usize) {
    }

    fn try_index(&self) -> (r: Option<usize>) {
        Some(*self as usize)
    }

    fn index(self) -> (r: usize) {
        self as usize
    }

    fn index_unchecked(self) -> (r: usize) {
        self as usize
    }

    fn from_usize(val: usize) -> (r: Self) {
        #[verifier::truncate]
        (val as u8)
    }
}

impl IndPtrStorage for u16 {
    open spec fn as_nat(self) -> nat {
        self as nat
    }

    open spec fn max_nat() -> nat {
        u16::MAX as nat
    }

    open spec fn spec_index(self) -> usize {
        self as usize
    }

    open spec fn spec_from_usize(val: usize) -> Self {
        val as u16
    }

    proof fn lemma_bounded(self) {
    }

    proof fn lemma_injective(self, other: Self) {
    }

    proof fn lemma_index_exact(self) {
    }

    proof fn lemma_from_usize_exact(val: usize) {
    }

    fn try_index(&self) -> (r: Option<usize>) {
        Some(*self as usize)
    }

    fn index(self) -> (r: usize) {
        self as usize
    }

    fn index_unchecked(self) -> (r: usize) {
        self as usize
    }

    fn from_usize(val: usize) -> (r: Self) {
        #[verifier::truncate]
        (val as u16)
    }
}

impl IndPtrStorage for u32 {
    open spec fn as_nat(self) -> nat {
        self as nat
    }

    open spec fn max_nat() -> nat {
        u32::MAX as nat
    }

    open spec fn spec_index(self) -> usize {
        self as usize
    }

    open spec fn spec_from_usize(val: usize) -> Self {
        val as u32
    }

    proof fn lemma_bounded(self) {
    }

    proof fn lemma_injective(self, other: Self) {
    }

    proof fn lemma_index_exact(self) {
    }

    proof fn lemma_from_usize_exact(val: usize) {
    }

    fn try_index(&self) -> (r: Option<usize>) {
        Some(*self as usize)
    }

    fn index(self) -> (r: usize) {
        self as usize
    }

    fn index_unchecked(self) -> (r: usize) {
        self as usize
    }

    fn from_usize(val: usize) -> (r: Self) {
        #[verifier::truncate]
        (val as u32)
    }
}

impl IndPtrStorage for u64 {
    open spec fn as_nat(self) -> nat {
        self as nat
    }

    open spec fn max_nat() -> nat {
        u64::MAX as nat
    }

    open spec fn spec_index(self) -> usize {
        self as usize
    }

    open spec fn spec_from_usize(val: usize) -> Self {
        val as u64
    }

    proof fn lemma_bounded(self) {
    }

    proof fn lemma_injective(self, other: Self) {
    }

    proof fn lemma_index_exact(self) {
    }

    proof fn lemma_from_usize_exact(val: usize) {
    }

    fn try_index(&self) -> (r: Option<usize>) {
        Some(
            #[verifier::truncate]
            (*self as usize),
        )
    }

    fn index(self) -> (r: usize) {
        #[verifier::truncate]
        (self as usize)
    }

    fn index_unchecked(self) -> (r: usize) {
        #[verifier::truncate]
        (self as usize)
    }

    fn from_usize(val: usize) -> (r: Self) {
        val as u64
    }
}

impl IndPtrStorage for u128 {
    open spec fn as_nat(self) -> nat {
        self as nat
    }

    open spec fn max_nat() -> nat {
        u128::MAX as nat
    }

    open spec fn spec_index(self) -> usize {
        self as usize
    }

    open spec fn spec_from_usize(val: usize) -> Self {
        val as u128
    }

    proof fn lemma_bounded(self) {
    }

    proof fn lemma_injective(self, other: Self) {
    }

    proof fn lemma_index_exact(self) {
    }

    proof fn lemma_from_usize_exact(val: usize) {
    }

    fn try_index(&self) -> (r: Option<usize>) {
        Some(
            #[verifier::truncate]
            (*self as usize),
        )
    }

    fn index(self) -> (r: usize) {
        #[verifier::truncate]
        (self as usize)
    }

    fn index_unchecked(self) -> (r: usize) {
        #[verifier::truncate]
        (self as usize)
    }

    fn from_usize(val: usize) -> (r: Self) {
        val as u128
    }
}

impl IndPtrStorage for usize {
    open spec fn as_nat(self) -> nat {
        self as nat
    }

    open spec fn max_nat() -> nat {
        usize::MAX as nat
    }

    open spec fn spec_index(self) -> usize {
        self
    }

    open spec fn spec_from_usize(val: usize) -> Self {
        val
    }

    proof fn lemma_bounded(self) {
    }

    proof fn lemma_injective(self, other: Self) {
    }

    proof fn lemma_index_exact(self) {
    }

    proof fn lemma_from_usize_exact(val: usize) {
    }

    fn try_index(&self) -> (r: Option<usize>) {
        Some(*self)
    }

    fn index(self) -> (r: usize) {
        self
    }

    fn index_unchecked(self) -> (r: usize) {
        self
    }

    fn from_usize(val: usize) -> (r: Self) {
        val
    }
}

impl IndexStorage for u8 {
    open spec fn as_nat(self) -> nat {
        self as nat
    }

    open spec fn max_nat() -> nat {
        u8::MAX as nat
    }

    open spec fn spec_index(self) -> usize {
        self as usize
    }

    open spec fn spec_from_usize(val: usize) -> Self {
        val as u8
    }

    proof fn lemma_bounded(self) {
    }

    proof fn lemma_injective(self, other: Self) {
    }

    proof fn lemma_index_exact(self) {
    }

    proof fn lemma_from_usize_exact(val: usize) {
    }

    fn try_index(&self) -> (r: Option<usize>) {
        Some(*self as usize)
    }

    fn index(self) -> (r: usize) {
        self as usize
    }

    fn index_unchecked(self) -> (r: usize) {
        self as usize
    }

    fn from_usize(val: usize) -> (r: Self) {
        #[verifier::truncate]
        (val as u8)
    }
}

impl IndexStorage for u16 {
    open spec fn as_nat(self) -> nat {
        self as nat
    }

    open spec fn max_nat() -> nat {
        u16::MAX as nat
    }

    open spec fn spec_index(self) -> usize {
        self as usize
    }

    open spec fn spec_from_usize(val: usize) -> Self {
        val as u16
    }

    proof fn lemma_bounded(self) {
    }

    proof fn lemma_injective(self, other: Self) {
    }

    proof fn lemma_index_exact(self) {
    }

    proof fn lemma_from_usize_exact(val: usize) {
    }

    fn try_index(&self) -> (r: Option<usize>) {
        Some(*self as usize)
    }

    fn index(self) -> (r: usize) {
        self as usize
    }

    fn index_unchecked(self) -> (r: usize) {
        self as usize
    }

    fn from_usize(val: usize) -> (r: Self) {
        #[verifier::truncate]
        (val as u16)
    }
}

impl IndexStorage for u32 {
    open spec fn as_nat(self) -> nat {
        self as nat
    }

    open spec fn max_nat() -> nat {
        u32::MAX as nat
    }

    open spec fn spec_index(self) -> usize {
        self as usize
    }

    open spec fn spec_from_usize(val: usize) -> Self {
        val as u32
    }

    proof fn lemma_bounded(self) {
    }

    proof fn lemma_injective(self, other: Self) {
    }

    proof fn lemma_index_exact(self) {
    }

    proof fn lemma_from_usize_exact(val: usize) {
    }

    fn try_index(&self) -> (r: Option<usize>) {
        Some(*self as usize)
    }

    fn index(self) -> (r: usize) {
        self as usize
    }

    fn index_unchecked(self) -> (r: usize) {
        self as usize
    }

    fn from_usize(val: usize) -> (r: Self) {
        #[verifier::truncate]
        (val as u32)
    }
}

impl IndexStorage for u64 {
    open spec fn as_nat(self) -> nat {
        self as nat
    }

    open spec fn max_nat() -> nat {
        u64::MAX as nat
    }

    open spec fn spec_index(self) -> usize {
        self as usize
    }

    open spec fn spec_from_usize(val: usize) -> Self {
        val as u64
    }

    proof fn lemma_bounded(self) {
    }

    proof fn lemma_injective(self, other: Self) {
    }

    proof fn lemma_index_exact(self) {
    }

    proof fn lemma_from_usize_exact(val: usize) {
    }

    fn try_index(&self) -> (r: Option<usize>) {
        Some(
            #[verifier::truncate]
            (*self as usize),
        )
    }

    fn index(self) -> (r: usize) {
        #[verifier::truncate]
        (self as usize)
    }

    fn index_unchecked(self) -> (r: usize) {
        #[verifier::truncate]
        (self as usize)
    }

    fn from_usize(val: usize) -> (r: Self) {
        val as u64
    }
}

impl IndexStorage for u128 {
    open spec fn as_nat(self) -> nat {
        self as nat
    }

    open spec fn max_nat() -> nat {
        u128::MAX as nat
    }

    open spec fn spec_index(self) -> usize {
        self as usize
    }

    open spec fn spec_from_usize(val: usize) -> Self {
        val as u128
    }

    proof fn lemma_bounded(self) {
    }

    proof fn lemma_injective(self, other: Self) {
    }

    proof fn lemma_index_exact(self) {
    }

    proof fn lemma_from_usize_exact(val: usize) {
    }

    fn try_index(&self) -> (r: Option<usize>) {
        Some(
            #[verifier::truncate]
            (*self as usize),
        )
    }

    fn index(self) -> (r: usize) {
        #[verifier::truncate]
        (self as usize)
    }

    fn index_unchecked(self) -> (r: usize) {
        #[verifier::truncate]
        (self as usize)
    }

    fn from_usize(val: usize) -> (r: Self) {
        val as u128
    }
}

impl IndexStorage for usize {
    open spec fn as_nat(self) -> nat {
        self as nat
    }

    open spec fn max_nat() -> nat {
        usize::MAX as nat
    }

    open spec fn spec_index(self) -> usize {
        self
    }

    open spec fn spec_from_usize(val: usize) -> Self {
        val
    }

    proof fn lemma_bounded(self) {
    }

    proof fn lemma_injective(self, other: Self) {
    }

    proof fn lemma_index_exact(self) {
    }

    proof fn lemma_from_usize_exact(val: usize) {
    }

    fn try_index(&self) -> (r: Option<usize>) {
        Some(*self)
    }

    fn index(self) -> (r: usize) {
        self
    }

    fn index_unchecked(self) -> (r: usize) {
        self
    }

    fn from_usize(val: usize) -> (r: Self) {
        val
    }
}

impl DataStorage for u16 {
    open spec fn value(self) -> nat {
        self as nat
    }

    open spec fn max_value() -> nat {
        u16::MAX as nat
    }

    proof fn lemma_bounded(self) {
    }

    proof fn lemma_injective(self, other: Self) {
    }

    fn zero() -> (r: Self) {
        0
    }

    fn one() -> (r: Self) {
        1
    }

    fn is_zero(&self) -> (r: bool) {
        *self == 0
    }

    fn less_than(&self, other: &Self) -> (r: bool) {
        *self < *other
    }

    fn add_product(self, v: Self, w: Self) -> (r: Self) {
        assert(v * w <= self + v * w) by (nonlinear_arith);
        self + v * w
    }
}

impl DataStorage for u32 {
    open spec fn value(self) -> nat {
        self as nat
    }

    open spec fn max_value() -> nat {
        u32::MAX as nat
    }

    proof fn lemma_bounded(self) {
    }

    proof fn lemma_injective(self, other: Self) {
    }

    fn zero() -> (r: Self) {
        0
    }

    fn one() -> (r: Self) {
        1
    }

    fn is_zero(&self) -> (r: bool) {
        *self == 0
    }

    fn less_than(&self, other: &Self) -> (r: bool) {
        *self < *other
    }

    fn add_product(self, v: Self, w: Self) -> (r: Self) {
        assert(v * w <= self + v * w) by (nonlinear_arith);
        self + v * w
    }
}

} // verus!
