//! Unsigned integer types that can hold the cells of a matrix.

use vstd::arithmetic::power2::{lemma2_to64, pow2};
use vstd::prelude::*;

verus! {

/// An unsigned integer type in which the cells of a matrix are stored.
pub trait MatrixElement: Copy + Sized {
    /// The number of bits of the type.
    spec fn bit_width() -> nat;

    /// The value held, as a natural number.
    spec fn as_nat(self) -> nat;

    /// Two values that hold the same number are the same value.
    proof fn lemma_as_nat_injective(a: Self, b: Self)
        ensures
            a.as_nat() == b.as_nat() ==> a == b,
    ;

    /// The element that holds `v`, which must be representable.
    fn from_cell_value(v: usize) -> (r: Self)
        requires
            v < pow2(Self::bit_width()),
        ensures
            r.as_nat() == v,
    ;
}

impl MatrixElement for u8 {
    open spec fn bit_width() -> nat {
        8
    }

    open spec fn as_nat(self) -> nat {
        self as nat
    }

    proof fn lemma_as_nat_injective(a: Self, b: Self) {
    }

    fn from_cell_value(v: usize) -> (r: Self) {
        proof {
            lemma2_to64();
        }
        v as u8
    }
}

impl MatrixElement for u16 {
    open spec fn bit_width() -> nat {
        16
    }

    open spec fn as_nat(self) -> nat {
        self as nat
    }

    proof fn lemma_as_nat_injective(a: Self, b: Self) {
    }

    fn from_cell_value(v: usize) -> (r: Self) {
        proof {
            lemma2_to64();
        }
        v as u16
    }
}

impl MatrixElement for u32 {
    open spec fn bit_width() -> nat {
        32
    }

    open spec fn as_nat(self) -> nat {
        self as nat
    }

    proof fn lemma_as_nat_injective(a: Self, b: Self) {
    }

    fn from_cell_value(v: usize) -> (r: Self) {
        proof {
            lemma2_to64();
        }
        v as u32
    }
}

impl MatrixElement for u64 {
    open spec fn bit_width() -> nat {
        64
    }

    open spec fn as_nat(self) -> nat {
        self as nat
    }

    proof fn lemma_as_nat_injective(a: Self, b: Self) {
    }

    fn from_cell_value(v: usize) -> (r: Self) {
        v as u64
    }
}

impl MatrixElement for u128 {
    open spec fn bit_width() -> nat {
        128
    }

    open spec fn as_nat(self) -> nat {
        self as nat
    }

    proof fn lemma_as_nat_injective(a: Self, b: Self) {
    }

    fn from_cell_value(v: usize) -> (r: Self) {
        v as u128
    }
}

impl MatrixElement for usize {
    open spec fn bit_width() -> nat {
        usize::BITS as nat
    }

    open spec fn as_nat(self) -> nat {
        self as nat
    }

    proof fn lemma_as_nat_injective(a: Self, b: Self) {
    }

    fn from_cell_value(v: usize) -> (r: Self) {
        v
    }
}

} // verus!
