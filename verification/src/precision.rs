//! Variable-width integers for histogram counts.

use vstd::prelude::*;

verus! {

/// Unsigned integer type used for a histogram count.
pub trait HistCount: Copy {
    /// The number, as the contracts see it.
    spec fn value(self) -> nat;

    /// Largest number of the type.
    spec fn largest() -> nat;

    /// Returns zero.
    fn zero() -> (r: Self)
        ensures
            r.value() == 0,
    ;

    /// Checked addition of two values of the same type.
    fn checked_add(self, rhs: Self) -> (r: Option<Self>)
        ensures
            r.is_some() <==> self.value() + rhs.value() <= Self::largest(),
            r.is_some() ==> r.unwrap().value() == self.value() + rhs.value(),
    ;

    /// Checked addition of a `u64` value. Returns `None` if the value does not fit or the
    /// addition overflows.
    fn checked_add_u64(self, rhs: u64) -> (r: Option<Self>)
        ensures
            r.is_some() <==> self.value() + rhs <= Self::largest(),
            r.is_some() ==> r.unwrap().value() == self.value() + rhs,
    ;

    /// Converts to `u64`.
    fn to_u64(self) -> (r: u64)
        ensures
            r == self.value(),
    ;
}

/// Bundles the integer type of a precision tier.
pub trait Precision {
    /// Unsigned integer type for the count.
    type Count: HistCount;
}

/// 64-bit precision tier: `u64` for counts.
#[derive(Debug, Clone, Copy)]
pub struct P64;

impl Precision for P64 {
    type Count = u64;
}

impl HistCount for u64 {
    open spec fn value(self) -> nat {
        self as nat
    }

    open spec fn largest() -> nat {
        u64::MAX as nat
    }

    fn zero() -> (r: Self) {
        0
    }

    fn checked_add(self, rhs: Self) -> (r: Option<Self>) {
        if rhs > u64::MAX - self {
            None
        } else {
            Some(self + rhs)
        }
    }

    fn checked_add_u64(self, rhs: u64) -> (r: Option<Self>) {
        if rhs > u64::MAX - self {
            None
        } else {
            Some(self + rhs)
        }
    }

    fn to_u64(self) -> (r: u64) {
        self
    }
}

/// 32-bit precision tier: `u32` for counts.
#[derive(Debug, Clone, Copy)]
pub struct P32;

impl Precision for P32 {
    type Count = u32;
}

impl HistCount for u32 {
    open spec fn value(self) -> nat {
        self as nat
    }

    open spec fn largest() -> nat {
        u32::MAX as nat
    }

    fn zero() -> (r: Self) {
        0
    }

    fn checked_add(self, rhs: Self) -> (r: Option<Self>) {
        if rhs > u32::MAX - self {
            None
        } else {
            Some(self + rhs)
        }
    }

    fn checked_add_u64(self, rhs: u64) -> (r: Option<Self>) {
        if rhs > (u32::MAX - self) as u64 {
            None
        } else {
            Some(self + rhs as u32)
        }
    }

    fn to_u64(self) -> (r: u64) {
        self as u64
    }
}

} // verus!
