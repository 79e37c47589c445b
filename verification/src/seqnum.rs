//! Modular arithmetic on fixed-width unsigned sequence numbers.
//!
//! Sequence numbers are unsigned integers interpreted modulo the width of
//! their carrier type.  The analyzer is generic over that width; this module
//! gives it a single interface, `SeqNum`, whose operations are specified over
//! the mathematical integers via `as_int` and `modulus`.

use vstd::prelude::*;

verus! {

/// `(a + b) mod m`, assuming `0 <= a < m` and `0 <= b < m`.
pub open spec fn add_mod(a: int, b: int, m: int) -> int {
    if a + b < m {
        a + b
    } else {
        a + b - m
    }
}

/// `(a - b) mod m`, assuming `0 <= a < m` and `0 <= b < m`.
pub open spec fn sub_mod(a: int, b: int, m: int) -> int {
    if a - b >= 0 {
        a - b
    } else {
        a - b + m
    }
}

/// A fixed-width unsigned integer used as a wrapping sequence number.
///
/// `modulus()` is the number of distinct values of the type (a power of two,
/// so in particular even), and `as_int` is the value as a mathematical
/// integer in `[0, modulus())`.  Every executable operation is specified
/// exactly in terms of those two functions.
pub trait SeqNum: Sized + Copy {
    /// Number of distinct values of the carrier type.
    spec fn modulus() -> int;

    /// The value as a mathematical integer.
    spec fn as_int(self) -> int;

    /// The modulus is an even number of at least four.
    proof fn lemma_modulus_facts()
        ensures
            Self::modulus() >= 4,
            Self::modulus() % 2 == 0,
    ;

    /// Every value lies in `[0, modulus())`.
    proof fn lemma_as_int_bounds(self)
        ensures
            0 <= self.as_int() < Self::modulus(),
    ;

    /// The zero of the type.
    fn sn_zero() -> (r: Self)
        ensures
            r.as_int() == 0,
    ;

    /// The largest value of the type, `modulus() - 1`.
    fn sn_max() -> (r: Self)
        ensures
            r.as_int() == Self::modulus() - 1,
    ;

    /// Value equality.
    fn sn_eq(self, other: Self) -> (r: bool)
        ensures
            r == (self.as_int() == other.as_int()),
    ;

    /// Plain (non-modular) order.
    fn sn_le(self, other: Self) -> (r: bool)
        ensures
            r == (self.as_int() <= other.as_int()),
    ;

    /// Plain (non-modular) strict order.
    fn sn_lt(self, other: Self) -> (r: bool)
        ensures
            r == (self.as_int() < other.as_int()),
    ;

    /// Wrapping addition.
    fn add_wrap(self, other: Self) -> (r: Self)
        ensures
            r.as_int() == add_mod(self.as_int(), other.as_int(), Self::modulus()),
    ;

    /// Wrapping subtraction.
    fn sub_wrap(self, other: Self) -> (r: Self)
        ensures
            r.as_int() == sub_mod(self.as_int(), other.as_int(), Self::modulus()),
    ;

    /// Wrapping increment by one.
    fn inc_wrap(self) -> (r: Self)
        ensures
            r.as_int() == add_mod(self.as_int(), 1, Self::modulus()),
    ;

    /// Wrapping decrement by one.
    fn dec_wrap(self) -> (r: Self)
        ensures
            r.as_int() == sub_mod(self.as_int(), 1, Self::modulus()),
    ;
}

impl SeqNum for u8 {
    open spec fn modulus() -> int {
        0x100
    }

    open spec fn as_int(self) -> int {
        self as int
    }

    proof fn lemma_modulus_facts() {
    }

    proof fn lemma_as_int_bounds(self) {
    }

    fn sn_zero() -> u8 {
        0
    }

    fn sn_max() -> u8 {
        u8::MAX
    }

    fn sn_eq(self, other: u8) -> bool {
        self == other
    }

    fn sn_le(self, other: u8) -> bool {
        self <= other
    }

    fn sn_lt(self, other: u8) -> bool {
        self < other
    }

    fn add_wrap(self, other: u8) -> u8 {
        if other <= u8::MAX - self {
            self + other
        } else {
            self - (u8::MAX - other) - 1
        }
    }

    fn sub_wrap(self, other: u8) -> u8 {
        if self >= other {
            self - other
        } else {
            self + (u8::MAX - other) + 1
        }
    }

    fn inc_wrap(self) -> u8 {
        if self == u8::MAX {
            0
        } else {
            self + 1
        }
    }

    fn dec_wrap(self) -> u8 {
        if self == 0 {
            u8::MAX
        } else {
            self - 1
        }
    }
}

impl SeqNum for u16 {
    open spec fn modulus() -> int {
        0x1_0000
    }

    open spec fn as_int(self) -> int {
        self as int
    }

    proof fn lemma_modulus_facts() {
    }

    proof fn lemma_as_int_bounds(self) {
    }

    fn sn_zero() -> u16 {
        0
    }

    fn sn_max() -> u16 {
        u16::MAX
    }

    fn sn_eq(self, other: u16) -> bool {
        self == other
    }

    fn sn_le(self, other: u16) -> bool {
        self <= other
    }

    fn sn_lt(self, other: u16) -> bool {
        self < other
    }

    fn add_wrap(self, other: u16) -> u16 {
        if other <= u16::MAX - self {
            self + other
        } else {
            self - (u16::MAX - other) - 1
        }
    }

    fn sub_wrap(self, other: u16) -> u16 {
        if self >= other {
            self - other
        } else {
            self + (u16::MAX - other) + 1
        }
    }

    fn inc_wrap(self) -> u16 {
        if self == u16::MAX {
            0
        } else {
            self + 1
        }
    }

    fn dec_wrap(self) -> u16 {
        if self == 0 {
            u16::MAX
        } else {
            self - 1
        }
    }
}

impl SeqNum for u32 {
    open spec fn modulus() -> int {
        0x1_0000_0000
    }

    open spec fn as_int(self) -> int {
        self as int
    }

    proof fn lemma_modulus_facts() {
    }

    proof fn lemma_as_int_bounds(self) {
    }

    fn sn_zero() -> u32 {
        0
    }

    fn sn_max() -> u32 {
        u32::MAX
    }

    fn sn_eq(self, other: u32) -> bool {
        self == other
    }

    fn sn_le(self, other: u32) -> bool {
        self <= other
    }

    fn sn_lt(self, other: u32) -> bool {
        self < other
    }

    fn add_wrap(self, other: u32) -> u32 {
        if other <= u32::MAX - self {
            self + other
        } else {
            self - (u32::MAX - other) - 1
        }
    }

    fn sub_wrap(self, other: u32) -> u32 {
        if self >= other {
            self - other
        } else {
            self + (u32::MAX - other) + 1
        }
    }

    fn inc_wrap(self) -> u32 {
        if self == u32::MAX {
            0
        } else {
            self + 1
        }
    }

    fn dec_wrap(self) -> u32 {
        if self == 0 {
            u32::MAX
        } else {
            self - 1
        }
    }
}

impl SeqNum for usize {
    open spec fn modulus() -> int {
        usize::MAX + 1
    }

    open spec fn as_int(self) -> int {
        self as int
    }

    proof fn lemma_modulus_facts() {
        assert(usize::MAX == u32::MAX || usize::MAX == u64::MAX);
    }

    proof fn lemma_as_int_bounds(self) {
    }

    fn sn_zero() -> usize {
        0
    }

    fn sn_max() -> usize {
        usize::MAX
    }

    fn sn_eq(self, other: usize) -> bool {
        self == other
    }

    fn sn_le(self, other: usize) -> bool {
        self <= other
    }

    fn sn_lt(self, other: usize) -> bool {
        self < other
    }

    fn add_wrap(self, other: usize) -> usize {
        if other <= usize::MAX - self {
            self + other
        } else {
            self - (usize::MAX - other) - 1
        }
    }

    fn sub_wrap(self, other: usize) -> usize {
        if self >= other {
            self - other
        } else {
            self + (usize::MAX - other) + 1
        }
    }

    fn inc_wrap(self) -> usize {
        if self == usize::MAX {
            0
        } else {
            self + 1
        }
    }

    fn dec_wrap(self) -> usize {
        if self == 0 {
            usize::MAX
        } else {
            self - 1
        }
    }
}

} // verus!
