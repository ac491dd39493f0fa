//! Single bits of integers.

use vstd::prelude::*;

verus! {

/// An integer without a sign, as a row of bits.
pub trait Word: Sized + Copy {
    /// How many bits there are.
    spec fn width() -> int;

    /// Bit `bit` of a value.
    spec fn has(self, bit: u8) -> bool;

    /// The value with one bit set.
    spec fn with(self, bit: u8) -> Self;

    /// The value with one bit cleared.
    spec fn without(self, bit: u8) -> Self;

    fn set(self, bit: u8) -> (r: Self)
        requires
            bit < Self::width(),
        ensures
            r == self.with(bit),
    ;

    fn unset(self, bit: u8) -> (r: Self)
        requires
            bit < Self::width(),
        ensures
            r == self.without(bit),
    ;

    fn check(self, bit: u8) -> (r: bool)
        requires
            bit < Self::width(),
        ensures
            r == self.has(bit),
    ;

    /// Setting a bit sets that bit and no other; clearing it clears that bit
    /// and no other.
    proof fn law_one_bit_changes(self, bit: u8, other: u8)
        requires
            bit < Self::width(),
            other < Self::width(),
        ensures
            self.with(bit).has(other) == (other == bit || self.has(other)),
            self.without(bit).has(other) == (other != bit && self.has(other)),
    ;
}

impl Word for u8 {
    open spec fn width() -> int {
        8
    }

    open spec fn has(self, bit: u8) -> bool {
        self & (1u8 << bit) != 0
    }

    open spec fn with(self, bit: u8) -> Self {
        self | (1u8 << bit)
    }

    open spec fn without(self, bit: u8) -> Self {
        self & !(1u8 << bit)
    }

    fn set(self, bit: u8) -> (r: Self) {
        self | (1u8 << bit)
    }

    fn unset(self, bit: u8) -> (r: Self) {
        self & !(1u8 << bit)
    }

    fn check(self, bit: u8) -> (r: bool) {
        (self & (1u8 << bit)) != 0
    }

    proof fn law_one_bit_changes(self, bit: u8, other: u8) {
        lemma_one_bit(self, 0, 0, 0, bit, other);
    }
}

impl Word for u16 {
    open spec fn width() -> int {
        16
    }

    open spec fn has(self, bit: u8) -> bool {
        self & (1u16 << (bit as u16)) != 0
    }

    open spec fn with(self, bit: u8) -> Self {
        self | (1u16 << (bit as u16))
    }

    open spec fn without(self, bit: u8) -> Self {
        self & !(1u16 << (bit as u16))
    }

    fn set(self, bit: u8) -> (r: Self) {
        self | (1u16 << (bit as u16))
    }

    fn unset(self, bit: u8) -> (r: Self) {
        self & !(1u16 << (bit as u16))
    }

    fn check(self, bit: u8) -> (r: bool) {
        (self & (1u16 << (bit as u16))) != 0
    }

    proof fn law_one_bit_changes(self, bit: u8, other: u8) {
        lemma_one_bit(0, self, 0, 0, bit, other);
    }
}

impl Word for u32 {
    open spec fn width() -> int {
        32
    }

    open spec fn has(self, bit: u8) -> bool {
        self & (1u32 << (bit as u32)) != 0
    }

    open spec fn with(self, bit: u8) -> Self {
        self | (1u32 << (bit as u32))
    }

    open spec fn without(self, bit: u8) -> Self {
        self & !(1u32 << (bit as u32))
    }

    fn set(self, bit: u8) -> (r: Self) {
        self | (1u32 << (bit as u32))
    }

    fn unset(self, bit: u8) -> (r: Self) {
        self & !(1u32 << (bit as u32))
    }

    fn check(self, bit: u8) -> (r: bool) {
        (self & (1u32 << (bit as u32))) != 0
    }

    proof fn law_one_bit_changes(self, bit: u8, other: u8) {
        lemma_one_bit(0, 0, self, 0, bit, other);
    }
}

impl Word for u64 {
    open spec fn width() -> int {
        64
    }

    open spec fn has(self, bit: u8) -> bool {
        self & (1u64 << (bit as u64)) != 0
    }

    open spec fn with(self, bit: u8) -> Self {
        self | (1u64 << (bit as u64))
    }

    open spec fn without(self, bit: u8) -> Self {
        self & !(1u64 << (bit as u64))
    }

    fn set(self, bit: u8) -> (r: Self) {
        self | (1u64 << (bit as u64))
    }

    fn unset(self, bit: u8) -> (r: Self) {
        self & !(1u64 << (bit as u64))
    }

    fn check(self, bit: u8) -> (r: bool) {
        (self & (1u64 << (bit as u64))) != 0
    }

    proof fn law_one_bit_changes(self, bit: u8, other: u8) {
        lemma_one_bit(0, 0, 0, self, bit, other);
    }
}

proof fn lemma_one_bit(a: u8, b: u16, c: u32, d: u64, bit: u8, other: u8)
    by (bit_vector)
    ensures
        bit < 8 && other < 8 ==> ((a | (1u8 << bit)) & (1u8 << other) != 0) == (other == bit || a & (1u8 << other) != 0) && ((a & !(1u8 << bit)) & (1u8 << other) != 0) == (other != bit && a & (1u8 << other) != 0),
        bit < 16 && other < 16 ==> ((b | (1u16 << (bit as u16))) & (1u16 << (other as u16)) != 0) == (other == bit || b & (1u16 << (other as u16)) != 0) && ((b & !(1u16 << (bit as u16))) & (1u16 << (other as u16)) != 0) == (other != bit && b & (1u16 << (other as u16)) != 0),
        bit < 32 && other < 32 ==> ((c | (1u32 << (bit as u32))) & (1u32 << (other as u32)) != 0) == (other == bit || c & (1u32 << (other as u32)) != 0) && ((c & !(1u32 << (bit as u32))) & (1u32 << (other as u32)) != 0) == (other != bit && c & (1u32 << (other as u32)) != 0),
        bit < 64 && other < 64 ==> ((d | (1u64 << (bit as u64))) & (1u64 << (other as u64)) != 0) == (other == bit || d & (1u64 << (other as u64)) != 0) && ((d & !(1u64 << (bit as u64))) & (1u64 << (other as u64)) != 0) == (other != bit && d & (1u64 << (other as u64)) != 0),
{
}

pub fn set_bit<T: Word>(value: T, bit: u8) -> (r: T)
    requires
        bit < T::width(),
    ensures
        r == value.with(bit),
{
    value.set(bit)
}

pub fn unset_bit<T: Word>(value: T, bit: u8) -> (r: T)
    requires
        bit < T::width(),
    ensures
        r == value.without(bit),
{
    value.unset(bit)
}

pub fn check_bit<T: Word>(value: T, bit: u8) -> (r: bool)
    requires
        bit < T::width(),
    ensures
        r == value.has(bit),
{
    value.check(bit)
}

} // verus!
