//! The unsigned integers that can be encoded, and what the codec asks of
//! them.

use vstd::prelude::*;
use vstd::arithmetic::div_mod::{
    lemma_add_mod_noop_right,
    lemma_basic_div,
    lemma_mod_add_multiples_vanish,
    lemma_small_mod,
};
use vstd::arithmetic::power2::{lemma_pow2_pos, pow2};
use vstd::bits::{
    lemma_u128_shr_is_div,
    lemma_u16_shr_is_div,
    lemma_u32_shr_is_div,
    lemma_u64_shr_is_div,
};
use crate::bits::{lemma_narrow, lemma_pow2_widths, lemma_u128_shl};
use crate::format::wrap;

verus! {

/// An unsigned integer of a fixed number of bits: the operations on seven
/// bits at a time that encoding and decoding are made of, and arithmetic
/// that wraps. Each operation is specified by what it does to the number.
pub trait Unsigned: Copy + Sized {
    /// The number of bits of the type.
    spec fn bits() -> nat;

    /// The number that `self` stands for.
    spec fn value(self) -> nat;

    /// The type has at least one bit and at most 128.
    proof fn lemma_bits()
        ensures
            0 < Self::bits() <= 128,
    ;

    /// Every number of the type fits in its bits.
    proof fn lemma_value(self)
        ensures
            self.value() < pow2(Self::bits()),
    ;

    /// Zero.
    fn zero() -> (z: Self)
        ensures
            z.value() == 0,
    ;

    /// The number of groups of seven bits that cover the type's bits.
    fn groups() -> (n: usize)
        ensures
            7 * (n - 1) < Self::bits() <= 7 * n,
    ;

    /// Whether `self` is zero.
    fn is_zero(self) -> (z: bool)
        ensures
            z == (self.value() == 0),
    ;

    /// Whether `self` and `other` are the same number.
    fn same_as(self, other: Self) -> (same: bool)
        ensures
            same == (self.value() == other.value()),
    ;

    /// The low seven bits.
    fn low7(self) -> (group: u8)
        ensures
            group == self.value() % 128,
    ;

    /// `self` without its low seven bits.
    fn shr7(self) -> (r: Self)
        ensures
            r.value() == self.value() / 128,
    ;

    /// `self` with `group` put in as the group of seven bits number `index`,
    /// counted from the least significant. The groups from `index` on have
    /// to be empty in `self`. Bits of `group` that reach beyond the type's
    /// width are dropped.
    fn with_group(self, group: u8, index: usize) -> (r: Self)
        requires
            group < 128,
            7 * index < Self::bits(),
            self.value() < pow2(7 * index as nat),
        ensures
            r.value() == wrap(self.value() + group * pow2(7 * index as nat), Self::bits()),
    ;

    /// The sum modulo 2^bits.
    fn wrapped_add(self, other: Self) -> (r: Self)
        ensures
            r.value() == wrap((self.value() + other.value()) as int, Self::bits()),
    ;

    /// The difference modulo 2^bits.
    fn wrapped_sub(self, other: Self) -> (r: Self)
        ensures
            r.value() == wrap(self.value() - other.value(), Self::bits()),
    ;
}

/// The numbers that the elements of `xs` stand for.
pub open spec fn values<T: Unsigned>(xs: Seq<T>) -> Seq<nat> {
    Seq::new(xs.len(), |i: int| xs[i].value())
}

/// What `with_group` comes to once the shifted group is known to be
/// `group * 2^shift` cut to `bits` bits.
proof fn lemma_with_group(value: nat, group: nat, shift: nat, bits: nat, shifted: nat, r: nat)
    requires
        bits <= 128,
        shifted == ((group * pow2(shift)) % pow2(128)) % pow2(bits),
        r == value + shifted,
        r < pow2(bits),
    ensures
        r == (value + group * pow2(shift)) % pow2(bits),
{
    lemma_narrow(group * pow2(shift), bits);
    lemma_pow2_pos(bits);
    lemma_add_mod_noop_right(value as int, (group * pow2(shift)) as int, pow2(bits) as int);
    lemma_small_mod(r, pow2(bits));
}

/// Sums and differences that wrap, as remainders.
proof fn lemma_wrapped(a: int, b: int, m: int)
    requires
        0 <= a < m,
        0 <= b < m,
    ensures
        (a + b) % m == if a + b >= m { a + b - m } else { a + b },
        (a - b) % m == if a - b < 0 { a - b + m } else { a - b },
{
    if a + b >= m {
        lemma_mod_add_multiples_vanish(a + b - m, m);
        lemma_small_mod((a + b - m) as nat, m as nat);
    } else {
        lemma_small_mod((a + b) as nat, m as nat);
    }
    if a - b < 0 {
        lemma_mod_add_multiples_vanish(a - b, m);
        lemma_small_mod((a - b + m) as nat, m as nat);
    } else {
        lemma_small_mod((a - b) as nat, m as nat);
    }
}

/// Masks and shifts of `u16` as arithmetic: the low seven bits are the
/// remainder by 128, a shift right by seven is a division by 128, and a group
/// put in above every set bit is added.
proof fn lemma_u16_bits(x: u16, p: u16, s: u32)
    by (bit_vector)
    ensures
        x & 0x7f == x % 128,
        x >> 7 == x / 128,
        s < 16 && p < 128 && x >> s == 0 ==> x | (p << s) == x + (p << s),
{
}

/// A shift left in `u16` is the shift in `u128` cut to 16 bits.
proof fn lemma_u16_shl(p: u16, s: u32)
    by (bit_vector)
    requires
        s < 16,
    ensures
        (p << s) as u128 == ((p as u128) << (s as u128)) % 0x1_0000u128,
{
}

impl Unsigned for u16 {
    open spec fn bits() -> nat {
        16
    }

    open spec fn value(self) -> nat {
        self as nat
    }

    proof fn lemma_bits() {
    }

    proof fn lemma_value(self) {
        lemma_pow2_widths();
    }

    fn zero() -> (z: Self) {
        0
    }

    fn groups() -> (n: usize) {
        3
    }

    fn is_zero(self) -> (z: bool) {
        self == 0
    }

    fn same_as(self, other: Self) -> (same: bool) {
        self == other
    }

    fn low7(self) -> (group: u8) {
        proof {
            lemma_u16_bits(self, 0, 0);
        }
        (self & 0x7f) as u8
    }

    fn shr7(self) -> (r: Self) {
        proof {
            lemma_u16_bits(self, 0, 0);
        }
        self >> 7
    }

    fn with_group(self, group: u8, index: usize) -> (r: Self) {
        let shift: u32 = 7 * (index as u32);
        let wide: u16 = group as u16;
        proof {
            let s: nat = shift as nat;
            lemma_pow2_widths();
            lemma_pow2_pos(s);
            lemma_u16_shr_is_div(self, shift as u16);
            lemma_basic_div(self as int, pow2(s) as int);
            lemma_u16_bits(self, wide, shift);
            lemma_u16_shl(wide, shift);
            lemma_u128_shl(wide as u128, shift as u128);
            lemma_with_group(
                self as nat,
                group as nat,
                s,
                16,
                (wide << shift) as nat,
                (self | (wide << shift)) as nat,
            );
        }
        self | (wide << shift)
    }

    fn wrapped_add(self, other: Self) -> (r: Self) {
        proof {
            lemma_pow2_widths();
            lemma_wrapped(self as int, other as int, pow2(16) as int);
        }
        self.wrapping_add(other)
    }

    fn wrapped_sub(self, other: Self) -> (r: Self) {
        proof {
            lemma_pow2_widths();
            lemma_wrapped(self as int, other as int, pow2(16) as int);
        }
        self.wrapping_sub(other)
    }
}

/// Masks and shifts of `u32` as arithmetic: the low seven bits are the
/// remainder by 128, a shift right by seven is a division by 128, and a group
/// put in above every set bit is added.
proof fn lemma_u32_bits(x: u32, p: u32, s: u32)
    by (bit_vector)
    ensures
        x & 0x7f == x % 128,
        x >> 7 == x / 128,
        s < 32 && p < 128 && x >> s == 0 ==> x | (p << s) == x + (p << s),
{
}

/// A shift left in `u32` is the shift in `u128` cut to 32 bits.
proof fn lemma_u32_shl(p: u32, s: u32)
    by (bit_vector)
    requires
        s < 32,
    ensures
        (p << s) as u128 == ((p as u128) << (s as u128)) % 0x1_0000_0000u128,
{
}

impl Unsigned for u32 {
    open spec fn bits() -> nat {
        32
    }

    open spec fn value(self) -> nat {
        self as nat
    }

    proof fn lemma_bits() {
    }

    proof fn lemma_value(self) {
        lemma_pow2_widths();
    }

    fn zero() -> (z: Self) {
        0
    }

    fn groups() -> (n: usize) {
        5
    }

    fn is_zero(self) -> (z: bool) {
        self == 0
    }

    fn same_as(self, other: Self) -> (same: bool) {
        self == other
    }

    fn low7(self) -> (group: u8) {
        proof {
            lemma_u32_bits(self, 0, 0);
        }
        (self & 0x7f) as u8
    }

    fn shr7(self) -> (r: Self) {
        proof {
            lemma_u32_bits(self, 0, 0);
        }
        self >> 7
    }

    fn with_group(self, group: u8, index: usize) -> (r: Self) {
        let shift: u32 = 7 * (index as u32);
        let wide: u32 = group as u32;
        proof {
            let s: nat = shift as nat;
            lemma_pow2_widths();
            lemma_pow2_pos(s);
            lemma_u32_shr_is_div(self, shift);
            lemma_basic_div(self as int, pow2(s) as int);
            lemma_u32_bits(self, wide, shift);
            lemma_u32_shl(wide, shift);
            lemma_u128_shl(wide as u128, shift as u128);
            lemma_with_group(
                self as nat,
                group as nat,
                s,
                32,
                (wide << shift) as nat,
                (self | (wide << shift)) as nat,
            );
        }
        self | (wide << shift)
    }

    fn wrapped_add(self, other: Self) -> (r: Self) {
        proof {
            lemma_pow2_widths();
            lemma_wrapped(self as int, other as int, pow2(32) as int);
        }
        self.wrapping_add(other)
    }

    fn wrapped_sub(self, other: Self) -> (r: Self) {
        proof {
            lemma_pow2_widths();
            lemma_wrapped(self as int, other as int, pow2(32) as int);
        }
        self.wrapping_sub(other)
    }
}

/// Masks and shifts of `u64` as arithmetic: the low seven bits are the
/// remainder by 128, a shift right by seven is a division by 128, and a group
/// put in above every set bit is added.
proof fn lemma_u64_bits(x: u64, p: u64, s: u32)
    by (bit_vector)
    ensures
        x & 0x7f == x % 128,
        x >> 7 == x / 128,
        s < 64 && p < 128 && x >> s == 0 ==> x | (p << s) == x + (p << s),
{
}

/// A shift left in `u64` is the shift in `u128` cut to 64 bits.
proof fn lemma_u64_shl(p: u64, s: u32)
    by (bit_vector)
    requires
        s < 64,
    ensures
        (p << s) as u128 == ((p as u128) << (s as u128)) % 0x1_0000_0000_0000_0000u128,
{
}

impl Unsigned for u64 {
    open spec fn bits() -> nat {
        64
    }

    open spec fn value(self) -> nat {
        self as nat
    }

    proof fn lemma_bits() {
    }

    proof fn lemma_value(self) {
        lemma_pow2_widths();
    }

    fn zero() -> (z: Self) {
        0
    }

    fn groups() -> (n: usize) {
        10
    }

    fn is_zero(self) -> (z: bool) {
        self == 0
    }

    fn same_as(self, other: Self) -> (same: bool) {
        self == other
    }

    fn low7(self) -> (group: u8) {
        proof {
            lemma_u64_bits(self, 0, 0);
        }
        (self & 0x7f) as u8
    }

    fn shr7(self) -> (r: Self) {
        proof {
            lemma_u64_bits(self, 0, 0);
        }
        self >> 7
    }

    fn with_group(self, group: u8, index: usize) -> (r: Self) {
        let shift: u32 = 7 * (index as u32);
        let wide: u64 = group as u64;
        proof {
            let s: nat = shift as nat;
            lemma_pow2_widths();
            lemma_pow2_pos(s);
            lemma_u64_shr_is_div(self, shift as u64);
            lemma_basic_div(self as int, pow2(s) as int);
            lemma_u64_bits(self, wide, shift);
            lemma_u64_shl(wide, shift);
            lemma_u128_shl(wide as u128, shift as u128);
            lemma_with_group(
                self as nat,
                group as nat,
                s,
                64,
                (wide << shift) as nat,
                (self | (wide << shift)) as nat,
            );
        }
        self | (wide << shift)
    }

    fn wrapped_add(self, other: Self) -> (r: Self) {
        proof {
            lemma_pow2_widths();
            lemma_wrapped(self as int, other as int, pow2(64) as int);
        }
        self.wrapping_add(other)
    }

    fn wrapped_sub(self, other: Self) -> (r: Self) {
        proof {
            lemma_pow2_widths();
            lemma_wrapped(self as int, other as int, pow2(64) as int);
        }
        self.wrapping_sub(other)
    }
}

/// Masks and shifts of `u128` as arithmetic: the low seven bits are the
/// remainder by 128, a shift right by seven is a division by 128, and a group
/// put in above every set bit is added.
proof fn lemma_u128_bits(x: u128, p: u128, s: u32)
    by (bit_vector)
    ensures
        x & 0x7f == x % 128,
        x >> 7 == x / 128,
        s < 128 && p < 128 && x >> s == 0 ==> x | (p << s) == x + (p << s),
{
}

impl Unsigned for u128 {
    open spec fn bits() -> nat {
        128
    }

    open spec fn value(self) -> nat {
        self as nat
    }

    proof fn lemma_bits() {
    }

    proof fn lemma_value(self) {
        lemma_pow2_widths();
    }

    fn zero() -> (z: Self) {
        0
    }

    fn groups() -> (n: usize) {
        19
    }

    fn is_zero(self) -> (z: bool) {
        self == 0
    }

    fn same_as(self, other: Self) -> (same: bool) {
        self == other
    }

    fn low7(self) -> (group: u8) {
        proof {
            lemma_u128_bits(self, 0, 0);
        }
        (self & 0x7f) as u8
    }

    fn shr7(self) -> (r: Self) {
        proof {
            lemma_u128_bits(self, 0, 0);
        }
        self >> 7
    }

    fn with_group(self, group: u8, index: usize) -> (r: Self) {
        let shift: u32 = 7 * (index as u32);
        let wide: u128 = group as u128;
        proof {
            let s: nat = shift as nat;
            lemma_pow2_widths();
            lemma_pow2_pos(s);
            lemma_u128_shr_is_div(self, shift as u128);
            lemma_basic_div(self as int, pow2(s) as int);
            lemma_u128_bits(self, wide, shift);
            lemma_u128_shl(wide, shift as u128);
            lemma_with_group(
                self as nat,
                group as nat,
                s,
                128,
                (wide << shift) as nat,
                (self | (wide << shift)) as nat,
            );
        }
        self | (wide << shift)
    }

    fn wrapped_add(self, other: Self) -> (r: Self) {
        proof {
            lemma_pow2_widths();
            lemma_wrapped(self as int, other as int, pow2(128) as int);
        }
        self.wrapping_add(other)
    }

    fn wrapped_sub(self, other: Self) -> (r: Self) {
        proof {
            lemma_pow2_widths();
            lemma_wrapped(self as int, other as int, pow2(128) as int);
        }
        self.wrapping_sub(other)
    }
}

} // verus!
