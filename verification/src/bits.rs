//! Shifts and masks as arithmetic.

use vstd::prelude::*;
use vstd::arithmetic::div_mod::{lemma_mod_mod, lemma_mul_mod_noop_right, lemma_small_mod};
use vstd::arithmetic::power2::{
    lemma2_to64,
    lemma_pow2_adds,
    lemma_pow2_pos,
    lemma_pow2_unfold,
    pow2,
};

verus! {

/// Two to the power of 7, 16, 32, 64 and 128, written out.
pub proof fn lemma_pow2_widths()
    ensures
        pow2(7) == 128,
        pow2(16) == 0x1_0000,
        pow2(32) == 0x1_0000_0000,
        pow2(64) == 0x1_0000_0000_0000_0000,
        pow2(128) == 0x1_0000_0000_0000_0000_0000_0000_0000_0000int,
{
    lemma2_to64();
    lemma_pow2_adds(64, 64);
}

/// On a byte: masking with `0x7f` keeps the remainder by 128, a clear top
/// bit means less than 128, and setting the top bit of a byte below 128 adds
/// 128.
pub proof fn lemma_byte(b: u8)
    by (bit_vector)
    ensures
        b & 0x7f == b % 128,
        (b & 0x80 == 0) == (b < 128),
        b < 128 ==> b | 0x80 == b + 128,
{
}

/// A shift left by nothing changes nothing, a shift by one more is one more
/// shift by one, and a shift by one doubles and drops what does not fit.
proof fn lemma_u128_shl_unfold(p: u128, s: u128, y: u128)
    by (bit_vector)
    ensures
        p << 0 == p,
        s < 127 ==> p << ((s + 1) as u128) == (p << s) << 1,
        y << 1 == (y * 2) % 0x1_0000_0000_0000_0000_0000_0000_0000_0000int,
{
}

/// Shifting a 128-bit integer to the left multiplies it by a power of two
/// and drops what does not fit.
pub proof fn lemma_u128_shl(p: u128, s: u128)
    requires
        s < 128,
    ensures
        (p << s) as nat == (p as nat * pow2(s as nat)) % pow2(128),
    decreases s,
{
    lemma_pow2_widths();
    if s == 0 {
        lemma_u128_shl_unfold(p, 0, 0);
        lemma2_to64();
        lemma_small_mod(p as nat, pow2(128));
    } else {
        let t: u128 = (s - 1) as u128;
        lemma_u128_shl(p, t);
        lemma_u128_shl_unfold(p, t, p << t);
        lemma_pow2_unfold(s as nat);
        let m: int = pow2(128) as int;
        let low: int = p as int * pow2(t as nat) as int;
        assert((p << s) as int == (2 * (low % m)) % m);
        lemma_mul_mod_noop_right(2, low, m);
        assert(2 * low == p as int * pow2(s as nat) as int) by (nonlinear_arith)
            requires
                low == p as int * pow2(t as nat) as int,
                pow2(s as nat) == 2 * pow2(t as nat),
        ;
    }
}

/// Reducing modulo 2^128 and then modulo a smaller power of two is reducing
/// modulo the smaller one.
pub proof fn lemma_narrow(x: nat, bits: nat)
    requires
        bits <= 128,
    ensures
        (x % pow2(128)) % pow2(bits) == x % pow2(bits),
{
    lemma_pow2_adds(bits, (128 - bits) as nat);
    lemma_pow2_pos(bits);
    lemma_pow2_pos((128 - bits) as nat);
    lemma_mod_mod(x as int, pow2(bits) as int, pow2((128 - bits) as nat) as int);
}

} // verus!
