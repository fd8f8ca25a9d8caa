//! One integer to bytes, and bytes to one integer.

use vstd::prelude::*;
use vstd::arithmetic::div_mod::{lemma_mod_multiples_vanish, lemma_small_mod};
use vstd::arithmetic::power2::{
    lemma2_to64,
    lemma_pow2_adds,
    lemma_pow2_pos,
    lemma_pow2_strictly_increases,
    pow2,
};
use crate::bits::{lemma_byte, lemma_pow2_widths};
use crate::error::Error;
use crate::format::{decoding, encoding, parse, wrap};
use crate::unsigned::Unsigned;

verus! {

/// The number that the low seven bits of each of `bytes` spell, the first
/// byte being the least significant group.
spec fn payload(bytes: Seq<u8>) -> nat
    decreases bytes.len(),
{
    if bytes.len() == 0 {
        0
    } else {
        (bytes[0] % 128) as nat + 128 * payload(bytes.skip(1))
    }
}

/// One more byte at the end adds its low seven bits as the next group.
proof fn lemma_payload_push(bytes: Seq<u8>, last: u8)
    ensures
        payload(bytes.push(last)) == payload(bytes) + (last % 128) as nat * pow2(7 * bytes.len()),
        payload(bytes.push(last)) < pow2(7 * (bytes.len() + 1)),
        payload(bytes) < pow2(7 * bytes.len()),
    decreases bytes.len(),
{
    lemma_pow2_widths();
    let longer = bytes.push(last);
    if bytes.len() == 0 {
        assert(longer.skip(1) =~= Seq::<u8>::empty());
        assert(payload(longer.skip(1)) == 0);
        assert(pow2(0) == 1) by {
            lemma2_to64();
        }
    } else {
        let tail = bytes.skip(1);
        lemma_payload_push(tail, last);
        assert(longer.skip(1) =~= tail.push(last));
        let k: nat = tail.len();
        lemma_pow2_adds(7, 7 * k);
        lemma_pow2_adds(7, 7 * (k + 1));
        assert(7 * bytes.len() == 7 + 7 * k);
        assert(7 * (bytes.len() + 1) == 7 + 7 * (k + 1));
        let g: nat = (last % 128) as nat;
        assert(128 * (g * pow2(7 * k)) == g * (128 * pow2(7 * k))) by (nonlinear_arith);
    }
}

/// Where the first `run` bytes all have their top bit set, the value at the
/// front of `bytes` is what those bytes spell plus 2^(7 `run`) times the
/// value at the front of what follows them.
proof fn lemma_parse_after_run(bytes: Seq<u8>, run: int)
    requires
        0 <= run <= bytes.len(),
        forall|j: int| 0 <= j < run ==> bytes[j] >= 128,
    ensures
        parse(bytes) == (match parse(bytes.skip(run)) {
            Some((high, rest)) => Some(
                (payload(bytes.take(run)) + pow2(7 * run as nat) * high, rest),
            ),
            None => None,
        }),
    decreases run,
{
    lemma_pow2_widths();
    if run == 0 {
        assert(bytes.skip(0) =~= bytes);
        assert(bytes.take(0) =~= Seq::<u8>::empty());
        assert(pow2(0) == 1) by {
            lemma2_to64();
        }
        if let Some((high, rest)) = parse(bytes) {
            assert(pow2(0) * high == high) by (nonlinear_arith)
                requires
                    pow2(0) == 1,
            ;
        }
    } else {
        let tail = bytes.skip(1);
        assert forall|j: int| 0 <= j < run - 1 implies tail[j] >= 128 by {
            assert(tail[j] == bytes[j + 1]);
        }
        lemma_parse_after_run(tail, run - 1);
        assert(tail.skip(run - 1) =~= bytes.skip(run));
        assert(bytes.take(run).skip(1) =~= tail.take(run - 1));
        assert(bytes.take(run)[0] == bytes[0]);
        if let Some((high, rest)) = parse(bytes.skip(run)) {
            let k: nat = (run - 1) as nat;
            lemma_pow2_adds(7, 7 * k);
            assert(7 * run as nat == 7 + 7 * k);
            let low: nat = payload(tail.take(run - 1));
            assert(128 * (low + pow2(7 * k) * high) == 128 * low + (128 * pow2(7 * k)) * high)
                by (nonlinear_arith);
        }
    }
}

/// A group that lies wholly beyond `bits` bits leaves nothing behind.
proof fn lemma_group_beyond(sum: nat, group: nat, shift: nat, bits: nat)
    requires
        bits <= shift,
    ensures
        (sum + group * pow2(shift)) % pow2(bits) == sum % pow2(bits),
{
    lemma_pow2_adds(bits, (shift - bits) as nat);
    lemma_pow2_pos(bits);
    let m: int = pow2(bits) as int;
    let q: int = pow2((shift - bits) as nat) as int;
    assert(group * pow2(shift) == m * (group * q)) by (nonlinear_arith)
        requires
            pow2(shift) == m * q,
    ;
    lemma_mod_multiples_vanish(group * q, sum as int, m);
}

/// Writes the encoding of `x` to the front of `out` and returns its length.
///
/// The bytes of `out` behind the encoding stay as they were. Where `out` is
/// too short for the whole encoding, also where it is empty, the result is
/// `BufferTooSmall`, and nothing is promised of what `out` then holds but
/// its length.
pub fn encode<T: Unsigned>(x: T, out: &mut [u8]) -> (r: Result<usize, Error>)
    ensures
        final(out)@.len() == old(out)@.len(),
        r is Ok <==> encoding(x.value()).len() <= old(out)@.len(),
        (match r {
            Ok(n) => {
                &&& n == encoding(x.value()).len()
                &&& n <= old(out)@.len()
                &&& final(out)@ == encoding(x.value()) + old(out)@.skip(n as int)
            },
            Err(e) => e == Error::BufferTooSmall && old(out)@.len() < encoding(x.value()).len(),
        }),
{
    let ghost before: Seq<u8> = out@;
    let mut rest: T = x;
    let mut i: usize = 0;
    while i < out.len()
        invariant
            before == old(out)@,
            out@.len() == before.len(),
            i <= out@.len(),
            encoding(x.value()) == out@.take(i as int) + encoding(rest.value()),
            forall|j: int| i <= j < out@.len() ==> out@[j] == before[j],
        decreases out@.len() - i,
    {
        let ghost written: Seq<u8> = out@.take(i as int);
        let ghost left: nat = rest.value();
        let low: u8 = rest.low7();
        rest = rest.shr7();
        if rest.is_zero() {
            out[i] = low;
            proof {
                assert(encoding(left) == seq![low]);
                assert(out@.take(i + 1) =~= written + seq![low]);
                assert(out@ =~= encoding(x.value()) + before.skip(i + 1));
            }
            return Ok(i + 1);
        }
        proof {
            lemma_byte(low);
        }
        out[i] = low | 0x80;
        proof {
            let byte: u8 = (low + 128) as u8;
            assert(encoding(left) == seq![byte] + encoding(rest.value()));
            assert(out@.take(i + 1) =~= written + seq![byte]);
            assert(out@.take(i + 1) + encoding(rest.value()) =~= written + (seq![byte] + encoding(
                rest.value(),
            )));
        }
        i += 1;
    }
    proof {
        assert(out@.take(i as int) =~= out@);
    }
    Err(Error::BufferTooSmall)
}

/// Reads one integer from the front of `bytes` and returns it with the
/// bytes that follow it.
///
/// The integer ends with the first byte whose top bit is clear. Where
/// `bytes` holds no such byte, also where it is empty, the result is
/// `InvalidVarInt`. Bits that the bytes carry beyond the width of `T` are
/// dropped.
pub fn decode<T: Unsigned>(bytes: &[u8]) -> (r: Result<(T, &[u8]), Error>)
    ensures
        r is Err <==> forall|j: int| 0 <= j < bytes@.len() ==> bytes@[j] >= 128,
        (match r {
            Ok((x, rest)) => decoding(bytes@, T::bits()) == Some((x.value(), rest@)),
            Err(e) => e == Error::InvalidVarInt && decoding(bytes@, T::bits()) is None,
        }),
{
    let groups: usize = T::groups();
    let mut x: T = T::zero();
    let mut i: usize = 0;
    proof {
        assert(bytes@.take(0) =~= Seq::<u8>::empty());
        lemma_pow2_pos(T::bits());
        lemma_small_mod(0, pow2(T::bits()));
    }
    while i < bytes.len()
        invariant
            i <= bytes@.len(),
            7 * (groups - 1) < T::bits() <= 7 * groups,
            forall|j: int| 0 <= j < i ==> bytes@[j] >= 128,
            x.value() == wrap(payload(bytes@.take(i as int)) as int, T::bits()),
        decreases bytes@.len() - i,
    {
        let b: u8 = bytes[i];
        let ghost seen: Seq<u8> = bytes@.take(i as int);
        proof {
            lemma_byte(b);
            lemma_payload_push(seen, b);
            assert(bytes@.take(i + 1) =~= seen.push(b));
            lemma_pow2_pos(T::bits());
        }
        if i < groups {
            proof {
                lemma_pow2_strictly_increases(7 * i as nat, T::bits());
                lemma_small_mod(payload(seen), pow2(T::bits()));
            }
            x = x.with_group(b & 0x7f, i);
        } else {
            proof {
                lemma_group_beyond(payload(seen), (b % 128) as nat, 7 * i as nat, T::bits());
            }
        }
        if b & 0x80 == 0 {
            let rest: &[u8] = &bytes[i + 1..bytes.len()];
            proof {
                let at = bytes@.skip(i as int);
                assert(at[0] == b);
                assert(at.skip(1) =~= bytes@.skip(i + 1));
                assert(rest@ =~= bytes@.skip(i + 1));
                lemma_parse_after_run(bytes@, i as int);
                assert(pow2(7 * i as nat) * (b as nat) == (b % 128) as nat * pow2(7 * i as nat))
                    by (nonlinear_arith)
                    requires
                        b < 128,
                ;
            }
            return Ok((x, rest));
        }
        i += 1;
    }
    proof {
        lemma_parse_after_run(bytes@, bytes@.len() as int);
        assert(bytes@.skip(bytes@.len() as int) =~= Seq::<u8>::empty());
    }
    Err(Error::InvalidVarInt)
}

/// Writes the encoding of `x` to the front of `out` and returns its length,
/// or `BufferTooSmall` where `out` is too short for it. See [`encode`].
pub fn encode_u16(x: u16, out: &mut [u8]) -> (r: Result<usize, Error>)
    ensures
        final(out)@.len() == old(out)@.len(),
        r is Ok <==> encoding(x as nat).len() <= old(out)@.len(),
        (match r {
            Ok(n) => {
                &&& n == encoding(x as nat).len()
                &&& n <= old(out)@.len()
                &&& final(out)@ == encoding(x as nat) + old(out)@.skip(n as int)
            },
            Err(e) => e == Error::BufferTooSmall && old(out)@.len() < encoding(x as nat).len(),
        }),
{
    encode(x, out)
}

/// Writes the encoding of `x` to the front of `out` and returns its length,
/// or `BufferTooSmall` where `out` is too short for it. See [`encode`].
pub fn encode_u32(x: u32, out: &mut [u8]) -> (r: Result<usize, Error>)
    ensures
        final(out)@.len() == old(out)@.len(),
        r is Ok <==> encoding(x as nat).len() <= old(out)@.len(),
        (match r {
            Ok(n) => {
                &&& n == encoding(x as nat).len()
                &&& n <= old(out)@.len()
                &&& final(out)@ == encoding(x as nat) + old(out)@.skip(n as int)
            },
            Err(e) => e == Error::BufferTooSmall && old(out)@.len() < encoding(x as nat).len(),
        }),
{
    encode(x, out)
}

/// Writes the encoding of `x` to the front of `out` and returns its length,
/// or `BufferTooSmall` where `out` is too short for it. See [`encode`].
pub fn encode_u64(x: u64, out: &mut [u8]) -> (r: Result<usize, Error>)
    ensures
        final(out)@.len() == old(out)@.len(),
        r is Ok <==> encoding(x as nat).len() <= old(out)@.len(),
        (match r {
            Ok(n) => {
                &&& n == encoding(x as nat).len()
                &&& n <= old(out)@.len()
                &&& final(out)@ == encoding(x as nat) + old(out)@.skip(n as int)
            },
            Err(e) => e == Error::BufferTooSmall && old(out)@.len() < encoding(x as nat).len(),
        }),
{
    encode(x, out)
}

/// Writes the encoding of `x` to the front of `out` and returns its length,
/// or `BufferTooSmall` where `out` is too short for it. See [`encode`].
pub fn encode_u128(x: u128, out: &mut [u8]) -> (r: Result<usize, Error>)
    ensures
        final(out)@.len() == old(out)@.len(),
        r is Ok <==> encoding(x as nat).len() <= old(out)@.len(),
        (match r {
            Ok(n) => {
                &&& n == encoding(x as nat).len()
                &&& n <= old(out)@.len()
                &&& final(out)@ == encoding(x as nat) + old(out)@.skip(n as int)
            },
            Err(e) => e == Error::BufferTooSmall && old(out)@.len() < encoding(x as nat).len(),
        }),
{
    encode(x, out)
}

/// Reads one integer of 16 bits from the front of `bytes` and returns it
/// with the bytes that follow it, or `InvalidVarInt` where no byte of
/// `bytes` has a clear top bit. See [`decode`].
pub fn decode_u16(bytes: &[u8]) -> (r: Result<(u16, &[u8]), Error>)
    ensures
        r is Err <==> forall|j: int| 0 <= j < bytes@.len() ==> bytes@[j] >= 128,
        (match r {
            Ok((x, rest)) => decoding(bytes@, 16) == Some((x as nat, rest@)),
            Err(e) => e == Error::InvalidVarInt && decoding(bytes@, 16) is None,
        }),
{
    decode(bytes)
}

/// Reads one integer of 32 bits from the front of `bytes` and returns it
/// with the bytes that follow it, or `InvalidVarInt` where no byte of
/// `bytes` has a clear top bit. See [`decode`].
pub fn decode_u32(bytes: &[u8]) -> (r: Result<(u32, &[u8]), Error>)
    ensures
        r is Err <==> forall|j: int| 0 <= j < bytes@.len() ==> bytes@[j] >= 128,
        (match r {
            Ok((x, rest)) => decoding(bytes@, 32) == Some((x as nat, rest@)),
            Err(e) => e == Error::InvalidVarInt && decoding(bytes@, 32) is None,
        }),
{
    decode(bytes)
}

/// Reads one integer of 64 bits from the front of `bytes` and returns it
/// with the bytes that follow it, or `InvalidVarInt` where no byte of
/// `bytes` has a clear top bit. See [`decode`].
pub fn decode_u64(bytes: &[u8]) -> (r: Result<(u64, &[u8]), Error>)
    ensures
        r is Err <==> forall|j: int| 0 <= j < bytes@.len() ==> bytes@[j] >= 128,
        (match r {
            Ok((x, rest)) => decoding(bytes@, 64) == Some((x as nat, rest@)),
            Err(e) => e == Error::InvalidVarInt && decoding(bytes@, 64) is None,
        }),
{
    decode(bytes)
}

/// Reads one integer of 128 bits from the front of `bytes` and returns it
/// with the bytes that follow it, or `InvalidVarInt` where no byte of
/// `bytes` has a clear top bit. See [`decode`].
pub fn decode_u128(bytes: &[u8]) -> (r: Result<(u128, &[u8]), Error>)
    ensures
        r is Err <==> forall|j: int| 0 <= j < bytes@.len() ==> bytes@[j] >= 128,
        (match r {
            Ok((x, rest)) => decoding(bytes@, 128) == Some((x as nat, rest@)),
            Err(e) => e == Error::InvalidVarInt && decoding(bytes@, 128) is None,
        }),
{
    decode(bytes)
}

} // verus!
