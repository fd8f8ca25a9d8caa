//! Sequences as differences: each integer is written as what has to be
//! added to the one before it. A sequence that never decreases by much
//! takes fewer bytes this way.

use vstd::prelude::*;
use vstd::arithmetic::div_mod::{lemma_add_mod_noop, lemma_small_mod};
use vstd::arithmetic::power2::{lemma_pow2_pos, pow2};
use crate::bulk::{lemma_fits_scratch, SCRATCH};
use crate::error::Error;
use crate::format::{
    decoding,
    decoding_all,
    decoding_while,
    delta_decoding,
    delta_encoding,
    differences,
    encoding,
    encoding_all,
    lemma_parse_consumes,
    prepend,
    running_sums,
    sum,
    wrap,
};
use crate::laws::{lemma_decoding_all_ends, lemma_encoding_all_push, lemma_running_sums_push};
use crate::unsigned::{values, Unsigned};
use crate::varint::{decode, encode};

verus! {

/// Adding a number to a sum that was reduced modulo 2^`bits` and reducing
/// again is reducing the whole sum.
proof fn lemma_wrap_add(total: nat, next: nat, bits: nat)
    ensures
        wrap((wrap(total as int, bits) + wrap(next as int, bits)) as int, bits) == wrap(
            (total + next) as int,
            bits,
        ),
{
    lemma_pow2_pos(bits);
    lemma_add_mod_noop(total as int, next as int, pow2(bits) as int);
}

/// Appends to `w` the encodings of the differences between each element of
/// `xs` and the one before it, the first being taken from zero, and returns
/// the number of bytes appended.
///
/// `xs` is meant to be in non-decreasing order. This is not looked at: a
/// difference that would be negative wraps around modulo 2^bits, and
/// decoding wraps back. As with [`crate::bulk::encode_slice`], the result
/// is always `Ok`.
pub fn delta_encode_slice<T: Unsigned>(xs: &[T], w: &mut Vec<u8>) -> (r: Result<usize, Error>)
    ensures
        final(w)@ == old(w)@ + delta_encoding(values(xs@), T::bits()),
        r == Ok::<usize, Error>(delta_encoding(values(xs@), T::bits()).len() as usize),
        delta_encoding(values(xs@), T::bits()).len() <= usize::MAX,
{
    let ghost before: Seq<u8> = w@;
    let ghost all: Seq<nat> = differences(values(xs@), T::bits());
    let mut buf: [u8; SCRATCH] = [0; SCRATCH];
    let mut total: usize = 0;
    let mut prev: T = T::zero();
    let mut i: usize = 0;
    proof {
        assert(all.take(0) =~= Seq::<nat>::empty());
        assert(w@ =~= before + encoding_all(all.take(0)));
    }
    while i < xs.len()
        invariant
            before == old(w)@,
            all == differences(values(xs@), T::bits()),
            i <= xs@.len(),
            prev.value() == (if i == 0 {
                0
            } else {
                xs@[i - 1].value()
            }),
            w@ == before + encoding_all(all.take(i as int)),
            total == encoding_all(all.take(i as int)).len(),
        decreases xs@.len() - i,
    {
        let x: T = xs[i];
        let delta: T = x.wrapped_sub(prev);
        proof {
            assert(delta.value() == all[i as int]);
            lemma_fits_scratch(delta);
            lemma_encoding_all_push(all.take(i as int), delta.value());
            assert(all.take(i + 1) =~= all.take(i as int).push(delta.value()));
        }
        match encode(delta, &mut buf) {
            Ok(n) => {
                let ghost sofar: Seq<u8> = w@;
                w.extend_from_slice(&buf[0..n]);
                proof {
                    assert(buf@.subrange(0, n as int) =~= encoding(delta.value()));
                    assert(w@ =~= sofar + encoding(delta.value()));
                    assert(w@ =~= before + encoding_all(all.take(i + 1)));
                    assert(w@.len() <= usize::MAX) by {
                        vstd::std_specs::vec::axiom_spec_len(w);
                    }
                }
                total += n;
            },
            Err(e) => {
                return Err(e);
            },
        }
        prev = x;
        i += 1;
    }
    proof {
        assert(all.take(i as int) =~= all);
    }
    Ok(total)
}

/// Reads differences from `bytes` until none are left and returns their
/// running sums, modulo 2^bits: the sequence that `delta_encode_slice` was
/// given.
///
/// Where some integer in `bytes` does not end, the result is
/// `InvalidVarInt`, and nothing that was read before it is returned.
pub fn delta_decode_slice<T: Unsigned>(bytes: &[u8]) -> (r: Result<Vec<T>, Error>)
    ensures
        r is Ok <==> bytes@.len() == 0 || bytes@.last() < 128,
        (match r {
            Ok(xs) => delta_decoding(bytes@, T::bits()) == Some(values(xs@)),
            Err(e) => e == Error::InvalidVarInt && delta_decoding(bytes@, T::bits()) is None,
        }),
{
    let mut out: Vec<T> = Vec::new();
    let mut prev: T = T::zero();
    let mut cur: &[u8] = bytes;
    let ghost mut ds: Seq<nat> = Seq::empty();
    proof {
        assert(values(out@) =~= running_sums(ds, T::bits()));
        if let Some(vs) = decoding_all(bytes@, T::bits()) {
            assert(ds + vs =~= vs);
        }
        lemma_pow2_pos(T::bits());
        lemma_small_mod(0, pow2(T::bits()));
    }
    while cur.len() > 0
        invariant
            decoding_all(bytes@, T::bits()) == prepend(ds, decoding_all(cur@, T::bits())),
            values(out@) == running_sums(ds, T::bits()),
            prev.value() == wrap(sum(ds) as int, T::bits()),
        decreases cur@.len(),
    {
        proof {
            lemma_parse_consumes(cur@);
        }
        match decode::<T>(cur) {
            Ok((delta, rest)) => {
                let ghost sums: Seq<nat> = values(out@);
                proof {
                    delta.lemma_value();
                    lemma_wrap_add(sum(ds), delta.value(), T::bits());
                    lemma_small_mod(delta.value(), pow2(T::bits()));
                    lemma_running_sums_push(ds, delta.value(), T::bits());
                }
                prev = prev.wrapped_add(delta);
                out.push(prev);
                proof {
                    assert(values(out@) =~= sums.push(prev.value()));
                    if let Some(vs) = decoding_all(rest@, T::bits()) {
                        assert(ds + (seq![delta.value()] + vs) =~= ds.push(delta.value()) + vs);
                    }
                    assert(ds.push(delta.value()).drop_last() =~= ds);
                    ds = ds.push(delta.value());
                }
                cur = rest;
            },
            Err(e) => {
                proof {
                    lemma_decoding_all_ends(bytes@, T::bits());
                }
                return Err(e);
            },
        }
    }
    proof {
        lemma_decoding_all_ends(bytes@, T::bits());
        assert(ds + Seq::<nat>::empty() =~= ds);
    }
    Ok(out)
}

/// Whether `target` is among the running sums of the differences in
/// `bytes`, that is, in the sequence that `bytes` is the difference form
/// of. The bytes are read once, from the front, and nothing is stored.
///
/// Where some integer in `bytes` does not end, the search is over the sums
/// before it.
pub fn contains<T: Unsigned>(target: T, bytes: &[u8]) -> (found: bool)
    ensures
        found == running_sums(decoding_while(bytes@, T::bits()), T::bits()).contains(
            target.value(),
        ),
{
    let mut acc: T = T::zero();
    let mut cur: &[u8] = bytes;
    let ghost mut ds: Seq<nat> = Seq::empty();
    proof {
        assert(ds + decoding_while(bytes@, T::bits()) =~= decoding_while(bytes@, T::bits()));
        lemma_pow2_pos(T::bits());
        lemma_small_mod(0, pow2(T::bits()));
    }
    while cur.len() > 0
        invariant
            decoding_while(bytes@, T::bits()) == ds + decoding_while(cur@, T::bits()),
            acc.value() == wrap(sum(ds) as int, T::bits()),
            !running_sums(ds, T::bits()).contains(target.value()),
        decreases cur@.len(),
    {
        proof {
            lemma_parse_consumes(cur@);
        }
        match decode::<T>(cur) {
            Ok((delta, rest)) => {
                let ghost longer: Seq<nat> = ds.push(delta.value());
                proof {
                    delta.lemma_value();
                    lemma_wrap_add(sum(ds), delta.value(), T::bits());
                    lemma_small_mod(delta.value(), pow2(T::bits()));
                    lemma_running_sums_push(ds, delta.value(), T::bits());
                    assert(ds + (seq![delta.value()] + decoding_while(rest@, T::bits()))
                        =~= longer + decoding_while(rest@, T::bits()));
                    assert(longer.drop_last() =~= ds);
                }
                acc = acc.wrapped_add(delta);
                if acc.same_as(target) {
                    proof {
                        let whole = decoding_while(bytes@, T::bits());
                        let at: int = ds.len() as int;
                        assert(whole.take(at + 1) =~= longer);
                        assert(running_sums(whole, T::bits())[at] == target.value());
                    }
                    return true;
                }
                proof {
                    let sums = running_sums(ds, T::bits());
                    assert forall|k: int| 0 <= k < sums.push(acc.value()).len() implies sums.push(
                        acc.value(),
                    )[k] != target.value() by {
                        if k < sums.len() {
                            assert(sums.contains(sums[k]));
                        }
                    }
                    ds = longer;
                }
                cur = rest;
            },
            Err(_) => {
                proof {
                    assert(ds + Seq::<nat>::empty() =~= ds);
                }
                return false;
            },
        }
    }
    proof {
        assert(ds + Seq::<nat>::empty() =~= ds);
    }
    false
}

/// Appends to `w` the encodings of the differences between neighbours in
/// `xs` and returns the number of bytes appended. `xs` is meant to be in
/// non-decreasing order. See [`delta_encode_slice`].
pub fn delta_encode_u16_slice(xs: &[u16], w: &mut Vec<u8>) -> (r: Result<usize, Error>)
    ensures
        final(w)@ == old(w)@ + delta_encoding(values(xs@), 16),
        r == Ok::<usize, Error>(delta_encoding(values(xs@), 16).len() as usize),
        delta_encoding(values(xs@), 16).len() <= usize::MAX,
{
    delta_encode_slice(xs, w)
}

/// Appends to `w` the encodings of the differences between neighbours in
/// `xs` and returns the number of bytes appended. `xs` is meant to be in
/// non-decreasing order. See [`delta_encode_slice`].
pub fn delta_encode_u32_slice(xs: &[u32], w: &mut Vec<u8>) -> (r: Result<usize, Error>)
    ensures
        final(w)@ == old(w)@ + delta_encoding(values(xs@), 32),
        r == Ok::<usize, Error>(delta_encoding(values(xs@), 32).len() as usize),
        delta_encoding(values(xs@), 32).len() <= usize::MAX,
{
    delta_encode_slice(xs, w)
}

/// Appends to `w` the encodings of the differences between neighbours in
/// `xs` and returns the number of bytes appended. `xs` is meant to be in
/// non-decreasing order. See [`delta_encode_slice`].
pub fn delta_encode_u64_slice(xs: &[u64], w: &mut Vec<u8>) -> (r: Result<usize, Error>)
    ensures
        final(w)@ == old(w)@ + delta_encoding(values(xs@), 64),
        r == Ok::<usize, Error>(delta_encoding(values(xs@), 64).len() as usize),
        delta_encoding(values(xs@), 64).len() <= usize::MAX,
{
    delta_encode_slice(xs, w)
}

/// Appends to `w` the encodings of the differences between neighbours in
/// `xs` and returns the number of bytes appended. `xs` is meant to be in
/// non-decreasing order. See [`delta_encode_slice`].
pub fn delta_encode_u128_slice(xs: &[u128], w: &mut Vec<u8>) -> (r: Result<usize, Error>)
    ensures
        final(w)@ == old(w)@ + delta_encoding(values(xs@), 128),
        r == Ok::<usize, Error>(delta_encoding(values(xs@), 128).len() as usize),
        delta_encoding(values(xs@), 128).len() <= usize::MAX,
{
    delta_encode_slice(xs, w)
}

/// Reads differences of 16 bits from `bytes` until none are left and
/// returns their running sums, or `InvalidVarInt` where one of them does not
/// end. See [`delta_decode_slice`].
pub fn delta_decode_u16_slice(bytes: &[u8]) -> (r: Result<Vec<u16>, Error>)
    ensures
        r is Ok <==> bytes@.len() == 0 || bytes@.last() < 128,
        (match r {
            Ok(xs) => delta_decoding(bytes@, 16) == Some(values(xs@)),
            Err(e) => e == Error::InvalidVarInt && delta_decoding(bytes@, 16) is None,
        }),
{
    delta_decode_slice(bytes)
}

/// Reads differences of 32 bits from `bytes` until none are left and
/// returns their running sums, or `InvalidVarInt` where one of them does not
/// end. See [`delta_decode_slice`].
pub fn delta_decode_u32_slice(bytes: &[u8]) -> (r: Result<Vec<u32>, Error>)
    ensures
        r is Ok <==> bytes@.len() == 0 || bytes@.last() < 128,
        (match r {
            Ok(xs) => delta_decoding(bytes@, 32) == Some(values(xs@)),
            Err(e) => e == Error::InvalidVarInt && delta_decoding(bytes@, 32) is None,
        }),
{
    delta_decode_slice(bytes)
}

/// Reads differences of 64 bits from `bytes` until none are left and
/// returns their running sums, or `InvalidVarInt` where one of them does not
/// end. See [`delta_decode_slice`].
pub fn delta_decode_u64_slice(bytes: &[u8]) -> (r: Result<Vec<u64>, Error>)
    ensures
        r is Ok <==> bytes@.len() == 0 || bytes@.last() < 128,
        (match r {
            Ok(xs) => delta_decoding(bytes@, 64) == Some(values(xs@)),
            Err(e) => e == Error::InvalidVarInt && delta_decoding(bytes@, 64) is None,
        }),
{
    delta_decode_slice(bytes)
}

/// Reads differences of 128 bits from `bytes` until none are left and
/// returns their running sums, or `InvalidVarInt` where one of them does not
/// end. See [`delta_decode_slice`].
pub fn delta_decode_u128_slice(bytes: &[u8]) -> (r: Result<Vec<u128>, Error>)
    ensures
        r is Ok <==> bytes@.len() == 0 || bytes@.last() < 128,
        (match r {
            Ok(xs) => delta_decoding(bytes@, 128) == Some(values(xs@)),
            Err(e) => e == Error::InvalidVarInt && delta_decoding(bytes@, 128) is None,
        }),
{
    delta_decode_slice(bytes)
}

/// Whether `target` is in the sequence of integers of 16 bits that `bytes`
/// is the difference form of. See [`contains`].
pub fn contains_u16(target: u16, bytes: &[u8]) -> (found: bool)
    ensures
        found == running_sums(decoding_while(bytes@, 16), 16).contains(target as nat),
{
    contains(target, bytes)
}

/// Whether `target` is in the sequence of integers of 32 bits that `bytes`
/// is the difference form of. See [`contains`].
pub fn contains_u32(target: u32, bytes: &[u8]) -> (found: bool)
    ensures
        found == running_sums(decoding_while(bytes@, 32), 32).contains(target as nat),
{
    contains(target, bytes)
}

/// Whether `target` is in the sequence of integers of 64 bits that `bytes`
/// is the difference form of. See [`contains`].
pub fn contains_u64(target: u64, bytes: &[u8]) -> (found: bool)
    ensures
        found == running_sums(decoding_while(bytes@, 64), 64).contains(target as nat),
{
    contains(target, bytes)
}

/// Whether `target` is in the sequence of integers of 128 bits that `bytes`
/// is the difference form of. See [`contains`].
pub fn contains_u128(target: u128, bytes: &[u8]) -> (found: bool)
    ensures
        found == running_sums(decoding_while(bytes@, 128), 128).contains(target as nat),
{
    contains(target, bytes)
}

} // verus!
