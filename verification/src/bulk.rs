//! Sequences of integers to bytes and back, one encoding after the other.

use vstd::prelude::*;
use vstd::arithmetic::power2::lemma_pow2_strictly_increases;
use crate::error::Error;
use crate::format::{decoding_all, encoding, encoding_all, lemma_parse_consumes, prepend};
use crate::laws::{lemma_decoding_all_ends, lemma_encoding_all_push, lemma_encoding_length_bound};
use crate::unsigned::{values, Unsigned};
use crate::varint::{decode, encode};

verus! {

/// The room that the encoders give one integer. The longest encoding, that
/// of a large integer of 128 bits, takes 19 bytes.
pub const SCRATCH: usize = 24;

/// The encoding of an integer of type `T` fits in the scratch buffer.
pub proof fn lemma_fits_scratch<T: Unsigned>(x: T)
    ensures
        encoding(x.value()).len() <= 19,
{
    T::lemma_bits();
    x.lemma_value();
    lemma_pow2_strictly_increases(T::bits(), 133);
    lemma_encoding_length_bound(x.value(), 19);
}

/// Appends the encodings of `xs`, in order, to `w` and returns the number of
/// bytes appended.
///
/// Appending to a vector does not fail, so the result is always `Ok`. It is
/// a `Result` for the sake of sinks that can refuse bytes: see
/// [`crate::error::written`].
pub fn encode_slice<T: Unsigned>(xs: &[T], w: &mut Vec<u8>) -> (r: Result<usize, Error>)
    ensures
        final(w)@ == old(w)@ + encoding_all(values(xs@)),
        r == Ok::<usize, Error>(encoding_all(values(xs@)).len() as usize),
        encoding_all(values(xs@)).len() <= usize::MAX,
{
    let ghost before: Seq<u8> = w@;
    let ghost all: Seq<nat> = values(xs@);
    let mut buf: [u8; SCRATCH] = [0; SCRATCH];
    let mut total: usize = 0;
    let mut i: usize = 0;
    proof {
        assert(all.take(0) =~= Seq::<nat>::empty());
        assert(w@ =~= before + encoding_all(all.take(0)));
    }
    while i < xs.len()
        invariant
            before == old(w)@,
            all == values(xs@),
            i <= xs@.len(),
            w@ == before + encoding_all(all.take(i as int)),
            total == encoding_all(all.take(i as int)).len(),
        decreases xs@.len() - i,
    {
        let x: T = xs[i];
        proof {
            lemma_fits_scratch(x);
            lemma_encoding_all_push(all.take(i as int), x.value());
            assert(all.take(i + 1) =~= all.take(i as int).push(x.value()));
        }
        match encode(x, &mut buf) {
            Ok(n) => {
                let ghost sofar: Seq<u8> = w@;
                w.extend_from_slice(&buf[0..n]);
                proof {
                    assert(buf@.subrange(0, n as int) =~= encoding(x.value()));
                    assert(w@ =~= sofar + encoding(x.value()));
                    assert(w@ =~= before + encoding_all(all.take(i + 1)));
                    assert(w@.len() <= usize::MAX) by {
                        vstd::std_specs::vec::axiom_spec_len(w);
                    }
                }
                total += n;
            },
            Err(e) => {
                return Err(e);
            },
        }
        i += 1;
    }
    proof {
        assert(all.take(i as int) =~= all);
    }
    Ok(total)
}

/// Reads integers from `bytes` until none are left and returns them in
/// order.
///
/// Where some integer in `bytes` does not end, the result is
/// `InvalidVarInt`, and the integers before it are not returned.
pub fn decode_slice<T: Unsigned>(bytes: &[u8]) -> (r: Result<Vec<T>, Error>)
    ensures
        r is Ok <==> bytes@.len() == 0 || bytes@.last() < 128,
        (match r {
            Ok(xs) => decoding_all(bytes@, T::bits()) == Some(values(xs@)),
            Err(e) => e == Error::InvalidVarInt && decoding_all(bytes@, T::bits()) is None,
        }),
{
    let mut out: Vec<T> = Vec::new();
    let mut cur: &[u8] = bytes;
    proof {
        let rest = decoding_all(bytes@, T::bits());
        assert(values(out@) =~= Seq::<nat>::empty());
        if let Some(vs) = rest {
            assert(Seq::<nat>::empty() + vs =~= vs);
        }
    }
    while cur.len() > 0
        invariant
            decoding_all(bytes@, T::bits()) == prepend(
                values(out@),
                decoding_all(cur@, T::bits()),
            ),
        decreases cur@.len(),
    {
        let ghost done: Seq<nat> = values(out@);
        proof {
            lemma_parse_consumes(cur@);
        }
        match decode::<T>(cur) {
            Ok((x, rest)) => {
                out.push(x);
                proof {
                    assert(values(out@) =~= done.push(x.value()));
                    if let Some(vs) = decoding_all(rest@, T::bits()) {
                        assert(done + (seq![x.value()] + vs) =~= done.push(x.value()) + vs);
                    }
                }
                cur = rest;
            },
            Err(e) => {
                proof {
                    lemma_decoding_all_ends(bytes@, T::bits());
                }
                return Err(e);
            },
        }
    }
    proof {
        lemma_decoding_all_ends(bytes@, T::bits());
        assert(values(out@) + Seq::<nat>::empty() =~= values(out@));
    }
    Ok(out)
}

/// Appends the encodings of `xs`, in order, to `w` and returns the number of
/// bytes appended. See [`encode_slice`].
pub fn encode_u16_slice(xs: &[u16], w: &mut Vec<u8>) -> (r: Result<usize, Error>)
    ensures
        final(w)@ == old(w)@ + encoding_all(values(xs@)),
        r == Ok::<usize, Error>(encoding_all(values(xs@)).len() as usize),
        encoding_all(values(xs@)).len() <= usize::MAX,
{
    encode_slice(xs, w)
}

/// Appends the encodings of `xs`, in order, to `w` and returns the number of
/// bytes appended. See [`encode_slice`].
pub fn encode_u32_slice(xs: &[u32], w: &mut Vec<u8>) -> (r: Result<usize, Error>)
    ensures
        final(w)@ == old(w)@ + encoding_all(values(xs@)),
        r == Ok::<usize, Error>(encoding_all(values(xs@)).len() as usize),
        encoding_all(values(xs@)).len() <= usize::MAX,
{
    encode_slice(xs, w)
}

/// Appends the encodings of `xs`, in order, to `w` and returns the number of
/// bytes appended. See [`encode_slice`].
pub fn encode_u64_slice(xs: &[u64], w: &mut Vec<u8>) -> (r: Result<usize, Error>)
    ensures
        final(w)@ == old(w)@ + encoding_all(values(xs@)),
        r == Ok::<usize, Error>(encoding_all(values(xs@)).len() as usize),
        encoding_all(values(xs@)).len() <= usize::MAX,
{
    encode_slice(xs, w)
}

/// Appends the encodings of `xs`, in order, to `w` and returns the number of
/// bytes appended. See [`encode_slice`].
pub fn encode_u128_slice(xs: &[u128], w: &mut Vec<u8>) -> (r: Result<usize, Error>)
    ensures
        final(w)@ == old(w)@ + encoding_all(values(xs@)),
        r == Ok::<usize, Error>(encoding_all(values(xs@)).len() as usize),
        encoding_all(values(xs@)).len() <= usize::MAX,
{
    encode_slice(xs, w)
}

/// Reads integers of 16 bits from `bytes` until none are left and returns
/// them in order, or `InvalidVarInt` where one of them does not end. See
/// [`decode_slice`].
pub fn decode_u16_slice(bytes: &[u8]) -> (r: Result<Vec<u16>, Error>)
    ensures
        r is Ok <==> bytes@.len() == 0 || bytes@.last() < 128,
        (match r {
            Ok(xs) => decoding_all(bytes@, 16) == Some(values(xs@)),
            Err(e) => e == Error::InvalidVarInt && decoding_all(bytes@, 16) is None,
        }),
{
    decode_slice(bytes)
}

/// Reads integers of 32 bits from `bytes` until none are left and returns
/// them in order, or `InvalidVarInt` where one of them does not end. See
/// [`decode_slice`].
pub fn decode_u32_slice(bytes: &[u8]) -> (r: Result<Vec<u32>, Error>)
    ensures
        r is Ok <==> bytes@.len() == 0 || bytes@.last() < 128,
        (match r {
            Ok(xs) => decoding_all(bytes@, 32) == Some(values(xs@)),
            Err(e) => e == Error::InvalidVarInt && decoding_all(bytes@, 32) is None,
        }),
{
    decode_slice(bytes)
}

/// Reads integers of 64 bits from `bytes` until none are left and returns
/// them in order, or `InvalidVarInt` where one of them does not end. See
/// [`decode_slice`].
pub fn decode_u64_slice(bytes: &[u8]) -> (r: Result<Vec<u64>, Error>)
    ensures
        r is Ok <==> bytes@.len() == 0 || bytes@.last() < 128,
        (match r {
            Ok(xs) => decoding_all(bytes@, 64) == Some(values(xs@)),
            Err(e) => e == Error::InvalidVarInt && decoding_all(bytes@, 64) is None,
        }),
{
    decode_slice(bytes)
}

/// Reads integers of 128 bits from `bytes` until none are left and returns
/// them in order, or `InvalidVarInt` where one of them does not end. See
/// [`decode_slice`].
pub fn decode_u128_slice(bytes: &[u8]) -> (r: Result<Vec<u128>, Error>)
    ensures
        r is Ok <==> bytes@.len() == 0 || bytes@.last() < 128,
        (match r {
            Ok(xs) => decoding_all(bytes@, 128) == Some(values(xs@)),
            Err(e) => e == Error::InvalidVarInt && decoding_all(bytes@, 128) is None,
        }),
{
    decode_slice(bytes)
}

} // verus!
