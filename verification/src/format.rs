//! The byte format, stated over natural numbers and sequences of bytes.
//!
//! Nothing here runs. The executable functions of this crate are specified
//! by these definitions, and `laws` proves what holds of them.

use vstd::prelude::*;
use vstd::arithmetic::power2::pow2;

verus! {

/// `x` modulo 2^`bits`: what is left of `x` in an unsigned integer of
/// `bits` bits.
pub open spec fn wrap(x: int, bits: nat) -> nat {
    (x % pow2(bits) as int) as nat
}

/// The bytes that stand for `x`. Each byte holds seven bits of `x` in its
/// low bits, the least significant seven first; every byte but the last has
/// its top bit set. Zero is the single byte `0x00`.
pub open spec fn encoding(x: nat) -> Seq<u8>
    decreases x,
{
    if x < 128 {
        seq![x as u8]
    } else {
        seq![(128 + x % 128) as u8] + encoding(x / 128)
    }
}

/// The number of binary digits of `x`. Zero has none.
pub open spec fn bit_length(x: nat) -> nat
    decreases x,
{
    if x == 0 {
        0
    } else {
        1 + bit_length(x / 2)
    }
}

/// The value at the front of `bytes`, whatever its size, and the bytes that
/// follow it. The value ends with the first byte whose top bit is clear;
/// where there is no such byte, also where `bytes` is empty, there is no
/// value.
pub open spec fn parse(bytes: Seq<u8>) -> Option<(nat, Seq<u8>)>
    decreases bytes.len(),
{
    if bytes.len() == 0 {
        None
    } else if bytes[0] < 128 {
        Some((bytes[0] as nat, bytes.skip(1)))
    } else {
        match parse(bytes.skip(1)) {
            Some((high, rest)) => Some(((bytes[0] - 128) as nat + 128 * high, rest)),
            None => None,
        }
    }
}

/// A value takes at least one byte, and what follows it is the end of the
/// input.
pub proof fn lemma_parse_consumes(bytes: Seq<u8>)
    ensures
        parse(bytes) matches Some((_, rest)) ==> {
            &&& rest.len() < bytes.len()
            &&& rest == bytes.skip(bytes.len() - rest.len())
        },
    decreases bytes.len(),
{
    if bytes.len() > 0 && bytes[0] >= 128 {
        lemma_parse_consumes(bytes.skip(1));
        if let Some((_, rest)) = parse(bytes.skip(1)) {
            assert(bytes.skip(1).skip(bytes.skip(1).len() - rest.len()) =~= bytes.skip(
                bytes.len() - rest.len(),
            ));
        }
    }
}

/// What a decoder for integers of `bits` bits reads from the front of
/// `bytes`: the value of `parse`, of which the low `bits` bits are kept.
pub open spec fn decoding(bytes: Seq<u8>, bits: nat) -> Option<(nat, Seq<u8>)> {
    match parse(bytes) {
        Some((value, rest)) => Some((wrap(value as int, bits), rest)),
        None => None,
    }
}

/// The encodings of `xs`, one after the other, with nothing between them.
pub open spec fn encoding_all(xs: Seq<nat>) -> Seq<u8>
    decreases xs.len(),
{
    if xs.len() == 0 {
        Seq::empty()
    } else {
        encoding(xs[0]) + encoding_all(xs.skip(1))
    }
}

/// `first` put before the values of `others`, where there are any.
pub open spec fn prepend(first: Seq<nat>, others: Option<Seq<nat>>) -> Option<Seq<nat>> {
    match others {
        Some(values) => Some(first + values),
        None => None,
    }
}

/// All of `bytes` read as values of `bits` bits, or nothing where some
/// value in them does not end.
pub open spec fn decoding_all(bytes: Seq<u8>, bits: nat) -> Option<Seq<nat>>
    decreases bytes.len(),
{
    if bytes.len() == 0 {
        Some(Seq::empty())
    } else {
        match decoding(bytes, bits) {
            Some((value, rest)) => {
                proof {
                    lemma_parse_consumes(bytes);
                }
                prepend(seq![value], decoding_all(rest, bits))
            },
            None => None,
        }
    }
}

/// The values of `bits` bits that can be read from the front of `bytes`
/// until the bytes run out or a value does not end.
pub open spec fn decoding_while(bytes: Seq<u8>, bits: nat) -> Seq<nat>
    decreases bytes.len(),
{
    match decoding(bytes, bits) {
        Some((value, rest)) => {
            proof {
                lemma_parse_consumes(bytes);
            }
            seq![value] + decoding_while(rest, bits)
        },
        None => Seq::empty(),
    }
}

/// Each element is at least the one before it.
pub open spec fn non_decreasing(xs: Seq<nat>) -> bool {
    forall|i: int, j: int| 0 <= i <= j < xs.len() ==> xs[i] <= xs[j]
}

/// Every element fits in `bits` bits.
pub open spec fn all_below(xs: Seq<nat>, bits: nat) -> bool {
    forall|i: int| 0 <= i < xs.len() ==> xs[i] < pow2(bits)
}

/// The sum of the elements.
pub open spec fn sum(xs: Seq<nat>) -> nat
    decreases xs.len(),
{
    if xs.len() == 0 {
        0
    } else {
        sum(xs.drop_last()) + xs.last()
    }
}

/// For each element, what has to be added to the one before it (to zero
/// for the first) to reach it, in arithmetic modulo 2^`bits`. Where the
/// elements never decrease no difference wraps.
pub open spec fn differences(xs: Seq<nat>, bits: nat) -> Seq<nat> {
    Seq::new(
        xs.len(),
        |i: int|
            {
                let before: nat = if i == 0 {
                    0
                } else {
                    xs[i - 1]
                };
                wrap(xs[i] - before, bits)
            },
    )
}

/// For each position, the sum of the elements up to and including it,
/// modulo 2^`bits`.
pub open spec fn running_sums(ds: Seq<nat>, bits: nat) -> Seq<nat> {
    Seq::new(ds.len(), |i: int| wrap(sum(ds.take(i + 1)) as int, bits))
}

/// The bytes that stand for `xs` in difference form.
pub open spec fn delta_encoding(xs: Seq<nat>, bits: nat) -> Seq<u8> {
    encoding_all(differences(xs, bits))
}

/// The sequence whose difference form `bytes` is, or nothing where some
/// value in `bytes` does not end.
pub open spec fn delta_decoding(bytes: Seq<u8>, bits: nat) -> Option<Seq<nat>> {
    match decoding_all(bytes, bits) {
        Some(ds) => Some(running_sums(ds, bits)),
        None => None,
    }
}

} // verus!
