//! What holds of the format.

use vstd::prelude::*;
use vstd::arithmetic::div_mod::{lemma_add_mod_noop, lemma_mod_bound, lemma_mod_twice, lemma_small_mod};
use vstd::math::max;
use vstd::arithmetic::power2::{lemma_pow2_adds, lemma_pow2_pos, lemma_pow2_strictly_increases, pow2};
use crate::bits::lemma_pow2_widths;
use crate::format::{
    all_below,
    bit_length,
    decoding,
    decoding_all,
    decoding_while,
    delta_decoding,
    delta_encoding,
    differences,
    encoding,
    encoding_all,
    lemma_parse_consumes,
    non_decreasing,
    parse,
    running_sums,
    sum,
    wrap,
};

verus! {

/// An integer below 2^(7 `groups`) takes at most `groups` bytes, and every
/// integer takes at least one.
pub proof fn lemma_encoding_length_bound(x: nat, groups: nat)
    requires
        0 < groups,
        x < pow2(7 * groups),
    ensures
        1 <= encoding(x).len() <= groups,
    decreases groups,
{
    lemma_pow2_widths();
    if x >= 128 {
        if groups == 1 {
            assert(7 * groups == 7);
        } else {
            lemma_pow2_adds(7, 7 * (groups - 1) as nat);
            assert(7 * groups == 7 + 7 * (groups - 1) as nat);
            lemma_encoding_length_bound(x / 128, (groups - 1) as nat);
        }
    }
}

/// An integer of `bits` bits takes at most one byte for every seven bits
/// of the width, the last of them perhaps not full: 3, 5, 10 and 19 bytes
/// for 16, 32, 64 and 128 bits.
pub proof fn lemma_encoding_length_by_width(x: nat, bits: nat)
    requires
        0 < bits,
        x < pow2(bits),
    ensures
        1 <= encoding(x).len() <= (bits + 6) / 7,
{
    let groups: nat = (bits + 6) / 7;
    if bits < 7 * groups {
        lemma_pow2_strictly_increases(bits, 7 * groups);
    }
    lemma_encoding_length_bound(x, groups);
}

/// An integer with at most seven binary digits is below 128, and the other
/// way round; only zero has no digits.
pub proof fn lemma_bit_length_low(x: nat)
    ensures
        x < 128 <==> bit_length(x) <= 7,
        x == 0 <==> bit_length(x) == 0,
        x >= 128 ==> bit_length(x) == 7 + bit_length(x / 128),
{
    reveal_with_fuel(bit_length, 8);
    assert(x / 2 / 2 / 2 / 2 / 2 / 2 / 2 == x / 128);
}

/// No encoding is longer than it has to be: an integer takes one byte for
/// every seven binary digits, the last of them perhaps not full, and zero,
/// which has no digits, takes one.
pub proof fn lemma_encoding_minimal(x: nat)
    ensures
        encoding(x).len() == max(1, (bit_length(x) + 6) as int / 7),
    decreases x,
{
    lemma_bit_length_low(x);
    if x >= 128 {
        lemma_encoding_minimal(x / 128);
        lemma_bit_length_low(x / 128);
    }
}

/// A value ends with the first byte whose top bit is clear, and what is
/// left over starts right behind that byte. There is no value exactly where
/// every byte has its top bit set, as in no bytes at all.
pub proof fn lemma_parse_ends(bytes: Seq<u8>)
    ensures
        parse(bytes) is None <==> forall|j: int| 0 <= j < bytes.len() ==> bytes[j] >= 128,
        parse(bytes) matches Some((_, rest)) ==> {
            let used = bytes.len() - rest.len();
            &&& 1 <= used <= bytes.len()
            &&& rest == bytes.skip(used)
            &&& bytes[used - 1] < 128
            &&& forall|j: int| 0 <= j < used - 1 ==> bytes[j] >= 128
        },
    decreases bytes.len(),
{
    if bytes.len() > 0 {
        if bytes[0] >= 128 {
            let tail = bytes.skip(1);
            lemma_parse_ends(tail);
            assert forall|j: int| 0 <= j < tail.len() implies tail[j] == bytes[j + 1] by {}
            match parse(tail) {
                Some((_, rest)) => {
                    let used = tail.len() - rest.len();
                    assert(tail.skip(used) =~= bytes.skip(used + 1));
                    assert(bytes[used] == tail[used - 1]);
                    assert forall|j: int| 0 <= j < used implies bytes[j] >= 128 by {
                        if j > 0 {
                            assert(bytes[j] == tail[j - 1]);
                        }
                    }
                },
                None => {
                    assert forall|j: int| 0 <= j < bytes.len() implies bytes[j] >= 128 by {
                        if j > 0 {
                            assert(bytes[j] == tail[j - 1]);
                        }
                    }
                },
            }
        } else {
            assert(bytes[0] < 128);
        }
    }
}

/// The value at the front of an encoding, whatever follows it, is the
/// integer that was encoded, and what follows it is left over.
pub proof fn lemma_parse_encoding(x: nat, rest: Seq<u8>)
    ensures
        parse(encoding(x) + rest) == Some((x, rest)),
    decreases x,
{
    let bytes = encoding(x) + rest;
    if x < 128 {
        assert(bytes[0] == x as u8);
        assert(bytes.skip(1) =~= rest);
    } else {
        let first: u8 = (128 + x % 128) as u8;
        assert(bytes[0] == first);
        assert(bytes.skip(1) =~= encoding(x / 128) + rest);
        lemma_parse_encoding(x / 128, rest);
    }
}

/// Decoding undoes encoding: an integer of `bits` bits, encoded and
/// followed by any bytes, decodes to itself and leaves those bytes.
pub proof fn lemma_round_trip(x: nat, rest: Seq<u8>, bits: nat)
    requires
        x < pow2(bits),
    ensures
        decoding(encoding(x) + rest, bits) == Some((x, rest)),
        decoding(encoding(x), bits) == Some((x, Seq::<u8>::empty())),
{
    lemma_parse_encoding(x, rest);
    lemma_parse_encoding(x, Seq::empty());
    assert(encoding(x) + Seq::<u8>::empty() =~= encoding(x));
    lemma_small_mod(x, pow2(bits));
}

/// A cut-off encoding is refused: what is left of an encoding when bytes
/// are taken off its end, down to nothing at all, holds no value.
pub proof fn lemma_truncated_refused(x: nat, kept: int, bits: nat)
    requires
        0 <= kept < encoding(x).len(),
    ensures
        parse(encoding(x).take(kept)) is None,
        decoding(encoding(x).take(kept), bits) is None,
    decreases x,
{
    let cut = encoding(x).take(kept);
    if x >= 128 && kept > 0 {
        let first: u8 = (128 + x % 128) as u8;
        assert(cut[0] == first);
        assert(cut.skip(1) =~= encoding(x / 128).take(kept - 1));
        lemma_truncated_refused(x / 128, kept - 1, bits);
    }
}

/// The encoding of a sequence with one more element at its end is the
/// encoding of the sequence followed by that of the element.
pub proof fn lemma_encoding_all_push(xs: Seq<nat>, last: nat)
    ensures
        encoding_all(xs.push(last)) == encoding_all(xs) + encoding(last),
    decreases xs.len(),
{
    let longer = xs.push(last);
    if xs.len() == 0 {
        assert(longer.skip(1) =~= Seq::<nat>::empty());
        assert(encoding_all(longer.skip(1)) =~= Seq::<u8>::empty());
        assert(encoding_all(longer) =~= encoding(last));
        assert(encoding_all(xs) + encoding(last) =~= encoding(last));
    } else {
        lemma_encoding_all_push(xs.skip(1), last);
        assert(longer.skip(1) =~= xs.skip(1).push(last));
        assert(encoding(xs[0]) + (encoding_all(xs.skip(1)) + encoding(last)) =~= (encoding(xs[0])
            + encoding_all(xs.skip(1))) + encoding(last));
    }
}

/// A run of bytes is a sequence of values exactly where it is empty or its
/// last byte has a clear top bit.
pub proof fn lemma_decoding_all_ends(bytes: Seq<u8>, bits: nat)
    ensures
        decoding_all(bytes, bits) is Some <==> bytes.len() == 0 || bytes.last() < 128,
    decreases bytes.len(),
{
    if bytes.len() > 0 {
        lemma_parse_ends(bytes);
        if let Some((_, rest)) = parse(bytes) {
            lemma_decoding_all_ends(rest, bits);
            if rest.len() > 0 {
                assert(rest.last() == bytes.last());
            }
        }
    }
}

/// Decoding undoes encoding on sequences: integers of `bits` bits, encoded
/// one after the other, decode to the same integers in the same order.
pub proof fn lemma_round_trip_all(xs: Seq<nat>, bits: nat)
    requires
        all_below(xs, bits),
    ensures
        decoding_all(encoding_all(xs), bits) == Some(xs),
    decreases xs.len(),
{
    if xs.len() == 0 {
        assert(xs =~= Seq::<nat>::empty());
    } else {
        let tail = xs.skip(1);
        assert(all_below(tail, bits)) by {
            assert forall|i: int| 0 <= i < tail.len() implies tail[i] < pow2(bits) by {
                assert(tail[i] == xs[i + 1]);
            }
        }
        lemma_round_trip_all(tail, bits);
        lemma_round_trip(xs[0], encoding_all(tail), bits);
        assert(encoding(xs[0]).len() >= 1);
        assert(seq![xs[0]] + tail =~= xs);
    }
}

/// Where all of `bytes` decodes, reading values while they last reads the
/// same values.
pub proof fn lemma_decoding_while_all(bytes: Seq<u8>, bits: nat)
    requires
        decoding_all(bytes, bits) is Some,
    ensures
        decoding_all(bytes, bits) == Some(decoding_while(bytes, bits)),
    decreases bytes.len(),
{
    if bytes.len() > 0 {
        lemma_parse_consumes(bytes);
        let (value, rest) = decoding(bytes, bits)->Some_0;
        lemma_decoding_while_all(rest, bits);
    }
}

/// The sum up to some element does not depend on what comes after it, and
/// each further element adds to it.
pub proof fn lemma_running_sums_push(ds: Seq<nat>, last: nat, bits: nat)
    ensures
        running_sums(ds.push(last), bits) == running_sums(ds, bits).push(
            wrap((sum(ds) + last) as int, bits),
        ),
{
    let longer = ds.push(last);
    let left = running_sums(longer, bits);
    let right = running_sums(ds, bits).push(wrap((sum(ds) + last) as int, bits));
    assert(left.len() == right.len());
    assert forall|i: int| 0 <= i < left.len() implies left[i] == right[i] by {
        if i < ds.len() {
            assert(longer.take(i + 1) =~= ds.take(i + 1));
        } else {
            assert(longer.take(i + 1) =~= longer);
            assert(longer.drop_last() =~= ds);
        }
    }
    assert(left =~= right);
}

/// The differences of a sequence of integers of `bits` bits are integers
/// of `bits` bits, and their sums up to any place come to the element at
/// that place, modulo 2^`bits`.
pub proof fn lemma_sum_of_differences(xs: Seq<nat>, bits: nat, count: int)
    requires
        all_below(xs, bits),
        0 <= count <= xs.len(),
    ensures
        all_below(differences(xs, bits), bits),
        wrap(sum(differences(xs, bits).take(count)) as int, bits) == (if count == 0 {
            0
        } else {
            xs[count - 1]
        }),
    decreases count,
{
    let m: int = pow2(bits) as int;
    let ds = differences(xs, bits);
    lemma_pow2_pos(bits);
    assert forall|i: int| 0 <= i < ds.len() implies ds[i] < pow2(bits) by {
        let before: nat = if i == 0 {
            0
        } else {
            xs[i - 1]
        };
        lemma_mod_bound(xs[i] - before, m);
    }
    if count == 0 {
        assert(ds.take(0) =~= Seq::<nat>::empty());
        lemma_small_mod(0, pow2(bits));
    } else {
        lemma_sum_of_differences(xs, bits, count - 1);
        let before: nat = if count == 1 {
            0
        } else {
            xs[count - 2]
        };
        let earlier: int = sum(ds.take(count - 1)) as int;
        assert(ds.take(count).drop_last() =~= ds.take(count - 1));
        assert(sum(ds.take(count)) == earlier + ds[count - 1]);
        let step: int = xs[count - 1] - before;
        assert(ds[count - 1] == step % m);
        lemma_add_mod_noop(earlier, step % m, m);
        lemma_mod_twice(step, m);
        lemma_small_mod(before, pow2(bits));
        lemma_add_mod_noop(before as int, step, m);
        lemma_small_mod(xs[count - 1], pow2(bits));
    }
}

/// Taking differences is undone by taking running sums, whether or not the
/// sequence is in order.
pub proof fn lemma_sums_of_differences(xs: Seq<nat>, bits: nat)
    requires
        all_below(xs, bits),
    ensures
        all_below(differences(xs, bits), bits),
        running_sums(differences(xs, bits), bits) == xs,
{
    lemma_sum_of_differences(xs, bits, 0);
    let back = running_sums(differences(xs, bits), bits);
    assert(back.len() == xs.len());
    assert forall|i: int| 0 <= i < xs.len() implies back[i] == xs[i] by {
        lemma_sum_of_differences(xs, bits, i + 1);
    }
    assert(back =~= xs);
}

/// Where the elements never decrease, each difference is the plain
/// difference to the element before: nothing wraps.
pub proof fn lemma_differences_in_order(xs: Seq<nat>, bits: nat)
    requires
        all_below(xs, bits),
        non_decreasing(xs),
    ensures
        differences(xs, bits).len() == xs.len(),
        forall|i: int|
            0 <= i < xs.len() ==> #[trigger] differences(xs, bits)[i] == xs[i] - (if i == 0 {
                0
            } else {
                xs[i - 1]
            }),
{
    assert forall|i: int| 0 <= i < xs.len() implies #[trigger] differences(xs, bits)[i] == xs[i]
        - (if i == 0 {
        0
    } else {
        xs[i - 1]
    }) by {
        let before: nat = if i == 0 {
            0
        } else {
            xs[i - 1]
        };
        lemma_small_mod((xs[i] - before) as nat, pow2(bits));
    }
}

/// Decoding undoes encoding in difference form: a sequence of integers of
/// `bits` bits, written as differences and read back as running sums, is
/// the same sequence. This holds of every such sequence; it is for those
/// in non-decreasing order that the differences are small.
pub proof fn lemma_round_trip_delta(xs: Seq<nat>, bits: nat)
    requires
        all_below(xs, bits),
    ensures
        delta_decoding(delta_encoding(xs, bits), bits) == Some(xs),
{
    lemma_sums_of_differences(xs, bits);
    lemma_round_trip_all(differences(xs, bits), bits);
}

/// A search through the difference form of a sequence finds the elements
/// of the sequence and nothing else.
pub proof fn lemma_search_finds_members(xs: Seq<nat>, target: nat, bits: nat)
    requires
        all_below(xs, bits),
    ensures
        running_sums(decoding_while(delta_encoding(xs, bits), bits), bits).contains(target)
            <==> xs.contains(target),
{
    lemma_sums_of_differences(xs, bits);
    lemma_round_trip_all(differences(xs, bits), bits);
    lemma_decoding_while_all(delta_encoding(xs, bits), bits);
}

} // verus!
