//! Increasing sequences of `u64` as byte streams: each value is stored as its difference
//! from the one before it, the first as its difference from zero.

use vstd::prelude::*;
use crate::varint::{
    encode, encoding, has_first, first_len, first_diff, first_at, leading_zeros, big_endian,
    byte_count, spelled, decode, lemma_leading_zeros_skip, lemma_byte_count, lemma_byte_count_u64,
};

verus! {

/// The values that `bytes` hold as differences, the first of them from `start`; `None`
/// where the bytes end within a difference, a difference does not fit in 64 bits, or a
/// value does not.
pub open spec fn decoded_from(bytes: Seq<u8>, start: nat) -> Option<Seq<u64>>
    decreases bytes.len(),
{
    if bytes.len() == 0 {
        Some(Seq::empty())
    } else if !has_first(bytes) || start + first_diff(bytes) > u64::MAX {
        None
    } else {
        let value = start + first_diff(bytes);
        match decoded_from(bytes.skip(first_len(bytes) as int), value) {
            Some(rest) => Some(seq![value as u64] + rest),
            None => None,
        }
    }
}

/// Whether `values` increase strictly and begin above `start`.
pub open spec fn increasing_from(values: Seq<u64>, start: nat) -> bool {
    &&& forall|i: int| 0 <= i < values.len() ==> start < #[trigger] values[i]
    &&& forall|i: int, j: int| 0 <= i < j < values.len() ==> values[i] < values[j]
}

/// The bytes that hold `values` as differences, the first of them from `start`.
pub open spec fn delta_encoding(values: Seq<u64>, start: nat) -> Seq<u8>
    decreases values.len(),
{
    if values.len() == 0 {
        Seq::empty()
    } else {
        encoding((values[0] - start) as u64) + delta_encoding(values.skip(1), values[0] as nat)
    }
}

/// What a stream holds increases strictly from where it starts.
pub proof fn lemma_decoded_increasing(bytes: Seq<u8>, start: nat)
    requires
        decoded_from(bytes, start) is Some,
    ensures
        increasing_from(decoded_from(bytes, start).unwrap(), start),
    decreases bytes.len(),
{
    if bytes.len() > 0 {
        let value = start + first_diff(bytes);
        let rest_bytes = bytes.skip(first_len(bytes) as int);
        lemma_first_positive(bytes);
        lemma_decoded_increasing(rest_bytes, value);
        let rest = decoded_from(rest_bytes, value).unwrap();
        let all = decoded_from(bytes, start).unwrap();
        assert(all == seq![value as u64] + rest);
        assert forall|i: int| 0 <= i < all.len() implies start < #[trigger] all[i] by {
            if i > 0 {
                assert(all[i] == rest[i - 1]);
            }
        }
        assert forall|i: int, j: int| 0 <= i < j < all.len() implies all[i] < all[j] by {
            assert(all[j] == rest[j - 1]);
            if i > 0 {
                assert(all[i] == rest[i - 1]);
            }
        }
    }
}

/// A stream holds no more values than bytes.
pub proof fn lemma_decoded_len(bytes: Seq<u8>, start: nat)
    requires
        decoded_from(bytes, start) is Some,
    ensures
        decoded_from(bytes, start).unwrap().len() <= bytes.len(),
    decreases bytes.len(),
{
    if bytes.len() > 0 {
        lemma_decoded_len(bytes.skip(first_len(bytes) as int), start + first_diff(bytes));
    }
}

/// The first difference of a stream is positive.
pub proof fn lemma_first_positive(bytes: Seq<u8>)
    requires
        has_first(bytes),
    ensures
        first_diff(bytes) > 0,
{
    let k = leading_zeros(bytes);
    lemma_leading_zeros_skip(bytes, 0);
    lemma_zeros_counted(bytes);
    crate::varint::lemma_spelled_positive(bytes.subrange(k as int, first_len(bytes) as int));
}

/// The zero bytes at the front of `bytes` are zero, and the byte after them is not.
pub proof fn lemma_zeros_counted(bytes: Seq<u8>)
    ensures
        leading_zeros(bytes) <= bytes.len(),
        forall|j: int| 0 <= j < leading_zeros(bytes) ==> bytes[j] == 0,
        leading_zeros(bytes) < bytes.len() ==> bytes[leading_zeros(bytes) as int] != 0,
    decreases bytes.len(),
{
    if bytes.len() > 0 && bytes[0] == 0 {
        lemma_zeros_counted(bytes.skip(1));
        assert forall|j: int| 0 <= j < leading_zeros(bytes) implies bytes[j] == 0 by {
            if j > 0 {
                assert(bytes[j] == bytes.skip(1)[j - 1]);
            }
        }
        if leading_zeros(bytes) < bytes.len() {
            assert(bytes[leading_zeros(bytes) as int] == bytes.skip(1)[leading_zeros(bytes) - 1]);
        }
    }
}

/// The `n` lowest bytes of `v` spell `v` where `v` has no more bytes than `n`, and the
/// first of them is not zero where `v` has exactly `n`.
pub proof fn lemma_spelled_big_endian(v: nat, n: nat)
    requires
        byte_count(v) <= n,
    ensures
        big_endian(v, n).len() == n,
        spelled(big_endian(v, n)) == v,
        byte_count(v) == n && v > 0 ==> big_endian(v, n)[0] != 0,
    decreases n,
{
    lemma_byte_count(v, 0);
    lemma_byte_count(v / 256, 0);
    let bytes = big_endian(v, n);
    let inner = big_endian(v / 256, (n - 1) as nat);
    assert(bytes == inner.push((v % 256) as u8));
    assert(bytes.drop_last() =~= inner);
    assert(bytes.last() == (v % 256) as u8);
    if n == 1 {
        assert(inner.len() == 0);
        assert(v < 256);
        assert(spelled(inner) == 0);
        assert(spelled(bytes) == spelled(bytes.drop_last()) * 256 + bytes.last() as nat);
    } else {
        if v < 256 {
            assert(byte_count(v / 256) == 1);
        } else {
            assert(byte_count(v) == 1 + byte_count(v / 256));
        }
        lemma_spelled_big_endian(v / 256, (n - 1) as nat);
        assert(bytes[0] == inner[0]);
        assert(spelled(bytes) == spelled(bytes.drop_last()) * 256 + bytes.last() as nat);
    }
}

/// A stream that begins with the encoding of a difference has that difference first.
pub proof fn lemma_first_of_encoding(diff: u64, rest: Seq<u8>)
    requires
        diff > 0,
    ensures
        has_first(encoding(diff) + rest),
        first_len(encoding(diff) + rest) == encoding(diff).len(),
        first_diff(encoding(diff) + rest) == diff,
        (encoding(diff) + rest).skip(encoding(diff).len() as int) == rest,
{
    let count = byte_count(diff as nat);
    let k = (count - 1) as nat;
    lemma_byte_count_u64(diff);
    lemma_spelled_big_endian(diff as nat, count);
    let bytes = encoding(diff) + rest;
    let digits = big_endian(diff as nat, count);
    assert(bytes.skip(k as int)[0] == digits[0]);
    lemma_leading_zeros_skip(bytes, k);
    assert(leading_zeros(bytes.skip(k as int)) == 0);
    assert(bytes.subrange(k as int, (2 * k + 1) as int) =~= digits);
    assert(bytes.skip(encoding(diff).len() as int) =~= rest);
}

/// Reading back what was written gives what was written: a stream made of the
/// differences of increasing values holds those values.
pub proof fn lemma_decoded_encoding(values: Seq<u64>, start: nat)
    requires
        increasing_from(values, start),
    ensures
        decoded_from(delta_encoding(values, start), start) == Some(values),
    decreases values.len(),
{
    if values.len() == 0 {
        assert(values =~= Seq::empty());
    } else {
        let diff = (values[0] - start) as u64;
        let rest = delta_encoding(values.skip(1), values[0] as nat);
        assert forall|i: int| 0 <= i < values.skip(1).len() implies values[0] < #[trigger] values.skip(1)[i] by {
            assert(values.skip(1)[i] == values[i + 1]);
        }
        assert forall|i: int, j: int| 0 <= i < j < values.skip(1).len() implies values.skip(1)[i] < values.skip(
            1,
        )[j] by {
            assert(values.skip(1)[i] == values[i + 1]);
            assert(values.skip(1)[j] == values[j + 1]);
        }
        lemma_decoded_encoding(values.skip(1), values[0] as nat);
        lemma_first_of_encoding(diff, rest);
        lemma_byte_count_u64(diff);
        assert(seq![values[0]] + values.skip(1) =~= values);
    }
}

/// The values of a stream are its first value and those of the rest of the stream.
pub proof fn lemma_decoded_first(bytes: Seq<u8>, start: nat)
    requires
        bytes.len() > 0,
        decoded_from(bytes, start) is Some,
    ensures
        has_first(bytes),
        start + first_diff(bytes) <= u64::MAX,
        decoded_from(bytes.skip(first_len(bytes) as int), start + first_diff(bytes)) is Some,
        decoded_from(bytes, start).unwrap() == seq![(start + first_diff(bytes)) as u64] + decoded_from(
            bytes.skip(first_len(bytes) as int),
            start + first_diff(bytes),
        ).unwrap(),
{
}

/// Whether `slice` is a stream of increasing values: whether it is made of whole
/// differences, each of which fits in 64 bits, as does their sum.
pub fn is_delta_stream(slice: &[u8]) -> (ok: bool)
    ensures
        ok == (decoded_from(slice@, 0) is Some),
{
    let mut cursor: usize = 0;
    let mut current: u64 = 0;
    assert(slice@.skip(0) =~= slice@);
    while cursor < slice.len()
        invariant
            cursor <= slice@.len(),
            (decoded_from(slice@, 0) is Some) == (decoded_from(slice@.skip(cursor as int), current as nat) is Some),
        decreases slice@.len() - cursor,
    {
        let ghost rest = slice@.skip(cursor as int);
        match first_at(slice, cursor) {
            None => {
                return false;
            },
            Some((diff, next)) => {
                if diff > u64::MAX - current {
                    return false;
                }
                proof {
                    assert(rest.skip(first_len(rest) as int) =~= slice@.skip(next as int));
                }
                current += diff;
                cursor = next;
            },
        }
    }
    true
}

/// A reader of the values that a byte stream holds.
pub struct Decoder<'a> {
    reader: &'a [u8],
    current: u64,
}

impl<'a> Decoder<'a> {
    #[verifier::type_invariant]
    spec fn well_formed(&self) -> bool {
        decoded_from(self.reader@, self.current as nat) is Some
    }

    /// The values that are still to come.
    pub closed spec fn remaining(&self) -> Seq<u64> {
        match decoded_from(self.reader@, self.current as nat) {
            Some(values) => values,
            None => Seq::empty(),
        }
    }

    /// The values that are still to come increase strictly, from above the last one.
    pub proof fn lemma_remaining_increasing(&self)
        ensures
            increasing_from(self.remaining(), self.current() as nat),
    {
        if decoded_from(self.reader@, self.current as nat) is Some {
            lemma_decoded_increasing(self.reader@, self.current as nat);
        }
    }

    /// The last value that was read, or zero.
    pub closed spec fn current(&self) -> u64 {
        self.current
    }

    /// A reader of the values that `reader` holds.
    pub fn new(reader: &'a [u8]) -> (out: Decoder<'a>)
        requires
            decoded_from(reader@, 0) is Some,
        ensures
            out.remaining() == decoded_from(reader@, 0).unwrap(),
            out.current() == 0,
    {
        Decoder { reader: reader, current: 0 }
    }

    /// The next value, or `None` at the end of the stream.
    pub fn next(&mut self) -> (out: Option<u64>)
        ensures
            match out {
                Some(value) => {
                    &&& old(self).remaining() == seq![value] + final(self).remaining()
                    &&& final(self).current() == value
                    &&& old(self).current() < value
                },
                None => {
                    &&& old(self).remaining().len() == 0
                    &&& final(self).remaining().len() == 0
                    &&& final(self).current() == old(self).current()
                },
            },
    {
        proof {
            use_type_invariant(&*self);
        }
        let mut reader: &[u8] = self.reader;
        if let Some(diff) = decode(&mut reader) {
            let value: u64 = self.current + diff;
            *self = Decoder { reader: reader, current: value };
            Some(value)
        } else {
            None
        }
    }
}

/// The values of `values` that exceed all before them, and zero: what is left of a
/// sequence when every value that does not rise above the last one kept is dropped.
pub open spec fn rising(values: Seq<u64>) -> Seq<u64>
    decreases values.len(),
{
    if values.len() == 0 {
        Seq::empty()
    } else {
        let before = rising(values.drop_last());
        if values.last() > last_or_zero(before) {
            before.push(values.last())
        } else {
            before
        }
    }
}

/// The last of `values`, or zero where there is none.
pub open spec fn last_or_zero(values: Seq<u64>) -> u64 {
    if values.len() == 0 {
        0
    } else {
        values.last()
    }
}

/// What is kept of a sequence increases strictly from above zero, and holds nothing
/// that the sequence does not hold.
pub proof fn lemma_rising_increasing(values: Seq<u64>)
    ensures
        increasing_from(rising(values), 0),
        forall|i: int| 0 <= i < rising(values).len() ==> values.contains(#[trigger] rising(values)[i]),
    decreases values.len(),
{
    if values.len() > 0 {
        let before = rising(values.drop_last());
        lemma_rising_increasing(values.drop_last());
        assert forall|i: int| 0 <= i < rising(values).len() implies values.contains(#[trigger] rising(values)[i]) by {
            if i < before.len() {
                let j = choose|j: int| 0 <= j < values.drop_last().len() && values.drop_last()[j] == before[i];
                assert(values[j] == before[i]);
            } else {
                assert(values[values.len() - 1] == rising(values)[i]);
            }
        }
    }
}

/// Of a sequence in ascending order, every value but zero is kept.
pub proof fn lemma_rising_keeps(values: Seq<u64>, i: int)
    requires
        forall|a: int, b: int| 0 <= a <= b < values.len() ==> values[a] <= values[b],
        0 <= i < values.len(),
        values[i] > 0,
    ensures
        rising(values).contains(values[i]),
        last_or_zero(rising(values)) == values.last(),
    decreases values.len(),
{
    let before = rising(values.drop_last());
    let n = values.len() - 1;
    if n > 0 {
        if values[n - 1] > 0 {
            lemma_rising_keeps(values.drop_last(), n - 1);
            if i < n {
                lemma_rising_keeps(values.drop_last(), i);
            }
        } else {
            lemma_rising_increasing(values.drop_last());
            if before.len() > 0 {
                let j = choose|j: int| 0 <= j < values.drop_last().len() && values.drop_last()[j] == before[0];
                assert(values[j] <= values[n - 1]);
            }
        }
    }
    if i < n {
        let j = choose|j: int| 0 <= j < before.len() && before[j] == values[i];
        assert(rising(values)[j] == values[i]);
    } else {
        if values.last() > last_or_zero(before) {
            assert(rising(values)[before.len() as int] == values[i]);
        } else {
            assert(before.len() > 0);
            assert(rising(values)[before.len() - 1] == values[i]);
        }
    }
}

/// Of a sequence that increases strictly from above zero, everything is kept.
pub proof fn lemma_rising_all(values: Seq<u64>)
    requires
        increasing_from(values, 0),
    ensures
        rising(values) == values,
    decreases values.len(),
{
    if values.len() > 0 {
        let before = values.drop_last();
        assert(increasing_from(before, 0)) by {
            assert forall|i: int| 0 <= i < before.len() implies 0 < #[trigger] before[i] by {
                assert(before[i] == values[i]);
            }
            assert forall|i: int, j: int| 0 <= i < j < before.len() implies before[i] < before[j] by {
                assert(before[i] == values[i]);
                assert(before[j] == values[j]);
            }
        }
        lemma_rising_all(before);
        if before.len() > 0 {
            assert(before.last() == values[values.len() - 2]);
        }
        assert(before.push(values.last()) =~= values);
    } else {
        assert(rising(values) =~= values);
    }
}

/// The stream of what is kept of a sequence holds what is kept of it.
pub proof fn lemma_rising_read_back(values: Seq<u64>)
    ensures
        decoded_from(delta_encoding(rising(values), 0), 0) == Some(rising(values)),
{
    lemma_rising_increasing(values);
    lemma_decoded_encoding(rising(values), 0);
}

/// One more value at the end of a sequence is one more difference at the end of its
/// encoding.
pub proof fn lemma_delta_encoding_push(values: Seq<u64>, start: nat, value: u64)
    requires
        increasing_from(values, start),
        value > (if values.len() == 0 { start } else { values.last() as nat }),
    ensures
        delta_encoding(values.push(value), start) == delta_encoding(values, start) + encoding(
            (value - (if values.len() == 0 { start } else { values.last() as nat })) as u64,
        ),
    decreases values.len(),
{
    let longer = values.push(value);
    if values.len() == 0 {
        assert(longer.skip(1) =~= Seq::<u64>::empty());
        assert(delta_encoding(longer.skip(1), value as nat) =~= Seq::<u8>::empty());
        assert(delta_encoding(longer, start) =~= encoding((value - start) as u64));
        assert(delta_encoding(values, start) + encoding((value - start) as u64) =~= encoding((value - start) as u64));
    } else {
        let rest = values.skip(1);
        assert(longer.skip(1) =~= rest.push(value));
        assert forall|i: int| 0 <= i < rest.len() implies values[0] < #[trigger] rest[i] by {
            assert(rest[i] == values[i + 1]);
        }
        assert forall|i: int, j: int| 0 <= i < j < rest.len() implies rest[i] < rest[j] by {
            assert(rest[i] == values[i + 1]);
            assert(rest[j] == values[j + 1]);
        }
        lemma_delta_encoding_push(rest, values[0] as nat, value);
        if rest.len() > 0 {
            assert(rest.last() == values.last());
        }
        let last = (value - values.last()) as u64;
        assert(delta_encoding(longer, start) =~= encoding((values[0] - start) as u64) + (delta_encoding(
            rest,
            values[0] as nat,
        ) + encoding(last)));
        assert(delta_encoding(values, start) + encoding(last) =~= encoding((values[0] - start) as u64) + (
        delta_encoding(rest, values[0] as nat) + encoding(last)));
    }
}

/// Appends to `writer` the stream of those of `values` that rise above all before them:
/// each value that exceeds the last one written (at first, zero) is written as its
/// difference from it, and every other value is passed over.
pub fn encode_rising(writer: &mut Vec<u8>, values: &Vec<u64>)
    ensures
        final(writer)@ == old(writer)@ + delta_encoding(rising(values@), 0),
{
    let ghost base = writer@;
    let mut prev: u64 = 0;
    let mut i: usize = 0;
    assert(values@.take(0) =~= Seq::<u64>::empty());
    assert(writer@ =~= base + delta_encoding(rising(values@.take(0)), 0));
    while i < values.len()
        invariant
            i <= values@.len(),
            prev == last_or_zero(rising(values@.take(i as int))),
            writer@ == base + delta_encoding(rising(values@.take(i as int)), 0),
        decreases values@.len() - i,
    {
        let next: u64 = values[i];
        let ghost kept = rising(values@.take(i as int));
        proof {
            assert(values@.take(i + 1).drop_last() =~= values@.take(i as int));
            lemma_rising_increasing(values@.take(i as int));
        }
        if prev < next {
            proof {
                lemma_delta_encoding_push(kept, 0, next);
            }
            encode(writer, next - prev);
            prev = next;
            assert(writer@ =~= base + delta_encoding(kept.push(next), 0));
        }
        i += 1;
    }
    assert(values@.take(values@.len() as int) =~= values@);
}

} // verus!
