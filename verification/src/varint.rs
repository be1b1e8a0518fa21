//! The byte format of a positive difference: as many zero bytes as the difference has
//! bytes beyond its first, then its bytes from the most significant down.

use vstd::prelude::*;
use byteorder::{ReadBytesExt, WriteBytesExt};

verus! {

/// `k` zero bytes.
pub open spec fn zeros(k: nat) -> Seq<u8> {
    Seq::new(k, |i: int| 0u8)
}

/// `v` without its `i` lowest bytes.
pub open spec fn shifted(v: nat, i: nat) -> nat
    decreases i,
{
    if i == 0 {
        v
    } else {
        shifted(v / 256, (i - 1) as nat)
    }
}

/// The number of bytes of `v` from its most significant non-zero byte down; 1 for 0.
pub open spec fn byte_count(v: nat) -> nat
    decreases v,
{
    if v < 256 {
        1
    } else {
        1 + byte_count(v / 256)
    }
}

/// The `n` lowest bytes of `v`, the most significant first.
pub open spec fn big_endian(v: nat, n: nat) -> Seq<u8>
    decreases n,
{
    if n == 0 {
        Seq::empty()
    } else {
        big_endian(v / 256, (n - 1) as nat).push((v % 256) as u8)
    }
}

/// The number that `bytes` spell, the most significant first.
pub open spec fn spelled(bytes: Seq<u8>) -> nat
    decreases bytes.len(),
{
    if bytes.len() == 0 {
        0
    } else {
        spelled(bytes.drop_last()) * 256 + bytes.last() as nat
    }
}

/// The bytes that stand for the difference `diff`.
pub open spec fn encoding(diff: u64) -> Seq<u8> {
    zeros((byte_count(diff as nat) - 1) as nat) + big_endian(diff as nat, byte_count(diff as nat))
}

/// The number of zero bytes at the front of `bytes`.
pub open spec fn leading_zeros(bytes: Seq<u8>) -> nat
    decreases bytes.len(),
{
    if bytes.len() > 0 && bytes[0] == 0 {
        1 + leading_zeros(bytes.skip(1))
    } else {
        0
    }
}

/// The number of bytes that the first difference in `bytes` takes.
pub open spec fn first_len(bytes: Seq<u8>) -> nat {
    2 * leading_zeros(bytes) + 1
}

/// Whether `bytes` begin with a whole difference that fits in 64 bits.
pub open spec fn has_first(bytes: Seq<u8>) -> bool {
    leading_zeros(bytes) <= 7 && first_len(bytes) <= bytes.len()
}

/// The first difference in `bytes`.
pub open spec fn first_diff(bytes: Seq<u8>) -> nat {
    spelled(bytes.subrange(leading_zeros(bytes) as int, first_len(bytes) as int))
}

/// Dropping the lowest byte after `i` others is dropping `i + 1` bytes.
pub proof fn lemma_shifted_once_more(v: nat, i: nat)
    ensures
        shifted(v, i + 1) == shifted(v, i) / 256,
    decreases i,
{
    reveal_with_fuel(shifted, 2);
    if i > 0 {
        lemma_shifted_once_more(v / 256, (i - 1) as nat);
    }
}

/// A number has more than `i` bytes exactly if something is left of it without its `i`
/// lowest bytes.
pub proof fn lemma_byte_count(v: nat, i: nat)
    ensures
        byte_count(v) > i <==> shifted(v, i) > 0 || i == 0,
        byte_count(v) >= 1,
    decreases i,
{
    if i > 0 {
        lemma_byte_count(v / 256, (i - 1) as nat);
    }
}

/// A shift of a `u64` to the right by `i` bytes drops its `i` lowest bytes.
pub proof fn lemma_shift_bytes(d: u64, i: u64)
    requires
        i <= 7,
    ensures
        (d >> (8 * i) as u64) == shifted(d as nat, i as nat),
    decreases i,
{
    if i == 0 {
        assert(d >> 0u64 == d) by (bit_vector);
    } else {
        let s: u64 = (8 * (i - 1)) as u64;
        lemma_shift_bytes(d, (i - 1) as u64);
        lemma_shifted_once_more(d as nat, (i - 1) as nat);
        let t: u64 = (8 * i) as u64;
        assert((d >> t) == (d >> s) / 256u64) by (bit_vector)
            requires
                s <= 48,
                t == s + 8,
        ;
    }
}

/// A `u64` has from one to eight bytes.
pub proof fn lemma_byte_count_u64(d: u64)
    ensures
        1 <= byte_count(d as nat) <= 8,
{
    lemma_byte_count(d as nat, 8);
    lemma_shift_bytes(d, 7);
    lemma_shifted_once_more(d as nat, 7);
    assert((d >> 56u64) < 256) by (bit_vector);
}

/// Appends one byte to a buffer by `byteorder::WriteBytesExt::write_u8`, which hands the
/// byte to `write_all` of `Vec<u8>`: the buffer grows by that byte and the write cannot
/// fail.
#[verifier::external_body]
fn write_byte(writer: &mut Vec<u8>, byte: u8)
    ensures
        final(writer)@ == old(writer)@.push(byte),
{
    writer.write_u8(byte).ok().expect("write error");
}

/// Takes one byte from the front of a slice by `byteorder::ReadBytesExt::read_u8`, which
/// asks `read_exact` of `&[u8]` for one byte: from a slice that holds a byte it returns
/// the first and leaves the rest; from an empty slice it fails and the slice stays empty.
#[verifier::external_body]
fn read_byte(reader: &mut &[u8]) -> (out: Option<u8>)
    ensures
        old(reader)@.len() == 0 ==> out is None && final(reader)@ == old(reader)@,
        old(reader)@.len() > 0 ==> out == Some(old(reader)@[0]) && final(reader)@ == old(reader)@.skip(1),
{
    reader.read_u8().ok()
}

/// Appends the encoding of the positive difference `diff` to `writer`.
pub fn encode(writer: &mut Vec<u8>, diff: u64)
    requires
        diff > 0,
    ensures
        final(writer)@ == old(writer)@ + encoding(diff),
{
    let ghost base = writer@;
    let ghost count = byte_count(diff as nat);
    proof {
        lemma_byte_count_u64(diff);
    }
    let mut left: u32 = 8;
    while left > 1
        invariant
            1 <= left <= 8,
            count == byte_count(diff as nat),
            1 <= count <= 8,
            writer@ =~= base + zeros(if count >= left { (count - left) as nat } else { 0 }),
        decreases left,
    {
        let shift: u32 = 8 * (left - 2) + 8;
        proof {
            lemma_shift_bytes(diff, (left - 1) as u64);
            lemma_byte_count(diff as nat, (left - 1) as nat);
        }
        if (diff >> shift) != 0 {
            write_byte(writer, 0u8);
        }
        left -= 1;
    }
    let ghost padded = writer@;
    left = 8;
    while left > 1
        invariant
            1 <= left <= 8,
            count == byte_count(diff as nat),
            1 <= count <= 8,
            writer@ =~= padded + big_endian(
                shifted(diff as nat, left as nat),
                if count >= left { (count - left) as nat } else { 0 },
            ),
        decreases left,
    {
        let shift: u32 = 8 * (left - 2) + 8;
        proof {
            lemma_shift_bytes(diff, (left - 1) as u64);
            lemma_byte_count(diff as nat, (left - 1) as nat);
            lemma_shifted_once_more(diff as nat, (left - 1) as nat);
        }
        if (diff >> shift) != 0 {
            let ghost part = diff >> shift;
            assert((part & 0xFFu64) == part % 256u64) by (bit_vector);
            write_byte(writer, ((diff >> shift) & 0xFF) as u8);
        }
        left -= 1;
    }
    proof {
        lemma_byte_count(diff as nat, 0);
        assert((diff & 0xFFu64) == diff % 256u64) by (bit_vector);
    }
    write_byte(writer, (diff & 0xFF) as u8);
    proof {
        reveal_with_fuel(shifted, 2);
        assert(shifted(diff as nat, 1) == diff as nat / 256);
        assert(big_endian(diff as nat, count) == big_endian(diff as nat / 256, (count - 1) as nat).push(
            (diff as nat % 256) as u8,
        ));
        assert(writer@ =~= base + encoding(diff));
    }
}

/// The zero bytes at the front of `bytes` are those among its first `n` bytes, if these
/// are all zero, and those that follow.
pub proof fn lemma_leading_zeros_skip(bytes: Seq<u8>, n: nat)
    requires
        n <= bytes.len(),
        forall|j: int| 0 <= j < n ==> bytes[j] == 0,
    ensures
        leading_zeros(bytes) == n + leading_zeros(bytes.skip(n as int)),
    decreases n,
{
    if n == 0 {
        assert(bytes.skip(0) =~= bytes);
    } else {
        lemma_leading_zeros_skip(bytes.skip(1), (n - 1) as nat);
        assert(bytes.skip(1).skip(n - 1) =~= bytes.skip(n as int));
    }
}

/// As many bytes as `n` spell a number below `256^n`; up to eight bytes fit in a `u64`.
pub proof fn lemma_spelled_bound(bytes: Seq<u8>)
    ensures
        bytes.len() <= 8 ==> spelled(bytes) <= u64::MAX,
        bytes.len() <= 7 ==> spelled(bytes) < 0x100_0000_0000_0000,
        bytes.len() > 0 && bytes[0] != 0 ==> spelled(bytes) > 0,
{
    reveal_with_fuel(spelled, 9);
    if bytes.len() > 0 && bytes[0] != 0 {
        lemma_spelled_positive(bytes);
    }
}

/// Bytes that begin with a non-zero byte spell a positive number.
pub proof fn lemma_spelled_positive(bytes: Seq<u8>)
    requires
        bytes.len() > 0,
        bytes[0] != 0,
    ensures
        spelled(bytes) > 0,
    decreases bytes.len(),
{
    if bytes.len() > 1 {
        lemma_spelled_positive(bytes.drop_last());
    } else {
        assert(bytes.drop_last().len() == 0);
    }
}

/// Takes the first difference from the front of `reader`; `None` from an empty reader.
pub fn decode(reader: &mut &[u8]) -> (out: Option<u64>)
    requires
        old(reader)@.len() == 0 || has_first(old(reader)@),
    ensures
        old(reader)@.len() == 0 ==> out is None && final(reader)@ == old(reader)@,
        old(reader)@.len() > 0 ==> out == Some(first_diff(old(reader)@) as u64) && final(reader)@ == old(
            reader,
        )@.skip(first_len(old(reader)@) as int),
        old(reader)@.len() > 0 ==> 0 < first_diff(old(reader)@) <= u64::MAX,
{
    let ghost bytes = reader@;
    proof {
        lemma_spelled_bound(bytes.subrange(leading_zeros(bytes) as int, first_len(bytes) as int));
    }
    if let Some(first) = read_byte(reader) {
        let mut read: u8 = first;
        let mut count: u64 = 0;
        proof {
            lemma_leading_zeros_skip(bytes, 0);
        }
        while read == 0
            invariant
                has_first(bytes),
                count < bytes.len(),
                count <= leading_zeros(bytes),
                read == bytes[count as int],
                reader@ == bytes.skip(count + 1),
                forall|j: int| 0 <= j < count ==> bytes[j] == 0,
            decreases bytes.len() - count,
        {
            proof {
                lemma_leading_zeros_skip(bytes, (count + 1) as nat);
            }
            count += 1;
            let next = read_byte(reader);
            assert(reader@ =~= bytes.skip(count + 1));
            read = next.unwrap();
        }
        proof {
            lemma_leading_zeros_skip(bytes, count as nat);
            assert(bytes.skip(count as int)[0] == read);
        }
        let mut diff: u64 = read as u64;
        let mut taken: u64 = 0;
        assert(bytes.subrange(count as int, count + 1) =~= seq![read]);
        proof {
            reveal_with_fuel(spelled, 2);
        }
        while taken < count
            invariant
                count == leading_zeros(bytes),
                has_first(bytes),
                taken <= count,
                diff == spelled(bytes.subrange(count as int, count + 1 + taken)),
                reader@ == bytes.skip(count + 1 + taken),
            decreases count - taken,
        {
            let ghost so_far = bytes.subrange(count as int, count + 1 + taken);
            proof {
                lemma_spelled_bound(so_far);
            }
            let next = read_byte(reader);
            assert(reader@ =~= bytes.skip(count + 1 + taken + 1));
            assert(bytes.subrange(count as int, count + 1 + taken + 1) =~= so_far.push(bytes[count + 1 + taken]));
            assert(so_far.push(bytes[count + 1 + taken]).drop_last() =~= so_far);
            assert((diff << 8u64) == diff * 256) by (bit_vector)
                requires
                    diff < 0x100_0000_0000_0000u64,
            ;
            diff = (diff << 8) + next.unwrap() as u64;
            taken += 1;
        }
        Some(diff)
    } else {
        None
    }
}

/// The first difference of the stream that begins at `cursor` in `slice`, and the place
/// in `slice` where the next one begins.
pub fn decode_at(slice: &[u8], cursor: usize) -> (out: (u64, usize))
    requires
        cursor < slice@.len(),
        has_first(slice@.skip(cursor as int)),
    ensures
        out.0 == first_diff(slice@.skip(cursor as int)),
        out.1 == cursor + first_len(slice@.skip(cursor as int)),
        out.1 <= slice@.len(),
{
    let ghost bytes = slice@.skip(cursor as int);
    let ghost k = leading_zeros(bytes);
    proof {
        lemma_leading_zeros_skip(bytes, 0);
        assert(bytes.skip(0) =~= bytes);
    }
    let byte: u8 = slice[cursor];
    let mut cursor: usize = cursor + 1;
    if byte > 0 {
        proof {
            reveal_with_fuel(spelled, 2);
            assert(bytes.subrange(0, 1) =~= seq![byte]);
        }
        (byte as u64, cursor)
    } else {
        let ghost start = cursor - 1;
        let mut depth: u32 = 2;
        proof {
            lemma_leading_zeros_skip(bytes, 1);
        }
        while slice[cursor] == 0
            invariant
                bytes == slice@.skip(start),
                has_first(bytes),
                k == leading_zeros(bytes),
                0 <= start < cursor < slice@.len(),
                depth == cursor - start + 1,
                cursor - start <= k,
                forall|j: int| 0 <= j < cursor - start ==> bytes[j] == 0,
                bytes.len() == slice@.len() - start,
            decreases slice@.len() - cursor,
        {
            proof {
                assert(bytes[cursor - start] == slice@[cursor as int]);
                lemma_leading_zeros_skip(bytes, (cursor - start + 1) as nat);
            }
            cursor += 1;
            depth += 1;
        }
        proof {
            lemma_leading_zeros_skip(bytes, (cursor - start) as nat);
            assert(bytes.skip(cursor - start)[0] == slice@[cursor as int]);
            assert(bytes.subrange(k as int, k as int) =~= Seq::<u8>::empty());
        }
        let mut delta: u64 = 0;
        while depth > 0
            invariant
                bytes == slice@.skip(start),
                has_first(bytes),
                k == leading_zeros(bytes),
                depth <= k + 1,
                0 <= start,
                cursor == start + k + (k + 1 - depth),
                delta == spelled(bytes.subrange(k as int, k + (k + 1 - depth))),
                bytes.len() == slice@.len() - start,
            decreases depth,
        {
            let ghost so_far = bytes.subrange(k as int, k + (k + 1 - depth));
            proof {
                lemma_spelled_bound(so_far);
                assert(bytes[k + (k + 1 - depth)] == slice@[cursor as int]);
                assert(bytes.subrange(k as int, k + (k + 1 - depth) + 1) =~= so_far.push(slice@[cursor as int]));
                assert(so_far.push(slice@[cursor as int]).drop_last() =~= so_far);
            }
            assert((delta << 8u64) == delta * 256) by (bit_vector)
                requires
                    delta < 0x100_0000_0000_0000u64,
            ;
            delta = (delta << 8) + (slice[cursor] as u64);
            cursor += 1;
            depth -= 1;
        }
        (delta, cursor)
    }
}

/// The first difference of the stream that begins at `cursor` in `slice` and the place
/// where the next one begins, or `None` where the stream does not begin with a whole
/// difference that fits in 64 bits.
pub fn first_at(slice: &[u8], cursor: usize) -> (out: Option<(u64, usize)>)
    requires
        cursor < slice@.len(),
    ensures
        match out {
            Some((diff, next)) => {
                &&& has_first(slice@.skip(cursor as int))
                &&& diff == first_diff(slice@.skip(cursor as int))
                &&& next == cursor + first_len(slice@.skip(cursor as int))
                &&& next <= slice@.len()
            },
            None => !has_first(slice@.skip(cursor as int)),
        },
{
    let ghost bytes = slice@.skip(cursor as int);
    let total: usize = slice.len();
    let left: usize = total - cursor;
    let mut count: usize = 0;
    while count < left && count < 8 && slice[cursor + count] == 0
        invariant
            cursor + left == slice@.len() == total,
            bytes == slice@.skip(cursor as int),
            count <= left,
            count <= 8,
            forall|j: int| 0 <= j < count ==> bytes[j] == 0,
        decreases left - count,
    {
        assert(bytes[count as int] == slice@[cursor + count]);
        count += 1;
    }
    proof {
        lemma_leading_zeros_skip(bytes, count as nat);
        if count < left {
            assert(bytes.skip(count as int)[0] == slice@[cursor + count]);
        }
    }
    if count > 7 || left - count < count + 1 {
        None
    } else {
        Some(decode_at(slice, cursor))
    }
}

} // verus!
