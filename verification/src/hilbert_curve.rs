//! The codecs of the Hilbert curve on pairs of `u32`.

use vstd::prelude::*;
use vstd::arithmetic::power2::pow2;
pub use crate::convert::{convert_to_hilbert, to_hilbert};
pub use crate::merge::merge;
pub use crate::delta_stream::Decoder;
pub use crate::varint::{decode, encode};
use crate::curve_model::{
    oriented, mirrored, rotated, entangled, detangled, curve_index, curve_point, quadrant_digit,
    quarter_start, lemma_pow2_values, lemma_order_step, lemma_index_bound, lemma_point_bound,
    lemma_point_of_index, lemma_index_of_point,
};
use crate::curve_blocks::{
    glued, curve_twist, twist_code, lemma_glued_zero, lemma_glued_bound, lemma_glued_nested,
    lemma_index_split, lemma_point_split, lemma_probe_index, lemma_probe_point, lemma_first_cell,
};
use crate::bit_facts::{
    lemma_u32_side, lemma_u32_top_bit, lemma_u64_digit, lemma_u32_byte, lemma_u64_word,
    lemma_u32_complement,
};

verus! {

/// Turns the lowest `logn` bits of a point the way the quadrant `(rx, ry)` is drawn: the
/// point stays as it is where `ry` is set; otherwise its coordinates trade places, and are
/// mirrored as well where `rx` is set. Bits from `logn` upwards are dropped.
pub fn bit_rotate(logn: usize, pair: (u32, u32), rx: u32, ry: u32) -> (out: (u32, u32))
    requires
        logn < 32,
    ensures
        (out.0 as nat, out.1 as nat) == rotated(
            logn as nat,
            (pair.0 as nat % pow2(logn as nat), pair.1 as nat % pow2(logn as nat)),
            rx != 0,
            ry != 0,
        ),
        out.0 < pow2(logn as nat),
        out.1 < pow2(logn as nat),
{
    proof {
        lemma_u32_side(logn as u32);
        vstd::arithmetic::div_mod::lemma_mod_bound(pair.0 as int, pow2(logn as nat) as int);
        vstd::arithmetic::div_mod::lemma_mod_bound(pair.1 as int, pow2(logn as nat) as int);
    }
    let mask: u32 = (1u32 << logn) - 1;
    let low: (u32, u32) = (pair.0 & mask, pair.1 & mask);
    if ry == 0 {
        if rx != 0 {
            (mask - low.1, mask - low.0)
        } else {
            (low.1, low.0)
        }
    } else {
        low
    }
}

/// The index of a point along the curve, found one bit of each coordinate at a time from
/// the highest down.
pub fn bit_entangle(pair: (u32, u32)) -> (result: u64)
    ensures
        result == entangled(pair.0, pair.1),
{
    let ghost total = curve_index(32, pair.0 as nat, pair.1 as nat);
    proof {
        lemma_pow2_values();
        lemma_index_bound(32, pair.0 as nat, pair.1 as nat);
    }
    let mut pair = pair;
    let mut result: u64 = 0;
    let mut log_s_rev: usize = 0;
    while log_s_rev < 32
        invariant
            log_s_rev <= 32,
            pair.0 < pow2((32 - log_s_rev) as nat),
            pair.1 < pow2((32 - log_s_rev) as nat),
            result + curve_index((32 - log_s_rev) as nat, pair.0 as nat, pair.1 as nat) == total,
            total < 0x1_0000_0000_0000_0000,
        decreases 32 - log_s_rev,
    {
        let log_s: usize = 31 - log_s_rev;
        let rx: u32 = (pair.0 >> log_s) & 1u32;
        let ry: u32 = (pair.1 >> log_s) & 1u32;
        proof {
            lemma_order_step(log_s as nat);
            lemma_u32_top_bit(pair.0, log_s as u32);
            lemma_u32_top_bit(pair.1, log_s as u32);
        }
        let digit: u32 = (3 * rx) ^ ry;
        proof {
            assert(((3 * rx) as u32 ^ ry) == (if rx == 0 { ry } else { (3 - ry) as u32 })) by (bit_vector)
                requires
                    rx <= 1,
                    ry <= 1,
            ;
            assert(digit as nat == quadrant_digit(rx != 0, ry != 0));
            lemma_u64_term(digit as u64, (2 * log_s) as u64);
        }
        result += (digit as u64) << (2 * log_s);
        pair = bit_rotate(log_s, pair, rx, ry);
        log_s_rev += 1;
    }
    result
}

/// A digit from 0 to 3 shifted to an even position is that many quarters.
proof fn lemma_u64_term(d: u64, sh: u64)
    requires
        d <= 3,
        sh <= 62,
    ensures
        (d << sh) == quarter_start(d as nat, pow2(sh as nat)),
        3 * pow2(sh as nat) < 0x1_0000_0000_0000_0000,
{
    crate::bit_facts::lemma_pow2_le(sh as nat, 62);
    assert(pow2(62) == 0x4000_0000_0000_0000) by {
        vstd::arithmetic::power2::lemma2_to64_rest();
    }
    let w = pow2(sh as nat);
    assert(d * w == quarter_start(d as nat, w)) by (nonlinear_arith)
        requires
            d <= 3,
            quarter_start(d as nat, w) == (if d == 0 { 0 } else if d == 1 { w } else if d == 2 { 2 * w } else { 3 * w }),
    ;
    vstd::bits::lemma_u64_shl_is_mul(d, sh);
}

/// The point at an index of the curve, found one digit of the index at a time from the
/// lowest up.
pub fn bit_detangle(tangle: u64) -> (result: (u32, u32))
    ensures
        result == detangled(tangle),
{
    let mut result: (u32, u32) = (0u32, 0u32);
    let mut log_s: usize = 0;
    proof {
        lemma_pow2_values();
    }
    while log_s < 32
        invariant
            log_s <= 32,
            (result.0 as nat, result.1 as nat) == curve_point(log_s as nat, tangle as nat % pow2((2 * log_s) as nat)),
            result.0 < pow2(log_s as nat),
            result.1 < pow2(log_s as nat),
        decreases 32 - log_s,
    {
        proof {
            lemma_u64_digit(tangle, log_s as u64);
        }
        let shifted: u32 = ((tangle >> (2 * log_s)) & 3u64) as u32;
        let rx: u32 = (shifted >> 1) & 1u32;
        let ry: u32 = (shifted ^ rx) & 1u32;
        proof {
            let m = log_s as nat;
            lemma_order_step(m);
            lemma_u32_side(log_s as u32);
            assert(rx <= 1 && ry <= 1 && (rx != 0) == (shifted >= 2) && (ry != 0) == (shifted == 1 || shifted == 2)) by (bit_vector)
                requires
                    shifted <= 3,
                    rx == (shifted >> 1) & 1u32,
                    ry == (shifted ^ rx) & 1u32,
            ;
            vstd::arithmetic::div_mod::lemma_small_mod(result.0 as nat, pow2(m));
            vstd::arithmetic::div_mod::lemma_small_mod(result.1 as nat, pow2(m));
            vstd::arithmetic::div_mod::lemma_mod_bound(tangle as int, pow2(2 * m) as int);
            lemma_point_bound(m, tangle as nat % pow2(2 * m));
            vstd::bits::lemma_u32_shl_is_mul(rx, log_s as u32);
            vstd::bits::lemma_u32_shl_is_mul(ry, log_s as u32);
        }
        result = bit_rotate(log_s, result, rx, ry);
        result = (result.0 + (rx << log_s), result.1 + (ry << log_s));
        log_s += 1;
    }
    proof {
        vstd::arithmetic::div_mod::lemma_small_mod(tangle as nat, pow2(64));
    }
    result
}

/// The place of the pair of bytes `(x, y)` in the tables that are keyed by such a pair.
pub open spec fn slot_of(x: nat, y: nat) -> int {
    (x * 256 + y) as int
}

/// The first `n` entries of the tables keyed by a pair of bytes hold the index of that
/// pair on the curve of order 8 and the code of the orientation in which the curve leaves
/// that cell.
pub open spec fn forward_filled(entangle: Seq<u16>, rotation: Seq<u8>, n: int) -> bool {
    forall|i: int|
        0 <= i < n ==> {
            &&& #[trigger] entangle[i] == curve_index(8, (i / 256) as nat, (i % 256) as nat)
            &&& rotation[i] == twist_code(curve_twist(8, (i / 256) as nat, (i % 256) as nat))
        }
}

/// The table keyed by an index leads from each of the first `n` indices of the forward
/// table back to its pair of bytes.
pub open spec fn backward_filled(entangle: Seq<u16>, detangle: Seq<(u8, u8)>, n: int) -> bool {
    forall|i: int|
        0 <= i < n ==> detangle[#[trigger] entangle[i] as int] == ((i / 256) as u8, (i % 256) as u8)
}

/// The table keyed by an index holds, for every index of the curve of order 8, its point.
pub open spec fn backward_complete(detangle: Seq<(u8, u8)>) -> bool {
    forall|t: int|
        0 <= t < 65536 ==> (#[trigger] detangle[t].0 as nat, detangle[t].1 as nat) == curve_point(8, t as nat)
}

/// What the bit-serial codec says of the point that stands for the pair of bytes `(x, y)`
/// with one bit set below it: the highest sixteen bits of its index are the index of
/// `(x, y)` on the curve of order 8, and the four bits below them are the code of the
/// orientation in which the curve leaves that cell.
proof fn lemma_table_entry(x: u32, y: u32)
    requires
        x < 256,
        y < 256,
    ensures
        (x << 24u32) == x * 0x100_0000,
        (y << 24u32) == y * 0x100_0000,
        (1u32 << 23u32) == 0x80_0000,
        ({
            let probe = entangled((x * 0x100_0000) as u32, (y * 0x100_0000 + 0x80_0000) as u32);
            &&& (probe >> 48u64) == curve_index(8, x as nat, y as nat)
            &&& (probe >> 48u64) < 65536
            &&& ((probe >> 44u64) & 0xFu64) == twist_code(curve_twist(8, x as nat, y as nat))
        }),
{
    assert(pow2(8) == 0x100 && pow2(16) == 0x1_0000 && pow2(23) == 0x80_0000 && pow2(24) == 0x100_0000 && pow2(44)
        == 0x1000_0000_0000 && pow2(48) == 0x1_0000_0000_0000) by {
        vstd::arithmetic::power2::lemma2_to64();
        vstd::arithmetic::power2::lemma2_to64_rest();
    }
    vstd::bits::lemma_u32_shl_is_mul(x, 24);
    vstd::bits::lemma_u32_shl_is_mul(y, 24);
    vstd::bits::lemma_u32_shl_is_mul(1, 23);
    let high = (x as nat, y as nat);
    let low = (0nat, pow2(23));
    let twist = curve_twist(8, high.0, high.1);
    let within = oriented(24, twist, low);
    let block = curve_index(8, high.0, high.1);
    let rest = curve_index(24, within.0, within.1);
    assert(glued(24, high.0, low.0) == x * 0x100_0000 && glued(24, high.1, low.1) == y * 0x100_0000 + 0x80_0000) by {
        reveal(glued);
    }
    lemma_index_split(8, 24, high, low);
    lemma_index_bound(8, high.0, high.1);
    lemma_probe_index(twist);
    let probe = entangled((x * 0x100_0000) as u32, (y * 0x100_0000 + 0x80_0000) as u32);
    assert(probe == block * 0x1_0000_0000_0000 + rest) by {
        reveal(glued);
    }
    vstd::bits::lemma_u64_shr_is_div(probe, 48);
    vstd::bits::lemma_u64_shr_is_div(probe, 44);
    let nibble = probe >> 44u64;
    assert(nibble & 0xFu64 == nibble % 16u64) by (bit_vector);
    assert(nibble == block * 16 + twist_code(twist));
}

/// Once the forward table is full, the table keyed by an index is complete: the curve
/// of order 8 passes through every index.
proof fn lemma_tables_complete(entangle: Seq<u16>, rotation: Seq<u8>, detangle: Seq<(u8, u8)>)
    requires
        entangle.len() == 65536,
        detangle.len() == 65536,
        forward_filled(entangle, rotation, 65536),
        backward_filled(entangle, detangle, 65536),
    ensures
        backward_complete(detangle),
{
    lemma_pow2_values();
    assert forall|t: int| 0 <= t < 65536 implies (#[trigger] detangle[t].0 as nat, detangle[t].1 as nat)
        == curve_point(8, t as nat) by {
        let p = curve_point(8, t as nat);
        lemma_point_bound(8, t as nat);
        lemma_index_of_point(8, t as nat);
        let i = slot_of(p.0, p.1);
        assert(i / 256 == p.0 && i % 256 == p.1);
        assert(entangle[i] == t);
    }
}

/// The Hilbert curve on pairs of `u32`, a byte of each coordinate at a time: three tables
/// hold, for every pair of bytes, its index on the curve of order 8 and the orientation
/// that it imposes on the bytes below, and, for every such index, its pair of bytes.
pub struct BytewiseHilbert {
    entangle: Vec<u16>,
    detangle: Vec<(u8, u8)>,
    rotation: Vec<u8>,
}

impl BytewiseHilbert {
    #[verifier::type_invariant]
    spec fn well_formed(&self) -> bool {
        &&& self.entangle@.len() == 65536
        &&& self.detangle@.len() == 65536
        &&& self.rotation@.len() == 65536
        &&& forward_filled(self.entangle@, self.rotation@, 65536)
        &&& backward_complete(self.detangle@)
    }

    /// The table that holds, for every pair of bytes, its index on the curve of order 8.
    pub closed spec fn entangle_table(&self) -> Seq<u16> {
        self.entangle@
    }

    /// The table that holds, for every index of the curve of order 8, its pair of bytes.
    pub closed spec fn detangle_table(&self) -> Seq<(u8, u8)> {
        self.detangle@
    }

    /// The table that holds, for every pair of bytes, the code of the orientation in
    /// which the curve of order 8 leaves that cell.
    pub closed spec fn rotation_table(&self) -> Seq<u8> {
        self.rotation@
    }

    /// Whether the three tables have 65536 entries each and hold what they are for.
    pub open spec fn filled(&self) -> bool {
        &&& self.entangle_table().len() == 65536
        &&& self.detangle_table().len() == 65536
        &&& self.rotation_table().len() == 65536
        &&& forward_filled(self.entangle_table(), self.rotation_table(), 65536)
        &&& backward_complete(self.detangle_table())
    }

    /// The codec with its tables filled from the bit-serial codec: for every pair of
    /// bytes the highest sixteen bits of the index of the point that the pair stands
    /// for, and the four bits below them as the code of the orientation; and for every
    /// such index the pair that it belongs to.
    pub fn new() -> (out: BytewiseHilbert)
        ensures
            out.filled(),
    {
        let mut entangle: Vec<u16> = Vec::new();
        let mut detangle: Vec<(u8, u8)> = vec![(0u8, 0u8); 65536];
        let mut rotation: Vec<u8> = Vec::new();
        let mut x: u32 = 0;
        while x < 256
            invariant
                x <= 256,
                entangle@.len() == x * 256,
                rotation@.len() == x * 256,
                detangle@.len() == 65536,
                forward_filled(entangle@, rotation@, x * 256),
                backward_filled(entangle@, detangle@, x * 256),
            decreases 256 - x,
        {
            let mut y: u32 = 0;
            while y < 256
                invariant
                    x < 256,
                    y <= 256,
                    entangle@.len() == x * 256 + y,
                    rotation@.len() == x * 256 + y,
                    detangle@.len() == 65536,
                    forward_filled(entangle@, rotation@, x * 256 + y),
                    backward_filled(entangle@, detangle@, x * 256 + y),
                decreases 256 - y,
            {
                proof {
                    lemma_table_entry(x, y);
                }
                let probe = bit_entangle((x << 24, (y << 24) + (1u32 << 23)));
                let index: u16 = (probe >> 48) as u16;
                let ghost before = entangle@;
                let ghost back = detangle@;
                entangle.push(index);
                detangle.set(index as usize, (x as u8, y as u8));
                rotation.push(((probe >> 44) & 0xF) as u8);
                proof {
                    let n = x * 256 + y;
                    lemma_pow2_values();
                    assert forall|i: int| 0 <= i < n + 1 implies detangle@[#[trigger] entangle@[i] as int] == (
                        (i / 256) as u8,
                        (i % 256) as u8,
                    ) by {
                        if i < n {
                            assert(entangle@[i] == before[i]);
                            assert(back[before[i] as int] == ((i / 256) as u8, (i % 256) as u8));
                            if before[i] == index {
                                lemma_point_of_index(8, (i / 256) as nat, (i % 256) as nat);
                                lemma_point_of_index(8, x as nat, y as nat);
                            }
                        }
                    }
                }
                y += 1;
            }
            x += 1;
        }
        proof {
            lemma_tables_complete(entangle@, rotation@, detangle@);
        }
        BytewiseHilbert { entangle, detangle, rotation }
    }

    /// The index of `pair` along the curve.
    pub fn entangle(&self, pair: (u32, u32)) -> (result: u64)
        ensures
            result == entangled(pair.0, pair.1),
    {
        let mut x: u32 = pair.0;
        let mut y: u32 = pair.1;
        let mut result: u64 = 0;
        let mut i: u32 = 0;
        let ghost total = curve_index(32, pair.0 as nat, pair.1 as nat);
        proof {
            use_type_invariant(self);
            lemma_pow2_values();
            vstd::arithmetic::div_mod::lemma_small_mod(x as nat, pow2(32));
            vstd::arithmetic::div_mod::lemma_small_mod(y as nat, pow2(32));
            lemma_glued_zero(64, total);
            lemma_index_bound(32, pair.0 as nat, pair.1 as nat);
        }
        while i < 4
            invariant
                i <= 4,
                self.well_formed(),
                result < pow2((16 * i) as nat),
                total == glued(
                    (2 * (32 - 8 * i)) as nat,
                    result as nat,
                    curve_index(
                        (32 - 8 * i) as nat,
                        x as nat % pow2((32 - 8 * i) as nat),
                        y as nat % pow2((32 - 8 * i) as nat),
                    ),
                ),
            decreases 4 - i,
        {
            let shift: u32 = 24 - 8 * i;
            proof {
                lemma_u32_byte(x, shift);
                lemma_u32_byte(y, shift);
            }
            let x_byte: u8 = ((x >> shift) & 0xFF) as u8;
            let y_byte: u8 = ((y >> shift) & 0xFF) as u8;
            let wide: u16 = x_byte as u16;
            assert((wide << 8u16) == wide * 256) by (bit_vector)
                requires
                    wide < 256,
            ;
            let slot: usize = (((x_byte as u16) << 8) + y_byte as u16) as usize;
            let ghost s = shift as nat;
            let ghost low = (x as nat % pow2(s), y as nat % pow2(s));
            let ghost twist = curve_twist(8, x_byte as nat, y_byte as nat);
            let ghost within = oriented(s, twist, low);
            let ghost block = curve_index(8, x_byte as nat, y_byte as nat);
            let ghost rest = curve_index(s, within.0, within.1);
            proof {
                lemma_pow2_values();
                assert(slot / 256 == x_byte && slot % 256 == y_byte);
                lemma_index_split(8, s, (x_byte as nat, y_byte as nat), low);
                lemma_index_bound(8, x_byte as nat, y_byte as nat);
                lemma_glued_nested(16, 2 * s, result as nat, block, rest);
                lemma_glued_bound((16 * i) as nat, 16, result as nat, block);
                crate::bit_facts::lemma_pow2_le((16 * i) as nat, 48);
                vstd::bits::lemma_u64_shl_is_mul(result, 16);
                assert(glued(16, result as nat, block) == result * 65536 + block) by {
                    reveal(glued);
                }
                crate::bit_facts::lemma_pow2_le((16 * i + 16) as nat, 64);
                lemma_u32_complement(x, s);
                lemma_u32_complement(y, s);
                assert(4u8 & 2u8 == 0 && 14u8 & 2u8 == 2 && 12u8 & 2u8 == 0 && 6u8 & 2u8 == 2) by (bit_vector);
            }
            result = (result << 16) + self.entangle[slot] as u64;
            let rotation: u8 = self.rotation[slot];
            if (rotation & 0x2) > 0 {
                let temp = x;
                x = y;
                y = temp;
            }
            if rotation == 12 || rotation == 6 {
                x = 0xFFFFFFFF - x;
                y = 0xFFFFFFFF - y;
            }
            proof {
                assert((x as nat % pow2(s), y as nat % pow2(s)) == within);
            }
            i += 1;
        }
        proof {
            lemma_pow2_values();
            assert(glued(0, result as nat, 0) == result) by {
                reveal(glued);
            }
        }
        result
    }

    /// The pair at index `tangle` of the curve.
    pub fn detangle(&self, tangle: u64) -> (result: (u32, u32))
        ensures
            result == detangled(tangle),
    {
        let mut result: (u32, u32) = (0u32, 0u32);
        let mut log_s: u32 = 0;
        proof {
            use_type_invariant(self);
            lemma_pow2_values();
        }
        while log_s < 4
            invariant
                log_s <= 4,
                self.well_formed(),
                (result.0 as nat, result.1 as nat) == curve_point(
                    (8 * log_s) as nat,
                    tangle as nat % pow2((16 * log_s) as nat),
                ),
                result.0 < pow2((8 * log_s) as nat),
                result.1 < pow2((8 * log_s) as nat),
            decreases 4 - log_s,
        {
            proof {
                lemma_u64_word(tangle, (16 * log_s) as u64);
            }
            let shifted: u16 = ((tangle >> (16 * log_s)) & 0xFFFF) as u16;
            let (x_byte, y_byte) = self.detangle[shifted as usize];
            let wide: u16 = x_byte as u16;
            assert((wide << 8u16) == wide * 256) by (bit_vector)
                requires
                    wide < 256,
            ;
            let slot: usize = (((x_byte as u16) << 8) + y_byte as u16) as usize;
            let rotation: u8 = self.rotation[slot];
            let ghost m = (8 * log_s) as nat;
            let ghost inner = (result.0 as nat, result.1 as nat);
            let ghost twist = curve_twist(8, x_byte as nat, y_byte as nat);
            proof {
                lemma_pow2_values();
                assert(slot / 256 == x_byte && slot % 256 == y_byte);
                assert(self.entangle@[slot as int] == curve_index(8, x_byte as nat, y_byte as nat));
                assert(rotation == twist_code(twist));
                lemma_point_split(8, m, shifted as nat, tangle as nat % pow2(2 * m));
                lemma_u32_side((8 * log_s) as u32);
                lemma_glued_bound(8, m, x_byte as nat, oriented(m, twist, inner).0);
                lemma_glued_bound(8, m, y_byte as nat, oriented(m, twist, inner).1);
                crate::bit_facts::lemma_pow2_le(8 + m, 32);
                assert(x_byte * pow2(m) <= glued(m, x_byte as nat, oriented(m, twist, inner).0)) by {
                    reveal(glued);
                }
                assert(y_byte * pow2(m) <= glued(m, y_byte as nat, oriented(m, twist, inner).1)) by {
                    reveal(glued);
                }
                vstd::bits::lemma_u32_shl_is_mul(x_byte as u32, (8 * log_s) as u32);
                vstd::bits::lemma_u32_shl_is_mul(y_byte as u32, (8 * log_s) as u32);
                assert(4u8 & 2u8 == 0 && 14u8 & 2u8 == 2 && 12u8 & 2u8 == 0 && 6u8 & 2u8 == 2) by (bit_vector);
            }
            if rotation == 12 || rotation == 6 {
                result = ((1u32 << (8 * log_s)) - result.0 - 1, (1u32 << (8 * log_s)) - result.1 - 1);
            }
            if (rotation & 0x2) > 0 {
                result = (result.1, result.0);
            }
            proof {
                let within = oriented(m, twist, inner);
                assert((result.0 as nat, result.1 as nat) == within);
                assert(((x_byte as u32) << (8 * log_s)) == x_byte * pow2(m));
                assert(((y_byte as u32) << (8 * log_s)) == y_byte * pow2(m));
                assert(glued(m, x_byte as nat, within.0) == x_byte * pow2(m) + within.0) by {
                    reveal(glued);
                }
                assert(glued(m, y_byte as nat, within.1) == y_byte * pow2(m) + within.1) by {
                    reveal(glued);
                }
            }
            result = (result.0 + ((x_byte as u32) << (8 * log_s)), result.1 + ((y_byte as u32) << (8 * log_s)));
            log_s += 1;
        }
        proof {
            vstd::arithmetic::div_mod::lemma_small_mod(tangle as nat, pow2(64));
        }
        result
    }
}

/// What is remembered of the last block of 256 by 256 points that was decoded: the
/// index of the block, where the block lies, and how the curve passes through it.
struct BlockCache {
    prev_hi: u64,
    prev_out: (u32, u32),
    prev_rot: (bool, bool),
}

/// A decoder for indices that mostly stay within one block of 256 by 256 points, as those
/// of a sorted stream do: within the block of the last index it decodes with one lookup.
pub struct BytewiseCached {
    hilbert: BytewiseHilbert,
    cache: BlockCache,
}

/// An index is the index of its block of 256 by 256 points followed by sixteen bits, and
/// the block's index followed by 255 is an index too.
proof fn lemma_block_of(tangle: u64)
    ensures
        (tangle >> 16u64) < 0x1_0000_0000_0000,
        (tangle & 0xFFFFu64) < 0x1_0000,
        tangle == glued(16, (tangle >> 16u64) as nat, (tangle & 0xFFFFu64) as nat),
        (((tangle >> 16u64) << 16u64) + 255) as nat == glued(16, (tangle >> 16u64) as nat, 255),
        ((tangle >> 16u64) << 16u64) + 255 <= u64::MAX,
{
    reveal(glued);
    lemma_pow2_values();
    let hi = tangle >> 16u64;
    assert(hi == tangle / 0x1_0000u64 && (tangle & 0xFFFFu64) == tangle % 0x1_0000u64 && (hi << 16u64) == hi
        * 0x1_0000u64 && hi < 0x1_0000_0000_0000u64) by (bit_vector)
        requires
            hi == tangle >> 16u64,
    ;
}

/// The lowest byte of a coordinate and the rest of it.
proof fn lemma_low_byte(v: u32, high: nat, low: nat)
    requires
        v == glued(8, high, low),
        low < 256,
    ensures
        (v & 0xFFu32) == low,
        (v & 0xFFFFFF00u32) == high * 256,
{
    reveal(glued);
    lemma_pow2_values();
    assert((v & 0xFFu32) == v % 256u32 && (v & 0xFFFFFF00u32) == v - v % 256u32) by (bit_vector);
}

/// Where the block of 256 by 256 points with the index `hi` lies: the coordinates of
/// its points without their lowest bytes.
pub open spec fn block_corner(hi: u64) -> (u32, u32) {
    let block = curve_point(24, hi as nat);
    ((block.0 * 256) as u32, (block.1 * 256) as u32)
}

/// How the curve passes through the block of 256 by 256 points with the index `hi`:
/// whether the coordinates within it trade places, and whether they are mirrored.
pub open spec fn block_turn(hi: u64) -> (bool, bool) {
    let block = curve_point(24, hi as nat);
    let twist = curve_twist(24, block.0, block.1);
    (twist.swap, twist.flip)
}

impl BytewiseCached {
    /// The tables of the decoder.
    pub closed spec fn tables(&self) -> BytewiseHilbert {
        self.hilbert
    }

    /// The index of the block that the decoder has at hand: the index that it decoded
    /// last, without its lowest sixteen bits.
    pub closed spec fn block(&self) -> u64 {
        self.cache.prev_hi
    }

    /// Where the decoder has the block at hand to lie.
    pub closed spec fn corner(&self) -> (u32, u32) {
        self.cache.prev_out
    }

    /// How the decoder has the curve to pass through the block at hand.
    pub closed spec fn turn(&self) -> (bool, bool) {
        self.cache.prev_rot
    }

    #[verifier::type_invariant]
    spec fn well_formed(&self) -> bool {
        self.cache.prev_hi < pow2(48) ==> {
            let block = curve_point(24, self.cache.prev_hi as nat);
            let twist = curve_twist(24, block.0, block.1);
            &&& self.cache.prev_out.0 == block.0 * 256
            &&& self.cache.prev_out.1 == block.1 * 256
            &&& self.cache.prev_rot == (twist.swap, twist.flip)
        }
    }

    /// The pair at index `tangle` of the curve.
    #[inline(always)]
    pub fn detangle(&mut self, tangle: u64) -> (result: (u32, u32))
        ensures
            result == detangled(tangle),
            final(self).tables() == old(self).tables(),
            final(self).block() == (tangle >> 16u64),
            final(self).corner() == block_corner(tangle >> 16u64),
            final(self).turn() == block_turn(tangle >> 16u64),
    {
        proof {
            use_type_invariant(&*self);
            use_type_invariant(&self.hilbert);
            lemma_block_of(tangle);
            lemma_pow2_values();
            lemma_probe_point();
        }
        let (mut x_byte, mut y_byte) = self.hilbert.detangle[(tangle & 0xFFFF) as usize];
        let ghost hi = (tangle >> 16) as nat;
        let ghost block = curve_point(24, hi);
        let ghost twist = curve_twist(24, block.0, block.1);
        proof {
            lemma_point_bound(24, hi);
        }

        // validate the cached block
        if self.cache.prev_hi != (tangle >> 16) {
            let prev_hi: u64 = tangle >> 16;

            // detangle with a bit set to see what happens to it
            let low: u64 = 255;
            let (x, y) = self.hilbert.detangle((prev_hi << 16) + low);
            proof {
                let probe = oriented(8, twist, (15, 0));
                lemma_point_split(24, 8, hi, 255);
                lemma_glued_bound(24, 8, block.0, probe.0);
                lemma_glued_bound(24, 8, block.1, probe.1);
                lemma_low_byte(x, block.0, probe.0);
                lemma_low_byte(y, block.1, probe.1);
            }
            let value: (u8, u8) = ((x & 0xFF) as u8, (y & 0xFF) as u8);
            let prev_rot: (bool, bool) = if value.0 == 0x0F && value.1 == 0x00 {
                (false, false)  // nothing
            } else if value.0 == 0x00 && value.1 == 0x0F {
                (true, false)  // swapped
            } else if value.0 == 0xF0 && value.1 == 0xFF {
                (false, true)  // flipped
            } else {
                (true, true)  // flipped & swapped
            };
            self.cache = BlockCache { prev_hi, prev_out: (x & 0xFFFFFF00, y & 0xFFFFFF00), prev_rot };
        }
        proof {
            let inner = (x_byte as nat, y_byte as nat);
            let within = oriented(8, twist, inner);
            lemma_point_split(24, 8, hi, (tangle & 0xFFFF) as nat);
            lemma_glued_bound(24, 8, block.0, within.0);
            lemma_glued_bound(24, 8, block.1, within.1);
            assert(glued(8, block.0, within.0) == block.0 * 256 + within.0) by {
                reveal(glued);
            }
            assert(glued(8, block.1, within.1) == block.1 * 256 + within.1) by {
                reveal(glued);
            }
        }

        if self.cache.prev_rot.1 {
            x_byte = 255 - x_byte;
            y_byte = 255 - y_byte;
        }
        if self.cache.prev_rot.0 {
            let temp = x_byte;
            x_byte = y_byte;
            y_byte = temp;
        }
        (self.cache.prev_out.0 + x_byte as u32, self.cache.prev_out.1 + y_byte as u32)
    }

    /// A decoder with its tables filled and the block of index 0 at hand, which lies in
    /// the corner and which the curve passes through as it is.
    pub fn new() -> (out: BytewiseCached)
        ensures
            out.tables().filled(),
            out.block() == 0,
            out.corner() == (0u32, 0u32),
            out.turn() == (false, false),
            out.corner() == block_corner(0),
            out.turn() == block_turn(0),
    {
        proof {
            lemma_pow2_values();
            lemma_first_cell(24);
            assert((0u64 >> 16u64) == 0u64) by (bit_vector);
        }
        let mut result = BytewiseCached {
            hilbert: BytewiseHilbert::new(),
            cache: BlockCache { prev_hi: 0xFFFFFFFFFFFFFFFF, prev_out: (0, 0), prev_rot: (false, false) },
        };
        result.detangle(0);  // sets the cached block
        result
    }
}

/// The index on the curve of order 16 of the block of 65536 by 65536 points whose upper
/// halves of the coordinates are `upper`.
pub open spec fn block_index(upper: (u16, u16)) -> nat {
    curve_index(16, upper.0 as nat, upper.1 as nat)
}

/// The upper half of an index is the index of the block that holds its point: all
/// indices with one upper half have their points in one block, the block's own first
/// index among them.
pub proof fn lemma_block_of_index(t: u64)
    ensures
        ({
            let point = detangled(t);
            let corner = detangled(((t >> 32u64) << 32u64));
            &&& (t >> 32u64) <= 0xFFFF_FFFF
            &&& (point.0 >> 16u32) <= 0xFFFF
            &&& (point.1 >> 16u32) <= 0xFFFF
            &&& (corner.0 >> 16u32) == (point.0 >> 16u32)
            &&& (corner.1 >> 16u32) == (point.1 >> 16u32)
            &&& block_index(((point.0 >> 16u32) as u16, (point.1 >> 16u32) as u16)) == (t >> 32u64)
        }),
{
    lemma_pow2_values();
    let upper = t >> 32u64;
    let lower = t & 0xFFFF_FFFFu64;
    let first = upper << 32u64;
    assert(upper <= 0xFFFF_FFFFu64 && lower <= 0xFFFF_FFFFu64 && t == upper * 0x1_0000_0000u64 + lower && first
        == upper * 0x1_0000_0000u64) by (bit_vector)
        requires
            upper == t >> 32u64,
            lower == t & 0xFFFF_FFFFu64,
            first == upper << 32u64,
    ;
    assert(t == glued(32, upper as nat, lower as nat) && first == glued(32, upper as nat, 0)) by {
        reveal(glued);
    }
    let block = curve_point(16, upper as nat);
    let twist = curve_twist(16, block.0, block.1);
    lemma_point_bound(16, upper as nat);
    lemma_index_of_point(16, upper as nat);
    lemma_point_split(16, 16, upper as nat, lower as nat);
    lemma_point_split(16, 16, upper as nat, 0);
    lemma_point_bound(16, lower as nat);
    lemma_point_bound(16, 0);
    let within = oriented(16, twist, curve_point(16, lower as nat));
    let origin = oriented(16, twist, curve_point(16, 0));
    lemma_high_half(block.0, within.0);
    lemma_high_half(block.1, within.1);
    lemma_high_half(block.0, origin.0);
    lemma_high_half(block.1, origin.1);
}

/// The upper half of a coordinate that is made of two halves.
proof fn lemma_high_half(high: nat, low: nat)
    requires
        high < 0x1_0000,
        low < 0x1_0000,
    ensures
        glued(16, high, low) <= u32::MAX,
        ((glued(16, high, low) as u32) >> 16u32) == high,
{
    reveal(glued);
    lemma_pow2_values();
    let v = glued(16, high, low) as u32;
    assert((v >> 16u32) == v / 0x1_0000u32) by (bit_vector);
}

} // verus!
