//! How shifts and masks on machine integers read as arithmetic on powers of two.

use vstd::prelude::*;
use vstd::arithmetic::power2::{
    pow2, lemma_pow2_pos, lemma_pow2_adds, lemma_pow2_strictly_increases,
};
use vstd::arithmetic::div_mod::{
    lemma_fundamental_div_mod_converse, lemma_breakdown, lemma_fundamental_div_mod,
    lemma_mod_bound,
};
use vstd::bits::{
    low_bits_mask, lemma_u32_shr_is_div, lemma_u32_shl_is_mul, lemma_u32_low_bits_mask_is_mod,
    lemma_u64_shr_is_div,
};
use crate::curve_model::{lemma_pow2_values, quarter_of, quarter_start, mirrored};
use crate::curve_blocks::glued;

verus! {

/// A number below `2 * s` is in the upper half exactly if its quotient by `s` is 1, and
/// its remainder is its distance from the start of its half.
pub proof fn lemma_half(v: nat, s: nat)
    requires
        s > 0,
        v < 2 * s,
    ensures
        v / s == (if v >= s { 1nat } else { 0nat }),
        v % s == (if v >= s { (v - s) as nat } else { v }),
{
    if v >= s {
        lemma_fundamental_div_mod_converse(v as int, s as int, 1, v - s);
    } else {
        lemma_fundamental_div_mod_converse(v as int, s as int, 0, v as int);
    }
}

/// Powers of two grow with the exponent.
pub proof fn lemma_pow2_le(a: nat, b: nat)
    requires
        a <= b,
    ensures
        pow2(a) <= pow2(b),
        pow2(a) > 0,
{
    lemma_pow2_pos(a);
    if a < b {
        lemma_pow2_strictly_increases(a, b);
    }
}

/// On a `u32`, `1 << n` is `2^n`, a shift to the right by `n` divides by it, and the
/// mask `2^n - 1` keeps the remainder.
pub proof fn lemma_u32_side(n: u32)
    requires
        n < 32,
    ensures
        (1u32 << n) == pow2(n as nat),
        0 < pow2(n as nat) <= 0x8000_0000,
        forall|v: u32, mask: u32| mask == pow2(n as nat) - 1 ==> #[trigger] (v & mask) == v as nat % pow2(n as nat),
        forall|v: u32| #[trigger] (v >> n) == v as nat / pow2(n as nat),
{
    lemma_pow2_values();
    lemma_pow2_le(n as nat, 31);
    assert(pow2(31) == 0x8000_0000) by {
        vstd::arithmetic::power2::lemma2_to64();
    }
    lemma_u32_shl_is_mul(1u32, n);
    assert forall|v: u32, mask: u32| mask == pow2(n as nat) - 1 implies #[trigger] (v & mask) == v as nat % pow2(
        n as nat,
    ) by {
        lemma_u32_low_bits_mask_is_mod(v, n as nat);
        assert(low_bits_mask(n as nat) as u32 == mask);
    }
    assert forall|v: u32| #[trigger] (v >> n) == v as nat / pow2(n as nat) by {
        lemma_u32_shr_is_div(v, n);
    }
}

/// The bit of weight `2^n` of a `u32` below `2^(n+1)` says whether it is in the upper
/// half, and the bits below it say where in that half.
pub proof fn lemma_u32_top_bit(v: u32, n: u32)
    requires
        n < 32,
        (v as nat) < 2 * pow2(n as nat),
    ensures
        ((v >> n) & 1u32) <= 1,
        (((v >> n) & 1u32) != 0) == (v as nat >= pow2(n as nat)),
        v as nat % pow2(n as nat) == (if v as nat >= pow2(n as nat) {
            (v - pow2(n as nat)) as nat
        } else {
            v as nat
        }),
{
    lemma_u32_side(n);
    lemma_half(v as nat, pow2(n as nat));
    let q = v >> n;
    assert(q <= 1);
    assert(q & 1u32 == q) by (bit_vector)
        requires
            q <= 1,
    ;
}

/// The digit of weight `4^n` of a `u64`, and what lies below it.
pub proof fn lemma_u64_digit(t: u64, n: u64)
    requires
        n < 32,
    ensures
        ((t >> (2 * n) as u64) & 3u64) <= 3,
        pow2((2 * n) as nat) > 0,
        ((t >> (2 * n) as u64) & 3u64) as nat == quarter_of(t as nat % (4 * pow2((2 * n) as nat)), pow2((2 * n) as nat)),
        t as nat % (4 * pow2((2 * n) as nat)) == quarter_start(((t >> (2 * n) as u64) & 3u64) as nat, pow2((2 * n) as nat)) + t as nat % pow2((2 * n) as nat),
{
    let sh: u64 = (2 * n) as u64;
    let w = pow2(sh as nat);
    lemma_pow2_pos(sh as nat);
    lemma_u64_shr_is_div(t, sh);
    let q = t >> sh;
    assert(q & 3u64 == q % 4u64) by (bit_vector);
    lemma_breakdown(t as int, w as int, 4);
    lemma_mod_bound(t as int, w as int);
    let d = (q % 4u64) as nat;
    assert(w * 4 == 4 * w);
    assert(t as nat % (4 * w) == w * d + t as nat % w);
    assert(w * d == quarter_start(d, w)) by (nonlinear_arith)
        requires
            d <= 3,
            quarter_start(d, w) == (if d == 0 { 0 } else if d == 1 { w } else if d == 2 { 2 * w } else { 3 * w }),
    ;
}

/// The eight bits of a `u32` from bit `s` upwards, and what lies below them.
pub proof fn lemma_u32_byte(x: u32, s: u32)
    requires
        s <= 24,
    ensures
        ((x >> s) & 0xFFu32) < 256,
        x as nat % pow2((s + 8) as nat) == glued(s as nat, ((x >> s) & 0xFFu32) as nat, x as nat % pow2(s as nat)),
        x as nat % pow2(s as nat) < pow2(s as nat),
{
    reveal(glued);
    lemma_pow2_values();
    lemma_u32_side(s);
    let w = pow2(s as nat);
    let q = x >> s;
    assert(q & 0xFFu32 == q % 256u32) by (bit_vector);
    lemma_breakdown(x as int, w as int, 256);
    lemma_mod_bound(x as int, w as int);
    lemma_pow2_adds(s as nat, 8);
    let b = (q % 256u32) as nat;
    assert(w * b == b * w) by (nonlinear_arith);
}

/// The sixteen bits of a `u64` from bit `s` upwards, and what lies below them.
pub proof fn lemma_u64_word(t: u64, s: u64)
    requires
        s <= 48,
    ensures
        ((t >> s) & 0xFFFFu64) < 65536,
        t as nat % pow2((s + 16) as nat) == glued(s as nat, ((t >> s) & 0xFFFFu64) as nat, t as nat % pow2(s as nat)),
        t as nat % pow2(s as nat) < pow2(s as nat),
{
    reveal(glued);
    lemma_pow2_values();
    lemma_pow2_pos(s as nat);
    lemma_u64_shr_is_div(t, s);
    let w = pow2(s as nat);
    let q = t >> s;
    assert(q & 0xFFFFu64 == q % 65536u64) by (bit_vector);
    lemma_breakdown(t as int, w as int, 65536);
    lemma_mod_bound(t as int, w as int);
    lemma_pow2_adds(s as nat, 16);
    let b = (q % 65536u64) as nat;
    assert(w * b == b * w) by (nonlinear_arith);
}

/// Taking a `u32` from `u32::MAX` mirrors its lowest `s` bits, whatever `s`.
pub proof fn lemma_u32_complement(x: u32, s: nat)
    requires
        s <= 32,
    ensures
        (0xFFFF_FFFFu32 - x) as nat % pow2(s) == mirrored(s, x as nat % pow2(s)),
{
    lemma_pow2_values();
    lemma_pow2_pos(s);
    lemma_pow2_pos((32 - s) as nat);
    lemma_pow2_adds((32 - s) as nat, s);
    let p = pow2(s) as int;
    let big = pow2((32 - s) as nat) as int;
    let q = x as int / p;
    let r = x as int % p;
    lemma_fundamental_div_mod(x as int, p);
    lemma_mod_bound(x as int, p);
    assert(big * p == 0x1_0000_0000);
    assert(q < big) by (nonlinear_arith)
        requires
            p * q + r < big * p,
            r >= 0,
            p > 0,
    ;
    assert(0xFFFF_FFFF - x == (big - q - 1) * p + (p - 1 - r)) by (nonlinear_arith)
        requires
            x == p * q + r,
            big * p == 0x1_0000_0000,
    ;
    lemma_fundamental_div_mod_converse(0xFFFF_FFFF - x, p, big - q - 1, p - 1 - r);
}

} // verus!
