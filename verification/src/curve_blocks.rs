//! How the curve through a square is made of the curves through its blocks: the index of
//! a point is the index of its block followed by the index of the point within the block,
//! once the block's orientation is taken into account.

use vstd::prelude::*;
use vstd::arithmetic::power2::{pow2, lemma_pow2_adds};
use crate::curve_model::{
    Orientation, upright, combined, mirrored, oriented, quadrant_turn, rotated, quadrant_digit,
    quarter_start, curve_index, curve_point, lemma_pow2_values, lemma_order_step, lemma_rotated,
    lemma_index_bound, lemma_point_bound, lemma_point_of_index, lemma_index_of_point,
};

verus! {

/// The number written as `high` followed by the `m` binary digits of `low`.
#[verifier::opaque]
pub open spec fn glued(m: nat, high: nat, low: nat) -> nat {
    high * pow2(m) + low
}

/// The orientation in which the curve of order `k` leaves the cell `(x, y)`: what the
/// quadrants that hold the cell, from the largest down, do one after another.
pub open spec fn curve_twist(k: nat, x: nat, y: nat) -> Orientation
    decreases k,
{
    if k == 0 {
        upright()
    } else {
        let m = (k - 1) as nat;
        let right = x >= pow2(m);
        let up = y >= pow2(m);
        let low_x = if right { (x - pow2(m)) as nat } else { x };
        let low_y = if up { (y - pow2(m)) as nat } else { y };
        let p = rotated(m, (low_x, low_y), right, up);
        combined(curve_twist(m, p.0, p.1), quadrant_turn(right, up))
    }
}

/// Nothing followed by `low` is `low`.
pub proof fn lemma_glued_zero(m: nat, low: nat)
    ensures
        glued(m, 0, low) == low,
{
    reveal(glued);
    assert(0 * pow2(m) == 0) by (nonlinear_arith);
}

/// `k` digits followed by `m` digits are `k + m` digits.
pub proof fn lemma_glued_bound(k: nat, m: nat, high: nat, low: nat)
    requires
        high < pow2(k),
        low < pow2(m),
    ensures
        glued(m, high, low) < pow2(k + m),
{
    reveal(glued);
    lemma_pow2_adds(k, m);
    let a = pow2(k);
    let b = pow2(m);
    assert(high * b + low < a * b) by (nonlinear_arith)
        requires
            high < a,
            low < b,
    ;
}

/// The highest digit of a glued number is the highest digit of its higher part, and
/// taking it away leaves the rest glued.
pub proof fn lemma_glued_half(j: nat, m: nat, high: nat, low: nat)
    requires
        high < pow2(j + 1),
        low < pow2(m),
    ensures
        (glued(m, high, low) >= pow2(j + m)) == (high >= pow2(j)),
        high >= pow2(j) ==> glued(m, high, low) - pow2(j + m) == glued(m, (high - pow2(j)) as nat, low),
{
    reveal(glued);
    lemma_pow2_adds(j, m);
    let a = pow2(j);
    let b = pow2(m);
    if high >= a {
        assert(high * b + low >= a * b && (high - a) * b == high * b - a * b) by (nonlinear_arith)
            requires
                high >= a,
        ;
    } else {
        assert(high * b + low < a * b) by (nonlinear_arith)
            requires
                high < a,
                low < b,
        ;
    }
}

/// The mirror image of a glued number is the mirror images of its parts, glued.
pub proof fn lemma_glued_mirrored(k: nat, m: nat, high: nat, low: nat)
    requires
        high < pow2(k),
        low < pow2(m),
    ensures
        mirrored(k + m, glued(m, high, low)) == glued(m, mirrored(k, high), mirrored(m, low)),
{
    reveal(glued);
    lemma_pow2_adds(k, m);
    lemma_glued_bound(k, m, high, low);
    let a = pow2(k);
    let b = pow2(m);
    assert(a * b - 1 - (high * b + low) == (a - 1 - high) * b + (b - 1 - low)) by (nonlinear_arith);
}

/// A quarter of the longer curve begins where the same quarter of the shorter curve
/// begins, followed by zeros.
pub proof fn lemma_glued_quarter(j: nat, m: nat, d: nat, i: nat, l: nat)
    requires
        d <= 3,
    ensures
        quarter_start(d, pow2(2 * (j + m))) + glued(2 * m, i, l) == glued(
            2 * m,
            quarter_start(d, pow2(2 * j)) + i,
            l,
        ),
{
    reveal(glued);
    lemma_pow2_adds(2 * j, 2 * m);
    let a = pow2(2 * j);
    let b = pow2(2 * m);
    assert(pow2(2 * (j + m)) == a * b);
    assert(quarter_start(d, a * b) + (i * b + l) == (quarter_start(d, a) + i) * b + l) by (nonlinear_arith)
        requires
            d <= 3,
            quarter_start(d, a * b) == (if d == 0 { 0 } else if d == 1 { a * b } else if d == 2 { 2 * (a * b) } else { 3 * (a * b) }),
            quarter_start(d, a) == (if d == 0 { 0 } else if d == 1 { a } else if d == 2 { 2 * a } else { 3 * a }),
    ;
}

/// Gluing in two steps is gluing at once.
pub proof fn lemma_glued_nested(a: nat, b: nat, high: nat, mid: nat, low: nat)
    ensures
        glued(a + b, high, glued(b, mid, low)) == glued(b, glued(a, high, mid), low),
{
    reveal(glued);
    lemma_pow2_adds(a, b);
    let p = pow2(a);
    let q = pow2(b);
    assert(high * (p * q) + (mid * q + low) == (high * p + mid) * q + low) by (nonlinear_arith);
}

/// A quadrant turns a glued point by turning its block and turning the point within the
/// block.
pub proof fn lemma_rotated_glued(j: nat, m: nat, high: (nat, nat), low: (nat, nat), right: bool, up: bool)
    requires
        high.0 < pow2(j),
        high.1 < pow2(j),
        low.0 < pow2(m),
        low.1 < pow2(m),
    ensures
        rotated(j + m, (glued(m, high.0, low.0), glued(m, high.1, low.1)), right, up) == (
            glued(m, rotated(j, high, right, up).0, rotated(m, low, right, up).0),
            glued(m, rotated(j, high, right, up).1, rotated(m, low, right, up).1),
        ),
{
    lemma_glued_mirrored(j, m, high.0, low.0);
    lemma_glued_mirrored(j, m, high.1, low.1);
}

/// The index of a point is the index of its block of side `2^m`, followed by the index
/// that the point has within the block as the curve passes through it.
pub proof fn lemma_index_split(k: nat, m: nat, high: (nat, nat), low: (nat, nat))
    requires
        high.0 < pow2(k),
        high.1 < pow2(k),
        low.0 < pow2(m),
        low.1 < pow2(m),
    ensures
        curve_index(k + m, glued(m, high.0, low.0), glued(m, high.1, low.1)) == glued(
            2 * m,
            curve_index(k, high.0, high.1),
            curve_index(
                m,
                oriented(m, curve_twist(k, high.0, high.1), low).0,
                oriented(m, curve_twist(k, high.0, high.1), low).1,
            ),
        ),
    decreases k,
{
    let x = glued(m, high.0, low.0);
    let y = glued(m, high.1, low.1);
    if k == 0 {
        lemma_pow2_values();
        lemma_glued_zero(m, low.0);
        lemma_glued_zero(m, low.1);
        lemma_glued_zero(2 * m, curve_index(m, low.0, low.1));
    } else {
        let j = (k - 1) as nat;
        lemma_order_step(j);
        lemma_glued_half(j, m, high.0, low.0);
        lemma_glued_half(j, m, high.1, low.1);
        let right = high.0 >= pow2(j);
        let up = high.1 >= pow2(j);
        let rest = (
            if right { (high.0 - pow2(j)) as nat } else { high.0 },
            if up { (high.1 - pow2(j)) as nat } else { high.1 },
        );
        let low_x = if right { (x - pow2(j + m)) as nat } else { x };
        let low_y = if up { (y - pow2(j + m)) as nat } else { y };
        assert(low_x == glued(m, rest.0, low.0));
        assert(low_y == glued(m, rest.1, low.1));
        lemma_rotated_glued(j, m, rest, low, right, up);
        let a = rotated(j, rest, right, up);
        let b = rotated(m, low, right, up);
        lemma_rotated(j, rest, right, up);
        lemma_rotated(m, low, right, up);
        lemma_index_split(j, m, a, b);
        let inner = curve_twist(j, a.0, a.1);
        let c = oriented(m, inner, b);
        assert(c == oriented(m, curve_twist(k, high.0, high.1), low));
        let d = quadrant_digit(right, up);
        lemma_glued_quarter(j, m, d, curve_index(j, a.0, a.1), curve_index(m, c.0, c.1));
        assert((k + m - 1) as nat == j + m);
        assert(curve_index(k + m, x, y) == quarter_start(d, pow2(2 * (j + m))) + curve_index(
            j + m,
            glued(m, a.0, b.0),
            glued(m, a.1, b.1),
        ));
    }
}

/// The point at an index is the block at the higher part of the index, followed by the
/// point that the lower part of the index reaches within the block as the curve passes
/// through it.
pub proof fn lemma_point_split(k: nat, m: nat, high: nat, low: nat)
    requires
        high < pow2(2 * k),
        low < pow2(2 * m),
    ensures
        curve_point(k + m, glued(2 * m, high, low)) == (
            glued(
                m,
                curve_point(k, high).0,
                oriented(m, curve_twist(k, curve_point(k, high).0, curve_point(k, high).1), curve_point(m, low)).0,
            ),
            glued(
                m,
                curve_point(k, high).1,
                oriented(m, curve_twist(k, curve_point(k, high).0, curve_point(k, high).1), curve_point(m, low)).1,
            ),
        ),
{
    let block = curve_point(k, high);
    let inner = curve_point(m, low);
    let twist = curve_twist(k, block.0, block.1);
    let within = oriented(m, twist, inner);
    lemma_point_bound(k, high);
    lemma_point_bound(m, low);
    lemma_index_split(k, m, block, within);
    assert(oriented(m, twist, within) == inner);
    lemma_index_of_point(k, high);
    lemma_index_of_point(m, low);
    lemma_glued_bound(k, m, block.0, within.0);
    lemma_glued_bound(k, m, block.1, within.1);
    lemma_point_of_index(k + m, glued(m, block.0, within.0), glued(m, block.1, within.1));
}

/// The number by which a table names an orientation.
pub open spec fn twist_code(o: Orientation) -> u8 {
    if o.swap {
        if o.flip {
            6
        } else {
            14
        }
    } else {
        if o.flip {
            12
        } else {
            4
        }
    }
}

/// The point `(0, 2^23)` of a block of side `2^24` shows the block's orientation: the
/// first two digits of its index within the block are the orientation's code.
pub proof fn lemma_probe_index(o: Orientation)
    ensures
        ({
            let p = oriented(24, o, (0, pow2(23)));
            let l = curve_index(24, p.0, p.1);
            twist_code(o) * 0x1000_0000_0000 <= l < (twist_code(o) + 1) * 0x1000_0000_0000
        }),
{
    assert(pow2(22) == 0x40_0000 && pow2(23) == 0x80_0000 && pow2(24) == 0x100_0000 && pow2(44)
        == 0x1000_0000_0000 && pow2(46) == 0x4000_0000_0000) by {
        vstd::arithmetic::power2::lemma2_to64();
        vstd::arithmetic::power2::lemma2_to64_rest();
    }
    let p = oriented(24, o, (0, pow2(23)));
    assert(p == if o.swap {
        if o.flip {
            (0x7F_FFFFnat, 0xFF_FFFFnat)
        } else {
            (0x80_0000nat, 0nat)
        }
    } else {
        if o.flip {
            (0xFF_FFFFnat, 0x7F_FFFFnat)
        } else {
            (0nat, 0x80_0000nat)
        }
    });
    let right = p.0 >= pow2(23);
    let up = p.1 >= pow2(23);
    let low = (if right { (p.0 - pow2(23)) as nat } else { p.0 }, if up { (p.1 - pow2(23)) as nat } else { p.1 });
    let q = rotated(23, low, right, up);
    lemma_rotated(23, low, right, up);
    assert(curve_index(24, p.0, p.1) == quarter_start(quadrant_digit(right, up), pow2(46)) + curve_index(23, q.0, q.1));
    let right2 = q.0 >= pow2(22);
    let up2 = q.1 >= pow2(22);
    let low2 = (if right2 { (q.0 - pow2(22)) as nat } else { q.0 }, if up2 { (q.1 - pow2(22)) as nat } else { q.1 });
    let r = rotated(22, low2, right2, up2);
    lemma_rotated(22, low2, right2, up2);
    assert(curve_index(23, q.0, q.1) == quarter_start(quadrant_digit(right2, up2), pow2(44)) + curve_index(22, r.0, r.1));
    lemma_index_bound(22, r.0, r.1);
    assert(quadrant_digit(right, up) * 4 + quadrant_digit(right2, up2) == twist_code(o));
}

/// The curve of order 8 reaches the point `(15, 0)` at index 255.
pub proof fn lemma_probe_point()
    ensures
        curve_point(8, 255) == (15nat, 0nat),
{
    lemma_pow2_values();
    vstd::arithmetic::power2::lemma2_to64();
    reveal_with_fuel(curve_index, 9);
    assert(curve_index(8, 15, 0) == 255);
    lemma_point_of_index(8, 15, 0);
}

/// The curve begins in the corner: its first point is `(0, 0)`, and it leaves the first
/// cell with its coordinates exchanged where its order is odd, and as they are where it
/// is even.
pub proof fn lemma_first_cell(n: nat)
    ensures
        curve_point(n, 0) == (0nat, 0nat),
        curve_twist(n, 0, 0) == (Orientation { swap: n % 2 == 1, flip: false }),
    decreases n,
{
    if n > 0 {
        let m = (n - 1) as nat;
        lemma_first_cell(m);
        lemma_order_step(m);
    }
}

} // verus!
