//! The Hilbert curve as mathematics: the index of a point, the point of an index, and the
//! facts about them that the codecs rest on.

use vstd::prelude::*;
use vstd::arithmetic::power2::{
    pow2, lemma_pow2_pos, lemma_pow2_unfold, lemma2_to64, lemma2_to64_rest,
};

verus! {

/// What a quadrant does to everything drawn inside it: the two coordinates may trade
/// places, and each may be mirrored within the square.
pub struct Orientation {
    pub swap: bool,
    pub flip: bool,
}

/// The orientation that leaves every point where it is.
pub open spec fn upright() -> Orientation {
    Orientation { swap: false, flip: false }
}

/// The orientation that applies `first` and then `second`.
pub open spec fn combined(second: Orientation, first: Orientation) -> Orientation {
    Orientation { swap: second.swap != first.swap, flip: second.flip != first.flip }
}

/// The mirror image of the coordinate `v` in a square of side `2^n`.
pub open spec fn mirrored(n: nat, v: nat) -> nat {
    (pow2(n) - 1 - v) as nat
}

/// The point `p` of a square of side `2^n`, seen under the orientation `o`.
pub open spec fn oriented(n: nat, o: Orientation, p: (nat, nat)) -> (nat, nat) {
    let q = if o.flip {
        (mirrored(n, p.0), mirrored(n, p.1))
    } else {
        p
    };
    if o.swap {
        (q.1, q.0)
    } else {
        q
    }
}

/// The orientation of the quadrant that lies to the right or not, and up or not.
pub open spec fn quadrant_turn(right: bool, up: bool) -> Orientation {
    Orientation { swap: !up, flip: !up && right }
}

/// The point `p` of a square of side `2^n` that lies in a quadrant of the next larger
/// square, turned the way that quadrant is drawn: the upper quadrants are drawn as they
/// are, the lower left one with its coordinates exchanged, the lower right one with its
/// coordinates exchanged and mirrored.
pub open spec fn rotated(n: nat, p: (nat, nat), right: bool, up: bool) -> (nat, nat) {
    if !up {
        if right {
            (mirrored(n, p.1), mirrored(n, p.0))
        } else {
            (p.1, p.0)
        }
    } else {
        p
    }
}

/// The position of a quadrant along the curve: 0 for the lower left one, 1 for the upper
/// left, 2 for the upper right, 3 for the lower right.
pub open spec fn quadrant_digit(right: bool, up: bool) -> nat {
    if right {
        if up {
            2
        } else {
            3
        }
    } else {
        if up {
            1
        } else {
            0
        }
    }
}

/// Where the quarter `q` begins in a stretch of four quarters of length `w` each.
pub open spec fn quarter_start(q: nat, w: nat) -> nat {
    if q == 0 {
        0
    } else if q == 1 {
        w
    } else if q == 2 {
        2 * w
    } else {
        3 * w
    }
}

/// The quarter that holds `t` in a stretch of four quarters of length `w` each.
pub open spec fn quarter_of(t: nat, w: nat) -> nat {
    if t < w {
        0
    } else if t < 2 * w {
        1
    } else if t < 3 * w {
        2
    } else {
        3
    }
}

/// The index along the Hilbert curve of order `n` of the point `(x, y)` of the square of
/// side `2^n`: the quadrant of the point says in which quarter of the curve it lies, and
/// the curve of order `n - 1`, turned as the quadrant is drawn, says where in that quarter.
pub open spec fn curve_index(n: nat, x: nat, y: nat) -> nat
    decreases n,
{
    if n == 0 {
        0
    } else {
        let m = (n - 1) as nat;
        let right = x >= pow2(m);
        let up = y >= pow2(m);
        let low_x = if right { (x - pow2(m)) as nat } else { x };
        let low_y = if up { (y - pow2(m)) as nat } else { y };
        let p = rotated(m, (low_x, low_y), right, up);
        quarter_start(quadrant_digit(right, up), pow2(2 * m)) + curve_index(m, p.0, p.1)
    }
}

/// The point of the square of side `2^n` that the Hilbert curve of order `n` reaches at
/// index `t`.
pub open spec fn curve_point(n: nat, t: nat) -> (nat, nat)
    decreases n,
{
    if n == 0 {
        (0, 0)
    } else {
        let m = (n - 1) as nat;
        let q = quarter_of(t, pow2(2 * m));
        let right = q >= 2;
        let up = q == 1 || q == 2;
        let p = rotated(m, curve_point(m, (t - quarter_start(q, pow2(2 * m))) as nat), right, up);
        (if right { p.0 + pow2(m) } else { p.0 }, if up { p.1 + pow2(m) } else { p.1 })
    }
}

/// The index of `(x, y)` on the curve that fills the grid of all pairs of `u32`.
pub open spec fn entangled(x: u32, y: u32) -> u64 {
    curve_index(32, x as nat, y as nat) as u64
}

/// The pair of `u32` at index `t` of the curve that fills the grid of all pairs of `u32`.
pub open spec fn detangled(t: u64) -> (u32, u32) {
    let p = curve_point(32, t as nat);
    (p.0 as u32, p.1 as u32)
}

/// The powers of two that the codecs name.
pub proof fn lemma_pow2_values()
    ensures
        pow2(0) == 1,
        pow2(1) == 2,
        pow2(2) == 4,
        pow2(4) == 16,
        pow2(8) == 256,
        pow2(16) == 0x1_0000,
        pow2(24) == 0x100_0000,
        pow2(32) == 0x1_0000_0000,
        pow2(48) == 0x1_0000_0000_0000,
        pow2(64) == 0x1_0000_0000_0000_0000,
{
    lemma2_to64();
    lemma2_to64_rest();
}

/// Each order doubles the side of the square and takes four times as many indices.
pub proof fn lemma_order_step(m: nat)
    ensures
        pow2(m + 1) == 2 * pow2(m),
        pow2(2 * (m + 1)) == 4 * pow2(2 * m),
        pow2(m) > 0,
        pow2(2 * m) > 0,
{
    lemma_pow2_pos(m);
    lemma_pow2_pos(2 * m);
    lemma_pow2_unfold(m + 1);
    lemma_pow2_unfold(2 * m + 2);
    lemma_pow2_unfold(2 * m + 1);
}

/// A quadrant's turn keeps a point inside the square, turning twice gives the point back,
/// and the turn is the quadrant's orientation.
pub proof fn lemma_rotated(n: nat, p: (nat, nat), right: bool, up: bool)
    requires
        p.0 < pow2(n),
        p.1 < pow2(n),
    ensures
        rotated(n, p, right, up).0 < pow2(n),
        rotated(n, p, right, up).1 < pow2(n),
        rotated(n, rotated(n, p, right, up), right, up) == p,
        rotated(n, p, right, up) == oriented(n, quadrant_turn(right, up), p),
{
}

/// The index of a point of the square of side `2^n` is below `4^n`.
pub proof fn lemma_index_bound(n: nat, x: nat, y: nat)
    requires
        x < pow2(n),
        y < pow2(n),
    ensures
        curve_index(n, x, y) < pow2(2 * n),
    decreases n,
{
    if n == 0 {
        lemma_pow2_values();
    } else {
        let m = (n - 1) as nat;
        lemma_order_step(m);
        let right = x >= pow2(m);
        let up = y >= pow2(m);
        let low_x = if right { (x - pow2(m)) as nat } else { x };
        let low_y = if up { (y - pow2(m)) as nat } else { y };
        let p = rotated(m, (low_x, low_y), right, up);
        lemma_rotated(m, (low_x, low_y), right, up);
        lemma_index_bound(m, p.0, p.1);
    }
}

/// The point at an index below `4^n` lies in the square of side `2^n`.
pub proof fn lemma_point_bound(n: nat, t: nat)
    requires
        t < pow2(2 * n),
    ensures
        curve_point(n, t).0 < pow2(n),
        curve_point(n, t).1 < pow2(n),
    decreases n,
{
    if n == 0 {
        lemma_pow2_values();
    } else {
        let m = (n - 1) as nat;
        lemma_order_step(m);
        let w = pow2(2 * m);
        let q = quarter_of(t, w);
        let r = (t - quarter_start(q, w)) as nat;
        lemma_point_bound(m, r);
        lemma_rotated(m, curve_point(m, r), q >= 2, q == 1 || q == 2);
    }
}

/// The curve visits every point once: the point at the index of `(x, y)` is `(x, y)`.
pub proof fn lemma_point_of_index(n: nat, x: nat, y: nat)
    requires
        x < pow2(n),
        y < pow2(n),
    ensures
        curve_point(n, curve_index(n, x, y)) == (x, y),
    decreases n,
{
    if n > 0 {
        let m = (n - 1) as nat;
        lemma_order_step(m);
        let right = x >= pow2(m);
        let up = y >= pow2(m);
        let low_x = if right { (x - pow2(m)) as nat } else { x };
        let low_y = if up { (y - pow2(m)) as nat } else { y };
        let p = rotated(m, (low_x, low_y), right, up);
        lemma_rotated(m, (low_x, low_y), right, up);
        lemma_index_bound(m, p.0, p.1);
        lemma_point_of_index(m, p.0, p.1);
        let w = pow2(2 * m);
        let d = quadrant_digit(right, up);
        let t = curve_index(n, x, y);
        assert(t == quarter_start(d, w) + curve_index(m, p.0, p.1));
        assert(quarter_of(t, w) == d);
    } else {
        lemma_pow2_values();
    }
}

/// The curve is a path through the indices: the index of the point at `t` is `t`.
pub proof fn lemma_index_of_point(n: nat, t: nat)
    requires
        t < pow2(2 * n),
    ensures
        curve_index(n, curve_point(n, t).0, curve_point(n, t).1) == t,
    decreases n,
{
    if n == 0 {
        lemma_pow2_values();
    } else {
        let m = (n - 1) as nat;
        lemma_order_step(m);
        let w = pow2(2 * m);
        let q = quarter_of(t, w);
        let r = (t - quarter_start(q, w)) as nat;
        let right = q >= 2;
        let up = q == 1 || q == 2;
        let inner = curve_point(m, r);
        lemma_point_bound(m, r);
        lemma_index_of_point(m, r);
        let p = rotated(m, inner, right, up);
        lemma_rotated(m, inner, right, up);
        assert(quadrant_digit(right, up) == q);
        assert(rotated(m, p, right, up) == inner);
    }
}

/// Every pair of `u32` has an index, and the index leads back to the pair.
pub proof fn lemma_detangled_entangled(x: u32, y: u32)
    ensures
        detangled(entangled(x, y)) == (x, y),
{
    lemma_pow2_values();
    lemma_index_bound(32, x as nat, y as nat);
    lemma_point_of_index(32, x as nat, y as nat);
}

/// Every `u64` is the index of a pair of `u32`: of the pair that it leads to.
pub proof fn lemma_entangled_detangled(t: u64)
    ensures
        entangled(detangled(t).0, detangled(t).1) == t,
{
    lemma_pow2_values();
    lemma_point_bound(32, t as nat);
    lemma_index_of_point(32, t as nat);
}

} // verus!
