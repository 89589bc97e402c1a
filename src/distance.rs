use vstd::prelude::*;

use crate::palette::Color;

verus! {

/// Squared 4-D Euclidean distance between two colors.
pub open spec fn dist_sq(p: Color, q: Color) -> int {
    let dr = p.r as int - q.r as int;
    let dg = p.g as int - q.g as int;
    let db = p.b as int - q.b as int;
    let da = p.a as int - q.a as int;
    dr * dr + dg * dg + db * db + da * da
}

/// `r` indexes a color of `pal` that no other color of `pal` is closer to `p`
/// than.
pub open spec fn is_nearest(pal: Seq<Color>, p: Color, r: int) -> bool {
    &&& 0 <= r < pal.len()
    &&& forall|k: int| 0 <= k < pal.len() ==> dist_sq(pal[r], p) <= dist_sq(#[trigger] pal[k], p)
}

/// Index of the color nearest to `p` among the first `n` of `pal`, the
/// earliest one where several are equally near.
pub open spec fn nearest_in(pal: Seq<Color>, p: Color, n: int) -> int
    decreases n,
{
    if n <= 1 {
        0
    } else {
        let best = nearest_in(pal, p, n - 1);
        if dist_sq(pal[n - 1], p) < dist_sq(pal[best], p) {
            n - 1
        } else {
            best
        }
    }
}

/// The nearest index is a nearest color, strictly nearer than each color
/// before it.
pub proof fn lemma_nearest_is_closest(pal: Seq<Color>, p: Color, n: int)
    requires
        1 <= n <= pal.len(),
    ensures
        0 <= nearest_in(pal, p, n) < n,
        n == pal.len() ==> is_nearest(pal, p, nearest_in(pal, p, n)),
        forall|k: int| 0 <= k < n ==> dist_sq(pal[nearest_in(pal, p, n)], p) <= dist_sq(#[trigger] pal[k], p),
        forall|k: int|
            0 <= k < nearest_in(pal, p, n) ==> dist_sq(pal[nearest_in(pal, p, n)], p) < dist_sq(#[trigger] pal[k], p),
    decreases n,
{
    if n > 1 {
        lemma_nearest_is_closest(pal, p, n - 1);
    }
}

/// The nearest index is the only one that is nearest and strictly nearer
/// than every color before it.
pub proof fn lemma_nearest_in_unique(pal: Seq<Color>, p: Color, r: int)
    requires
        is_nearest(pal, p, r),
        forall|k: int| 0 <= k < r ==> dist_sq(pal[r], p) < dist_sq(#[trigger] pal[k], p),
    ensures
        r == nearest_in(pal, p, pal.len() as int),
{
    let n = nearest_in(pal, p, pal.len() as int);
    lemma_nearest_is_closest(pal, p, pal.len() as int);
    if n < r {
        assert(dist_sq(pal[r], p) < dist_sq(pal[n], p));
    } else if r < n {
        assert(dist_sq(pal[n], p) < dist_sq(pal[r], p));
    }
}

proof fn lemma_dist_zero(p: Color, q: Color)
    ensures
        dist_sq(p, q) >= 0,
        dist_sq(p, q) == 0 <==> p == q,
{
    let dr = p.r as int - q.r as int;
    let dg = p.g as int - q.g as int;
    let db = p.b as int - q.b as int;
    let da = p.a as int - q.a as int;
    assert(dr * dr >= 0 && dg * dg >= 0 && db * db >= 0 && da * da >= 0) by (nonlinear_arith);
    assert(dr * dr == 0 ==> dr == 0) by (nonlinear_arith);
    assert(dg * dg == 0 ==> dg == 0) by (nonlinear_arith);
    assert(db * db == 0 ==> db == 0) by (nonlinear_arith);
    assert(da * da == 0 ==> da == 0) by (nonlinear_arith);
    assert(dist_sq(p, q) == dr * dr + dg * dg + db * db + da * da);
    if dist_sq(p, q) == 0 {
        assert(p.r == q.r && p.g == q.g && p.b == q.b && p.a == q.a);
        assert(p == q);
    }
    if p == q {
        assert(dr == 0 && dg == 0 && db == 0 && da == 0);
        assert(dr * dr + dg * dg + db * db + da * da == 0) by (nonlinear_arith)
            requires
                dr == 0 && dg == 0 && db == 0 && da == 0,
        ;
    }
}

/// A color that the palette holds is found exactly.
pub proof fn lemma_nearest_exact(pal: Seq<Color>, p: Color)
    requires
        pal.contains(p),
    ensures
        pal[nearest_in(pal, p, pal.len() as int)] == p,
{
    let k = choose|k: int| 0 <= k < pal.len() && pal[k] == p;
    let r = nearest_in(pal, p, pal.len() as int);
    lemma_nearest_is_closest(pal, p, pal.len() as int);
    lemma_dist_zero(p, p);
    lemma_dist_zero(pal[r], p);
    assert(dist_sq(pal[k], p) == 0);
}

fn channel_diff_sq(x: u8, y: u8) -> (d: u32)
    ensures
        d == (x as int - y as int) * (x as int - y as int),
        d <= 65025,
{
    let diff: u32 = if x >= y {
        (x - y) as u32
    } else {
        (y - x) as u32
    };
    assert(diff * diff <= 65025) by (nonlinear_arith)
        requires
            diff <= 255,
    ;
    assert(diff * diff == (x as int - y as int) * (x as int - y as int)) by (nonlinear_arith)
        requires
            diff == x - y || diff == y - x,
    ;
    diff * diff
}

/// Squared distance between two colors.
pub fn color_dist_sq(p: Color, q: Color) -> (d: u32)
    ensures
        d == dist_sq(p, q),
{
    channel_diff_sq(p.r, q.r) + channel_diff_sq(p.g, q.g) + channel_diff_sq(p.b, q.b)
        + channel_diff_sq(p.a, q.a)
}

} // verus!
