use vstd::prelude::*;

use crate::palette::Color;
use crate::distance::{color_dist_sq, dist_sq};
use vstd::arithmetic::mul::{
    lemma_mul_is_associative, lemma_mul_is_commutative, lemma_mul_is_distributive_sub,
    lemma_mul_is_distributive_sub_other_way,
};

verus! {

/// `√x + √y < √z`, for non-negative `x`, `y`, `z`, stated without roots.
pub open spec fn root_sum_lt(x: int, y: int, z: int) -> bool {
    z - x - y > 0 && (z - x - y) * (z - x - y) > 4 * x * y
}

proof fn lemma_dist_nonneg(p: Color, q: Color)
    ensures
        dist_sq(p, q) >= 0,
        dist_sq(p, q) == dist_sq(q, p),
{
    let dr = p.r as int - q.r as int;
    let dg = p.g as int - q.g as int;
    let db = p.b as int - q.b as int;
    let da = p.a as int - q.a as int;
    assert(dr * dr >= 0 && dg * dg >= 0 && db * db >= 0 && da * da >= 0) by (nonlinear_arith);
    assert((-dr) * (-dr) == dr * dr && (-dg) * (-dg) == dg * dg && (-db) * (-db) == db * db && (-da)
        * (-da) == da * da) by (nonlinear_arith);
}

proof fn lemma_sum_product(a0: int, a1: int, a2: int, a3: int, e0: int, e1: int, e2: int, e3: int)
    ensures
        (a0 + a1 + a2 + a3) * (e0 + e1 + e2 + e3) == a0 * e0 + a0 * e1 + a0 * e2 + a0 * e3 + a1 * e0 + a1
            * e1 + a1 * e2 + a1 * e3 + a2 * e0 + a2 * e1 + a2 * e2 + a2 * e3 + a3 * e0 + a3 * e1 + a3 * e2
            + a3 * e3,
{
    assert((a0 + a1 + a2 + a3) * (e0 + e1 + e2 + e3) == a0 * (e0 + e1 + e2 + e3) + a1 * (e0 + e1 + e2
        + e3) + a2 * (e0 + e1 + e2 + e3) + a3 * (e0 + e1 + e2 + e3)) by (nonlinear_arith);
    assert(a0 * (e0 + e1 + e2 + e3) == a0 * e0 + a0 * e1 + a0 * e2 + a0 * e3) by (nonlinear_arith);
    assert(a1 * (e0 + e1 + e2 + e3) == a1 * e0 + a1 * e1 + a1 * e2 + a1 * e3) by (nonlinear_arith);
    assert(a2 * (e0 + e1 + e2 + e3) == a2 * e0 + a2 * e1 + a2 * e2 + a2 * e3) by (nonlinear_arith);
    assert(a3 * (e0 + e1 + e2 + e3) == a3 * e0 + a3 * e1 + a3 * e2 + a3 * e3) by (nonlinear_arith);
}

proof fn lemma_mul_swap_middle(a: int, b: int, c: int, d: int)
    ensures
        (a * b) * (c * d) == (a * c) * (b * d),
{
    lemma_mul_is_associative(a, b, c * d);
    lemma_mul_is_associative(b, c, d);
    lemma_mul_is_commutative(b, c);
    lemma_mul_is_associative(c, b, d);
    lemma_mul_is_associative(a, c, b * d);
}

proof fn lemma_cross_square(ui: int, uj: int, wi: int, wj: int)
    ensures
        (ui * wj - uj * wi) * (ui * wj - uj * wi) == (ui * ui) * (wj * wj) + (uj * uj) * (wi * wi) - (ui
            * wi) * (uj * wj) - (uj * wj) * (ui * wi),
        (ui * ui) * (wi * wi) == (ui * wi) * (ui * wi),
{
    let x = ui * wj;
    let y = uj * wi;
    lemma_mul_is_distributive_sub_other_way(x - y, x, y);
    lemma_mul_is_distributive_sub(x, x, y);
    lemma_mul_is_distributive_sub(y, x, y);
    lemma_mul_swap_middle(ui, wj, ui, wj);
    lemma_mul_swap_middle(uj, wi, uj, wi);
    lemma_mul_is_commutative(uj, wi);
    lemma_mul_swap_middle(ui, wj, wi, uj);
    lemma_mul_is_commutative(wj, uj);
    lemma_mul_is_commutative(ui, wj);
    lemma_mul_swap_middle(uj, wi, wj, ui);
    lemma_mul_is_commutative(wi, ui);
    lemma_mul_swap_middle(ui, wi, ui, wi);
    assert(x * y == (ui * wi) * (uj * wj));
    assert(y * x == (uj * wj) * (ui * wi));
}

proof fn lemma_cauchy_schwarz(u0: int, u1: int, u2: int, u3: int, w0: int, w1: int, w2: int, w3: int)
    ensures
        (u0 * w0 + u1 * w1 + u2 * w2 + u3 * w3) * (u0 * w0 + u1 * w1 + u2 * w2 + u3 * w3) <= (u0 * u0
            + u1 * u1 + u2 * u2 + u3 * u3) * (w0 * w0 + w1 * w1 + w2 * w2 + w3 * w3),
{
    lemma_sum_product(u0 * u0, u1 * u1, u2 * u2, u3 * u3, w0 * w0, w1 * w1, w2 * w2, w3 * w3);
    lemma_sum_product(u0 * w0, u1 * w1, u2 * w2, u3 * w3, u0 * w0, u1 * w1, u2 * w2, u3 * w3);
    lemma_cross_square(u0, u1, w0, w1);
    lemma_cross_square(u0, u2, w0, w2);
    lemma_cross_square(u0, u3, w0, w3);
    lemma_cross_square(u1, u2, w1, w2);
    lemma_cross_square(u1, u3, w1, w3);
    lemma_cross_square(u2, u3, w2, w3);
    lemma_cross_square(u1, u0, w1, w0);
    lemma_cross_square(u2, u0, w2, w0);
    lemma_cross_square(u3, u0, w3, w0);
    lemma_cross_square(u3, u1, w3, w1);
    let t01 = u0 * w1 - u1 * w0;
    let t02 = u0 * w2 - u2 * w0;
    let t03 = u0 * w3 - u3 * w0;
    let t12 = u1 * w2 - u2 * w1;
    let t13 = u1 * w3 - u3 * w1;
    let t23 = u2 * w3 - u3 * w2;
    assert(t01 * t01 >= 0 && t02 * t02 >= 0 && t03 * t03 >= 0 && t12 * t12 >= 0 && t13 * t13 >= 0
        && t23 * t23 >= 0) by (nonlinear_arith);
}

proof fn lemma_square_sum(x: int, y: int)
    ensures
        (x + y) * (x + y) == x * x + 2 * (x * y) + y * y,
{
    assert((x + y) * (x + y) == x * x + 2 * (x * y) + y * y) by (nonlinear_arith);
}

/// The triangle inequality: `√|vq|² ≤ √|vp|² + √|pq|²`.
pub proof fn lemma_triangle(v: Color, p: Color, q: Color)
    ensures
        !root_sum_lt(dist_sq(v, p), dist_sq(p, q), dist_sq(v, q)),
{
    let u0 = p.r as int - v.r as int;
    let u1 = p.g as int - v.g as int;
    let u2 = p.b as int - v.b as int;
    let u3 = p.a as int - v.a as int;
    let w0 = q.r as int - p.r as int;
    let w1 = q.g as int - p.g as int;
    let w2 = q.b as int - p.b as int;
    let w3 = q.a as int - p.a as int;
    let a = dist_sq(v, p);
    let e = dist_sq(p, q);
    let c = dist_sq(v, q);
    let s = u0 * w0 + u1 * w1 + u2 * w2 + u3 * w3;
    lemma_dist_nonneg(v, p);
    lemma_dist_nonneg(p, q);
    assert(a == u0 * u0 + u1 * u1 + u2 * u2 + u3 * u3) by (nonlinear_arith)
        requires
            a == dist_sq(v, p),
            u0 == p.r as int - v.r as int,
            u1 == p.g as int - v.g as int,
            u2 == p.b as int - v.b as int,
            u3 == p.a as int - v.a as int,
    {
    }
    assert(e == w0 * w0 + w1 * w1 + w2 * w2 + w3 * w3) by (nonlinear_arith)
        requires
            e == dist_sq(p, q),
            w0 == q.r as int - p.r as int,
            w1 == q.g as int - p.g as int,
            w2 == q.b as int - p.b as int,
            w3 == q.a as int - p.a as int,
    {
    }
    assert(c == (u0 + w0) * (u0 + w0) + (u1 + w1) * (u1 + w1) + (u2 + w2) * (u2 + w2) + (u3 + w3) * (u3
        + w3)) by (nonlinear_arith)
        requires
            c == dist_sq(v, q),
            u0 + w0 == q.r as int - v.r as int,
            u1 + w1 == q.g as int - v.g as int,
            u2 + w2 == q.b as int - v.b as int,
            u3 + w3 == q.a as int - v.a as int,
    {
    }
    lemma_square_sum(u0, w0);
    lemma_square_sum(u1, w1);
    lemma_square_sum(u2, w2);
    lemma_square_sum(u3, w3);
    assert(c - a - e == 2 * s);
    lemma_cauchy_schwarz(u0, u1, u2, u3, w0, w1, w2, w3);
    assert((c - a - e) * (c - a - e) <= 4 * a * e) by (nonlinear_arith)
        requires
            c - a - e == 2 * s,
            s * s <= a * e,
    ;
}

/// Where `√a + √b < √r`, a point at squared distance at least `r` from the
/// vantage point `v` lies no nearer to `p` (at squared distance `a` from `v`)
/// than `b` or as near.
pub proof fn lemma_far_pruned(v: Color, p: Color, q: Color, r: int, b: int)
    requires
        root_sum_lt(dist_sq(v, p), b, r),
        dist_sq(v, q) >= r,
        b >= 0,
    ensures
        dist_sq(p, q) > b,
{
    let a = dist_sq(v, p);
    let c = dist_sq(v, q);
    let e = dist_sq(p, q);
    lemma_triangle(v, p, q);
    lemma_dist_nonneg(v, p);
    lemma_dist_nonneg(p, q);
    if e <= b {
        assert(root_sum_lt(a, e, c)) by (nonlinear_arith)
            requires
                r - a - b > 0,
                (r - a - b) * (r - a - b) > 4 * a * b,
                c >= r,
                0 <= e <= b,
                a >= 0,
        ;
    }
}

/// Where `√r + √b < √a`, a point at squared distance at most `r` from the
/// vantage point `v` lies no nearer to `p` (at squared distance `a` from `v`)
/// than `b` or as near.
pub proof fn lemma_near_pruned(v: Color, p: Color, q: Color, r: int, b: int)
    requires
        root_sum_lt(r, b, dist_sq(v, p)),
        dist_sq(v, q) <= r,
        b >= 0,
    ensures
        dist_sq(p, q) > b,
{
    let a = dist_sq(v, p);
    let c = dist_sq(v, q);
    let e = dist_sq(p, q);
    lemma_triangle(v, q, p);
    lemma_dist_nonneg(v, q);
    lemma_dist_nonneg(p, q);
    if e <= b {
        assert(root_sum_lt(c, e, a)) by (nonlinear_arith)
            requires
                a - r - b > 0,
                (a - r - b) * (a - r - b) > 4 * r * b,
                0 <= c <= r,
                0 <= e <= b,
        ;
    }
}

/// Largest squared distance between two colors.
pub const MAX_DIST_SQ: u32 = 260100;

proof fn lemma_dist_bounded(p: Color, q: Color)
    ensures
        0 <= dist_sq(p, q) <= MAX_DIST_SQ,
{
    let dr = p.r as int - q.r as int;
    let dg = p.g as int - q.g as int;
    let db = p.b as int - q.b as int;
    let da = p.a as int - q.a as int;
    assert(0 <= dr * dr <= 65025) by (nonlinear_arith)
        requires
            -255 <= dr <= 255,
    ;
    assert(0 <= dg * dg <= 65025) by (nonlinear_arith)
        requires
            -255 <= dg <= 255,
    ;
    assert(0 <= db * db <= 65025) by (nonlinear_arith)
        requires
            -255 <= db <= 255,
    ;
    assert(0 <= da * da <= 65025) by (nonlinear_arith)
        requires
            -255 <= da <= 255,
    ;
}

/// `√x + √y < √z`, computed exactly.
fn root_sum_lt_exec(x: u32, y: u32, z: u32) -> (r: bool)
    requires
        x <= MAX_DIST_SQ,
        y <= MAX_DIST_SQ,
        z <= MAX_DIST_SQ,
    ensures
        r == root_sum_lt(x as int, y as int, z as int),
{
    let t: i64 = z as i64 - x as i64 - y as i64;
    if t <= 0 {
        return false;
    }
    assert(t * t <= 260100 * 260100) by (nonlinear_arith)
        requires
            0 < t <= 260100,
    ;
    assert(4 * x * y <= 4 * 260100 * 260100) by (nonlinear_arith)
        requires
            x <= 260100,
            y <= 260100,
    ;
    t * t > 4 * (x as i64) * (y as i64)
}

/// A palette color and its index.
#[derive(Clone, Copy, Debug, PartialEq, Eq, Structural)]
pub struct SearchIdx {
    pub ind: u8,
    pub color: Color,
}

/// A vantage point with the points near to it (within `radius_sq`), those far
/// from it (from `radius_sq` on), or, for a handful of points, a plain list.
pub struct SearchNode {
    ind: SearchIdx,
    near: Option<Box<SearchNode>>,
    far: Option<Box<SearchNode>>,
    rest: Vec<SearchIdx>,
    radius_sq: u32,
}

/// Whether the subtree at `node` holds point `q`.
pub closed spec fn node_holds(node: SearchNode, q: SearchIdx) -> bool
    decreases node,
{
    q == node.ind || node.rest@.contains(q) || match node.near {
        Some(n) => node_holds(*n, q),
        None => false,
    } || match node.far {
        Some(f) => node_holds(*f, q),
        None => false,
    }
}

/// The subtree at `node` is ordered as a vantage-point tree.
pub closed spec fn node_wf(node: SearchNode) -> bool
    decreases node,
{
    &&& node.radius_sq <= MAX_DIST_SQ
    &&& node.rest@.len() > 0 ==> node.near is None && node.far is None
    &&& match node.near {
        Some(n) => node_wf(*n) && forall|q: SearchIdx|
            #[trigger] node_holds(*n, q) ==> dist_sq(node.ind.color, q.color) <= node.radius_sq,
        None => true,
    }
    &&& match node.far {
        Some(f) => node_wf(*f) && forall|q: SearchIdx|
            #[trigger] node_holds(*f, q) ==> dist_sq(node.ind.color, q.color) >= node.radius_sq,
        None => true,
    }
}

/// `best` holds a point with its true squared distance to `pin`.
pub open spec fn best_ok(best: Option<(SearchIdx, u32)>, pin: Color) -> bool {
    best matches Some(b) ==> b.1 == dist_sq(b.0.color, pin)
}

/// The point that `best` records.
pub open spec fn best_point(best: Option<(SearchIdx, u32)>) -> SearchIdx {
    match best {
        Some(b) => b.0,
        None => arbitrary(),
    }
}

/// The squared distance that `best` records, unbounded where it is empty.
pub open spec fn best_dist(best: Option<(SearchIdx, u32)>) -> int {
    match best {
        Some(b) => b.1 as int,
        None => MAX_DIST_SQ + 1,
    }
}

/// Rank of point `q` in a search for `pin`: by squared distance, then by
/// index.
pub open spec fn point_key(q: SearchIdx, pin: Color) -> int {
    dist_sq(q.color, pin) * 256 + q.ind as int
}

/// Rank of the point that `best` records, unbounded where it is empty.
pub open spec fn best_key(best: Option<(SearchIdx, u32)>) -> int {
    match best {
        Some(b) => b.1 * 256 + b.0.ind as int,
        None => (MAX_DIST_SQ + 1) * 256,
    }
}

fn consider(best: &mut Option<(SearchIdx, u32)>, q: SearchIdx, pin: Color)
    requires
        best_ok(*old(best), pin),
    ensures
        best_ok(*final(best), pin),
        *final(best) is Some,
        best_key(*final(best)) <= best_key(*old(best)),
        best_key(*final(best)) <= point_key(q, pin),
        *final(best) == *old(best) || best_point(*final(best)) == q,
{
    let d = color_dist_sq(q.color, pin);
    proof {
        lemma_dist_bounded(q.color, pin);
    }
    match *best {
        Some(b) => {
            if d < b.1 || (d == b.1 && q.ind < b.0.ind) {
                *best = Some((q, d));
            }
        },
        None => {
            *best = Some((q, d));
        },
    }
}

fn visit(node: &SearchNode, pin: Color, best: &mut Option<(SearchIdx, u32)>)
    requires
        node_wf(*node),
        best_ok(*old(best), pin),
    ensures
        best_ok(*final(best), pin),
        *final(best) is Some,
        best_key(*final(best)) <= best_key(*old(best)),
        forall|q: SearchIdx| node_holds(*node, q) ==> best_key(*final(best)) <= point_key(q, pin),
        *final(best) == *old(best) || node_holds(*node, best_point(*final(best))),
    decreases node,
{
    let ghost start = *best;
    let distance_sq = color_dist_sq(node.ind.color, pin);
    proof {
        lemma_dist_bounded(node.ind.color, pin);
        lemma_dist_nonneg(node.ind.color, pin);
    }
    consider(best, node.ind, pin);
    if node.rest.len() > 0 {
        let mut k: usize = 0;
        while k < node.rest.len()
            invariant
                node_wf(*node),
                node.rest@.len() > 0,
                k <= node.rest@.len(),
                best_ok(*best, pin),
                *best is Some,
                best_key(*best) <= best_key(start),
                best_key(*best) <= point_key(node.ind, pin),
                forall|j: int| 0 <= j < k ==> best_key(*best) <= point_key(#[trigger] node.rest@[j], pin),
                *best == start || node_holds(*node, best_point(*best)),
            decreases node.rest@.len() - k,
        {
            let ghost before = *best;
            consider(best, node.rest[k], pin);
            proof {
                if *best != before {
                    assert(node.rest@.contains(node.rest@[k as int]));
                }
            }
            k += 1;
        }
        proof {
            assert forall|q: SearchIdx| node_holds(*node, q) implies best_key(*best) <= point_key(q, pin) by {
                if node.rest@.contains(q) {
                    let j = choose|j: int| 0 <= j < node.rest@.len() && node.rest@[j] == q;
                }
            }
        }
        return;
    }
    if distance_sq < node.radius_sq {
        match &node.near {
            Some(near) => visit(near, pin, best),
            None => {},
        }
        let ghost mid = *best;
        let prune = match *best {
            Some(b) => root_sum_lt_exec(distance_sq, b.1, node.radius_sq),
            None => false,
        };
        if !prune {
            match &node.far {
                Some(far) => visit(far, pin, best),
                None => {},
            }
        } else {
            proof {
                match &node.far {
                    Some(f) => {
                        assert forall|q: SearchIdx| node_holds(**f, q) implies best_key(*best) <= point_key(q, pin) by {
                            lemma_far_pruned(node.ind.color, pin, q.color, node.radius_sq as int, best_dist(mid));
                            lemma_dist_nonneg(pin, q.color);
                        }
                    },
                    None => {},
                }
            }
        }
    } else {
        match &node.far {
            Some(far) => visit(far, pin, best),
            None => {},
        }
        let ghost mid = *best;
        let prune = match *best {
            Some(b) => root_sum_lt_exec(node.radius_sq, b.1, distance_sq),
            None => false,
        };
        if !prune {
            match &node.near {
                Some(near) => visit(near, pin, best),
                None => {},
            }
        } else {
            proof {
                match &node.near {
                    Some(n) => {
                        assert forall|q: SearchIdx| node_holds(**n, q) implies best_key(*best) <= point_key(q, pin) by {
                            lemma_near_pruned(node.ind.color, pin, q.color, node.radius_sq as int, best_dist(mid));
                            lemma_dist_nonneg(pin, q.color);
                        }
                    },
                    None => {},
                }
            }
        }
    }
    proof {
        assert forall|q: SearchIdx| node_holds(*node, q) implies best_key(*best) <= point_key(q, pin) by {
            if q == node.ind {
            } else if node.rest@.contains(q) {
            } else {
                match &node.near {
                    Some(n) => {
                        if node_holds(**n, q) {
                            assert(best_key(*best) <= point_key(q, pin));
                        }
                    },
                    None => {},
                }
                match &node.far {
                    Some(f) => {
                        if node_holds(**f, q) {
                            assert(best_key(*best) <= point_key(q, pin));
                        }
                    },
                    None => {},
                }
            }
        }
    }
}

/// The distances in `s` never decrease.
spec fn keys_sorted(s: Seq<(u32, SearchIdx)>) -> bool {
    forall|i: int, j: int| 0 <= i < j < s.len() ==> (#[trigger] s[i]).0 <= (#[trigger] s[j]).0
}

/// Each pair of `s` holds its point's squared distance to `vp`.
spec fn keyed_by(s: Seq<(u32, SearchIdx)>, vp: SearchIdx) -> bool {
    forall|i: int| 0 <= i < s.len() ==> (#[trigger] s[i]).0 == dist_sq(vp.color, s[i].1.color)
}

/// Some pair of `s` holds point `q`.
spec fn has_point(s: Seq<(u32, SearchIdx)>, q: SearchIdx) -> bool {
    exists|i: int| 0 <= i < s.len() && (#[trigger] s[i]).1 == q
}

fn points_of(pairs: &Vec<(u32, SearchIdx)>) -> (r: Vec<SearchIdx>)
    ensures
        r@.len() == pairs@.len(),
        forall|j: int| 0 <= j < r@.len() ==> #[trigger] r@[j] == pairs@[j].1,
        forall|q: SearchIdx| r@.contains(q) <==> has_point(pairs@, q),
{
    let mut r: Vec<SearchIdx> = Vec::new();
    let mut k: usize = 0;
    while k < pairs.len()
        invariant
            k <= pairs@.len(),
            r@.len() == k,
            forall|j: int| 0 <= j < k ==> #[trigger] r@[j] == pairs@[j].1,
        decreases pairs@.len() - k,
    {
        r.push(pairs[k].1);
        k += 1;
    }
    proof {
        assert forall|q: SearchIdx| r@.contains(q) <==> has_point(pairs@, q) by {
            if r@.contains(q) {
                let j = choose|j: int| 0 <= j < r@.len() && r@[j] == q;
                assert(pairs@[j].1 == q);
            }
            if has_point(pairs@, q) {
                let j = choose|j: int| 0 <= j < pairs@.len() && (#[trigger] pairs@[j]).1 == q;
                assert(r@[j] == q);
            }
        }
    }
    r
}

proof fn lemma_swap_remove_contains(s: Seq<SearchIdx>, p: int, q: SearchIdx)
    requires
        0 <= p < s.len(),
    ensures
        s.contains(q) <==> (q == s[p] || s.update(p, s.last()).drop_last().contains(q)),
{
    let t = s.update(p, s.last()).drop_last();
    if s.contains(q) && q != s[p] {
        let k = choose|k: int| 0 <= k < s.len() && s[k] == q;
        if k == s.len() - 1 {
            assert(t[p] == q);
        } else {
            assert(t[k] == q);
        }
    }
    if t.contains(q) {
        let k = choose|k: int| 0 <= k < t.len() && t[k] == q;
        if k == p {
            assert(s[s.len() - 1] == q);
        } else {
            assert(s[k] == q);
        }
    }
}

/// Number of points stored in the subtree at `node`.
pub closed spec fn node_size(node: SearchNode) -> nat
    decreases node,
{
    1 + node.rest@.len() + match node.near {
        Some(n) => node_size(*n),
        None => 0,
    } + match node.far {
        Some(f) => node_size(*f),
        None => 0,
    }
}

/// Number of levels of the subtree at `node`.
pub closed spec fn node_depth(node: SearchNode) -> nat
    decreases node,
{
    let dn = match node.near {
        Some(n) => node_depth(*n),
        None => 0,
    };
    let df = match node.far {
        Some(f) => node_depth(*f),
        None => 0,
    };
    1 + if dn > df {
        dn
    } else {
        df
    }
}

/// The subtree at `node` has the layout the index is built with: each
/// vantage point is a heaviest point of its subtree; a node holding at most
/// seven points keeps the others in its plain list; a larger node sends the
/// nearer half of the others (rounded down) to `near` and the rest to
/// `far`, its radius being the distance to the nearest point of `far`.
pub closed spec fn node_shaped(node: SearchNode, weights: Seq<u32>) -> bool
    decreases node,
{
    &&& forall|q: SearchIdx|
        #[trigger] node_holds(node, q) ==> (q.ind as int) < weights.len() && weights[q.ind as int]
            <= weights[node.ind.ind as int]
    &&& node.rest@.len() <= 6
    &&& (node.near is None) == (node.far is None)
    &&& node.near is None ==> node_size(node) <= 7
    &&& match (node.near, node.far) {
        (Some(n), Some(f)) => {
            &&& node.rest@.len() == 0
            &&& node_size(node) >= 8
            &&& node_size(*n) == (node_size(node) - 1) / 2
            &&& node_size(*f) == node_size(node) - 1 - (node_size(node) - 1) / 2
            &&& exists|q: SearchIdx| #[trigger] node_holds(*f, q) && dist_sq(node.ind.color, q.color) == node.radius_sq
            &&& node_shaped(*n, weights)
            &&& node_shaped(*f, weights)
        },
        _ => true,
    }
}

/// Levels needed for `n` points when each level halves them and seven fit
/// in one node.
pub open spec fn depth_bound(n: int) -> int
    decreases n,
{
    if n < 8 {
        1
    } else {
        1 + depth_bound(n / 2)
    }
}

proof fn lemma_depth_bound_mono(a: int, b: int)
    requires
        a <= b,
    ensures
        1 <= depth_bound(a) <= depth_bound(b),
    decreases b,
{
    if b >= 8 {
        if a >= 8 {
            lemma_depth_bound_mono(a / 2, b / 2);
        } else {
            lemma_depth_bound_mono(0, b / 2);
        }
    }
}

/// Position `p` holds a heaviest point of `idx`, the first of equals.
pub open spec fn first_heaviest(idx: Seq<SearchIdx>, weights: Seq<u32>, p: int) -> bool {
    &&& 0 <= p < idx.len()
    &&& forall|j: int| 0 <= j < idx.len() ==> weights[(#[trigger] idx[j]).ind as int] <= weights[idx[p].ind as int]
    &&& forall|j: int| 0 <= j < p ==> weights[(#[trigger] idx[j]).ind as int] < weights[idx[p].ind as int]
}

/// Builds the subtree over `indexes`, weighted by `weights` at each point's
/// index.
#[verifier::rlimit(100)]
#[verifier::spinoff_prover]
fn build(indexes: Vec<SearchIdx>, weights: &Vec<u32>) -> (r: Option<Box<SearchNode>>)
    requires
        forall|q: SearchIdx| #[trigger] indexes@.contains(q) ==> (q.ind as int) < weights@.len(),
    ensures
        r is None <==> indexes@.len() == 0,
        r matches Some(n) ==> node_wf(*n) && (forall|q: SearchIdx|
            #[trigger] node_holds(*n, q) <==> indexes@.contains(q)),
        r matches Some(n) ==> node_shaped(*n, weights@) && node_size(*n) == indexes@.len() && node_depth(*n)
            <= depth_bound(indexes@.len() as int),
        r matches Some(n) ==> exists|p: int| first_heaviest(indexes@, weights@, p) && n.ind == indexes@[p],
    decreases indexes@.len(),
{
    let mut indexes = indexes;
    let n = indexes.len();
    if n == 0 {
        return None;
    }
    let ghost orig = indexes@;
    proof {
        assert forall|k: int| 0 <= k < n implies (#[trigger] orig[k].ind as int) < weights@.len() by {
            assert(orig.contains(orig[k]));
        }
    }
    // The vantage point is the heaviest point, the first of equals.
    let mut vp_pos: usize = 0;
    let mut k: usize = 1;
    while k < n
        invariant
            indexes@ == orig,
            n == orig.len(),
            vp_pos < n,
            1 <= k <= n,
            vp_pos < k,
            forall|j: int| 0 <= j < n ==> (#[trigger] orig[j].ind as int) < weights@.len(),
            forall|j: int| 0 <= j < k ==> weights@[(#[trigger] orig[j]).ind as int] <= weights@[orig[vp_pos as int].ind as int],
            forall|j: int| 0 <= j < vp_pos ==> weights@[(#[trigger] orig[j]).ind as int] < weights@[orig[vp_pos as int].ind as int],
        decreases n - k,
    {
        if weights[indexes[k].ind as usize] > weights[indexes[vp_pos].ind as usize] {
            vp_pos = k;
        }
        k += 1;
    }
    let vp = indexes.swap_remove(vp_pos);
    proof {
        assert(first_heaviest(orig, weights@, vp_pos as int));
        assert forall|q: SearchIdx| orig.contains(q) implies weights@[q.ind as int] <= weights@[vp.ind as int] by {
            let j = choose|j: int| 0 <= j < orig.len() && orig[j] == q;
            assert(weights@[orig[j].ind as int] <= weights@[orig[vp_pos as int].ind as int]);
        }
        assert forall|q: SearchIdx| orig.contains(q) <==> (q == vp || indexes@.contains(q)) by {
            lemma_swap_remove_contains(orig, vp_pos as int, q);
        }
    }
    let m = indexes.len();
    let mut sorted: Vec<(u32, SearchIdx)> = Vec::new();
    let mut i: usize = 0;
    while i < m
        invariant
            m == indexes@.len(),
            i <= m,
            sorted@.len() == i,
            keys_sorted(sorted@),
            keyed_by(sorted@, vp),
            forall|q: SearchIdx| has_point(sorted@, q) <==> indexes@.subrange(0, i as int).contains(q),
        decreases m - i,
    {
        let q = indexes[i];
        let d = color_dist_sq(vp.color, q.color);
        let mut p: usize = 0;
        while p < sorted.len() && sorted[p].0 <= d
            invariant
                p <= sorted@.len(),
                forall|j: int| 0 <= j < p ==> (#[trigger] sorted@[j]).0 <= d,
            decreases sorted@.len() - p,
        {
            p += 1;
        }
        let ghost before = sorted@;
        sorted.insert(p, (d, q));
        proof {
            assert(p == before.len() || before[p as int].0 > d);
            assert forall|a: int, b: int| 0 <= a < b < sorted@.len() implies (#[trigger] sorted@[a]).0 <= (
            #[trigger] sorted@[b]).0 by {
                if b < p {
                } else if b == p {
                } else if a < p {
                    assert(before[a].0 <= d);
                    if p < before.len() {
                        assert(before[p as int].0 <= before[b - 1].0);
                    }
                } else if a == p {
                    if b - 1 > p {
                        assert(before[p as int].0 <= before[b - 1].0);
                    }
                } else {
                    assert(before[a - 1].0 <= before[b - 1].0);
                }
            }
            let pre = indexes@.subrange(0, i as int);
            let post = indexes@.subrange(0, i + 1);
            assert forall|x: SearchIdx| has_point(sorted@, x) <==> post.contains(x) by {
                if has_point(sorted@, x) {
                    let j = choose|j: int| 0 <= j < sorted@.len() && (#[trigger] sorted@[j]).1 == x;
                    if j < p {
                        assert(before[j].1 == x);
                        assert(has_point(before, x));
                        assert(pre.contains(x));
                        let t = choose|t: int| 0 <= t < pre.len() && pre[t] == x;
                        assert(post[t] == x);
                    } else if j == p {
                        assert(post[i as int] == x);
                    } else {
                        assert(before[j - 1].1 == x);
                        assert(has_point(before, x));
                        let t = choose|t: int| 0 <= t < pre.len() && pre[t] == x;
                        assert(post[t] == x);
                    }
                }
                if post.contains(x) {
                    let t = choose|t: int| 0 <= t < post.len() && post[t] == x;
                    if t == i {
                        assert(sorted@[p as int].1 == x);
                    } else {
                        assert(pre[t] == x);
                        assert(pre.contains(x));
                        assert(has_point(before, x));
                        let j = choose|j: int| 0 <= j < before.len() && (#[trigger] before[j]).1 == x;
                        if j < p {
                            assert(sorted@[j].1 == x);
                        } else {
                            assert(sorted@[j + 1].1 == x);
                        }
                    }
                }
            }
        }
        i += 1;
    }
    proof {
        assert(indexes@.subrange(0, m as int) =~= indexes@);
        assert forall|x: int| 0 <= x < sorted@.len() implies (#[trigger] sorted@[x]).0 <= MAX_DIST_SQ by {
            lemma_dist_bounded(vp.color, sorted@[x].1.color);
        }
    }
    if sorted.len() < 7 {
        let rest = points_of(&sorted);
        let node = SearchNode { ind: vp, near: None, far: None, rest, radius_sq: 0 };
        proof {
            assert forall|q: SearchIdx| node_holds(node, q) <==> orig.contains(q) by {}
            assert(node_size(node) == n);
            assert(node_depth(node) == 1);
            lemma_depth_bound_mono(0, n as int);
            assert(node_shaped(node, weights@));
        }
        return Some(Box::new(node));
    }
    let half = sorted.len() / 2;
    let ghost all = sorted@;
    let far_pairs = sorted.split_off(half);
    let radius_sq = far_pairs[0].0;
    let near_idx = points_of(&sorted);
    let far_idx = points_of(&far_pairs);
    proof {
        assert forall|q: SearchIdx| #[trigger] near_idx@.contains(q) implies (q.ind as int) < weights@.len() by {
            {
                let j = choose|j: int| 0 <= j < sorted@.len() && (#[trigger] sorted@[j]).1 == q;
                assert(all[j].1 == q);
                assert(has_point(all, q));
                assert(orig.contains(q));
            }
        }
        assert forall|q: SearchIdx| #[trigger] far_idx@.contains(q) implies (q.ind as int) < weights@.len() by {
            {
                let j = choose|j: int| 0 <= j < far_pairs@.len() && (#[trigger] far_pairs@[j]).1 == q;
                assert(all[half + j].1 == q);
                assert(has_point(all, q));
                assert(orig.contains(q));
            }
        }
    }
    let near = build(near_idx, weights);
    let far = build(far_idx, weights);
    let node = SearchNode { ind: vp, near, far, rest: Vec::new(), radius_sq };
    proof {
        match &node.near {
            Some(nb) => {
                assert forall|q: SearchIdx| #[trigger] node_holds(**nb, q) implies dist_sq(vp.color, q.color) <= radius_sq by {
                    let j = choose|j: int| 0 <= j < sorted@.len() && (#[trigger] sorted@[j]).1 == q;
                    assert(all[j].0 <= all[half as int].0);
                }
            },
            None => {},
        }
        match &node.far {
            Some(fb) => {
                assert forall|q: SearchIdx| #[trigger] node_holds(**fb, q) implies dist_sq(vp.color, q.color) >= radius_sq by {
                    let j = choose|j: int| 0 <= j < far_pairs@.len() && (#[trigger] far_pairs@[j]).1 == q;
                    assert(all[half as int].0 <= all[half + j].0);
                }
            },
            None => {},
        }
        assert forall|q: SearchIdx| node_holds(node, q) <==> orig.contains(q) by {
            let in_near = match &node.near {
                Some(nb) => node_holds(**nb, q),
                None => false,
            };
            let in_far = match &node.far {
                Some(fb) => node_holds(**fb, q),
                None => false,
            };
            assert(in_near <==> near_idx@.contains(q));
            assert(in_far <==> far_idx@.contains(q));
            assert(!node.rest@.contains(q));
            assert(node_holds(node, q) <==> (q == vp || in_near || in_far));
            assert(indexes@.contains(q) <==> has_point(all, q));
            if has_point(all, q) {
                let j = choose|j: int| 0 <= j < all.len() && (#[trigger] all[j]).1 == q;
                if j < half {
                    assert(sorted@[j].1 == q);
                    assert(near_idx@.contains(q));
                } else {
                    assert(far_pairs@[j - half].1 == q);
                    assert(far_idx@.contains(q));
                }
            }
            if near_idx@.contains(q) {
                let j = choose|j: int| 0 <= j < sorted@.len() && (#[trigger] sorted@[j]).1 == q;
                assert(all[j].1 == q);
            }
            if far_idx@.contains(q) {
                let j = choose|j: int| 0 <= j < far_pairs@.len() && (#[trigger] far_pairs@[j]).1 == q;
                assert(all[half + j].1 == q);
            }
        }
    }
    proof {
        let nb = node.near->0;
        let fb = node.far->0;
        assert(node_size(*nb) == half);
        assert(node_size(*fb) == m - half);
        assert(node_size(node) == n);
        assert(far_idx@[0] == far_pairs@[0].1);
        assert(far_idx@.contains(far_pairs@[0].1));
        assert(node_holds(*fb, far_pairs@[0].1));
        assert(all[half as int] == far_pairs@[0]);
        assert(dist_sq(vp.color, far_pairs@[0].1.color) == radius_sq);
        assert(node_shaped(node, weights@));
        lemma_depth_bound_mono(half as int, n as int / 2);
        lemma_depth_bound_mono(m - half, n as int / 2);
        assert(node_depth(node) <= depth_bound(n as int));
    }
    Some(Box::new(node))
}

/// Vantage-point index over the colors of a palette, each point weighted so
/// that frequently used colors sit near the root.
pub struct SearchTree {
    root: Option<Box<SearchNode>>,
}

impl SearchTree {
    /// The tree holds point `q`.
    pub closed spec fn holds(&self, q: SearchIdx) -> bool {
        match self.root {
            Some(n) => node_holds(*n, q),
            None => false,
        }
    }

    pub closed spec fn wf(&self) -> bool {
        match self.root {
            Some(n) => node_wf(*n),
            None => true,
        }
    }

    /// Every node has the layout of [`node_shaped`] for `weights`.
    pub closed spec fn shaped(&self, weights: Seq<u32>) -> bool {
        match self.root {
            Some(n) => node_shaped(*n, weights),
            None => true,
        }
    }

    /// Number of levels of the tree.
    pub closed spec fn depth(&self) -> nat {
        match self.root {
            Some(n) => node_depth(*n),
            None => 0,
        }
    }

    /// The vantage point at the root.
    pub closed spec fn vantage(&self) -> Option<SearchIdx> {
        match self.root {
            Some(n) => Some(n.ind),
            None => None,
        }
    }

    /// Builds the tree over `data`, point `k` carrying index `k` and weight
    /// `weights[k]`.
    pub fn new(data: &Vec<Color>, weights: &Vec<u32>) -> (t: SearchTree)
        requires
            data@.len() <= 256,
            weights@.len() >= data@.len(),
        ensures
            t.wf(),
            forall|q: SearchIdx| #[trigger]
                t.holds(q) <==> (q.ind as int) < data@.len() && q.color == data@[q.ind as int],
            t.shaped(weights@),
            t.depth() <= 8,
            data@.len() == 0 <==> t.vantage() is None,
            t.vantage() matches Some(v) ==> (forall|j: int|
                0 <= j < data@.len() ==> #[trigger] weights@[j] <= weights@[v.ind as int]) && (forall|j: int|
                0 <= j < v.ind ==> #[trigger] weights@[j] < weights@[v.ind as int]),
    {
        let mut indexes: Vec<SearchIdx> = Vec::new();
        let mut k: usize = 0;
        while k < data.len()
            invariant
                k <= data@.len() <= 256,
                indexes@.len() == k,
                forall|j: int| 0 <= j < k ==> #[trigger] indexes@[j] == (SearchIdx { ind: j as u8, color: data@[j] }),
            decreases data@.len() - k,
        {
            indexes.push(SearchIdx { ind: k as u8, color: data[k] });
            k += 1;
        }
        let ghost idx = indexes@;
        proof {
            assert forall|q: SearchIdx| idx.contains(q) <==> (q.ind as int) < data@.len() && q.color
                == data@[q.ind as int] by {
                if idx.contains(q) {
                    let j = choose|j: int| 0 <= j < idx.len() && idx[j] == q;
                }
                if (q.ind as int) < data@.len() && q.color == data@[q.ind as int] {
                    assert(idx[q.ind as int] == q);
                }
            }
        }
        let root = build(indexes, weights);
        proof {
            lemma_depth_bound_mono(idx.len() as int, 256);
            assert(depth_bound(4) == 1);
            assert(depth_bound(8) == 2);
            assert(depth_bound(16) == 3);
            assert(depth_bound(32) == 4);
            assert(depth_bound(64) == 5);
            assert(depth_bound(128) == 6);
            assert(depth_bound(256) == 7);
            match &root {
                Some(n) => {
                    let p = choose|p: int| first_heaviest(idx, weights@, p) && n.ind == idx[p];
                    assert forall|j: int| 0 <= j < data@.len() implies #[trigger] weights@[j] <= weights@[n.ind.ind as int] by {
                        assert(idx[j].ind as int == j);
                    }
                    assert forall|j: int| 0 <= j < n.ind.ind implies #[trigger] weights@[j] < weights@[n.ind.ind as int] by {
                        assert(idx[j].ind as int == j);
                        assert(idx[p].ind as int == p);
                    }
                },
                None => {},
            }
        }
        SearchTree { root }
    }

    /// The held point nearest to `pin`, the one of least index among equally
    /// near points; `None` for an empty tree.
    pub fn find_nearest(&self, pin: Color) -> (r: Option<SearchIdx>)
        requires
            self.wf(),
        ensures
            r is None ==> forall|q: SearchIdx| !self.holds(q),
            r matches Some(n) ==> self.holds(n) && forall|q: SearchIdx|
                #[trigger] self.holds(q) ==> point_key(n, pin) <= point_key(q, pin),
    {
        match &self.root {
            Some(node) => {
                let mut best: Option<(SearchIdx, u32)> = None;
                visit(node, pin, &mut best);
                match best {
                    Some(b) => Some(b.0),
                    None => None,
                }
            },
            None => None,
        }
    }
}

} // verus!