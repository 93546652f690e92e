//! The obstacle scene and the swept intersection query.
//!
//! An obstacle is a half space: the points `x` with `normal . x < offset`
//! are solid, the free side satisfies `normal . x >= offset`, and
//! `clearance = normal . x - offset` measures how far the mover stands from
//! the surface along the outward unit normal.  A mover with a spherical
//! collision shape of support radius `r` sweeps like a point against planes
//! whose offsets are inflated by `r`.
//!
//! [`cast`] sweeps a point from `x` along the displacement `w`, whose
//! booked scalar length is `k`, and reports the nearest surface whose time
//! of impact lies within `reach` (the travel distance plus the skin width).
//! Times of impact are exact rational values rounded toward zero and
//! clamped to zero, so a surface already inside the skin margin is reported
//! at once rather than ignored.

use vstd::prelude::*;
use crate::num::div_tz;
use crate::num::div_trunc;
use crate::num::lemma_div_tz_ge_neg;
use crate::num::lemma_div_tz_le;
use crate::num::lemma_div_tz_mul_back;
use crate::num::lemma_div_tz_neg;
use vstd::arithmetic::div_mod::lemma_div_pos_is_pos;
use crate::vec3::Vec3;
use crate::vec3::V3;
use crate::vec3::bounded;
use crate::vec3::is_unit;
use crate::vec3::vadd;
use crate::vec3::vdot;
use crate::vec3::dot3;
use crate::vec3::lemma_mul_bound;
use crate::vec3::lemma_unit_axis;
use crate::vec3::lemma_vdot_unit_bound;

verus! {

/// Mathematical model of an obstacle plane.
pub ghost struct PlaneG {
    pub normal: V3,
    pub offset: int,
}

/// One half-space obstacle: solid where `normal . x < offset`.
#[derive(Clone, Copy, PartialEq, Eq, Structural, Debug)]
pub struct Plane {
    /// Outward unit normal of the surface.
    pub normal: Vec3,
    /// Surface offset: the surface is `{ x : normal . x == offset }`.
    pub offset: i64,
}

impl View for Plane {
    type V = PlaneG;

    open spec fn view(&self) -> PlaneG {
        PlaneG { normal: self.normal@, offset: self.offset as int }
    }
}

/// The static obstacles a resolution pass sweeps against.
pub struct Scene {
    pub planes: Vec<Plane>,
}

impl View for Scene {
    type V = Seq<PlaneG>;

    open spec fn view(&self) -> Seq<PlaneG> {
        Seq::new(self.planes@.len(), |i: int| self.planes@[i]@)
    }
}

/// Signed distance of `x` from the surface of `p`, along the outward
/// normal; nonnegative exactly on the free side.
pub open spec fn clearance(p: PlaneG, x: V3) -> int {
    vdot(p.normal, x) - p.offset
}

/// Rate of approach of displacement `w` toward the solid side of `p`;
/// positive when the motion drives into the surface.
pub open spec fn approach(p: PlaneG, w: V3) -> int {
    -vdot(p.normal, w)
}

/// Travel distance, in units of the booked length `k` of `w`, after which
/// the sweep from `x` along `w` reaches the surface of `p`; rounded toward
/// zero and clamped to zero for a start already inside the skin margin.
pub open spec fn toi_of(p: PlaneG, x: V3, w: V3, k: int) -> int
    recommends
        approach(p, w) > 0,
        k >= 1,
{
    let t = div_tz(clearance(p, x) * k, approach(p, w));
    if t >= 0 {
        t
    } else {
        0
    }
}

/// Every plane has a unit normal and an offset within the coordinate
/// budget.
pub open spec fn scene_wf(s: Seq<PlaneG>) -> bool {
    forall|i: int| 0 <= i < s.len() ==> is_unit(#[trigger] s[i].normal)
        && -1_000_000_000 <= s[i].offset <= 1_000_000_000
}

/// The pose `x` is on the free side of every obstacle, up to `margin`.
pub open spec fn clear_of(s: Seq<PlaneG>, x: V3, margin: int) -> bool {
    forall|i: int| 0 <= i < s.len() ==> clearance(#[trigger] s[i], x) >= -margin
}

/// No obstacle stands within the swept travel distance plus the skin.
pub open spec fn free_path(s: Seq<PlaneG>, x: V3, w: V3, k: int, reach: int) -> bool {
    forall|i: int| 0 <= i < s.len() && approach(#[trigger] s[i], w) > 0 ==> toi_of(s[i], x,
    w, k) > reach
}

/// The approached plane with the least time of impact among the first `i`
/// planes, preferring the earliest-listed on ties — the plane a
/// left-to-right scan retains.
pub open spec fn best_upto(s: Seq<PlaneG>, x: V3, w: V3, k: int, i: int) -> Option<int>
    decreases i,
{
    if i <= 0 {
        None
    } else {
        let prev = best_upto(s, x, w, k, i - 1);
        if approach(s[i - 1], w) <= 0 {
            prev
        } else {
            match prev {
                Option::None => Some(i - 1),
                Option::Some(j) => if toi_of(s[i - 1], x, w, k) < toi_of(s[j], x, w, k) {
                    Some(i - 1)
                } else {
                    Some(j)
                },
            }
        }
    }
}

/// A scan of the first `i` planes retains an index among them.
pub proof fn lemma_best_upto_range(s: Seq<PlaneG>, x: V3, w: V3, k: int, i: int)
    requires
        0 <= i,
    ensures
        match best_upto(s, x, w, k, i) {
            Option::Some(j) => 0 <= j < i,
            Option::None => true,
        },
    decreases i,
{
    if i > 0 {
        lemma_best_upto_range(s, x, w, k, i - 1);
    }
}

/// The plane a sweep of the whole scene reports: the nearest approached
/// plane, provided its time of impact lies within `reach`.
pub open spec fn sweep_index(s: Seq<PlaneG>, x: V3, w: V3, k: int, reach: int) -> Option<
    int,
> {
    match best_upto(s, x, w, k, s.len() as int) {
        Option::None => None,
        Option::Some(j) => if toi_of(s[j], x, w, k) <= reach {
            Some(j)
        } else {
            None
        },
    }
}

/// The nearest surface met by a sweep.
#[derive(Clone, Copy, PartialEq, Eq, Structural, Debug)]
pub struct SweepHit {
    /// Outward unit normal of the surface that was struck.
    pub normal: Vec3,
    /// Travel distance to the struck surface, clamped to zero.
    pub toi: i64,
}

/// Dot products distribute over vector addition.
pub proof fn lemma_vdot_add(a: V3, b: V3, c: V3)
    ensures
        vdot(a, vadd(b, c)) == vdot(a, b) + vdot(a, c),
{
    assert(a.x * (b.x + c.x) == a.x * b.x + a.x * c.x) by (nonlinear_arith);
    assert(a.y * (b.y + c.y) == a.y * b.y + a.y * c.y) by (nonlinear_arith);
    assert(a.z * (b.z + c.z) == a.z * b.z + a.z * c.z) by (nonlinear_arith);
}

/// Sweep a point from `x` along `w` and report the nearest approached
/// surface within `reach`, preferring the earliest-listed plane on ties.
pub fn cast(scene: &Scene, x: &Vec3, w: &Vec3, k: i64, reach: i64) -> (r: Option<SweepHit>)
    requires
        scene_wf(scene@),
        1 <= k <= 2_000_000_000,
        0 <= reach,
        bounded(x@, 500_000_000),
        bounded(w@, 500_000_000),
    ensures
        match r {
            Option::None => sweep_index(scene@, x@, w@, k as int, reach as int) is None,
            Option::Some(h) => match sweep_index(scene@, x@, w@, k as int, reach as int) {
                Option::None => false,
                Option::Some(idx) => h.normal@ == scene@[idx].normal && h.toi == toi_of(
                scene@[idx], x@, w@, k as int),
            },
        },
        match r {
            Option::None => free_path(scene@, x@, w@, k as int, reach as int),
            Option::Some(h) => {
                &&& 0 <= h.toi <= reach
                &&& is_unit(h.normal@)
                &&& exists|i: int|
                    {
                        &&& 0 <= i < scene@.len()
                        &&& approach(#[trigger] scene@[i], w@) > 0
                        &&& h.normal@ == scene@[i].normal
                        &&& h.toi == toi_of(scene@[i], x@, w@, k as int)
                        &&& forall|j: int|
                            0 <= j < i && approach(#[trigger] scene@[j], w@) > 0
                                ==> toi_of(scene@[j], x@, w@, k as int) > h.toi
                    }
                &&& forall|j: int|
                    0 <= j < scene@.len() && approach(#[trigger] scene@[j], w@) > 0
                        ==> toi_of(scene@[j], x@, w@, k as int) >= h.toi
                &&& !free_path(scene@, x@, w@, k as int, reach as int)
            },
        },
{
    let n = scene.planes.len();
    let mut best: Option<SweepHit> = Option::None;
    let ghost mut best_i: int = 0;
    let mut i: usize = 0;
    while i < n
        invariant
            n == scene@.len(),
            scene_wf(scene@),
            1 <= k <= 2_000_000_000,
            0 <= reach,
            bounded(x@, 500_000_000),
            bounded(w@, 500_000_000),
            i <= n,
            match best {
                Option::None => best_upto(scene@, x@, w@, k as int, i as int) is None
                    && forall|j: int| 0 <= j < i ==> approach(#[trigger] scene@[j], w@)
                    <= 0,
                Option::Some(b) => {
                    &&& best_upto(scene@, x@, w@, k as int, i as int) == Some(best_i)
                    &&& 0 <= b.toi
                    &&& 0 <= best_i < i
                    &&& approach(scene@[best_i], w@) > 0
                    &&& b.normal@ == scene@[best_i].normal
                    &&& b.toi == toi_of(scene@[best_i], x@, w@, k as int)
                    &&& forall|j: int|
                        0 <= j < best_i && approach(#[trigger] scene@[j], w@) > 0
                            ==> toi_of(scene@[j], x@, w@, k as int) > b.toi
                    &&& forall|j: int|
                        0 <= j < i && approach(#[trigger] scene@[j], w@) > 0 ==> toi_of(
                        scene@[j], x@, w@, k as int) >= b.toi
                },
            },
        decreases n - i,
    {
        let p = scene.planes[i];
        proof {
            assert(scene@[i as int] == p@);
            assert(is_unit(scene@[i as int].normal));
            lemma_unit_axis(p.normal@);
            lemma_vdot_unit_bound(p.normal@, w@, 500_000_000);
            lemma_vdot_unit_bound(p.normal@, x@, 500_000_000);
        }
        let e = dot3(&p.normal, w);
        if e < 0 {
            let d = -e;
            let c = dot3(&p.normal, x) - p.offset;
            proof {
                lemma_mul_bound(c as int, k as int, 1_500_000_000, 2_000_000_000);
            }
            let q = div_trunc(c * k, d);
            let toi: i64 = if q >= 0 {
                q
            } else {
                0
            };
            let take: bool = match best {
                Option::None => true,
                Option::Some(b) => toi < b.toi,
            };
            if take {
                best = Option::Some(SweepHit { normal: p.normal, toi });
                proof {
                    best_i = i as int;
                }
            }
        }
        i = i + 1;
    }
    match best {
        Option::None => Option::None,
        Option::Some(b) => {
            if b.toi <= reach {
                proof {
                    if free_path(scene@, x@, w@, k as int, reach as int) {
                        assert(toi_of(scene@[best_i], x@, w@, k as int) > reach);
                    }
                }
                Option::Some(b)
            } else {
                Option::None
            }
        },
    }
}

/// Partial advance along `w`: the fraction `m / k` of the displacement,
/// each coordinate rounded toward zero.
pub open spec fn advance_of(w: V3, m: int, k: int) -> V3
    recommends
        k >= 1,
{
    V3 { x: div_tz(w.x * m, k), y: div_tz(w.y * m, k), z: div_tz(w.z * m, k) }
}

/// Compute the partial advance `w * m / k`, rounding toward zero.
pub fn advance3(w: &Vec3, m: i64, k: i64) -> (r: Vec3)
    requires
        1 <= k,
        bounded(w@, 1_000_000_000),
        -2_000_000_000 <= m <= 2_000_000_000,
    ensures
        r@ == advance_of(w@, m as int, k as int),
{
    proof {
        lemma_mul_bound(w@.x, m as int, 1_000_000_000, 2_000_000_000);
        lemma_mul_bound(w@.y, m as int, 1_000_000_000, 2_000_000_000);
        lemma_mul_bound(w@.z, m as int, 1_000_000_000, 2_000_000_000);
    }
    Vec3 { x: div_trunc(w.x * m, k), y: div_trunc(w.y * m, k), z: div_trunc(w.z * m, k) }
}

/// A forward partial advance stays between zero and the full displacement,
/// coordinate by coordinate.
pub proof fn lemma_advance_within(w: V3, m: int, k: int)
    requires
        1 <= k,
        0 <= m <= k,
    ensures
        w.x >= 0 ==> 0 <= advance_of(w, m, k).x <= w.x,
        w.x <= 0 ==> w.x <= advance_of(w, m, k).x <= 0,
        w.y >= 0 ==> 0 <= advance_of(w, m, k).y <= w.y,
        w.y <= 0 ==> w.y <= advance_of(w, m, k).y <= 0,
        w.z >= 0 ==> 0 <= advance_of(w, m, k).z <= w.z,
        w.z <= 0 ==> w.z <= advance_of(w, m, k).z <= 0,
{
    lemma_advance_within_coord(w.x, m, k);
    lemma_advance_within_coord(w.y, m, k);
    lemma_advance_within_coord(w.z, m, k);
}

proof fn lemma_advance_within_coord(c: int, m: int, k: int)
    requires
        1 <= k,
        0 <= m <= k,
    ensures
        c >= 0 ==> 0 <= div_tz(c * m, k) <= c,
        c <= 0 ==> c <= div_tz(c * m, k) <= 0,
{
    if c >= 0 {
        assert(0 <= c * m <= c * k) by (nonlinear_arith)
            requires
                c >= 0,
                0 <= m <= k,
        ;
        lemma_div_pos_is_pos(c * m, k);
        lemma_div_tz_le(c * m, c, k);
    } else {
        assert(-((-c) * k) <= c * m <= 0) by (nonlinear_arith)
            requires
                c < 0,
                0 <= m <= k,
        ;
        lemma_div_tz_ge_neg(c * m, -c, k);
        lemma_div_tz_le(c * m, 0, k);
    }
}

/// A partial advance with `|m| <= c` moves no coordinate by more than `c`
/// when every coordinate of `w` is within the booked length `k`.
pub proof fn lemma_advance_bound(w: V3, m: int, k: int, c: int)
    requires
        1 <= k,
        bounded(w, k),
        -c <= m <= c,
        0 <= c,
    ensures
        bounded(advance_of(w, m, k), c),
{
    lemma_advance_bound_coord(w.x, m, k, c);
    lemma_advance_bound_coord(w.y, m, k, c);
    lemma_advance_bound_coord(w.z, m, k, c);
}

proof fn lemma_advance_bound_coord(a: int, m: int, k: int, c: int)
    requires
        1 <= k,
        -k <= a <= k,
        -c <= m <= c,
        0 <= c,
    ensures
        -c <= div_tz(a * m, k) <= c,
{
    assert(-(c * k) <= a * m <= c * k) by (nonlinear_arith)
        requires
            -k <= a <= k,
            -c <= m <= c,
            0 <= c,
            1 <= k,
    ;
    lemma_div_tz_le(a * m, c, k);
    lemma_div_tz_ge_neg(a * m, c, k);
}

/// How one partial advance changes the clearance of an obstacle plane.
///
/// For a plane being approached, the advance is bounded by the plane's own
/// time of impact, so a nonnegative clearance stays nonnegative; a backward
/// advance (time of impact inside the skin margin) can reduce the clearance
/// of a receding plane by at most the skin width `s`.
pub proof fn lemma_clearance_step(p: PlaneG, x: V3, w: V3, m: int, k: int, s: int)
    requires
        is_unit(p.normal),
        1 <= k,
        bounded(w, k),
        0 <= s,
        -s <= m <= k,
        approach(p, w) > 0 ==> m <= toi_of(p, x, w, k),
    ensures
        clearance(p, vadd(x, advance_of(w, m, k))) >= (if clearance(p, x) < 0 {
            clearance(p, x)
        } else {
            0
        }) - (if m < 0 {
            s
        } else {
            0
        }),
{
    let n = p.normal;
    let e = vdot(n, w);
    let clr = clearance(p, x);
    let adv = advance_of(w, m, k);
    lemma_vdot_add(n, x, adv);
    lemma_vdot_advance(n, w, m, k);
    lemma_vdot_unit_bound(n, w, k);
    if e < 0 {
        let d = -e;
        if m >= 0 {
            let q = div_tz(clr * k, d);
            if clr >= 0 {
                assert(clr * k >= 0) by (nonlinear_arith)
                    requires
                        clr >= 0,
                        k >= 1,
                ;
                lemma_div_pos_is_pos(clr * k, d);
                lemma_div_tz_mul_back(clr * k, d);
                lemma_div_tz_neg(d * m, k);
                assert(e * m == -(d * m)) by (nonlinear_arith)
                    requires
                        e == -d,
                ;
                assert(d * m <= q * d) by (nonlinear_arith)
                    requires
                        m <= q,
                        d > 0,
                ;
                assert(q * d == d * q) by (nonlinear_arith);
                lemma_div_tz_le(d * m, clr, k);
            } else {
                assert(clr * k < 0) by (nonlinear_arith)
                    requires
                        clr < 0,
                        k >= 1,
                ;
                lemma_div_pos_is_pos(-(clr * k), d);
                assert(m == 0);
                assert(e * m == 0) by (nonlinear_arith)
                    requires
                        m == 0,
                ;
                lemma_div_tz_le(0, 0, k);
                lemma_div_tz_ge_neg(0, 0, k);
            }
        } else {
            assert(e * m >= 0) by (nonlinear_arith)
                requires
                    e < 0,
                    m < 0,
            ;
            lemma_div_pos_is_pos(e * m, k);
        }
    } else {
        if m >= 0 {
            assert(e * m >= 0) by (nonlinear_arith)
                requires
                    e >= 0,
                    m >= 0,
            ;
            lemma_div_pos_is_pos(e * m, k);
        } else {
            assert(-(s * k) <= e * m) by (nonlinear_arith)
                requires
                    0 <= e <= k,
                    -s <= m,
                    m < 0,
                    0 <= s,
                    1 <= k,
            ;
            lemma_div_tz_ge_neg(e * m, s, k);
        }
    }
}

/// Advancing the full displacement past no reported obstacle keeps every
/// approached plane clear; receding planes only gain clearance.
pub proof fn lemma_no_hit_step(p: PlaneG, x: V3, w: V3, k: int)
    requires
        1 <= k,
        approach(p, w) > 0 ==> toi_of(p, x, w, k) > k,
    ensures
        clearance(p, vadd(x, w)) >= (if clearance(p, x) < 0 {
            clearance(p, x)
        } else {
            0
        }),
{
    let n = p.normal;
    let e = vdot(n, w);
    let clr = clearance(p, x);
    lemma_vdot_add(n, x, w);
    if e < 0 {
        let d = -e;
        let q = div_tz(clr * k, d);
        if clr * k <= 0 {
            lemma_div_tz_le(clr * k, 0, d);
            assert(false);
        }
        assert(clr > 0) by (nonlinear_arith)
            requires
                clr * k > 0,
                k >= 1,
        ;
        lemma_div_tz_mul_back(clr * k, d);
        assert(clr > d) by (nonlinear_arith)
            requires
                q * d <= clr * k,
                q >= k + 1,
                d >= 1,
                k >= 1,
        ;
    }
}

/// The coordinate of a partial advance along a unit normal is the advance
/// of the displacement's own coordinate along that normal.
pub proof fn lemma_vdot_advance(n: V3, w: V3, m: int, k: int)
    requires
        is_unit(n),
        1 <= k,
    ensures
        vdot(n, advance_of(w, m, k)) == div_tz(vdot(n, w) * m, k),
{
    lemma_unit_axis(n);
    let adv = advance_of(w, m, k);
    if n.x == 1 {
        assert(n.x * adv.x + n.y * adv.y + n.z * adv.z == adv.x && n.x * w.x + n.y * w.y
            + n.z * w.z == w.x) by (nonlinear_arith)
            requires
                n.x == 1 && n.y == 0 && n.z == 0,
        ;
    } else if n.x == -1 {
        assert(n.x * adv.x + n.y * adv.y + n.z * adv.z == -adv.x && n.x * w.x + n.y * w.y
            + n.z * w.z == -w.x && (-w.x) * m == -(w.x * m)) by (nonlinear_arith)
            requires
                n.x == -1 && n.y == 0 && n.z == 0,
        ;
        lemma_div_tz_neg(w.x * m, k);
    } else if n.y == 1 {
        assert(n.x * adv.x + n.y * adv.y + n.z * adv.z == adv.y && n.x * w.x + n.y * w.y
            + n.z * w.z == w.y) by (nonlinear_arith)
            requires
                n.x == 0 && n.y == 1 && n.z == 0,
        ;
    } else if n.y == -1 {
        assert(n.x * adv.x + n.y * adv.y + n.z * adv.z == -adv.y && n.x * w.x + n.y * w.y
            + n.z * w.z == -w.y && (-w.y) * m == -(w.y * m)) by (nonlinear_arith)
            requires
                n.x == 0 && n.y == -1 && n.z == 0,
        ;
        lemma_div_tz_neg(w.y * m, k);
    } else if n.z == 1 {
        assert(n.x * adv.x + n.y * adv.y + n.z * adv.z == adv.z && n.x * w.x + n.y * w.y
            + n.z * w.z == w.z) by (nonlinear_arith)
            requires
                n.x == 0 && n.y == 0 && n.z == 1,
        ;
    } else {
        assert(n.x * adv.x + n.y * adv.y + n.z * adv.z == -adv.z && n.x * w.x + n.y * w.y
            + n.z * w.z == -w.z && (-w.z) * m == -(w.z * m)) by (nonlinear_arith)
            requires
                n.x == 0 && n.y == 0 && n.z == -1,
        ;
        lemma_div_tz_neg(w.z * m, k);
    }
}

} // verus!
