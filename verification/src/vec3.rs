//! Exact 3D vector arithmetic on `i64` coordinates.
//!
//! Executable vectors are triples of `i64`; their mathematical model is the
//! ghost triple [`V3`] of unbounded integers, and every operation's contract
//! states the model of its result exactly.  Obstacle normals are unit
//! vectors; over the integers a unit vector is one of the six signed axis
//! directions, and the lemmas below exploit that to show that clipping a
//! velocity never grows any of its components.

use vstd::prelude::*;

verus! {

/// Mathematical model of a vector: a triple of unbounded integers.
pub ghost struct V3 {
    pub x: int,
    pub y: int,
    pub z: int,
}

/// An executable vector with exact fixed-point coordinates.  The caller
/// picks the resolution unit (for example milliunits).
#[derive(Clone, Copy, PartialEq, Eq, Structural, Debug)]
pub struct Vec3 {
    pub x: i64,
    pub y: i64,
    pub z: i64,
}

impl View for Vec3 {
    type V = V3;

    open spec fn view(&self) -> V3 {
        V3 { x: self.x as int, y: self.y as int, z: self.z as int }
    }
}

pub open spec fn fits(x: int) -> bool {
    -9223372036854775808 <= x && x <= 9223372036854775807
}

pub open spec fn v3_zero() -> V3 {
    V3 { x: 0, y: 0, z: 0 }
}

pub open spec fn vadd(a: V3, b: V3) -> V3 {
    V3 { x: a.x + b.x, y: a.y + b.y, z: a.z + b.z }
}

pub open spec fn vsub(a: V3, b: V3) -> V3 {
    V3 { x: a.x - b.x, y: a.y - b.y, z: a.z - b.z }
}

pub open spec fn vscale(a: V3, k: int) -> V3 {
    V3 { x: a.x * k, y: a.y * k, z: a.z * k }
}

pub open spec fn vdot(a: V3, b: V3) -> int {
    a.x * b.x + a.y * b.y + a.z * b.z
}

pub open spec fn vcross(a: V3, b: V3) -> V3 {
    V3 {
        x: a.y * b.z - a.z * b.y,
        y: a.z * b.x - a.x * b.z,
        z: a.x * b.y - a.y * b.x,
    }
}

/// The input velocity with its component along the unit normal `n` removed.
pub open spec fn vreject(v: V3, n: V3) -> V3 {
    vsub(v, vscale(n, vdot(v, n)))
}

/// Every coordinate of `v` lies within `b` of zero.
pub open spec fn bounded(v: V3, b: int) -> bool {
    -b <= v.x <= b && -b <= v.y <= b && -b <= v.z <= b
}

pub open spec fn iabs(a: int) -> int {
    if a >= 0 {
        a
    } else {
        -a
    }
}

/// No coordinate of `a` exceeds the matching coordinate of `b` in
/// magnitude.
pub open spec fn dominated(a: V3, b: V3) -> bool {
    iabs(a.x) <= iabs(b.x) && iabs(a.y) <= iabs(b.y) && iabs(a.z) <= iabs(b.z)
}

/// A unit vector over the integers.
pub open spec fn is_unit(n: V3) -> bool {
    vdot(n, n) == 1
}

/// The six signed coordinate directions.
pub open spec fn axis_unit(n: V3) -> bool {
    ||| (n.x == 1 || n.x == -1) && n.y == 0 && n.z == 0
    ||| n.x == 0 && (n.y == 1 || n.y == -1) && n.z == 0
    ||| n.x == 0 && n.y == 0 && (n.z == 1 || n.z == -1)
}

/// An integer unit vector is a signed coordinate direction.
pub proof fn lemma_unit_axis(n: V3)
    requires
        is_unit(n),
    ensures
        axis_unit(n),
{
    assert(-1 <= n.x <= 1 && -1 <= n.y <= 1 && -1 <= n.z <= 1) by (nonlinear_arith)
        requires
            n.x * n.x + n.y * n.y + n.z * n.z == 1,
    ;
    assert(axis_unit(n)) by (nonlinear_arith)
        requires
            -1 <= n.x <= 1,
            -1 <= n.y <= 1,
            -1 <= n.z <= 1,
            n.x * n.x + n.y * n.y + n.z * n.z == 1,
    ;
}

/// Bound on a product from bounds on its factors.
pub proof fn lemma_mul_bound(x: int, y: int, bx: int, by: int)
    requires
        -bx <= x <= bx,
        -by <= y <= by,
        0 <= bx,
        0 <= by,
    ensures
        -(bx * by) <= x * y <= bx * by,
{
    assert(-(bx * by) <= x * y <= bx * by) by (nonlinear_arith)
        requires
            -bx <= x <= bx,
            -by <= y <= by,
            0 <= bx,
            0 <= by,
    ;
}

/// Dot products scale linearly: `(c * t) . w == t * (c . w)`.
pub proof fn lemma_vdot_scale(c: V3, t: int, w: V3)
    ensures
        vdot(vscale(c, t), w) == t * vdot(c, w),
{
    assert(c.x * t * w.x == t * (c.x * w.x)) by (nonlinear_arith);
    assert(c.y * t * w.y == t * (c.y * w.y)) by (nonlinear_arith);
    assert(c.z * t * w.z == t * (c.z * w.z)) by (nonlinear_arith);
    assert(t * (c.x * w.x) + t * (c.y * w.y) + t * (c.z * w.z) == t * (c.x * w.x + c.y * w.y
        + c.z * w.z)) by (nonlinear_arith);
}

/// A dot product with a unit vector picks one coordinate up to sign, so it
/// obeys any bound the coordinates obey.
pub proof fn lemma_vdot_unit_bound(n: V3, v: V3, b: int)
    requires
        is_unit(n),
        bounded(v, b),
    ensures
        -b <= vdot(n, v) <= b,
{
    lemma_unit_axis(n);
    assert(-b <= n.x * v.x + n.y * v.y + n.z * v.z <= b) by (nonlinear_arith)
        requires
            axis_unit(n),
            -b <= v.x <= b,
            -b <= v.y <= b,
            -b <= v.z <= b,
    ;
}

/// Rejecting from a unit normal zeroes the coordinate along the normal's
/// axis and leaves the two others untouched; hence it is perpendicular to
/// the normal, never grows a coordinate, and together with the removed
/// component restores the input exactly.
pub proof fn lemma_reject_unit(v: V3, n: V3)
    requires
        is_unit(n),
    ensures
        vreject(v, n) == (V3 {
            x: if n.x != 0 { 0int } else { v.x },
            y: if n.y != 0 { 0int } else { v.y },
            z: if n.z != 0 { 0int } else { v.z },
        }),
        vdot(vreject(v, n), n) == 0,
        vadd(vreject(v, n), vscale(n, vdot(v, n))) == v,
        forall|b: int| bounded(v, b) ==> bounded(vreject(v, n), b),
{
    lemma_unit_axis(n);
    let dd = vdot(v, n);
    assert(n.x * dd == (if n.x != 0 { v.x } else { 0int }) && n.y * dd == (if n.y != 0 {
        v.y
    } else {
        0int
    }) && n.z * dd == (if n.z != 0 { v.z } else { 0int })) by (nonlinear_arith)
        requires
            axis_unit(n),
            dd == v.x * n.x + v.y * n.y + v.z * n.z,
    ;
    assert((v.x - n.x * dd) * n.x + (v.y - n.y * dd) * n.y + (v.z - n.z * dd) * n.z == 0)
        by (nonlinear_arith)
        requires
            n.x * n.x + n.y * n.y + n.z * n.z == 1,
            dd == v.x * n.x + v.y * n.y + v.z * n.z,
    ;
}

/// The cross product of two unit vectors is zero or again a unit vector,
/// and it is perpendicular to both factors.
pub proof fn lemma_cross_unit(a: V3, b: V3)
    requires
        is_unit(a),
        is_unit(b),
    ensures
        vcross(a, b) == v3_zero() || is_unit(vcross(a, b)),
        vdot(vcross(a, b), a) == 0,
        vdot(vcross(a, b), b) == 0,
{
    lemma_unit_axis(a);
    lemma_unit_axis(b);
    let c = vcross(a, b);
    assert((c.x == 0 && c.y == 0 && c.z == 0) || c.x * c.x + c.y * c.y + c.z * c.z == 1)
        by (nonlinear_arith)
        requires
            axis_unit(a),
            axis_unit(b),
            c.x == a.y * b.z - a.z * b.y,
            c.y == a.z * b.x - a.x * b.z,
            c.z == a.x * b.y - a.y * b.x,
    ;
    assert((a.y * b.z - a.z * b.y) * a.x + (a.z * b.x - a.x * b.z) * a.y + (a.x * b.y - a.y
        * b.x) * a.z == 0) by (nonlinear_arith);
    assert((a.y * b.z - a.z * b.y) * b.x + (a.z * b.x - a.x * b.z) * b.y + (a.x * b.y - a.y
        * b.x) * b.z == 0) by (nonlinear_arith);
    assert(vdot(c, a) == (a.y * b.z - a.z * b.y) * a.x + (a.z * b.x - a.x * b.z) * a.y + (
    a.x * b.y - a.y * b.x) * a.z);
    assert(vdot(c, b) == (a.y * b.z - a.z * b.y) * b.x + (a.z * b.x - a.x * b.z) * b.y + (
    a.x * b.y - a.y * b.x) * b.z);
    if c.x == 0 && c.y == 0 && c.z == 0 {
        assert(c == v3_zero());
    }
}

/// Projecting onto a unit direction (or dropping to zero) keeps, on each
/// axis, either the projected vector's own coordinate or zero.
pub proof fn lemma_project_unit_bounded(c: V3, p: V3)
    requires
        c == v3_zero() || is_unit(c),
    ensures
        vscale(c, vdot(c, p)) == (V3 {
            x: if c.x != 0 { p.x } else { 0int },
            y: if c.y != 0 { p.y } else { 0int },
            z: if c.z != 0 { p.z } else { 0int },
        }),
        forall|b: int| bounded(p, b) ==> bounded(vscale(c, vdot(c, p)), b),
{
    if c != v3_zero() {
        lemma_unit_axis(c);
    }
    let dc = vdot(c, p);
    assert(c.x * dc == (if c.x != 0 { p.x } else { 0int }) && c.y * dc == (if c.y != 0 {
        p.y
    } else {
        0int
    }) && c.z * dc == (if c.z != 0 { p.z } else { 0int })) by (nonlinear_arith)
        requires
            axis_unit(c) || (c.x == 0 && c.y == 0 && c.z == 0),
            dc == c.x * p.x + c.y * p.y + c.z * p.z,
    ;
}

/// The squared length of a vector with coordinates within `b` is at most
/// `3 * b * b`, and never negative.
pub proof fn lemma_dot_self_bound(v: V3, b: int)
    requires
        bounded(v, b),
        0 <= b,
    ensures
        0 <= vdot(v, v) <= 3 * b * b,
{
    assert(0 <= v.x * v.x + v.y * v.y + v.z * v.z <= 3 * b * b) by (nonlinear_arith)
        requires
            -b <= v.x <= b,
            -b <= v.y <= b,
            -b <= v.z <= b,
            0 <= b,
    ;
}

/// A nonzero integer vector has squared length at least one.
pub proof fn lemma_nonzero_dot(v: V3)
    requires
        v != v3_zero(),
    ensures
        vdot(v, v) >= 1,
{
    assert(v.x * v.x + v.y * v.y + v.z * v.z >= 1) by (nonlinear_arith)
        requires
            !(v.x == 0 && v.y == 0 && v.z == 0),
    ;
}

/// The zero vector is orthogonal to everything.
pub proof fn lemma_zero_dot(v: V3, w: V3)
    requires
        v == v3_zero(),
    ensures
        vdot(v, w) == 0,
{
    assert(v.x * w.x + v.y * w.y + v.z * w.z == 0) by (nonlinear_arith)
        requires
            v.x == 0 && v.y == 0 && v.z == 0,
    ;
}

/// A rounded-down square root of a positive number is at least one.
pub proof fn lemma_sqrt_ge_one(n: int, r: int)
    requires
        1 <= n,
        0 <= r,
        r * r <= n,
        n < (r + 1) * (r + 1),
    ensures
        1 <= r,
{
    assert(1 <= r) by (nonlinear_arith)
        requires
            1 <= n,
            0 <= r,
            n < (r + 1) * (r + 1),
    ;
}

/// Every coordinate of a vector is within the rounded-down square root of
/// its squared length.
pub proof fn lemma_sqrt_components(v: V3, r: int)
    requires
        0 <= r,
        vdot(v, v) < (r + 1) * (r + 1),
    ensures
        bounded(v, r),
{
    assert(-r <= v.x <= r && -r <= v.y <= r && -r <= v.z <= r) by (nonlinear_arith)
        requires
            0 <= r,
            v.x * v.x + v.y * v.y + v.z * v.z < (r + 1) * (r + 1),
    ;
}

/// A rounded-down square root of a small number is small.
pub proof fn lemma_sqrt_small(r: int)
    requires
        0 <= r,
        r * r <= 300_000_000_000_000,
    ensures
        r <= 17_400_000,
{
    assert(r <= 17_400_000) by (nonlinear_arith)
        requires
            0 <= r,
            r * r <= 300_000_000_000_000,
    ;
}

impl Vec3 {
    pub open spec fn spec_zero() -> Vec3 {
        Vec3 { x: 0, y: 0, z: 0 }
    }

    pub fn zero() -> (r: Vec3)
        ensures
            r@ == v3_zero(),
            r == Vec3::spec_zero(),
    {
        Vec3 { x: 0, y: 0, z: 0 }
    }

    pub fn new(x: i64, y: i64, z: i64) -> (r: Vec3)
        ensures
            r@ == (V3 { x: x as int, y: y as int, z: z as int }),
    {
        Vec3 { x, y, z }
    }

    /// Whether all coordinates are zero.
    pub fn is_zero(&self) -> (r: bool)
        ensures
            r <==> self@ == v3_zero(),
    {
        self.x == 0 && self.y == 0 && self.z == 0
    }
}

pub fn add3(a: &Vec3, b: &Vec3) -> (r: Vec3)
    requires
        fits(a@.x + b@.x),
        fits(a@.y + b@.y),
        fits(a@.z + b@.z),
    ensures
        r@ == vadd(a@, b@),
{
    Vec3 { x: a.x + b.x, y: a.y + b.y, z: a.z + b.z }
}

pub fn sub3(a: &Vec3, b: &Vec3) -> (r: Vec3)
    requires
        fits(a@.x - b@.x),
        fits(a@.y - b@.y),
        fits(a@.z - b@.z),
    ensures
        r@ == vsub(a@, b@),
{
    Vec3 { x: a.x - b.x, y: a.y - b.y, z: a.z - b.z }
}

pub fn scale3(a: &Vec3, k: i64) -> (r: Vec3)
    requires
        fits(a@.x * k),
        fits(a@.y * k),
        fits(a@.z * k),
    ensures
        r@ == vscale(a@, k as int),
{
    Vec3 { x: a.x * k, y: a.y * k, z: a.z * k }
}

pub fn dot3(a: &Vec3, b: &Vec3) -> (r: i64)
    requires
        bounded(a@, 1_000_000_000),
        bounded(b@, 1_000_000_000),
    ensures
        r == vdot(a@, b@),
{
    proof {
        lemma_mul_bound(a@.x, b@.x, 1_000_000_000, 1_000_000_000);
        lemma_mul_bound(a@.y, b@.y, 1_000_000_000, 1_000_000_000);
        lemma_mul_bound(a@.z, b@.z, 1_000_000_000, 1_000_000_000);
    }
    a.x * b.x + a.y * b.y + a.z * b.z
}

pub fn cross3(a: &Vec3, b: &Vec3) -> (r: Vec3)
    requires
        bounded(a@, 1_000_000_000),
        bounded(b@, 1_000_000_000),
    ensures
        r@ == vcross(a@, b@),
{
    proof {
        lemma_mul_bound(a@.x, b@.x, 1_000_000_000, 1_000_000_000);
        lemma_mul_bound(a@.x, b@.y, 1_000_000_000, 1_000_000_000);
        lemma_mul_bound(a@.x, b@.z, 1_000_000_000, 1_000_000_000);
        lemma_mul_bound(a@.y, b@.x, 1_000_000_000, 1_000_000_000);
        lemma_mul_bound(a@.y, b@.y, 1_000_000_000, 1_000_000_000);
        lemma_mul_bound(a@.y, b@.z, 1_000_000_000, 1_000_000_000);
        lemma_mul_bound(a@.z, b@.x, 1_000_000_000, 1_000_000_000);
        lemma_mul_bound(a@.z, b@.y, 1_000_000_000, 1_000_000_000);
        lemma_mul_bound(a@.z, b@.z, 1_000_000_000, 1_000_000_000);
    }
    Vec3 {
        x: a.y * b.z - a.z * b.y,
        y: a.z * b.x - a.x * b.z,
        z: a.x * b.y - a.y * b.x,
    }
}

/// Remove from `v` its component along the unit normal `n`.
pub fn reject3(v: &Vec3, n: &Vec3) -> (r: Vec3)
    requires
        is_unit(n@),
        bounded(v@, 1_000_000_000),
    ensures
        r@ == vreject(v@, n@),
        forall|b: int| bounded(v@, b) ==> bounded(r@, b),
{
    proof {
        lemma_unit_axis(n@);
        lemma_reject_unit(v@, n@);
    }
    let d: i64 = dot3(v, n);
    let p: Vec3 = scale3(n, d);
    sub3(v, &p)
}

} // verus!
