//! The clip-plane accumulator.
//!
//! During one resolution pass the mover collects the unit normals of the
//! obstacle surfaces it has touched, up to a fixed capacity.  Given the
//! leftover velocity of the current bounce, the accumulator computes a slide
//! velocity that does not drive the mover back into any recorded surface:
//! it rejects the velocity from each recorded plane in recording order and,
//! when the candidate would re-enter another recorded plane (a crease), with
//! exactly two planes recorded it redirects the velocity along the planes'
//! line of intersection; any other crease count is ambiguous and aborts the
//! pass.  A slide velocity that points against the mover's original intent
//! stops the pass instead.

use vstd::prelude::*;
use crate::vec3::Vec3;
use crate::vec3::V3;
use crate::vec3::bounded;
use crate::vec3::is_unit;
use crate::vec3::vadd;
use crate::vec3::vcross;
use crate::vec3::vdot;
use crate::vec3::vreject;
use crate::vec3::vscale;
use crate::vec3::cross3;
use crate::vec3::dot3;
use crate::vec3::reject3;
use crate::vec3::scale3;
use crate::vec3::lemma_cross_unit;
use crate::vec3::lemma_mul_bound;
use crate::vec3::lemma_project_unit_bounded;
use crate::vec3::lemma_reject_unit;
use crate::vec3::lemma_unit_axis;
use crate::vec3::lemma_vdot_scale;

verus! {

/// Every entry of the sequence is a unit normal.
pub open spec fn all_unit(s: Seq<V3>) -> bool {
    forall|i: int| 0 <= i < s.len() ==> is_unit(s[i])
}

/// A bounded, ordered set of clip-plane normals.  The capacity is a hard
/// safety cap, not a growth policy: once it is reached the resolution pass
/// gives up rather than fight pathological geometry.  The backing vector
/// is used as a fixed-capacity arena; `wf` and the precondition of `push`
/// enforce the cap, and nothing ever grows the store past it.
pub struct ClipPlanes {
    pub normals: Vec<Vec3>,
    pub cap: usize,
}

impl View for ClipPlanes {
    type V = Seq<V3>;

    open spec fn view(&self) -> Seq<V3> {
        Seq::new(self.normals@.len(), |i: int| self.normals@[i]@)
    }
}

impl ClipPlanes {
    /// Count never exceeds capacity.
    pub open spec fn wf(&self) -> bool {
        self@.len() <= self.cap
    }

    pub fn empty(cap: usize) -> (r: ClipPlanes)
        ensures
            r@ == Seq::<V3>::empty(),
            r.cap == cap,
            r.wf(),
    {
        let r = ClipPlanes { normals: Vec::new(), cap };
        proof {
            assert(r@ =~= Seq::<V3>::empty());
        }
        r
    }

    pub fn count(&self) -> (r: usize)
        ensures
            r == self@.len(),
    {
        self.normals.len()
    }

    pub fn is_full(&self) -> (r: bool)
        ensures
            r <==> self@.len() >= self.cap,
    {
        self.normals.len() >= self.cap
    }

    /// Forget all recorded planes (the mover has moved well clear of them).
    pub fn clear(&mut self)
        ensures
            final(self)@ == Seq::<V3>::empty(),
            final(self).cap == old(self).cap,
            final(self).wf(),
    {
        self.normals.clear();
        proof {
            assert(self@ =~= Seq::<V3>::empty());
        }
    }

    /// Record one more obstacle normal; the caller must have checked the cap.
    pub fn push(&mut self, n: &Vec3)
        requires
            old(self)@.len() < old(self).cap,
        ensures
            final(self)@ == old(self)@.push(n@),
            final(self).cap == old(self).cap,
            final(self).wf(),
    {
        self.normals.push(*n);
        proof {
            assert(self@ =~= old(self)@.push(n@));
        }
    }

    pub fn plane_at(&self, i: usize) -> (r: Vec3)
        requires
            i < self@.len(),
        ensures
            r@ == self@[i as int],
    {
        self.normals[i]
    }
}

/// Plane `i` is in a crease: rejecting the velocity from it would still
/// drive the mover into some other recorded plane.
pub open spec fn crease_at(s: Seq<V3>, v: V3, i: int) -> bool {
    exists|j: int| 0 <= j < s.len() && j != i && vdot(vreject(v, s[i]), s[j]) < 0
}

pub open spec fn first_crease_from(s: Seq<V3>, v: V3, i: int) -> Option<int>
    decreases s.len() - i,
{
    if i < 0 || i >= s.len() {
        None
    } else if crease_at(s, v, i) {
        Some(i)
    } else {
        first_crease_from(s, v, i + 1)
    }
}

/// The first plane, in recording order, whose rejected velocity re-enters
/// another recorded plane; `None` when plane-by-plane rejection resolves.
pub open spec fn first_crease(s: Seq<V3>, v: V3) -> Option<int> {
    first_crease_from(s, v, 0)
}

/// The slide velocity before the backward-motion guard: the rejection from
/// the last examined plane, or, in a two-plane crease, the velocity
/// reprojected onto the planes' line of intersection.
pub open spec fn slide_velocity(s: Seq<V3>, v: V3) -> V3 {
    match first_crease(s, v) {
        Option::None => vreject(v, s[s.len() - 1]),
        Option::Some(i) => {
            let c = vcross(s[0], s[1]);
            vscale(c, vdot(c, vreject(v, s[i])))
        },
    }
}

/// Outcome of one clip of the leftover velocity.
#[derive(Clone, Copy, PartialEq, Eq, Structural, Debug)]
pub enum ClipOutcome {
    /// Keep moving with this velocity.
    Slide(Vec3),
    /// The slide velocity points against the original intent; stop the pass.
    Stop,
    /// A crease with a plane count other than two; abort the pass.
    Ambiguous,
}

proof fn lemma_first_crease_skip(s: Seq<V3>, v: V3, i: int)
    requires
        0 <= i <= s.len(),
        forall|ii: int| 0 <= ii < i ==> !crease_at(s, v, ii),
    ensures
        first_crease(s, v) == first_crease_from(s, v, i),
    decreases i,
{
    if i > 0 {
        lemma_first_crease_skip(s, v, i - 1);
    }
}

/// Scan the planes in recording order for the first crease.
fn find_crease(planes: &ClipPlanes, extra: &Vec3) -> (r: Option<usize>)
    requires
        all_unit(planes@),
        bounded(extra@, 1_000_000_000),
    ensures
        match r {
            Option::Some(i) => first_crease(planes@, extra@) == Option::Some(i as int),
            Option::None => first_crease(planes@, extra@) == Option::<int>::None,
        },
{
    let n = planes.count();
    let mut i: usize = 0;
    while i < n
        invariant
            n == planes@.len(),
            all_unit(planes@),
            bounded(extra@, 1_000_000_000),
            i <= n,
            forall|ii: int| 0 <= ii < i ==> !crease_at(planes@, extra@, ii),
        decreases n - i,
    {
        let ni = planes.plane_at(i);
        let rejected = reject3(extra, &ni);
        let mut j: usize = 0;
        while j < n
            invariant
                n == planes@.len(),
                all_unit(planes@),
                bounded(extra@, 1_000_000_000),
                i < n,
                j <= n,
                rejected@ == vreject(extra@, planes@[i as int]),
                bounded(rejected@, 1_000_000_000),
                forall|ii: int| 0 <= ii < i ==> !crease_at(planes@, extra@, ii),
                forall|jj: int|
                    0 <= jj < j ==> !(jj != i && vdot(vreject(extra@, planes@[i as int]),
                    planes@[jj]) < 0),
            decreases n - j,
        {
            if j != i {
                let nj = planes.plane_at(j);
                proof {
                    lemma_unit_axis(nj@);
                }
                let d = dot3(&rejected, &nj);
                if d < 0 {
                    proof {
                        assert(crease_at(planes@, extra@, i as int));
                        lemma_first_crease_skip(planes@, extra@, i as int);
                    }
                    return Option::Some(i);
                }
            }
            j = j + 1;
        }
        proof {
            assert(!crease_at(planes@, extra@, i as int));
        }
        i = i + 1;
    }
    proof {
        lemma_first_crease_skip(planes@, extra@, planes@.len() as int);
    }
    Option::None
}

/// Clip the leftover velocity of one bounce against every recorded plane.
///
/// `start` is the mover's original intended velocity for this pass; a slide
/// velocity with a nonpositive component along it would take the mover
/// backward, and stops the pass instead.
pub fn clip_velocity(planes: &ClipPlanes, extra: &Vec3, start: &Vec3) -> (r: ClipOutcome)
    requires
        planes@.len() >= 1,
        all_unit(planes@),
        bounded(extra@, 1_000_000_000),
        bounded(start@, 1_000_000_000),
    ensures
        match r {
            ClipOutcome::Ambiguous => first_crease(planes@, extra@) is Some && planes@.len()
                != 2,
            ClipOutcome::Stop => (first_crease(planes@, extra@) is None || planes@.len()
                == 2) && vdot(slide_velocity(planes@, extra@), start@) <= 0,
            ClipOutcome::Slide(p) => (first_crease(planes@, extra@) is None || planes@.len()
                == 2) && p@ == slide_velocity(planes@, extra@) && vdot(p@, start@) > 0
                && crate::vec3::dominated(p@, extra@) && (forall|b: int|
                bounded(extra@, b) ==> bounded(p@, b)),
        },
{
    match find_crease(planes, extra) {
        Option::None => {
            let last = planes.plane_at(planes.count() - 1);
            let p = reject3(extra, &last);
            proof {
                lemma_unit_axis(last@);
                lemma_reject_unit(extra@, last@);
            }
            let d = dot3(&p, start);
            if d <= 0 {
                ClipOutcome::Stop
            } else {
                ClipOutcome::Slide(p)
            }
        },
        Option::Some(i) => {
            proof {
                lemma_first_crease_in_range(planes@, extra@, 0);
            }
            if planes.count() != 2 {
                ClipOutcome::Ambiguous
            } else {
                proof {
                    lemma_unit_axis(planes@[0]);
                    lemma_unit_axis(planes@[1]);
                }
                let c = cross3(&planes.plane_at(0), &planes.plane_at(1));
                let pr = reject3(extra, &planes.plane_at(i));
                proof {
                    lemma_cross_unit(planes@[0], planes@[1]);
                    if c@ != crate::vec3::v3_zero() {
                        lemma_unit_axis(c@);
                    }
                    lemma_project_unit_bounded(c@, pr@);
                    lemma_mul_bound(c@.x, pr@.x, 1, 1_000_000_000);
                    lemma_mul_bound(c@.y, pr@.y, 1, 1_000_000_000);
                    lemma_mul_bound(c@.z, pr@.z, 1, 1_000_000_000);
                    lemma_mul_bound(c@.x, vdot(c@, pr@), 1, 3_000_000_000);
                    lemma_mul_bound(c@.y, vdot(c@, pr@), 1, 3_000_000_000);
                    lemma_mul_bound(c@.z, vdot(c@, pr@), 1, 3_000_000_000);
                }
                let t = dot3(&c, &pr);
                let p = scale3(&c, t);
                proof {
                    lemma_reject_unit(extra@, planes@[i as int]);
                }
                let d = dot3(&p, start);
                if d <= 0 {
                    ClipOutcome::Stop
                } else {
                    ClipOutcome::Slide(p)
                }
            }
        },
    }
}

/// One recorded plane: sliding removes the motion into the plane and keeps
/// the tangential motion exactly; the removed part is the normal component.
pub proof fn lemma_single_plane_slide(n: V3, v: V3)
    requires
        is_unit(n),
    ensures
        first_crease(seq![n], v) is None,
        slide_velocity(seq![n], v) == vreject(v, n),
        vdot(slide_velocity(seq![n], v), n) == 0,
        vadd(slide_velocity(seq![n], v), vscale(n, vdot(v, n))) == v,
{
    let s = seq![n];
    assert(!crease_at(s, v, 0));
    assert(first_crease_from(s, v, 1) == Option::<int>::None);
    lemma_reject_unit(v, n);
}

/// Two planes in a crease: the slide velocity is carried by the line of
/// intersection of the two planes (a multiple of their cross product) and
/// leaves neither plane's surface.
pub proof fn lemma_crease_slide(n1: V3, n2: V3, v: V3, i: int)
    requires
        is_unit(n1),
        is_unit(n2),
        first_crease(seq![n1, n2], v) == Option::Some(i),
    ensures
        slide_velocity(seq![n1, n2], v) == vscale(vcross(n1, n2), vdot(vcross(n1, n2),
        vreject(v, seq![n1, n2][i]))),
        vdot(slide_velocity(seq![n1, n2], v), n1) == 0,
        vdot(slide_velocity(seq![n1, n2], v), n2) == 0,
{
    let s = seq![n1, n2];
    let c = vcross(n1, n2);
    let t = vdot(c, vreject(v, s[i]));
    lemma_cross_unit(n1, n2);
    lemma_vdot_scale(c, t, n1);
    lemma_vdot_scale(c, t, n2);
    assert(vdot(c, n1) == 0);
    assert(vdot(c, n2) == 0);
}

/// After a successful clip the mover moves along or away from every
/// recorded plane, never back into one; re-running the pass from the new
/// pose therefore cannot re-detect any of them as an approaching obstacle.
pub proof fn lemma_slide_never_reenters(s: Seq<V3>, v: V3)
    requires
        s.len() >= 1,
        all_unit(s),
        first_crease(s, v) is None || s.len() == 2,
    ensures
        forall|j: int| 0 <= j < s.len() ==> vdot(slide_velocity(s, v), s[j]) >= 0,
{
    match first_crease(s, v) {
        Option::None => {
            let last = s.len() - 1;
            lemma_reject_unit(v, s[last]);
            assert(!crease_at(s, v, last)) by {
                lemma_first_crease_skip_none(s, v);
            }
            assert forall|j: int| 0 <= j < s.len() implies vdot(slide_velocity(s, v), s[j])
                >= 0 by {
                if j != last {
                    assert(!(j != last && vdot(vreject(v, s[last]), s[j]) < 0));
                }
            }
        },
        Option::Some(i) => {
            assert(s =~= seq![s[0], s[1]]);
            lemma_crease_slide(s[0], s[1], v, i);
        },
    }
}

proof fn lemma_first_crease_skip_none(s: Seq<V3>, v: V3)
    requires
        first_crease(s, v) is None,
    ensures
        forall|i: int| 0 <= i < s.len() ==> !crease_at(s, v, i),
{
    assert forall|i: int| 0 <= i < s.len() implies !crease_at(s, v, i) by {
        if crease_at(s, v, i) {
            lemma_first_crease_some(s, v, 0, i);
        }
    }
}

proof fn lemma_first_crease_in_range(s: Seq<V3>, v: V3, lo: int)
    requires
        0 <= lo,
    ensures
        match first_crease_from(s, v, lo) {
            Option::Some(i) => lo <= i < s.len() && crease_at(s, v, i),
            Option::None => true,
        },
    decreases s.len() - lo,
{
    if lo < s.len() && !crease_at(s, v, lo) {
        lemma_first_crease_in_range(s, v, lo + 1);
    }
}

proof fn lemma_first_crease_some(s: Seq<V3>, v: V3, lo: int, i: int)
    requires
        0 <= lo <= i < s.len(),
        crease_at(s, v, i),
    ensures
        first_crease_from(s, v, lo) is Some,
    decreases i - lo,
{
    if lo < i && !crease_at(s, v, lo) {
        lemma_first_crease_some(s, v, lo + 1, i);
    }
}

} // verus!
