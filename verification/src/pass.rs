//! The resolution loop: one collision-resolved movement pass per mover per
//! simulation tick.
//!
//! The pass turns the mover's requested displacement (velocity times tick
//! duration) into an actual movement: it repeatedly sweeps the scene along
//! the remaining displacement, advances up to the first obstacle minus the
//! skin width, records the obstacle as a clip plane, and recomputes the
//! remaining velocity by sliding it against all recorded planes.  Every
//! exit is a normal terminal state: a clear path, an obstacle just beyond
//! the travel distance, an ambiguous crease, an exhausted plane capacity, a
//! slide that would move backward, or an exhausted bounce budget.
//!
//! The pass only moves the mover's position; the stored velocity is
//! read-only input, deliberately left for the caller to own.

use vstd::prelude::*;
use crate::clip::ClipOutcome;
use crate::clip::ClipPlanes;
use crate::clip::all_unit;
use crate::clip::clip_velocity;
use crate::clip::first_crease;
use crate::clip::slide_velocity;
use crate::num::isqrt;
use crate::num::sqrt_floor;
use crate::scene::PlaneG;
use crate::scene::Scene;
use crate::scene::advance3;
use crate::scene::advance_of;
use crate::scene::cast;
use crate::scene::clear_of;
use crate::scene::clearance;
use crate::scene::free_path;
use crate::scene::lemma_clearance_step;
use crate::scene::lemma_no_hit_step;
use crate::scene::scene_wf;
use crate::scene::sweep_index;
use crate::scene::toi_of;
use crate::vec3::V3;
use crate::vec3::iabs;
use crate::vec3::Vec3;
use crate::vec3::add3;
use crate::vec3::bounded;
use crate::vec3::lemma_dot_self_bound;
use crate::vec3::lemma_nonzero_dot;
use crate::vec3::lemma_sqrt_components;
use crate::vec3::lemma_sqrt_ge_one;
use crate::vec3::lemma_sqrt_small;
use crate::vec3::lemma_zero_dot;
use crate::vec3::dot3;
use crate::vec3::scale3;
use crate::vec3::sub3;
use crate::vec3::v3_zero;
use crate::vec3::vadd;
use crate::vec3::vdot;
use crate::vec3::vscale;
use crate::vec3::vsub;

verus! {

/// Tuning of one resolution pass.  The defaults correspond to milliunit
/// coordinates: a skin width of 0.005 units and a plane-reset threshold of
/// 0.01 units.
pub struct PassConfig {
    /// Clearance kept between the mover and any surface it touches.
    pub skin_width: i64,
    /// Hard bound on sweep iterations per pass.
    pub max_bounces: usize,
    /// Capacity of the clip-plane set; more simultaneous obstacles abort
    /// the pass.
    pub max_clip_planes: usize,
    /// An advance longer than this drops the previously recorded planes.
    pub plane_reset_threshold: i64,
}

impl PassConfig {
    /// Machine limits under which every pass computation fits in 64 bits.
    pub open spec fn wf(&self) -> bool {
        &&& 0 <= self.skin_width <= 1_000_000
        &&& 1 <= self.max_bounces <= 16
        &&& 0 <= self.plane_reset_threshold
    }
}

impl Default for PassConfig {
    fn default() -> (r: PassConfig)
        ensures
            r.wf(),
            r.skin_width == 5,
            r.max_bounces == 4,
            r.max_clip_planes == 5,
            r.plane_reset_threshold == 10,
    {
        PassConfig { skin_width: 5, max_bounces: 4, max_clip_planes: 5, plane_reset_threshold: 10 }
    }
}

/// Per-mover state: the velocity the mover wants, owned and written by
/// upstream gameplay logic and read-only to the resolution pass.
#[derive(Clone, Copy)]
pub struct CharacterController {
    pub velocity: Vec3,
}

impl Default for CharacterController {
    fn default() -> (r: CharacterController)
        ensures
            r.velocity@ == v3_zero(),
    {
        CharacterController { velocity: Vec3 { x: 0, y: 0, z: 0 } }
    }
}

/// The state of a resolution pass between two bounces: the mover's
/// position, the remaining displacement `w` with its booked scalar length
/// `k`, the recorded clip planes, and whether a terminal state was reached.
pub ghost struct PassState {
    pub pos: V3,
    pub w: V3,
    pub k: int,
    pub planes: Seq<V3>,
    pub done: bool,
}

/// One bounce of the resolution pass, exactly: sweep for the nearest
/// obstacle within the remaining distance plus the skin; with no hit,
/// apply the full displacement; with a hit at or beyond the remaining
/// distance, advance to it (clamped at zero) and stop; otherwise advance
/// to the hit minus the skin (unclamped), drop stale planes after a long
/// advance, give up at plane capacity, record the hit normal, and clip the
/// leftover velocity against all recorded planes, stopping on an ambiguous
/// crease or a backward slide.  A finished state is a fixed point.
pub open spec fn pass_step(s: Seq<PlaneG>, cfg: PassConfig, w0: V3, st: PassState) -> PassState {
    if st.done {
        st
    } else {
        let reach = st.k + cfg.skin_width as int;
        match sweep_index(s, st.pos, st.w, st.k, reach) {
            Option::None => PassState {
                pos: vadd(st.pos, st.w),
                w: st.w,
                k: st.k,
                planes: st.planes,
                done: true,
            },
            Option::Some(i) => {
                let toi = toi_of(s[i], st.pos, st.w, st.k);
                if toi >= st.k {
                    let m = if toi - cfg.skin_width as int >= 0 {
                        toi - cfg.skin_width as int
                    } else {
                        0
                    };
                    PassState {
                        pos: vadd(st.pos, advance_of(st.w, m, st.k)),
                        w: st.w,
                        k: st.k,
                        planes: st.planes,
                        done: true,
                    }
                } else {
                    let m = toi - cfg.skin_width as int;
                    let pos1 = vadd(st.pos, advance_of(st.w, m, st.k));
                    let kept = if iabs(m) > cfg.plane_reset_threshold as int {
                        Seq::<V3>::empty()
                    } else {
                        st.planes
                    };
                    if kept.len() >= cfg.max_clip_planes as int {
                        PassState { pos: pos1, w: st.w, k: st.k, planes: kept, done: true }
                    } else {
                        let recorded = kept.push(s[i].normal);
                        let extra = vsub(st.w, advance_of(st.w, if m >= 0 {
                            m
                        } else {
                            0
                        }, st.k));
                        if first_crease(recorded, extra) is Some && recorded.len() != 2 {
                            PassState {
                                pos: pos1,
                                w: st.w,
                                k: st.k,
                                planes: recorded,
                                done: true,
                            }
                        } else {
                            let p = slide_velocity(recorded, extra);
                            if vdot(p, w0) <= 0 {
                                PassState {
                                    pos: pos1,
                                    w: st.w,
                                    k: st.k,
                                    planes: recorded,
                                    done: true,
                                }
                            } else {
                                PassState {
                                    pos: pos1,
                                    w: p,
                                    k: sqrt_floor(vdot(p, p)),
                                    planes: recorded,
                                    done: false,
                                }
                            }
                        }
                    }
                }
            },
        }
    }
}

/// `fuel` bounces of the pass, applied to `st0`.
pub open spec fn pass_iter(
    s: Seq<PlaneG>,
    cfg: PassConfig,
    w0: V3,
    st0: PassState,
    fuel: nat,
) -> PassState
    decreases fuel,
{
    if fuel == 0 {
        st0
    } else {
        pass_step(s, cfg, w0, pass_iter(s, cfg, w0, st0, (fuel - 1) as nat))
    }
}

/// The state a pass starts from: the requested displacement and its
/// rounded-down length, no recorded planes.
pub open spec fn pass_start(x0: V3, w0: V3) -> PassState {
    PassState { pos: x0, w: w0, k: sqrt_floor(vdot(w0, w0)), planes: Seq::<V3>::empty(), done: false }
}

/// The final position of a whole resolution pass: a zero request moves
/// nothing; otherwise the bounce budget is applied to the start state.
pub open spec fn pass_result(s: Seq<PlaneG>, cfg: PassConfig, x0: V3, vel: V3, dt: int) -> V3 {
    let w0 = vscale(vel, dt);
    if w0 == v3_zero() {
        x0
    } else {
        pass_iter(s, cfg, w0, pass_start(x0, w0), cfg.max_bounces as nat).pos
    }
}

/// A finished state is a fixed point of the pass: spending more of the
/// bounce budget changes nothing.
proof fn lemma_pass_iter_frozen(
    s: Seq<PlaneG>,
    cfg: PassConfig,
    w0: V3,
    st0: PassState,
    j: nat,
    mb: nat,
)
    requires
        j <= mb,
        pass_iter(s, cfg, w0, st0, j).done,
    ensures
        pass_iter(s, cfg, w0, st0, mb) == pass_iter(s, cfg, w0, st0, j),
    decreases mb,
{
    if mb > j {
        lemma_pass_iter_frozen(s, cfg, w0, st0, j, (mb - 1) as nat);
    }
}

/// The pass never overshoots the request: on each axis the mover moves at
/// most the requested displacement plus `slack` (the accumulated skin
/// margin of backward corrections).
pub open spec fn within_request(x0: V3, x1: V3, w0: V3, slack: int) -> bool {
    &&& iabs(x1.x - x0.x) <= iabs(w0.x) + slack
    &&& iabs(x1.y - x0.y) <= iabs(w0.y) + slack
    &&& iabs(x1.z - x0.z) <= iabs(w0.z) + slack
}

/// Everything one resolution pass guarantees about the final position
/// `x1`, given the scene, the tuning, the starting position `x0` and the
/// requested velocity.  `x1` is exactly [`pass_result`], the bounce-by-
/// bounce specification of the pass; the remaining clauses are the
/// headline consequences, stated separately for callers: the mover is
/// clear of every obstacle up to the accumulated skin tolerance; it sits
/// within the coordinate budget; no axis moves further than requested plus
/// that tolerance; and a zero request moves nothing.  The last clause
/// states free-space exactness: when no obstacle stands within the travel
/// distance plus the skin (stated for the rounded-down length `kk` of the
/// displacement), the displacement is applied exactly.
///
/// The penetration margin is `max_bounces * skin_width`, not a single skin
/// width: the advance toward a surface met inside the skin margin is
/// deliberately not clamped at zero, so one bounce can move the mover
/// backward by up to a skin width, costing surfaces behind it that much
/// clearance.  A surface the mover approaches never loses a nonnegative
/// clearance.
pub open spec fn pass_post(
    s: Seq<crate::scene::PlaneG>,
    cfg: PassConfig,
    x0: crate::vec3::V3,
    vel: crate::vec3::V3,
    dt: int,
    x1: crate::vec3::V3,
) -> bool {
    let w0 = vscale(vel, dt);
    &&& x1 == pass_result(s, cfg, x0, vel, dt)
    &&& clear_of(s, x1, (cfg.max_bounces as int) * (cfg.skin_width as int))
    &&& bounded(x1, 500_000_000)
    &&& within_request(x0, x1, w0, (cfg.max_bounces as int) * (cfg.skin_width as int))
    &&& (w0 == v3_zero() ==> x1 == x0)
    &&& forall|kk: int|
        (1 <= kk && kk * kk <= vdot(w0, w0) && vdot(w0, w0) < (kk + 1) * (kk + 1)
            && #[trigger] free_path(s, x0, w0, kk, kk + cfg.skin_width as int)) ==> x1
            == vadd(x0, w0)
}

/// Resolve one mover's movement for one tick of duration `dt`.
///
/// The requested displacement is `velocity * dt`.  The position is moved in
/// place; the velocity is never written.  The contract states the three
/// headline guarantees: the mover never ends up inside an obstacle beyond
/// the accumulated skin tolerance; with no obstacle within reach the full
/// displacement is applied exactly; and a zero request moves nothing.
#[verifier::rlimit(100)]
pub fn move_character_controller(
    scene: &Scene,
    ctrl: &CharacterController,
    position: &mut Vec3,
    dt: i64,
    cfg: &PassConfig,
)
    requires
        scene_wf(scene@),
        cfg.wf(),
        0 <= dt,
        bounded(old(position)@, 10_000_000),
        bounded(vscale(ctrl.velocity@, dt as int), 10_000_000),
        clear_of(scene@, old(position)@, 0),
    ensures
        pass_post(scene@, *cfg, old(position)@, ctrl.velocity@, dt as int, final(
        position)@),
{
    let ghost w0g = vscale(ctrl.velocity@, dt as int);
    proof {
        assert((cfg.max_bounces as int) * (cfg.skin_width as int) >= 0) by (nonlinear_arith)
            requires
                cfg.max_bounces >= 1,
                cfg.skin_width >= 0,
        ;
    }
    let w0v = scale3(&ctrl.velocity, dt);
    if w0v.is_zero() {
        proof {
            assert(vadd(position@, w0g) == position@);
        }
        return ;
    }
    let n2 = dot3(&w0v, &w0v);
    proof {
        lemma_dot_self_bound(w0v@, 10_000_000);
        lemma_nonzero_dot(w0v@);
    }
    let k0u = isqrt(n2 as u64);
    let k0: i64 = k0u as i64;
    proof {
        lemma_sqrt_ge_one(n2 as int, k0 as int);
        lemma_sqrt_components(w0v@, k0 as int);
        lemma_sqrt_small(k0 as int);
    }
    let ghost pos0 = position@;
    let mut pos: Vec3 = *position;
    let mut w: Vec3 = w0v;
    let mut k: i64 = k0;
    let mut planes = ClipPlanes::empty(cfg.max_clip_planes);
    let mut done: bool = false;
    let mut bounce: usize = 0;
    proof {
        assert(pass_iter(scene@, *cfg, w0g, pass_start(pos0, w0g), 0 as nat) == (PassState {
            pos: pos@,
            w: w@,
            k: k as int,
            planes: planes@,
            done,
        }));
    }
    while !done && bounce < cfg.max_bounces
        invariant
            scene_wf(scene@),
            cfg.wf(),
            planes.wf(),
            all_unit(planes@),
            planes.cap == cfg.max_clip_planes,
            1 <= k <= 17_400_000,
            bounded(w@, k as int),
            bounded(w@, 10_000_000),
            bounce <= cfg.max_bounces,
            done ==> bounce >= 1,
            pos0 == old(position)@,
            bounded(pos0, 10_000_000),
            bounded(vsub(pos@, pos0), (bounce as int) * 17_400_000),
            clear_of(scene@, pos@, (bounce as int) * (cfg.skin_width as int)),
            w0v@ == w0g,
            bounded(w0g, 10_000_000),
            1 <= k0 <= 17_400_000,
            (k0 as int) * (k0 as int) <= vdot(w0g, w0g),
            vdot(w0g, w0g) < (k0 as int + 1) * (k0 as int + 1),
            bounce == 0 ==> (pos@ == pos0 && w == w0v && k == k0),
            pass_iter(scene@, *cfg, w0g, pass_start(pos0, w0g), bounce as nat) == (PassState {
                pos: pos@,
                w: w@,
                k: k as int,
                planes: planes@,
                done,
            }),
            iabs(pos@.x - pos0.x) + (if done {
                0int
            } else {
                iabs(w@.x)
            }) <= iabs(w0g.x) + (bounce as int) * (cfg.skin_width as int),
            iabs(pos@.y - pos0.y) + (if done {
                0int
            } else {
                iabs(w@.y)
            }) <= iabs(w0g.y) + (bounce as int) * (cfg.skin_width as int),
            iabs(pos@.z - pos0.z) + (if done {
                0int
            } else {
                iabs(w@.z)
            }) <= iabs(w0g.z) + (bounce as int) * (cfg.skin_width as int),
            free_path(scene@, pos0, w0g, k0 as int, k0 as int + cfg.skin_width as int) ==> (
            bounce == 0 || (done && pos@ == vadd(pos0, w0g))),
        decreases cfg.max_bounces - bounce,
    {
        let ghost bounce_old = bounce as int;
        let ghost skin = cfg.skin_width as int;
        let ghost st_cur = PassState { pos: pos@, w: w@, k: k as int, planes: planes@, done: false };
        bounce = bounce + 1;
        proof {
            assert(bounce_old * skin + skin == (bounce as int) * skin) by (nonlinear_arith)
                requires
                    bounce_old + 1 == bounce as int,
            ;
        }
        let reach = k + cfg.skin_width;
        match cast(scene, &pos, &w, k, reach) {
            Option::None => {
                let newpos = add3(&pos, &w);
                proof {
                    assert forall|ii: int| 0 <= ii < scene@.len() implies clearance(
                        #[trigger] scene@[ii], newpos@) >= -((bounce as int) * skin) by {
                        lemma_no_hit_step(scene@[ii], pos@, w@, k as int);
                        assert(bounce_old * skin <= (bounce as int) * skin)
                            by (nonlinear_arith)
                            requires
                                bounce_old + 1 == bounce as int,
                                skin >= 0,
                        ;
                    }
                }
                pos = newpos;
                done = true;
            },
            Option::Some(hit) => {
                proof {
                    if free_path(scene@, pos0, w0g, k0 as int, k0 as int + skin) {
                        assert(bounce_old == 0);
                        assert(false);
                    }
                }
                if hit.toi >= k {
                    let m: i64 = if hit.toi - cfg.skin_width >= 0 {
                        hit.toi - cfg.skin_width
                    } else {
                        0
                    };
                    let adv = advance3(&w, m, k);
                    proof {
                        crate::scene::lemma_advance_bound(w@, m as int, k as int,
                            17_400_000);
                        crate::scene::lemma_advance_within(w@, m as int, k as int);
                    }
                    let newpos = add3(&pos, &adv);
                    proof {
                        assert forall|ii: int| 0 <= ii < scene@.len() implies clearance(
                            #[trigger] scene@[ii], newpos@) >= -((bounce as int) * skin) by {
                            lemma_clearance_step(scene@[ii], pos@, w@, m as int, k as int,
                                skin);
                        }
                    }
                    pos = newpos;
                    done = true;
                } else {
                    // Unlike the overshoot branch above, this advance is
                    // deliberately not clamped at zero: a surface met inside
                    // the skin margin backs the mover out to the margin.
                    let m: i64 = hit.toi - cfg.skin_width;
                    let adv = advance3(&w, m, k);
                    proof {
                        crate::scene::lemma_advance_bound(w@, m as int, k as int,
                            17_400_000);
                        if m >= 0 {
                            crate::scene::lemma_advance_within(w@, m as int, k as int);
                        } else {
                            crate::scene::lemma_advance_bound(w@, m as int, k as int,
                                skin);
                        }
                    }
                    let newpos = add3(&pos, &adv);
                    proof {
                        assert forall|ii: int| 0 <= ii < scene@.len() implies clearance(
                            #[trigger] scene@[ii], newpos@) >= -((bounce as int) * skin) by {
                            lemma_clearance_step(scene@[ii], pos@, w@, m as int, k as int,
                                skin);
                        }
                    }
                    pos = newpos;
                    let absm: i64 = if m >= 0 {
                        m
                    } else {
                        -m
                    };
                    if absm > cfg.plane_reset_threshold {
                        planes.clear();
                    }
                    if planes.is_full() {
                        done = true;
                    } else {
                        planes.push(&hit.normal);
                        let mp: i64 = if m >= 0 {
                            m
                        } else {
                            0
                        };
                        let advp = advance3(&w, mp, k);
                        proof {
                            crate::scene::lemma_advance_within(w@, mp as int, k as int);
                        }
                        let extra = sub3(&w, &advp);
                        match clip_velocity(&planes, &extra, &w0v) {
                            ClipOutcome::Ambiguous => {
                                done = true;
                            },
                            ClipOutcome::Stop => {
                                done = true;
                            },
                            ClipOutcome::Slide(pnew) => {
                                proof {
                                    if pnew@ == v3_zero() {
                                        lemma_zero_dot(pnew@, w0v@);
                                    }
                                    lemma_nonzero_dot(pnew@);
                                    lemma_dot_self_bound(pnew@, 10_000_000);
                                }
                                let nn = dot3(&pnew, &pnew);
                                let kku = isqrt(nn as u64);
                                let kk: i64 = kku as i64;
                                proof {
                                    lemma_sqrt_ge_one(nn as int, kk as int);
                                    lemma_sqrt_components(pnew@, kk as int);
                                    lemma_sqrt_small(kk as int);
                                }
                                w = pnew;
                                k = kk;
                            },
                        }
                    }
                }
            },
        }
        proof {
            assert(pass_step(scene@, *cfg, w0g, st_cur) == (PassState {
                pos: pos@,
                w: w@,
                k: k as int,
                planes: planes@,
                done,
            }));
        }
    }
    *position = pos;
    proof {
        assert((bounce as int) * (cfg.skin_width as int) <= (cfg.max_bounces as int) * (
        cfg.skin_width as int)) by (nonlinear_arith)
            requires
                bounce as int <= cfg.max_bounces as int,
                cfg.skin_width >= 0,
        ;
        if done {
            lemma_pass_iter_frozen(scene@, *cfg, w0g, pass_start(pos0, w0g), bounce as nat,
                cfg.max_bounces as nat);
        }
        assert(pass_iter(scene@, *cfg, w0g, pass_start(pos0, w0g),
            cfg.max_bounces as nat).pos == pos@);
        assert forall|kk: int|
            (1 <= kk && kk * kk <= vdot(w0g, w0g) && vdot(w0g, w0g) < (kk + 1) * (kk + 1)
                && #[trigger] free_path(scene@, pos0, w0g, kk, kk + cfg.skin_width as int))
                implies pos@ == vadd(pos0, w0g) by {
            assert(kk == k0 as int) by (nonlinear_arith)
                requires
                    1 <= kk,
                    kk * kk <= vdot(w0g, w0g),
                    vdot(w0g, w0g) < (kk + 1) * (kk + 1),
                    1 <= k0 as int,
                    (k0 as int) * (k0 as int) <= vdot(w0g, w0g),
                    vdot(w0g, w0g) < (k0 as int + 1) * (k0 as int + 1),
            ;
        }
    }
}

/// The pass-level slide law: after any bounce that keeps the pass moving,
/// the remaining displacement moves along or away from every recorded
/// surface, and still carries the original intent forward.  In a
/// single-plane scene this is the slide property (the component into the
/// plane is zero); with a two-plane crease the displacement is
/// perpendicular to both normals, that is, parallel to the crease line
/// (its exact direction is [`crate::clip::lemma_crease_slide`]).
pub proof fn lemma_pass_step_slides(s: Seq<PlaneG>, cfg: PassConfig, w0: V3, st: PassState)
    requires
        scene_wf(s),
        all_unit(st.planes),
        !st.done,
        !pass_step(s, cfg, w0, st).done,
    ensures
        all_unit(pass_step(s, cfg, w0, st).planes),
        pass_step(s, cfg, w0, st).planes.len() >= 1,
        forall|j: int|
            0 <= j < pass_step(s, cfg, w0, st).planes.len() ==> vdot(pass_step(s, cfg, w0,
            st).w, pass_step(s, cfg, w0, st).planes[j]) >= 0,
        vdot(pass_step(s, cfg, w0, st).w, w0) > 0,
{
    let step = pass_step(s, cfg, w0, st);
    let reach = st.k + cfg.skin_width as int;
    match sweep_index(s, st.pos, st.w, st.k, reach) {
        Option::None => {
            assert(false);
        },
        Option::Some(i) => {
            crate::scene::lemma_best_upto_range(s, st.pos, st.w, st.k, s.len() as int);
            let toi = toi_of(s[i], st.pos, st.w, st.k);
            assert(toi < st.k);
            let m = toi - cfg.skin_width as int;
            let kept = if iabs(m) > cfg.plane_reset_threshold as int {
                Seq::<V3>::empty()
            } else {
                st.planes
            };
            assert(kept.len() < cfg.max_clip_planes as int);
            let recorded = kept.push(s[i].normal);
            let extra = vsub(st.w, advance_of(st.w, if m >= 0 {
                m
            } else {
                0
            }, st.k));
            assert(all_unit(recorded)) by {
                assert forall|j: int| 0 <= j < recorded.len() implies crate::vec3::is_unit(
                    recorded[j]) by {
                    if j < kept.len() {
                        assert(recorded[j] == kept[j]);
                    } else {
                        assert(recorded[j] == s[i].normal);
                    }
                }
            }
            assert(first_crease(recorded, extra) is None || recorded.len() == 2);
            assert(step.w == slide_velocity(recorded, extra));
            assert(step.planes == recorded);
            crate::clip::lemma_slide_never_reenters(recorded, extra);
        },
    }
}

/// Re-invoking the pass does not oscillate: the slide velocity of a
/// successful clip leaves every recorded plane, so a plane whose normal
/// was recorded is not approached by the next sweep — and [`cast`] only
/// ever reports an approached plane.
pub proof fn lemma_slide_not_re_approached(
    s: Seq<crate::vec3::V3>,
    v: crate::vec3::V3,
    p: crate::scene::PlaneG,
    j: int,
)
    requires
        s.len() >= 1,
        all_unit(s),
        crate::clip::first_crease(s, v) is None || s.len() == 2,
        0 <= j < s.len(),
        p.normal == s[j],
    ensures
        crate::scene::approach(p, crate::clip::slide_velocity(s, v)) <= 0,
{
    crate::clip::lemma_slide_never_reenters(s, v);
    let sl = crate::clip::slide_velocity(s, v);
    assert(vdot(sl, s[j]) >= 0);
    assert(p.normal.x * sl.x + p.normal.y * sl.y + p.normal.z * sl.z == sl.x * p.normal.x
        + sl.y * p.normal.y + sl.z * p.normal.z) by (nonlinear_arith);
}

/// One mover: its controller state and its position.  The pass moves the
/// position only; orientation is untouched by design.
#[derive(Clone, Copy)]
pub struct Mover {
    pub controller: CharacterController,
    pub position: Vec3,
}

/// Resolve one tick of movement for every mover against the same frozen
/// scene.  Movers are independent: each is excluded from its own sweep and
/// nothing a mover does within the tick is visible to the others.
pub fn move_character_controllers(scene: &Scene, movers: &mut Vec<Mover>, dt: i64, cfg: &PassConfig)
    requires
        scene_wf(scene@),
        cfg.wf(),
        0 <= dt,
        forall|i: int|
            0 <= i < old(movers)@.len() ==> {
                &&& bounded((#[trigger] old(movers)@[i]).position@, 10_000_000)
                &&& bounded(vscale(old(movers)@[i].controller.velocity@, dt as int),
                10_000_000)
                &&& clear_of(scene@, old(movers)@[i].position@, 0)
            },
    ensures
        final(movers)@.len() == old(movers)@.len(),
        forall|i: int|
            0 <= i < old(movers)@.len() ==> {
                &&& (#[trigger] final(movers)@[i]).controller.velocity == old(
                movers)@[i].controller.velocity
                &&& pass_post(scene@, *cfg, old(movers)@[i].position@, old(
                movers)@[i].controller.velocity@, dt as int, final(movers)@[i].position@)
            },
{
    let n = movers.len();
    let mut idx: usize = 0;
    while idx < n
        invariant
            scene_wf(scene@),
            cfg.wf(),
            0 <= dt,
            n == movers@.len(),
            movers@.len() == old(movers)@.len(),
            idx <= n,
            forall|i: int|
                0 <= i < old(movers)@.len() ==> {
                    &&& bounded((#[trigger] old(movers)@[i]).position@, 10_000_000)
                    &&& bounded(vscale(old(movers)@[i].controller.velocity@, dt as int),
                    10_000_000)
                    &&& clear_of(scene@, old(movers)@[i].position@, 0)
                },
            forall|i: int| idx <= i < n ==> #[trigger] movers@[i] == old(movers)@[i],
            forall|i: int|
                0 <= i < idx ==> {
                    &&& (#[trigger] movers@[i]).controller.velocity == old(
                    movers)@[i].controller.velocity
                    &&& pass_post(scene@, *cfg, old(movers)@[i].position@, old(
                    movers)@[i].controller.velocity@, dt as int, movers@[i].position@)
                },
        decreases n - idx,
    {
        let mv = movers[idx];
        let mut p = mv.position;
        move_character_controller(scene, &mv.controller, &mut p, dt, cfg);
        movers[idx] = Mover { controller: mv.controller, position: p };
        idx = idx + 1;
    }
}

} // verus!
