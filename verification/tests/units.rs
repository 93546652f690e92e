//! Unit tests for the vector algebra, the scalar helpers, the clip-plane
//! accumulator and the swept query.

use character_controller::clip::ClipOutcome;
use character_controller::clip::ClipPlanes;
use character_controller::clip::clip_velocity;
use character_controller::num::div_trunc;
use character_controller::num::isqrt;
use character_controller::scene::Plane;
use character_controller::scene::Scene;
use character_controller::scene::advance3;
use character_controller::scene::cast;
use character_controller::vec3::Vec3;
use character_controller::vec3::add3;
use character_controller::vec3::cross3;
use character_controller::vec3::dot3;
use character_controller::vec3::reject3;
use character_controller::vec3::scale3;
use character_controller::vec3::sub3;

fn v(x: i64, y: i64, z: i64) -> Vec3 {
    Vec3 { x, y, z }
}

#[test]
fn vector_arithmetic() {
    let a = v(1, -2, 3);
    let b = v(10, 20, 30);
    assert_eq!(add3(&a, &b), v(11, 18, 33));
    assert_eq!(sub3(&b, &a), v(9, 22, 27));
    assert_eq!(scale3(&a, -2), v(-2, 4, -6));
    assert_eq!(dot3(&a, &b), 1 * 10 - 2 * 20 + 3 * 30);
    assert_eq!(cross3(&v(1, 0, 0), &v(0, 1, 0)), v(0, 0, 1));
    assert_eq!(cross3(&v(-1, 0, 0), &v(0, -1, 0)), v(0, 0, 1));
}

#[test]
fn rejection_removes_normal_component() {
    // Rejecting from the unit normal (0, -1, 0) zeroes the y coordinate
    // and keeps the tangential part exactly.
    let r = reject3(&v(3, 4, 5), &v(0, -1, 0));
    assert_eq!(r, v(3, 0, 5));
    assert_eq!(dot3(&r, &v(0, -1, 0)), 0);
    // The rejected part plus the normal component restores the input.
    let n = v(0, -1, 0);
    let d = dot3(&v(3, 4, 5), &n);
    assert_eq!(add3(&r, &scale3(&n, d)), v(3, 4, 5));
}

#[test]
fn integer_square_root() {
    assert_eq!(isqrt(0), 0);
    assert_eq!(isqrt(1), 1);
    assert_eq!(isqrt(3), 1);
    assert_eq!(isqrt(4), 2);
    assert_eq!(isqrt(99), 9);
    assert_eq!(isqrt(100_000_000), 10_000);
    assert_eq!(isqrt(200_000_000), 14_142);
}

#[test]
fn truncating_division() {
    assert_eq!(div_trunc(7, 2), 3);
    assert_eq!(div_trunc(-7, 2), -3);
    assert_eq!(div_trunc(6, 3), 2);
    assert_eq!(div_trunc(-6, 3), -2);
    assert_eq!(div_trunc(0, 5), 0);
}

#[test]
fn partial_advance_rounds_toward_zero() {
    assert_eq!(advance3(&v(10_000, 0, 0), 1995, 10_000), v(1995, 0, 0));
    assert_eq!(advance3(&v(10_000, 10_000, 0), 2823, 14_142), v(1996, 1996, 0));
    assert_eq!(advance3(&v(0, 8004, 0), -1, 8004), v(0, -1, 0));
}

#[test]
fn clip_planes_capacity() {
    let mut planes = ClipPlanes::empty(2);
    assert_eq!(planes.count(), 0);
    assert!(!planes.is_full());
    planes.push(&v(-1, 0, 0));
    planes.push(&v(0, -1, 0));
    assert_eq!(planes.count(), 2);
    assert!(planes.is_full());
    assert_eq!(planes.plane_at(0), v(-1, 0, 0));
    assert_eq!(planes.plane_at(1), v(0, -1, 0));
    planes.clear();
    assert_eq!(planes.count(), 0);
    assert!(!planes.is_full());
}

#[test]
fn clip_single_plane_slides() {
    let mut planes = ClipPlanes::empty(5);
    planes.push(&v(-1, 0, 0));
    let r = clip_velocity(&planes, &v(5000, 2000, 0), &v(5000, 2000, 0));
    assert_eq!(r, ClipOutcome::Slide(v(0, 2000, 0)));
}

#[test]
fn clip_head_on_stops() {
    let mut planes = ClipPlanes::empty(5);
    planes.push(&v(-1, 0, 0));
    let r = clip_velocity(&planes, &v(5000, 0, 0), &v(5000, 0, 0));
    assert_eq!(r, ClipOutcome::Stop);
}

#[test]
fn clip_two_plane_crease_follows_intersection() {
    // Two perpendicular walls; the velocity drives into both.  The slide
    // must follow their line of intersection (the z axis), not either
    // single-plane projection.
    let mut planes = ClipPlanes::empty(5);
    planes.push(&v(-1, 0, 0));
    planes.push(&v(0, -1, 0));
    let r = clip_velocity(&planes, &v(5000, 5000, 3000), &v(5000, 5000, 3000));
    assert_eq!(r, ClipOutcome::Slide(v(0, 0, 3000)));
}

#[test]
fn clip_three_plane_crease_is_ambiguous() {
    let mut planes = ClipPlanes::empty(5);
    planes.push(&v(-1, 0, 0));
    planes.push(&v(0, -1, 0));
    planes.push(&v(0, 0, -1));
    let r = clip_velocity(&planes, &v(5000, 5000, 5000), &v(5000, 5000, 5000));
    assert_eq!(r, ClipOutcome::Ambiguous);
}

#[test]
fn clip_backward_crease_stops() {
    // The crease direction carries no component of the velocity: the
    // reprojected velocity is zero, which fails the backward-motion guard.
    let mut planes = ClipPlanes::empty(5);
    planes.push(&v(-1, 0, 0));
    planes.push(&v(0, -1, 0));
    let r = clip_velocity(&planes, &v(5000, 5000, 0), &v(5000, 5000, 0));
    assert_eq!(r, ClipOutcome::Stop);
}

#[test]
fn cast_reports_nearest_hit() {
    let scene = Scene {
        planes: vec![
            Plane { normal: v(-1, 0, 0), offset: -3000 },
            Plane { normal: v(-1, 0, 0), offset: -2000 },
        ],
    };
    let hit = cast(&scene, &v(0, 0, 0), &v(10_000, 0, 0), 10_000, 10_005)
        .expect("wall within reach");
    assert_eq!(hit.toi, 2000);
    assert_eq!(hit.normal, v(-1, 0, 0));
}

#[test]
fn cast_ignores_receding_and_distant_planes() {
    let scene = Scene {
        planes: vec![
            // Behind the motion: receding.
            Plane { normal: v(1, 0, 0), offset: -2000 },
            // Ahead but beyond the sweep reach.
            Plane { normal: v(-1, 0, 0), offset: -50_000 },
        ],
    };
    let r = cast(&scene, &v(0, 0, 0), &v(10_000, 0, 0), 10_000, 10_005);
    assert!(r.is_none());
}

#[test]
fn cast_reports_close_surfaces_at_once() {
    let scene = Scene { planes: vec![Plane { normal: v(-1, 0, 0), offset: -2000 }] };
    // Two milliunits short of the surface: reported at that distance.
    let near = cast(&scene, &v(1998, 0, 0), &v(1000, 0, 0), 1000, 1005)
        .expect("wall just ahead");
    assert_eq!(near.toi, 2);
    // Already past the surface: reported at once, at distance zero.
    let inside = cast(&scene, &v(2100, 0, 0), &v(1000, 0, 0), 1000, 1005)
        .expect("wall already crossed");
    assert_eq!(inside.toi, 0);
}
