//! End-to-end resolution-pass scenarios, in milliunit coordinates: one
//! unit of world scale is 1000 here, so the default skin width of 5
//! stands for 0.005 units.

use character_controller::pass::CharacterController;
use character_controller::pass::Mover;
use character_controller::pass::PassConfig;
use character_controller::pass::move_character_controller;
use character_controller::pass::move_character_controllers;
use character_controller::scene::Plane;
use character_controller::scene::Scene;
use character_controller::vec3::Vec3;

fn v(x: i64, y: i64, z: i64) -> Vec3 {
    Vec3 { x, y, z }
}

/// A wall that keeps the mover on the side where `normal . x >= offset`.
fn wall(normal: Vec3, offset: i64) -> Plane {
    Plane { normal, offset }
}

/// Head-on into a wall at x = 2000 with normal (-1, 0, 0): the mover stops
/// at 2000 minus the skin width, with no slide left over.
#[test]
fn head_on_wall_stops_at_skin() {
    let scene = Scene { planes: vec![wall(v(-1, 0, 0), -2000)] };
    let ctrl = CharacterController { velocity: v(10_000, 0, 0) };
    let cfg = PassConfig::default();
    let mut pos = v(0, 0, 0);
    move_character_controller(&scene, &ctrl, &mut pos, 1, &cfg);
    assert_eq!(pos, v(1995, 0, 0));
}

/// Oblique motion into the same wall: the mover advances to the wall, the
/// velocity loses its component into the wall, and the slide continues in
/// +y with the full remainder.
#[test]
fn oblique_wall_slides_along_surface() {
    let scene = Scene { planes: vec![wall(v(-1, 0, 0), -2000)] };
    let ctrl = CharacterController { velocity: v(10_000, 10_000, 0) };
    let cfg = PassConfig::default();
    let mut pos = v(0, 0, 0);
    move_character_controller(&scene, &ctrl, &mut pos, 1, &cfg);
    // First bounce: travel distance 14142, impact at 2828, advance 2823
    // ray units, i.e. 1996 on each axis; slide keeps the y remainder.
    assert_eq!(pos, v(1996, 10_000, 0));
    assert!(pos.x <= 2000);
}

/// With no obstacle within reach the displacement is exactly
/// velocity * tick duration.
#[test]
fn free_space_moves_exactly() {
    let scene = Scene { planes: vec![wall(v(-1, 0, 0), -100_000)] };
    let ctrl = CharacterController { velocity: v(3000, -1200, 777) };
    let cfg = PassConfig::default();
    let mut pos = v(10, 20, 30);
    move_character_controller(&scene, &ctrl, &mut pos, 1, &cfg);
    assert_eq!(pos, v(3010, -1180, 807));
}

/// An empty scene never blocks anything.
#[test]
fn empty_scene_moves_exactly() {
    let scene = Scene { planes: vec![] };
    let ctrl = CharacterController { velocity: v(-4000, 0, 2500) };
    let cfg = PassConfig::default();
    let mut pos = v(0, 0, 0);
    move_character_controller(&scene, &ctrl, &mut pos, 2, &cfg);
    assert_eq!(pos, v(-8000, 0, 5000));
}

/// A zero velocity skips the pass: no movement, no error.
#[test]
fn zero_velocity_skips_pass() {
    let scene = Scene { planes: vec![wall(v(-1, 0, 0), -2000)] };
    let ctrl = CharacterController { velocity: v(0, 0, 0) };
    let cfg = PassConfig::default();
    let mut pos = v(123, 456, 789);
    move_character_controller(&scene, &ctrl, &mut pos, 1, &cfg);
    assert_eq!(pos, v(123, 456, 789));
}

/// A zero tick duration requests no displacement and moves nothing.
#[test]
fn zero_tick_skips_pass() {
    let scene = Scene { planes: vec![wall(v(-1, 0, 0), -2000)] };
    let ctrl = CharacterController { velocity: v(10_000, 0, 0) };
    let cfg = PassConfig::default();
    let mut pos = v(7, 8, 9);
    move_character_controller(&scene, &ctrl, &mut pos, 0, &cfg);
    assert_eq!(pos, v(7, 8, 9));
}

/// Driving into a square corner: sliding along the first wall runs into
/// the second, the two planes form a crease whose direction (the z axis)
/// carries none of the requested velocity, and the pass stops inside the
/// corner without penetrating either wall.
#[test]
fn corner_stops_without_penetration() {
    let scene = Scene {
        planes: vec![wall(v(-1, 0, 0), -2000), wall(v(0, -1, 0), -2000)],
    };
    let ctrl = CharacterController { velocity: v(10_000, 10_000, 0) };
    let cfg = PassConfig::default();
    let mut pos = v(0, 0, 0);
    move_character_controller(&scene, &ctrl, &mut pos, 1, &cfg);
    assert!(pos.x <= 2000 && pos.y <= 2000);
    assert_eq!(pos, v(1996, 1995, 0));
}

/// The same corner with a velocity that has a component along the crease:
/// the mover keeps moving, parallel to the line where the walls meet.
#[test]
fn corner_with_crease_component_keeps_moving() {
    let scene = Scene {
        planes: vec![wall(v(-1, 0, 0), -2000), wall(v(0, -1, 0), -2000)],
    };
    let ctrl = CharacterController { velocity: v(10_000, 10_000, 3000) };
    let cfg = PassConfig::default();
    let mut pos = v(1995, 1995, 0);
    move_character_controller(&scene, &ctrl, &mut pos, 1, &cfg);
    // The mover hugs the corner: x and y stay put up to the skin margin,
    // all remaining progress is along +z.
    assert!(pos.x <= 2000 && pos.y <= 2000);
    assert!(pos.z > 0);
}

/// Re-running the pass from the resulting pose with the same velocity does
/// not re-detect the wall as an overlapping hit: the mover does not
/// oscillate, it keeps sliding along the surface.
#[test]
fn second_pass_does_not_jitter() {
    let scene = Scene { planes: vec![wall(v(-1, 0, 0), -2000)] };
    let ctrl = CharacterController { velocity: v(10_000, 10_000, 0) };
    let cfg = PassConfig::default();
    let mut pos = v(0, 0, 0);
    move_character_controller(&scene, &ctrl, &mut pos, 1, &cfg);
    assert_eq!(pos, v(1996, 10_000, 0));
    move_character_controller(&scene, &ctrl, &mut pos, 1, &cfg);
    // x stays pinned at the wall (within the skin), y advances the full
    // distance again.
    assert_eq!(pos, v(1996, 20_000, 0));
}

/// A pathological enclosing box with more walls than the clip-plane
/// capacity: the pass terminates within the bounce budget and leaves the
/// mover inside the box up to the accumulated skin tolerance.
#[test]
fn tight_box_terminates_within_budget() {
    let scene = Scene {
        planes: vec![
            wall(v(-1, 0, 0), -2000),
            wall(v(1, 0, 0), -2000),
            wall(v(0, -1, 0), -2000),
            wall(v(0, 1, 0), -2000),
            wall(v(0, 0, -1), -2000),
            wall(v(0, 0, 1), -2000),
        ],
    };
    let ctrl = CharacterController { velocity: v(9_000, 7_000, 5_000) };
    let cfg = PassConfig::default();
    let mut pos = v(0, 0, 0);
    move_character_controller(&scene, &ctrl, &mut pos, 1, &cfg);
    let tolerance = cfg.max_bounces as i64 * cfg.skin_width;
    assert!(pos.x.abs() <= 2000 + tolerance);
    assert!(pos.y.abs() <= 2000 + tolerance);
    assert!(pos.z.abs() <= 2000 + tolerance);
}

/// With a clip-plane capacity of zero the pass aborts at the first contact
/// instead of sliding.
#[test]
fn zero_capacity_aborts_at_first_contact() {
    let scene = Scene { planes: vec![wall(v(-1, 0, 0), -2000)] };
    let ctrl = CharacterController { velocity: v(10_000, 10_000, 0) };
    let cfg = PassConfig {
        skin_width: 5,
        max_bounces: 4,
        max_clip_planes: 0,
        plane_reset_threshold: 10,
    };
    let mut pos = v(0, 0, 0);
    move_character_controller(&scene, &ctrl, &mut pos, 1, &cfg);
    // The mover reaches the wall but the y remainder is discarded.
    assert_eq!(pos, v(1996, 1996, 0));
}

/// The plural driver resolves every mover and never writes a velocity.
#[test]
fn many_movers_resolved_independently() {
    let scene = Scene { planes: vec![wall(v(-1, 0, 0), -2000)] };
    let cfg = PassConfig::default();
    let mut movers = vec![
        Mover {
            controller: CharacterController { velocity: v(10_000, 0, 0) },
            position: v(0, 0, 0),
        },
        Mover {
            controller: CharacterController { velocity: v(500, 600, 700) },
            position: v(-1000, 0, 0),
        },
    ];
    move_character_controllers(&scene, &mut movers, 1, &cfg);
    assert_eq!(movers.len(), 2);
    assert_eq!(movers[0].position, v(1995, 0, 0));
    assert_eq!(movers[0].controller.velocity, v(10_000, 0, 0));
    assert_eq!(movers[1].position, v(-500, 600, 700));
    assert_eq!(movers[1].controller.velocity, v(500, 600, 700));
}

/// The default configuration is tuned for milliunit coordinates.
#[test]
fn default_config_values() {
    let cfg = PassConfig::default();
    assert_eq!(cfg.skin_width, 5);
    assert_eq!(cfg.max_bounces, 4);
    assert_eq!(cfg.max_clip_planes, 5);
    assert_eq!(cfg.plane_reset_threshold, 10);
    let ctrl = CharacterController::default();
    assert_eq!(ctrl.velocity, v(0, 0, 0));
}
