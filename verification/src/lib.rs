//! Collision-free character movement by iterative "cast, clip and slide".
//!
//! A mover with a velocity is advanced through a scene of obstacles once per
//! simulation tick.  Each pass repeatedly sweeps the mover along its remaining
//! displacement, advances it up to the first obstacle (keeping a small skin
//! clearance), records the obstacle surface as a clip plane, and projects the
//! remaining velocity so that the mover slides along the touched surfaces
//! instead of stopping dead.  When two recorded planes form a crease the
//! velocity is redirected along their line of intersection.
//!
//! All geometry is exact fixed-point arithmetic: coordinates are plain `i64`
//! values in whatever resolution unit the caller picks (for example
//! milliunits).  Obstacle surfaces are half-space planes with unit normals;
//! a mover with a spherical shape of support radius `r` is handled by
//! inflating every plane offset by `r`, which reduces the swept shape to a
//! swept point.  Over the integers a unit vector is one of the six signed
//! axis directions, so the scene models axis-aligned surfaces; that is the
//! price of exact arithmetic, and the clip-and-slide logic itself is
//! stated for any unit normal.

pub mod clip;
pub mod num;
pub mod pass;
pub mod scene;
pub mod vec3;
