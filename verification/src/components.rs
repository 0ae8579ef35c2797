//! Entity handles and the two physics components, with their ghost views.

use crate::math::POS_LIMIT;
use vstd::prelude::*;

verus! {

/// Opaque identifier binding a `Position` and a `Velocity` as one satellite.
/// The dense backend reads it as an ordinal, the sparse backend as a
/// never-reused key; both allocate handles as consecutive counter values.
pub type EntityId = usize;

/// Coordinates of a satellite, in position units (1/1000 meter), in an
/// inertial frame centered on the gravitating body.
#[derive(Clone, Copy, Debug, PartialEq, Eq, Structural)]
pub struct Position {
    pub x: i64,
    pub y: i64,
    pub z: i64,
}

/// Velocity components of a satellite, in position units per second.
#[derive(Clone, Copy, Debug, PartialEq, Eq, Structural)]
pub struct Velocity {
    pub dx: i64,
    pub dy: i64,
    pub dz: i64,
}

/// Mathematical view of a position: a triple of unbounded integers.
pub open spec fn pos_triple(p: Position) -> (int, int, int) {
    (p.x as int, p.y as int, p.z as int)
}

/// Mathematical view of a velocity.
pub open spec fn vel_triple(v: Velocity) -> (int, int, int) {
    (v.dx as int, v.dy as int, v.dz as int)
}

/// Componentwise sum of two integer triples.
pub open spec fn add3(a: (int, int, int), b: (int, int, int)) -> (int, int, int) {
    (a.0 + b.0, a.1 + b.1, a.2 + b.2)
}

/// An integer triple scaled componentwise by `k`.
pub open spec fn scale3(a: (int, int, int), k: int) -> (int, int, int) {
    (a.0 * k, a.1 * k, a.2 * k)
}

/// Every coordinate within the machine-range headroom limit.
pub open spec fn pos_in_bounds(p: Position) -> bool {
    &&& -POS_LIMIT <= p.x <= POS_LIMIT
    &&& -POS_LIMIT <= p.y <= POS_LIMIT
    &&& -POS_LIMIT <= p.z <= POS_LIMIT
}

} // verus!
