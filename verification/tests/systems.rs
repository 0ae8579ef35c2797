use hylaean_path::components::{Position, Velocity};
use hylaean_path::gravity::gravity_system;
use hylaean_path::propagate::propagate_system;
use hylaean_path::proximity::proximity_detection_system;
use hylaean_path::store::{ComponentStore, DenseStore, SparseStore};
use hylaean_path::world::World;

type DenseWorld = World<DenseStore<Position>, DenseStore<Velocity>>;
type SparseWorld = World<SparseStore<Position>, SparseStore<Velocity>>;

const MU_EARTH: i64 = 398_600_441_800_000; // 3.986004418e14 m^3/s^2

fn p(x: i64, y: i64, z: i64) -> Position {
    Position { x, y, z }
}

fn v(dx: i64, dy: i64, dz: i64) -> Velocity {
    Velocity { dx, dy, dz }
}

#[test]
fn gravity_increment_exact() {
    // r = 7.0e6 m along x; the axis increment is the truncated quotient
    // mu*dt*K^3*x / r^3 = 81347 units/s, directed toward the body.
    let mut w: DenseWorld = World::new();
    let a = w.add_entity(p(7_000_000_000, 0, 0), v(0, 7_546_053, 0));
    gravity_system(&mut w, 10, MU_EARTH);
    assert_eq!(w.velocities.get(a), Some(v(-81_347, 7_546_053, 0)));
    // the position is untouched by the gravity pass
    assert_eq!(w.positions.get(a), Some(p(7_000_000_000, 0, 0)));
}

#[test]
fn gravity_pulls_along_each_axis() {
    let mut w: DenseWorld = World::new();
    let a = w.add_entity(p(0, 7_000_000_000, 0), v(0, 0, 0));
    let b = w.add_entity(p(0, 0, -7_000_000_000), v(0, 0, 0));
    gravity_system(&mut w, 10, MU_EARTH);
    assert_eq!(w.velocities.get(a), Some(v(0, -81_347, 0)));
    assert_eq!(w.velocities.get(b), Some(v(0, 0, 81_347)));
}

#[test]
fn gravity_skips_entity_at_origin() {
    let mut w: DenseWorld = World::new();
    let a = w.add_entity(p(0, 0, 0), v(123, -456, 789));
    gravity_system(&mut w, 10, MU_EARTH);
    assert_eq!(w.velocities.get(a), Some(v(123, -456, 789)));
}

#[test]
fn gravity_skips_entity_without_velocity() {
    let mut w: DenseWorld = World::new();
    let a = w.create_entity();
    w.add_position(a, p(7_000_000_000, 0, 0));
    gravity_system(&mut w, 10, MU_EARTH);
    assert_eq!(w.velocities.get(a), None);
    assert_eq!(w.positions.get(a), Some(p(7_000_000_000, 0, 0)));
}

#[test]
fn propagation_moves_by_velocity_times_dt() {
    let mut w: SparseWorld = World::new();
    let a = w.add_entity(p(100, 200, 300), v(10, -20, 30));
    propagate_system(&mut w, 10);
    assert_eq!(w.positions.get(a), Some(p(200, 0, 600)));
    // velocity untouched by the propagation pass
    assert_eq!(w.velocities.get(a), Some(v(10, -20, 30)));
}

#[test]
fn proximity_reports_close_pair() {
    // 50 m apart, threshold 100 m: exactly one pair, the two entities.
    let mut w: DenseWorld = World::new();
    w.add_entity(p(0, 0, 0), v(0, 0, 0));
    w.add_entity(p(50_000, 0, 0), v(0, 0, 0));
    let warnings = proximity_detection_system(&w, 100_000);
    assert_eq!(warnings, vec![(0, 1)]);
}

#[test]
fn proximity_empty_when_far() {
    // 200 m apart, threshold 100 m: nothing reported.
    let mut w: DenseWorld = World::new();
    w.add_entity(p(0, 0, 0), v(0, 0, 0));
    w.add_entity(p(200_000, 0, 0), v(0, 0, 0));
    let warnings = proximity_detection_system(&w, 100_000);
    assert_eq!(warnings, Vec::new());
}

#[test]
fn proximity_threshold_is_strict() {
    // separation exactly equal to the threshold is not reported
    let mut w: DenseWorld = World::new();
    w.add_entity(p(0, 0, 0), v(0, 0, 0));
    w.add_entity(p(100_000, 0, 0), v(0, 0, 0));
    assert_eq!(proximity_detection_system(&w, 100_000), Vec::new());
    assert_eq!(proximity_detection_system(&w, 100_001), vec![(0, 1)]);
}

#[test]
fn proximity_each_pair_once_never_self() {
    // three mutually close entities: each unordered pair exactly once,
    // in snapshot order, no entity paired with itself
    let mut w: SparseWorld = World::new();
    w.add_entity(p(0, 0, 0), v(0, 0, 0));
    w.add_entity(p(10, 0, 0), v(0, 0, 0));
    w.add_entity(p(0, 10, 0), v(0, 0, 0));
    let warnings = proximity_detection_system(&w, 1_000);
    assert_eq!(warnings, vec![(0, 1), (0, 2), (1, 2)]);
}

#[test]
fn proximity_nonpositive_threshold_reports_nothing() {
    // distances are non-negative, so no separation is strictly below zero
    let mut w: DenseWorld = World::new();
    w.add_entity(p(0, 0, 0), v(0, 0, 0));
    w.add_entity(p(0, 0, 0), v(0, 0, 0));
    assert_eq!(proximity_detection_system(&w, 0), Vec::new());
    assert_eq!(proximity_detection_system(&w, -5), Vec::new());
    assert_eq!(proximity_detection_system(&w, 1), vec![(0, 1)]);
}

#[test]
fn empty_world_runs_all_systems() {
    let mut w: DenseWorld = World::new();
    gravity_system(&mut w, 10, MU_EARTH);
    propagate_system(&mut w, 10);
    assert_eq!(proximity_detection_system(&w, 100_000), Vec::new());
}

#[test]
fn single_entity_never_pairs_with_itself() {
    let mut w: SparseWorld = World::new();
    w.add_entity(p(0, 0, 0), v(0, 0, 0));
    assert_eq!(proximity_detection_system(&w, 1_000_000), Vec::new());
}

#[test]
fn systems_agree_across_backends() {
    let mut wd: DenseWorld = World::new();
    let mut ws: SparseWorld = World::new();
    for (pos, vel) in [
        (p(7_000_000_000, 0, 0), v(0, 7_546_053, 0)),
        (p(0, -7_100_000_000, 0), v(7_493_000, 0, 0)),
        (p(4_000_000_000, 4_000_000_000, 4_000_000_000), v(-1_000_000, 2_000_000, -500_000)),
    ] {
        wd.add_entity(pos, vel);
        ws.add_entity(pos, vel);
    }
    gravity_system(&mut wd, 10, MU_EARTH);
    gravity_system(&mut ws, 10, MU_EARTH);
    propagate_system(&mut wd, 10);
    propagate_system(&mut ws, 10);
    for h in 0..3 {
        assert_eq!(wd.positions.get(h), ws.positions.get(h));
        assert_eq!(wd.velocities.get(h), ws.velocities.get(h));
    }
    assert_eq!(
        proximity_detection_system(&wd, 10_000_000_000),
        proximity_detection_system(&ws, 10_000_000_000)
    );
}
