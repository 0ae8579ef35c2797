use hylaean_path::components::{Position, Velocity};
use hylaean_path::driver::{SimConfig, Simulation};
use hylaean_path::store::{DenseStore, SparseStore};

type DenseSim = Simulation<DenseStore<Position>, DenseStore<Velocity>>;
type SparseSim = Simulation<SparseStore<Position>, SparseStore<Velocity>>;

const MU_EARTH: i64 = 398_600_441_800_000; // 3.986004418e14 m^3/s^2

fn p(x: i64, y: i64, z: i64) -> Position {
    Position { x, y, z }
}

fn v(dx: i64, dy: i64, dz: i64) -> Velocity {
    Velocity { dx, dy, dz }
}

fn cfg(mu: i64, dt: i64, threshold: i64) -> SimConfig {
    SimConfig::new(mu, dt, threshold).unwrap()
}

#[test]
fn config_validation() {
    assert!(SimConfig::new(MU_EARTH, 10, 100_000).is_some());
    assert!(SimConfig::new(-1, 10, 100_000).is_none());
    assert!(SimConfig::new(MU_EARTH, -1, 100_000).is_none());
    assert!(SimConfig::new(MU_EARTH, 1_001, 100_000).is_none());
    assert!(SimConfig::new(1_000_000_000_000_001, 10, 100_000).is_none());
    // any threshold is recognized; non-positive ones simply report nothing
    assert!(SimConfig::new(MU_EARTH, 10, -7).is_some());
    let c = SimConfig::new(MU_EARTH, 10, 100_000).unwrap();
    assert_eq!(c.gravitational_parameter, MU_EARTH);
    assert_eq!(c.dt, 10);
    assert_eq!(c.proximity_threshold, 100_000);
}

#[test]
fn step_runs_gravity_before_propagation() {
    // semi-implicit Euler: the position must move with the *updated*
    // velocity, so x changes by (-81347) * 10 in the very first step
    let mut sim: DenseSim = Simulation::new(cfg(MU_EARTH, 10, 0));
    let a = sim.add_entity(p(7_000_000_000, 0, 0), v(0, 7_546_053, 0));
    assert_eq!(a, 0);
    assert!(sim.try_step());
    let positions = sim.get_positions();
    assert_eq!(positions.len(), 1);
    assert_eq!(positions[0], p(7_000_000_000 - 813_470, 75_460_530, 0));
}

#[test]
fn warnings_are_replaced_not_accumulated() {
    // mu = 0: velocities stay constant and motion is linear; the second
    // entity crosses the first's neighbourhood and leaves it again
    let mut sim: DenseSim = Simulation::new(cfg(0, 10, 100_000));
    sim.add_entity(p(0, 0, 0), v(0, 0, 0));
    sim.add_entity(p(-150_000, 0, 0), v(10_000, 0, 0));
    assert!(sim.try_step());
    assert_eq!(sim.get_proximity_warnings(), vec![(0, 1)]); // at -50 m
    assert!(sim.try_step());
    assert_eq!(sim.get_proximity_warnings(), vec![(0, 1)]); // at +50 m
    assert!(sim.try_step());
    assert_eq!(sim.get_proximity_warnings(), Vec::new()); // at +150 m: gone
}

#[test]
fn try_step_refuses_machine_range_overflow() {
    // an entity one position unit from the body: the increment overflows
    // the velocity range, so the step is refused and nothing changes
    let mut sim: DenseSim = Simulation::new(cfg(1_000_000_000_000_000, 1_000, 0));
    sim.add_entity(p(1, 0, 0), v(0, 0, 0));
    assert!(!sim.try_step());
    let positions = sim.get_positions();
    assert_eq!(positions, vec![p(1, 0, 0)]);
    assert_eq!(sim.get_proximity_warnings(), Vec::new());
}

#[test]
fn dense_and_sparse_trajectories_agree() {
    let seeds = [
        (p(7_000_000_000, 0, 0), v(0, 7_546_053, 0)),
        (p(0, 7_050_000_000, 0), v(-7_519_000, 0, 0)),
        (p(-7_100_000_000, 0, 0), v(0, -7_493_000, 0)),
        (p(0, 0, 7_200_000_000), v(5_300_000, 5_300_000, 0)),
    ];
    let mut dense: DenseSim = Simulation::new(cfg(MU_EARTH, 10, 100_000));
    let mut sparse: SparseSim = Simulation::new(cfg(MU_EARTH, 10, 100_000));
    for (pos, vel) in seeds {
        dense.add_entity(pos, vel);
        sparse.add_entity(pos, vel);
    }
    for _ in 0..100 {
        assert!(dense.try_step());
        assert!(sparse.try_step());
        assert_eq!(dense.get_positions(), sparse.get_positions());
        assert_eq!(dense.get_proximity_warnings(), sparse.get_proximity_warnings());
    }
}

#[test]
fn circular_orbit_keeps_its_radius() {
    // circular speed sqrt(mu/r) at r = 7.0e6 m, perpendicular to the radius;
    // 100 ticks of 10 s must keep the distance from the body within 1% of r
    let r_units = 7_000_000_000i64;
    let v_units = 7_546_053i64;
    let mut sim: DenseSim = Simulation::new(cfg(MU_EARTH, 10, 0));
    sim.add_entity(p(r_units, 0, 0), v(0, v_units, 0));
    for _ in 0..100 {
        assert!(sim.try_step());
    }
    let positions = sim.get_positions();
    let pos = positions[0];
    let d2 = (pos.x as i128) * (pos.x as i128) + (pos.y as i128) * (pos.y as i128)
        + (pos.z as i128) * (pos.z as i128);
    let dist = (d2 as f64).sqrt();
    let drift = (dist - r_units as f64).abs() / (r_units as f64);
    assert!(drift < 0.01, "orbit drifted by {}", drift);
}

#[test]
fn get_positions_snapshot_in_order() {
    let mut sim: SparseSim = Simulation::new(cfg(MU_EARTH, 10, 0));
    sim.add_entity(p(1, 2, 3), v(0, 0, 0));
    sim.add_entity(p(4, 5, 6), v(0, 0, 0));
    sim.add_entity(p(7, 8, 9), v(0, 0, 0));
    assert_eq!(sim.get_positions(), vec![p(1, 2, 3), p(4, 5, 6), p(7, 8, 9)]);
}
