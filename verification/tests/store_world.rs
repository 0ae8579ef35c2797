use hylaean_path::components::{Position, Velocity};
use hylaean_path::math::isqrt;
use hylaean_path::store::{ComponentStore, DenseStore, SparseStore};
use hylaean_path::world::World;

type DenseWorld = World<DenseStore<Position>, DenseStore<Velocity>>;
type SparseWorld = World<SparseStore<Position>, SparseStore<Velocity>>;

fn p(x: i64, y: i64, z: i64) -> Position {
    Position { x, y, z }
}

fn v(dx: i64, dy: i64, dz: i64) -> Velocity {
    Velocity { dx, dy, dz }
}

#[test]
fn isqrt_small_values() {
    assert_eq!(isqrt(0), 0);
    assert_eq!(isqrt(1), 1);
    assert_eq!(isqrt(3), 1);
    assert_eq!(isqrt(4), 2);
    assert_eq!(isqrt(15), 3);
    assert_eq!(isqrt(16), 4);
    assert_eq!(isqrt(99), 9);
}

#[test]
fn isqrt_large_values() {
    assert_eq!(isqrt(30_000_000_000_000_000_000_000), 173_205_080_756);
    assert_eq!(isqrt(49_000_000_000_000_000_000), 7_000_000_000);
    assert_eq!(isqrt(49_000_000_000_000_000_001), 7_000_000_000);
    assert_eq!(isqrt(48_999_999_999_999_999_999), 6_999_999_999);
}

#[test]
fn dense_world_create_and_attach() {
    let mut w: DenseWorld = World::new();
    let a = w.create_entity();
    assert_eq!(a, 0);
    w.add_position(a, p(1, 2, 3));
    w.add_velocity(a, v(4, 5, 6));
    let b = w.create_entity();
    assert_eq!(b, 1);
    w.add_position(b, p(7, 8, 9));
    w.add_velocity(b, v(10, 11, 12));
    assert_eq!(w.positions.get(a), Some(p(1, 2, 3)));
    assert_eq!(w.velocities.get(a), Some(v(4, 5, 6)));
    assert_eq!(w.positions.get(b), Some(p(7, 8, 9)));
    assert_eq!(w.velocities.get(b), Some(v(10, 11, 12)));
    assert_eq!(w.positions.get(2), None);
    assert_eq!(w.positions.handles(), vec![0, 1]);
}

#[test]
fn sparse_world_create_and_attach() {
    let mut w: SparseWorld = World::new();
    let a = w.add_entity(p(1, 2, 3), v(4, 5, 6));
    let b = w.add_entity(p(7, 8, 9), v(10, 11, 12));
    assert_eq!((a, b), (0, 1));
    assert_eq!(w.positions.get(a), Some(p(1, 2, 3)));
    assert_eq!(w.velocities.get(b), Some(v(10, 11, 12)));
    assert_eq!(w.velocities.get(5), None);
    assert_eq!(w.positions.handles(), vec![0, 1]);
    assert_eq!(w.velocities.handles(), vec![0, 1]);
}

#[test]
fn partial_attachment_is_visible() {
    let mut w: DenseWorld = World::new();
    let a = w.create_entity();
    w.add_position(a, p(5, 5, 5));
    // no velocity attached: the velocity store must not know the handle
    assert_eq!(w.positions.get(a), Some(p(5, 5, 5)));
    assert_eq!(w.velocities.get(a), None);
}
