//! Gravity system: Euler integration of a central force into velocities.
//!
//! For an entity at position r with |r| > 0, one pass adds a = -mu * r/|r|^3
//! times dt to its velocity, in exact fixed-point arithmetic: the radius is
//! the floor square root of |r|^2 in position units, and each component's
//! velocity change is the truncated quotient mu*dt*K^3*|c| / radius^3 with
//! the sign opposite to the coordinate c (K = units per meter). An entity
//! exactly at the origin is skipped: a singularity guard, not an error.

use crate::components::{add3, pos_in_bounds, pos_triple, vel_triple, Position, Velocity};
use crate::math::{isqrt, lemma_sqrt_floor_bounds, sqrt_floor, DT_LIMIT, MU_LIMIT, POS_LIMIT,
    UNITS_PER_METER_CUBED};
use crate::store::ComponentStore;
use crate::world::World;
use vstd::assert_seqs_equal;
use vstd::prelude::*;

verus! {

/// Velocity change along one axis: magnitude mu*dt*K^3*|c| / r3, truncated,
/// directed against the coordinate `c`.
pub open spec fn axis_delta(c: int, r3: int, mu: int, dt: int) -> int {
    if c >= 0 {
        -((mu * dt * (UNITS_PER_METER_CUBED as int) * c) / r3)
    } else {
        (mu * dt * (UNITS_PER_METER_CUBED as int) * (-c)) / r3
    }
}

/// The exact velocity change of one gravity pass for an entity at position
/// `p`: zero at the origin, else the componentwise central-force increment.
pub open spec fn grav_delta(p: (int, int, int), mu: int, dt: int) -> (int, int, int) {
    let n = p.0 * p.0 + p.1 * p.1 + p.2 * p.2;
    if n == 0 {
        (0, 0, 0)
    } else {
        let r = sqrt_floor(n as nat) as int;
        let r3 = r * r * r;
        (axis_delta(p.0, r3, mu, dt), axis_delta(p.1, r3, mu, dt), axis_delta(p.2, r3, mu, dt))
    }
}

/// What one gravity pass does to the velocity map: every entity present in
/// both stores gets the increment; every other velocity is untouched.
pub open spec fn grav_step(
    pm: Map<int, (int, int, int)>,
    vm: Map<int, (int, int, int)>,
    mu: int,
    dt: int,
) -> Map<int, (int, int, int)> {
    Map::new(
        |h: int| vm.dom().contains(h),
        |h: int|
            if pm.dom().contains(h) {
                add3(vm[h], grav_delta(pm[h], mu, dt))
            } else {
                vm[h]
            },
    )
}

/// The updated velocity of one entity stays within the machine range.
pub open spec fn grav_fits_entity(p: (int, int, int), v: (int, int, int), mu: int, dt: int) -> bool {
    let d = grav_delta(p, mu, dt);
    &&& i64::MIN <= v.0 + d.0 <= i64::MAX
    &&& i64::MIN <= v.1 + d.1 <= i64::MAX
    &&& i64::MIN <= v.2 + d.2 <= i64::MAX
}

/// Every updated velocity of the pass stays within the machine range.
pub open spec fn gravity_fits(
    pm: Map<int, (int, int, int)>,
    vm: Map<int, (int, int, int)>,
    mu: int,
    dt: int,
) -> bool {
    forall|h: int|
        #[trigger] pm.dom().contains(h) && vm.dom().contains(h) ==> grav_fits_entity(
            pm[h],
            vm[h],
            mu,
            dt,
        )
}

/// One axis of the increment, exactly as `axis_delta` states it.
fn axis_delta_exec(c: i64, r3: u128, mu: i64, dt: i64) -> (d: i128)
    requires
        -POS_LIMIT <= c <= POS_LIMIT,
        0 <= mu <= MU_LIMIT,
        0 <= dt <= DT_LIMIT,
        1 <= r3 <= 8_000_000_000_000_000_000_000_000_000_000_000u128,
    ensures
        d as int == axis_delta(c as int, r3 as int, mu as int, dt as int),
        -100_000_000_000_000_000_000_000_000_000_000_000_000i128 <= d
            <= 100_000_000_000_000_000_000_000_000_000_000_000_000i128,
{
    let mag: u128 = if c >= 0 {
        c as u128
    } else {
        (-(c as i128)) as u128
    };
    assert((mu as u128) * (dt as u128) <= 1_000_000_000_000_000_000u128) by (nonlinear_arith)
        requires
            0 <= mu <= 1_000_000_000_000_000i64,
            0 <= dt <= 1_000i64,
    ;
    let md: u128 = (mu as u128) * (dt as u128);
    let mdk: u128 = md * 1_000_000_000u128;
    assert(mdk * mag <= 100_000_000_000_000_000_000_000_000_000_000_000_000u128) by (
        nonlinear_arith)
        requires
            mdk <= 1_000_000_000_000_000_000_000_000_000u128,
            0 <= mag <= 100_000_000_000u128,
    ;
    let num: u128 = mdk * mag;
    let q: u128 = num / r3;
    assert(q <= num) by (nonlinear_arith)
        requires
            q == num / r3,
            r3 >= 1,
            num >= 0,
    ;
    if c >= 0 {
        -(q as i128)
    } else {
        q as i128
    }
}

/// The full increment for an entity at position `p`, exactly as `grav_delta`
/// states it.
pub(crate) fn grav_delta_exec(p: &Position, mu: i64, dt: i64) -> (d: (i128, i128, i128))
    requires
        pos_in_bounds(*p),
        0 <= mu <= MU_LIMIT,
        0 <= dt <= DT_LIMIT,
    ensures
        (d.0 as int, d.1 as int, d.2 as int) == grav_delta(pos_triple(*p), mu as int, dt as int),
        -100_000_000_000_000_000_000_000_000_000_000_000_000i128 <= d.0
            <= 100_000_000_000_000_000_000_000_000_000_000_000_000i128,
        -100_000_000_000_000_000_000_000_000_000_000_000_000i128 <= d.1
            <= 100_000_000_000_000_000_000_000_000_000_000_000_000i128,
        -100_000_000_000_000_000_000_000_000_000_000_000_000i128 <= d.2
            <= 100_000_000_000_000_000_000_000_000_000_000_000_000i128,
{
    let x = p.x as i128;
    let y = p.y as i128;
    let z = p.z as i128;
    assert(0 <= x * x <= 10_000_000_000_000_000_000_000i128 && 0 <= y * y
        <= 10_000_000_000_000_000_000_000i128 && 0 <= z * z
        <= 10_000_000_000_000_000_000_000i128) by (nonlinear_arith)
        requires
            -100_000_000_000i128 <= x <= 100_000_000_000i128,
            -100_000_000_000i128 <= y <= 100_000_000_000i128,
            -100_000_000_000i128 <= z <= 100_000_000_000i128,
    ;
    let n_signed: i128 = x * x + y * y + z * z;
    if n_signed == 0 {
        return (0, 0, 0);
    }
    let n: u128 = n_signed as u128;
    let r: u128 = isqrt(n);
    proof {
        lemma_sqrt_floor_bounds(n as nat);
        assert(r <= 200_000_000_000u128) by (nonlinear_arith)
            requires
                (r as nat) * (r as nat) <= n as nat,
                n <= 30_000_000_000_000_000_000_000u128,
        ;
        assert(r >= 1) by (nonlinear_arith)
            requires
                (n as nat) < ((r as nat) + 1) * ((r as nat) + 1),
                n >= 1,
        ;
    }
    assert(1 <= r * r * r <= 8_000_000_000_000_000_000_000_000_000_000_000u128) by (
        nonlinear_arith)
        requires
            1 <= r <= 200_000_000_000u128,
    ;
    let r3: u128 = r * r * r;
    (
        axis_delta_exec(p.x, r3, mu, dt),
        axis_delta_exec(p.y, r3, mu, dt),
        axis_delta_exec(p.z, r3, mu, dt),
    )
}

/// The gravity system: updates every velocity whose entity also holds a
/// position, by exactly the central-force Euler increment; entities at the
/// origin and entities missing a component are left untouched, as are the
/// positions, the enumeration orders and the handle counter.
pub fn gravity_system<SP: ComponentStore<Position>, SV: ComponentStore<Velocity>>(
    world: &mut World<SP, SV>,
    dt: i64,
    gravitational_parameter: i64,
)
    requires
        old(world).wf(),
        0 <= gravitational_parameter <= MU_LIMIT,
        0 <= dt <= DT_LIMIT,
        gravity_fits(old(world).pos_map(), old(world).vel_map(), gravitational_parameter as int,
            dt as int),
    ensures
        final(world).wf(),
        final(world).vel_map() == grav_step(
            old(world).pos_map(),
            old(world).vel_map(),
            gravitational_parameter as int,
            dt as int,
        ),
        final(world).positions == old(world).positions,
        final(world).vel_order() == old(world).vel_order(),
        final(world).next_entity == old(world).next_entity,
{
    let mu = gravitational_parameter;
    let ghost pm0 = world.pos_map();
    let ghost vm0 = world.vel_map();
    let ghost ord = world.positions.order();
    let ghost w0 = *world;
    proof {
        world.positions.lemma_inv();
        world.velocities.lemma_inv();
    }
    let handle_list = world.positions.handles();
    let n = handle_list.len();
    let mut i: usize = 0;
    while i < n
        invariant
            i <= n,
            world.wf(),
            handle_list@.len() == n,
            n == ord.len(),
            forall|k: int| 0 <= k < n ==> handle_list@[k] as int == ord[k],
            ord.no_duplicates(),
            0 <= mu <= MU_LIMIT,
            0 <= dt <= DT_LIMIT,
            world.positions == w0.positions,
            world.next_entity == w0.next_entity,
            pm0 == w0.pos_map(),
            vm0 == w0.vel_map(),
            ord == w0.positions.order(),
            w0.wf(),
            gravity_fits(pm0, vm0, mu as int, dt as int),
            forall|g: int| ord.contains(g) <==> #[trigger] pm0.dom().contains(g),
            world.vel_order() == w0.vel_order(),
            world.vel_map().dom() == vm0.dom(),
            forall|g: int| #[trigger]
                vm0.dom().contains(g) ==> world.vel_map()[g] == if pm0.dom().contains(g)
                    && ord.take(i as int).contains(g) {
                    add3(vm0[g], grav_delta(pm0[g], mu as int, dt as int))
                } else {
                    vm0[g]
                },
        decreases n - i,
    {
        let h = handle_list[i];
        let ghost pre = *world;
        match world.velocities.get(h) {
            None => {
                proof {
                    assert(ord[i as int] == h as int);
                    assert_seqs_equal!(ord.take(i as int + 1) == ord.take(i as int).push(ord[i as int]));
                    assert forall|g: int| vm0.dom().contains(g) implies world.vel_map()[g] == (
                    if pm0.dom().contains(g) && ord.take(i as int + 1).contains(g) {
                        add3(vm0[g], grav_delta(pm0[g], mu as int, dt as int))
                    } else {
                        vm0[g]
                    }) by {
                        if g != h as int {
                            assert(ord.take(i as int + 1).contains(g) == ord.take(
                                i as int,
                            ).contains(g));
                        }
                    }
                }
            },
            Some(vel) => {
                let p_opt = world.positions.get(h);
                proof {
                    world.positions.lemma_inv();
                    assert(ord[i as int] == h as int);
                    assert(ord.contains(h as int));
                }
                let pos = match p_opt {
                    Some(pos) => pos,
                    None => { proof { assert(false); } vstd::pervasive::unreached() },
                };
                proof {
                    // the entity is processed for the first time
                    if ord.take(i as int).contains(h as int) {
                        let k = choose|k: int|
                            0 <= k < ord.take(i as int).len() && ord.take(i as int)[k]
                                == h as int;
                        assert(ord.take(i as int)[k] == ord[k]);
                        assert(ord[k] == ord[i as int]);
                        assert(false);
                    }
                    assert(world.velocities.contents().dom().contains(h as int));
                    assert(vm0.dom().contains(h as int));
                    assert(world.vel_map()[h as int] == vm0[h as int]);
                    assert(vel_triple(vel) == vm0[h as int]);
                    assert(pm0.dom().contains(h as int));
                    assert(pos_triple(pos) == pm0[h as int]);
                    assert(grav_fits_entity(pm0[h as int], vm0[h as int], mu as int, dt as int));
                }
                let d = grav_delta_exec(&pos, mu, dt);
                let nv = Velocity {
                    dx: ((vel.dx as i128) + d.0) as i64,
                    dy: ((vel.dy as i128) + d.1) as i64,
                    dz: ((vel.dz as i128) + d.2) as i64,
                };
                world.velocities.put(h, nv);
                proof {
                    assert(vel_triple(nv) == add3(
                        vm0[h as int],
                        grav_delta(pm0[h as int], mu as int, dt as int),
                    ));
                    assert(world.vel_map() =~= pre.vel_map().insert(h as int, vel_triple(nv)));
                    assert_seqs_equal!(ord.take(i as int + 1) == ord.take(i as int).push(ord[i as int]));
                    assert forall|g: int| vm0.dom().contains(g) implies world.vel_map()[g] == (
                    if pm0.dom().contains(g) && ord.take(i as int + 1).contains(g) {
                        add3(vm0[g], grav_delta(pm0[g], mu as int, dt as int))
                    } else {
                        vm0[g]
                    }) by {
                        if g != h as int {
                            assert(ord.take(i as int + 1).contains(g) == ord.take(
                                i as int,
                            ).contains(g));
                            assert(world.vel_map()[g] == pre.vel_map()[g]);
                        } else {
                            assert(ord.take(i as int + 1)[i as int] == h as int);
                            assert(ord.take(i as int + 1).contains(g));
                        }
                    }
                    assert(world.vel_map().dom() =~= vm0.dom());
                }
            },
        }
        i = i + 1;
    }
    proof {
        assert_seqs_equal!(ord.take(n as int) == ord);
        assert(world.vel_map() =~= grav_step(pm0, vm0, mu as int, dt as int));
    }
}

/// Law: after one gravity pass, an entity present in both stores whose
/// position is not the origin (radius > 0) has its velocity changed by
/// exactly the central-force Euler increment: on each axis, the truncated
/// quotient mu*dt*K^3*|c| / r^3, directed against the coordinate, where r is
/// the floor square root of the squared radius.
pub proof fn lemma_gravity_euler_increment(
    pm: Map<int, (int, int, int)>,
    vm: Map<int, (int, int, int)>,
    mu: int,
    dt: int,
    h: int,
)
    requires
        pm.dom().contains(h),
        vm.dom().contains(h),
        pm[h] != ((0int, 0int, 0int)),
    ensures
        grav_step(pm, vm, mu, dt).dom() == vm.dom(),
        grav_step(pm, vm, mu, dt)[h] == add3(vm[h], grav_delta(pm[h], mu, dt)),
        ({
            let p = pm[h];
            let rad = sqrt_floor((p.0 * p.0 + p.1 * p.1 + p.2 * p.2) as nat) as int;
            rad >= 1 && grav_delta(p, mu, dt) == (
                axis_delta(p.0, rad * rad * rad, mu, dt),
                axis_delta(p.1, rad * rad * rad, mu, dt),
                axis_delta(p.2, rad * rad * rad, mu, dt),
            )
        }),
{
    let p = pm[h];
    assert(p == (p.0, p.1, p.2));
    assert(p.0 * p.0 + p.1 * p.1 + p.2 * p.2 > 0) by (nonlinear_arith)
        requires
            !(p.0 == 0 && p.1 == 0 && p.2 == 0),
    ;
    let n = (p.0 * p.0 + p.1 * p.1 + p.2 * p.2) as nat;
    lemma_sqrt_floor_bounds(n);
    let s = sqrt_floor(n);
    assert(s >= 1) by (nonlinear_arith)
        requires
            n < (s + 1) * (s + 1),
            n >= 1,
            s >= 0,
    ;
    assert(grav_step(pm, vm, mu, dt).dom() =~= vm.dom());
}

/// Law: an entity exactly at the origin is skipped by the gravity pass — the
/// deliberate singularity guard — so its velocity is unchanged.
pub proof fn lemma_gravity_origin_unchanged(
    pm: Map<int, (int, int, int)>,
    vm: Map<int, (int, int, int)>,
    mu: int,
    dt: int,
    h: int,
)
    requires
        pm.dom().contains(h),
        vm.dom().contains(h),
        pm[h] == ((0int, 0int, 0int)),
    ensures
        grav_step(pm, vm, mu, dt)[h] == vm[h],
{
    assert(grav_delta(pm[h], mu, dt) == ((0int, 0int, 0int)));
    assert(vm[h] == (vm[h].0, vm[h].1, vm[h].2));
}

} // verus!
