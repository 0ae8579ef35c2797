//! Propagation system: positions advance by velocity times the time step.
//!
//! Runs strictly after the gravity pass of the same tick, so the pair forms
//! semi-implicit Euler integration: velocities are updated first, and the
//! positions then move with the new velocities.

use crate::components::{add3, pos_in_bounds, pos_triple, scale3, vel_triple, Position, Velocity};
use crate::math::{DT_LIMIT, POS_LIMIT};
use crate::store::ComponentStore;
use crate::world::World;
use vstd::assert_seqs_equal;
use vstd::prelude::*;

verus! {

/// What one propagation pass does to the position map: every entity present
/// in both stores moves by velocity times dt, exactly; every other position
/// is untouched.
pub open spec fn prop_step(
    pm: Map<int, (int, int, int)>,
    vm: Map<int, (int, int, int)>,
    dt: int,
) -> Map<int, (int, int, int)> {
    Map::new(
        |h: int| pm.dom().contains(h),
        |h: int|
            if vm.dom().contains(h) {
                add3(pm[h], scale3(vm[h], dt))
            } else {
                pm[h]
            },
    )
}

/// The moved position of one entity stays within the coordinate limit.
pub open spec fn prop_fits_entity(p: (int, int, int), v: (int, int, int), dt: int) -> bool {
    &&& -POS_LIMIT <= p.0 + v.0 * dt <= POS_LIMIT
    &&& -POS_LIMIT <= p.1 + v.1 * dt <= POS_LIMIT
    &&& -POS_LIMIT <= p.2 + v.2 * dt <= POS_LIMIT
}

/// Every moved position of the pass stays within the coordinate limit.
pub open spec fn propagate_fits(
    pm: Map<int, (int, int, int)>,
    vm: Map<int, (int, int, int)>,
    dt: int,
) -> bool {
    forall|h: int|
        #[trigger] pm.dom().contains(h) && vm.dom().contains(h) ==> prop_fits_entity(
            pm[h],
            vm[h],
            dt,
        )
}

/// One axis of the move: p + v * dt, exact.
fn axis_move(p: i64, v: i64, dt: i64) -> (r: i64)
    requires
        -POS_LIMIT <= p <= POS_LIMIT,
        0 <= dt <= DT_LIMIT,
        -POS_LIMIT <= p + v * dt <= POS_LIMIT,
    ensures
        r as int == p + v * dt,
{
    assert(-10_000_000_000_000_000_000_000i128 <= (v as i128) * (dt as i128)
        <= 10_000_000_000_000_000_000_000i128) by (nonlinear_arith)
        requires
            i64::MIN <= v <= i64::MAX,
            0 <= dt <= 1_000i64,
    ;
    let moved: i128 = (p as i128) + (v as i128) * (dt as i128);
    moved as i64
}

/// The propagation system: moves every position whose entity also holds a
/// velocity by exactly velocity times dt; entities missing a component are
/// left untouched, as are the velocities, the enumeration orders and the
/// handle counter.
pub fn propagate_system<SP: ComponentStore<Position>, SV: ComponentStore<Velocity>>(
    world: &mut World<SP, SV>,
    dt: i64,
)
    requires
        old(world).wf(),
        0 <= dt <= DT_LIMIT,
        propagate_fits(old(world).pos_map(), old(world).vel_map(), dt as int),
    ensures
        final(world).wf(),
        final(world).pos_map() == prop_step(old(world).pos_map(), old(world).vel_map(), dt as int),
        final(world).velocities == old(world).velocities,
        final(world).pos_order() == old(world).pos_order(),
        final(world).next_entity == old(world).next_entity,
{
    let ghost pm0 = world.pos_map();
    let ghost vm0 = world.vel_map();
    let ghost ord = world.positions.order();
    let ghost w0 = *world;
    proof {
        world.positions.lemma_inv();
    }
    let handle_list = world.positions.handles();
    let n = handle_list.len();
    let mut i: usize = 0;
    while i < n
        invariant
            i <= n,
            world.wf(),
            handle_list@.len() == n,
            n == ord.len(),
            forall|k: int| 0 <= k < n ==> handle_list@[k] as int == ord[k],
            ord.no_duplicates(),
            0 <= dt <= DT_LIMIT,
            world.velocities == w0.velocities,
            world.next_entity == w0.next_entity,
            pm0 == w0.pos_map(),
            vm0 == w0.vel_map(),
            ord == w0.positions.order(),
            w0.wf(),
            propagate_fits(pm0, vm0, dt as int),
            forall|g: int| ord.contains(g) <==> #[trigger] pm0.dom().contains(g),
            world.pos_order() == ord,
            world.pos_map().dom() == pm0.dom(),
            forall|g: int| #[trigger]
                pm0.dom().contains(g) ==> world.pos_map()[g] == if vm0.dom().contains(g)
                    && ord.take(i as int).contains(g) {
                    add3(pm0[g], scale3(vm0[g], dt as int))
                } else {
                    pm0[g]
                },
        decreases n - i,
    {
        let h = handle_list[i];
        let ghost pre = *world;
        proof {
            assert(ord[i as int] == h as int);
            assert(ord.contains(h as int));
            assert(pm0.dom().contains(h as int));
        }
        match world.velocities.get(h) {
            None => {
                proof {
                    assert(!vm0.dom().contains(h as int));
                    assert_seqs_equal!(ord.take(i as int + 1) == ord.take(i as int).push(ord[i as int]));
                    assert forall|g: int| pm0.dom().contains(g) implies world.pos_map()[g] == (
                    if vm0.dom().contains(g) && ord.take(i as int + 1).contains(g) {
                        add3(pm0[g], scale3(vm0[g], dt as int))
                    } else {
                        pm0[g]
                    }) by {
                        if g != h as int {
                            assert(ord.take(i as int + 1).contains(g) == ord.take(
                                i as int,
                            ).contains(g));
                        }
                    }
                }
            },
            Some(vel) => {
                let p_opt = world.positions.get(h);
                let pos = match p_opt {
                    Some(pos) => pos,
                    None => { proof { assert(false); } vstd::pervasive::unreached() },
                };
                proof {
                    if ord.take(i as int).contains(h as int) {
                        let k = choose|k: int|
                            0 <= k < ord.take(i as int).len() && ord.take(i as int)[k]
                                == h as int;
                        assert(ord.take(i as int)[k] == ord[k]);
                        assert(ord[k] == ord[i as int]);
                        assert(false);
                    }
                    assert(vm0.dom().contains(h as int));
                    assert(world.pos_map()[h as int] == pm0[h as int]);
                    assert(pos_triple(pos) == pm0[h as int]);
                    assert(vel_triple(vel) == vm0[h as int]);
                    assert(prop_fits_entity(pm0[h as int], vm0[h as int], dt as int));
                }
                let np = Position {
                    x: axis_move(pos.x, vel.dx, dt),
                    y: axis_move(pos.y, vel.dy, dt),
                    z: axis_move(pos.z, vel.dz, dt),
                };
                world.positions.put(h, np);
                proof {
                    assert(pos_triple(np) == add3(
                        pm0[h as int],
                        scale3(vm0[h as int], dt as int),
                    ));
                    assert(world.pos_map() =~= pre.pos_map().insert(h as int, pos_triple(np)));
                    assert_seqs_equal!(ord.take(i as int + 1) == ord.take(i as int).push(ord[i as int]));
                    assert forall|g: int| pm0.dom().contains(g) implies world.pos_map()[g] == (
                    if vm0.dom().contains(g) && ord.take(i as int + 1).contains(g) {
                        add3(pm0[g], scale3(vm0[g], dt as int))
                    } else {
                        pm0[g]
                    }) by {
                        if g != h as int {
                            assert(ord.take(i as int + 1).contains(g) == ord.take(
                                i as int,
                            ).contains(g));
                            assert(world.pos_map()[g] == pre.pos_map()[g]);
                        } else {
                            assert(ord.take(i as int + 1)[i as int] == h as int);
                            assert(ord.take(i as int + 1).contains(g));
                        }
                    }
                    assert(world.pos_map().dom() =~= pm0.dom());
                }
            },
        }
        i = i + 1;
    }
    proof {
        assert_seqs_equal!(ord.take(n as int) == ord);
        assert(world.pos_map() =~= prop_step(pm0, vm0, dt as int));
    }
}

/// Law: after one propagation pass, an entity present in both stores sits at
/// exactly old position + velocity * dt, componentwise; an entity missing a
/// velocity keeps its position, and the set of positioned entities is
/// unchanged.
pub proof fn lemma_propagation_moves_by_velocity(
    pm: Map<int, (int, int, int)>,
    vm: Map<int, (int, int, int)>,
    dt: int,
    h: int,
)
    requires
        pm.dom().contains(h),
    ensures
        prop_step(pm, vm, dt).dom() == pm.dom(),
        vm.dom().contains(h) ==> prop_step(pm, vm, dt)[h] == add3(pm[h], scale3(vm[h], dt)),
        !vm.dom().contains(h) ==> prop_step(pm, vm, dt)[h] == pm[h],
{
    assert(prop_step(pm, vm, dt).dom() =~= pm.dom());
}

} // verus!
