//! Simulation driver: composes the three systems into a per-tick pipeline.
//!
//! One `step` runs gravity, then propagation, then proximity detection,
//! strictly in that order, against the same world, and overwrites the stored
//! proximity result with the fresh one. The per-tick state transition is a
//! function of the component views and the configuration alone.

use crate::components::{add3, pos_in_bounds, pos_triple, vel_triple, EntityId, Position, Velocity};
use crate::gravity::{grav_delta, grav_fits_entity, grav_step, gravity_fits, gravity_system};
use crate::math::{DT_LIMIT, MU_LIMIT};
use crate::propagate::{prop_fits_entity, prop_step, propagate_fits, propagate_system};
use crate::proximity::{pairs_view, prox_pairs, proximity_detection_system};
use crate::store::ComponentStore;
use crate::world::World;
use vstd::assert_seqs_equal;
use vstd::prelude::*;

verus! {

/// Configuration of the pipeline: central-body gravitational parameter in
/// m^3/s^2, tick duration in seconds, and the separation in position units
/// below which a pair of entities is reported.
#[derive(Clone, Copy, Debug, PartialEq, Eq, Structural)]
pub struct SimConfig {
    pub gravitational_parameter: i64,
    pub dt: i64,
    pub proximity_threshold: i64,
}

impl SimConfig {
    /// Recognized options: non-negative values within the machine-range
    /// headroom limits.
    pub open spec fn wf(&self) -> bool {
        &&& 0 <= self.gravitational_parameter <= MU_LIMIT
        &&& 0 <= self.dt <= DT_LIMIT
    }

    /// Validates a configuration; `None` exactly when a value is outside the
    /// recognized range.
    pub fn new(gravitational_parameter: i64, dt: i64, proximity_threshold: i64) -> (c: Option<
        SimConfig,
    >)
        ensures
            match c {
                Option::Some(cfg) => cfg.wf() && cfg.gravitational_parameter
                    == gravitational_parameter && cfg.dt == dt && cfg.proximity_threshold
                    == proximity_threshold,
                Option::None => !(0 <= gravitational_parameter <= MU_LIMIT && 0 <= dt <= DT_LIMIT),
            },
    {
        if 0 <= gravitational_parameter && gravitational_parameter <= MU_LIMIT && 0 <= dt && dt
            <= DT_LIMIT {
            Some(SimConfig { gravitational_parameter, dt, proximity_threshold })
        } else {
            None
        }
    }
}

/// One tick keeps the updated state of one entity within the machine ranges:
/// its new velocity in 64 bits and its moved position within the coordinate
/// limit.
pub open spec fn step_fits_entity(p: (int, int, int), v: (int, int, int), mu: int, dt: int) -> bool {
    &&& grav_fits_entity(p, v, mu, dt)
    &&& prop_fits_entity(p, add3(v, grav_delta(p, mu, dt)), dt)
}

/// One tick keeps every entity's updated state within the machine ranges.
pub open spec fn step_fits(
    pm: Map<int, (int, int, int)>,
    vm: Map<int, (int, int, int)>,
    mu: int,
    dt: int,
) -> bool {
    forall|h: int|
        #[trigger] pm.dom().contains(h) && vm.dom().contains(h) ==> step_fits_entity(
            pm[h],
            vm[h],
            mu,
            dt,
        )
}

/// The velocity map after one tick.
pub open spec fn step_vel(
    pm: Map<int, (int, int, int)>,
    vm: Map<int, (int, int, int)>,
    mu: int,
    dt: int,
) -> Map<int, (int, int, int)> {
    grav_step(pm, vm, mu, dt)
}

/// The position map after one tick: propagation reads the velocities the
/// gravity pass has just written (semi-implicit Euler).
pub open spec fn step_pos(
    pm: Map<int, (int, int, int)>,
    vm: Map<int, (int, int, int)>,
    mu: int,
    dt: int,
) -> Map<int, (int, int, int)> {
    prop_step(pm, grav_step(pm, vm, mu, dt), dt)
}

/// The component views after `n` ticks.
pub open spec fn run_ticks(
    pm: Map<int, (int, int, int)>,
    vm: Map<int, (int, int, int)>,
    mu: int,
    dt: int,
    n: nat,
) -> (Map<int, (int, int, int)>, Map<int, (int, int, int)>)
    decreases n,
{
    if n == 0 {
        (pm, vm)
    } else {
        let prev = run_ticks(pm, vm, mu, dt, (n - 1) as nat);
        (step_pos(prev.0, prev.1, mu, dt), step_vel(prev.0, prev.1, mu, dt))
    }
}

/// Backend independence of trajectories: two worlds whose component views
/// agree — whatever storage backends hold them — have equal position and
/// velocity views after any number of ticks, because the per-tick transition
/// (`step_pos`, `step_vel`, which every `Simulation::step` is proved to
/// realize) is a function of the views and the configuration alone.
pub proof fn lemma_backend_trajectory_agreement<
    SP1: ComponentStore<Position>,
    SV1: ComponentStore<Velocity>,
    SP2: ComponentStore<Position>,
    SV2: ComponentStore<Velocity>,
>(w1: &World<SP1, SV1>, w2: &World<SP2, SV2>, mu: int, dt: int, n: nat)
    requires
        w1.pos_map() == w2.pos_map(),
        w1.vel_map() == w2.vel_map(),
    ensures
        run_ticks(w1.pos_map(), w1.vel_map(), mu, dt, n) == run_ticks(
            w2.pos_map(),
            w2.vel_map(),
            mu,
            dt,
            n,
        ),
{
}

/// Whether one tick would keep every entity within the machine ranges: the
/// executable test of `step`'s precondition.
pub fn check_step_fits<SP: ComponentStore<Position>, SV: ComponentStore<Velocity>>(
    world: &World<SP, SV>,
    mu: i64,
    dt: i64,
) -> (ok: bool)
    requires
        world.wf(),
        0 <= mu <= MU_LIMIT,
        0 <= dt <= DT_LIMIT,
    ensures
        ok == step_fits(world.pos_map(), world.vel_map(), mu as int, dt as int),
{
    let ghost pm = world.pos_map();
    let ghost vm = world.vel_map();
    let ghost ord = world.positions.order();
    proof {
        world.positions.lemma_inv();
    }
    let handle_list = world.positions.handles();
    let n = handle_list.len();
    let mut i: usize = 0;
    while i < n
        invariant
            i <= n,
            world.wf(),
            handle_list@.len() == n,
            n == ord.len(),
            forall|k: int| 0 <= k < n ==> handle_list@[k] as int == ord[k],
            0 <= mu <= MU_LIMIT,
            0 <= dt <= DT_LIMIT,
            pm == world.pos_map(),
            vm == world.vel_map(),
            ord == world.positions.order(),
            forall|k: int| #![trigger ord[k]]
                0 <= k < i ==> (vm.dom().contains(ord[k]) ==> step_fits_entity(
                    pm[ord[k]],
                    vm[ord[k]],
                    mu as int,
                    dt as int,
                )),
        decreases n - i,
    {
        let h = handle_list[i];
        let pos = match world.positions.get(h) {
            Some(p) => p,
            None => {
                proof {
                    world.positions.lemma_inv();
                    assert(ord[i as int] == h as int);
                    assert(ord.contains(h as int));
                    assert(false);
                }
                vstd::pervasive::unreached()
            },
        };
        proof {
            world.positions.lemma_inv();
            assert(ord[i as int] == h as int);
            assert(world.positions.contents().dom().contains(h as int));
            assert(pos_triple(pos) == pm[h as int]);
            assert(pos_in_bounds(pos));
        }
        match world.velocities.get(h) {
            None => {
                proof {
                    assert(!vm.dom().contains(h as int));
                }
            },
            Some(vel) => {
                proof {
                    assert(vm.dom().contains(h as int));
                    assert(vel_triple(vel) == vm[h as int]);
                }
                let d = crate::gravity::grav_delta_exec(&pos, mu, dt);
                let nvx: i128 = (vel.dx as i128) + d.0;
                let nvy: i128 = (vel.dy as i128) + d.1;
                let nvz: i128 = (vel.dz as i128) + d.2;
                let min64: i128 = i64::MIN as i128;
                let max64: i128 = i64::MAX as i128;
                if nvx < min64 || nvx > max64 || nvy < min64 || nvy > max64 || nvz < min64 || nvz
                    > max64 {
                    proof {
                        assert(!grav_fits_entity(pm[h as int], vm[h as int], mu as int, dt as int));
                        assert(!step_fits(pm, vm, mu as int, dt as int));
                    }
                    return false;
                }
                let lim: i128 = crate::math::POS_LIMIT as i128;
                assert(-10_000_000_000_000_000_000_000i128 <= nvx * (dt as i128)
                    <= 10_000_000_000_000_000_000_000i128 && -10_000_000_000_000_000_000_000i128
                    <= nvy * (dt as i128) <= 10_000_000_000_000_000_000_000i128
                    && -10_000_000_000_000_000_000_000i128 <= nvz * (dt as i128)
                    <= 10_000_000_000_000_000_000_000i128) by (nonlinear_arith)
                    requires
                        i64::MIN <= nvx <= i64::MAX,
                        i64::MIN <= nvy <= i64::MAX,
                        i64::MIN <= nvz <= i64::MAX,
                        0 <= dt <= 1_000i64,
                ;
                let npx: i128 = (pos.x as i128) + nvx * (dt as i128);
                let npy: i128 = (pos.y as i128) + nvy * (dt as i128);
                let npz: i128 = (pos.z as i128) + nvz * (dt as i128);
                if npx < -lim || npx > lim || npy < -lim || npy > lim || npz < -lim || npz > lim {
                    proof {
                        assert(!prop_fits_entity(
                            pm[h as int],
                            add3(vm[h as int], grav_delta(pm[h as int], mu as int, dt as int)),
                            dt as int,
                        ));
                        assert(!step_fits(pm, vm, mu as int, dt as int));
                    }
                    return false;
                }
                proof {
                    assert(step_fits_entity(pm[h as int], vm[h as int], mu as int, dt as int));
                }
            },
        }
        i = i + 1;
    }
    proof {
        assert forall|h: int| pm.dom().contains(h) && vm.dom().contains(h) implies step_fits_entity(
            pm[h],
            vm[h],
            mu as int,
            dt as int,
        ) by {
            world.positions.lemma_inv();
            assert(ord.contains(h));
            let k = choose|k: int| 0 <= k < ord.len() && ord[k] == h;
            assert(ord[k] == h);
        }
    }
    true
}

/// The driver: one world, the configuration, and the latest proximity result.
pub struct Simulation<SP, SV> where SP: ComponentStore<Position>, SV: ComponentStore<Velocity> {
    pub world: World<SP, SV>,
    pub config: SimConfig,
    pub proximity_warnings: Vec<(EntityId, EntityId)>,
}

impl<SP: ComponentStore<Position>, SV: ComponentStore<Velocity>> Simulation<SP, SV> {
    /// Well-formedness of the driver.
    pub open spec fn wf(&self) -> bool {
        &&& self.world.wf()
        &&& self.config.wf()
    }

    /// Creates a simulation over an empty world; entities are seeded through
    /// `add_entity` by the external initial-condition generator.
    pub fn new(config: SimConfig) -> (s: Self)
        requires
            config.wf(),
        ensures
            s.wf(),
            s.world.fully_attached(),
            s.world.pos_map() == Map::<int, (int, int, int)>::empty(),
            s.world.vel_map() == Map::<int, (int, int, int)>::empty(),
            s.world.next_entity == 0,
            s.config == config,
            s.proximity_warnings@ == Seq::<(EntityId, EntityId)>::empty(),
    {
        Simulation { world: World::new(), config, proximity_warnings: Vec::new() }
    }

    /// Adds one satellite with both components already known.
    pub fn add_entity(&mut self, position: Position, velocity: Velocity) -> (e: EntityId)
        requires
            old(self).wf(),
            old(self).world.fully_attached(),
            old(self).world.next_entity < usize::MAX,
            pos_in_bounds(position),
        ensures
            final(self).wf(),
            final(self).world.fully_attached(),
            e == old(self).world.next_entity,
            final(self).world.next_entity == old(self).world.next_entity + 1,
            final(self).world.pos_map() == old(self).world.pos_map().insert(
                e as int,
                pos_triple(position),
            ),
            final(self).world.vel_map() == old(self).world.vel_map().insert(
                e as int,
                vel_triple(velocity),
            ),
            final(self).world.pos_order() == old(self).world.pos_order().push(e as int),
            final(self).world.vel_order() == old(self).world.vel_order().push(e as int),
            final(self).config == old(self).config,
            final(self).proximity_warnings == old(self).proximity_warnings,
    {
        self.world.add_entity(position, velocity)
    }

    /// Advances the simulation by one time step: gravity, then propagation,
    /// then proximity detection; the stored proximity result is replaced,
    /// never merged.
    pub fn step(&mut self)
        requires
            old(self).wf(),
            step_fits(
                old(self).world.pos_map(),
                old(self).world.vel_map(),
                old(self).config.gravitational_parameter as int,
                old(self).config.dt as int,
            ),
        ensures
            final(self).wf(),
            final(self).config == old(self).config,
            final(self).world.pos_map() == step_pos(
                old(self).world.pos_map(),
                old(self).world.vel_map(),
                old(self).config.gravitational_parameter as int,
                old(self).config.dt as int,
            ),
            final(self).world.vel_map() == step_vel(
                old(self).world.pos_map(),
                old(self).world.vel_map(),
                old(self).config.gravitational_parameter as int,
                old(self).config.dt as int,
            ),
            final(self).world.pos_order() == old(self).world.pos_order(),
            final(self).world.vel_order() == old(self).world.vel_order(),
            final(self).world.next_entity == old(self).world.next_entity,
            pairs_view(final(self).proximity_warnings@) == prox_pairs(
                final(self).world.pos_order(),
                final(self).world.pos_map(),
                old(self).config.proximity_threshold as int,
            ),
    {
        let ghost pm0 = self.world.pos_map();
        let ghost vm0 = self.world.vel_map();
        let mu = self.config.gravitational_parameter;
        let dt = self.config.dt;
        proof {
            assert forall|h: int|
                pm0.dom().contains(h) && vm0.dom().contains(h) implies grav_fits_entity(
                pm0[h],
                vm0[h],
                mu as int,
                dt as int,
            ) by {}
            assert(gravity_fits(pm0, vm0, mu as int, dt as int));
        }
        gravity_system(&mut self.world, dt, mu);
        proof {
            let vm1 = self.world.vel_map();
            assert forall|h: int|
                pm0.dom().contains(h) && vm1.dom().contains(h) implies prop_fits_entity(
                pm0[h],
                vm1[h],
                dt as int,
            ) by {
                assert(vm0.dom().contains(h));
                assert(vm1[h] == add3(vm0[h], grav_delta(pm0[h], mu as int, dt as int)));
            }
            assert(propagate_fits(pm0, vm1, dt as int));
        }
        propagate_system(&mut self.world, dt);
        let warnings = proximity_detection_system(&self.world, self.config.proximity_threshold);
        self.proximity_warnings = warnings;
    }

    /// Advances by one step when every updated value fits the machine ranges,
    /// and reports whether it did; on `false` nothing changes.
    pub fn try_step(&mut self) -> (ok: bool)
        requires
            old(self).wf(),
        ensures
            final(self).wf(),
            ok == step_fits(
                old(self).world.pos_map(),
                old(self).world.vel_map(),
                old(self).config.gravitational_parameter as int,
                old(self).config.dt as int,
            ),
            !ok ==> *final(self) == *old(self),
            ok ==> final(self).config == old(self).config
                && final(self).world.pos_map() == step_pos(
                old(self).world.pos_map(),
                old(self).world.vel_map(),
                old(self).config.gravitational_parameter as int,
                old(self).config.dt as int,
            ) && final(self).world.vel_map() == step_vel(
                old(self).world.pos_map(),
                old(self).world.vel_map(),
                old(self).config.gravitational_parameter as int,
                old(self).config.dt as int,
            ) && final(self).world.pos_order() == old(self).world.pos_order()
                && final(self).world.vel_order() == old(self).world.vel_order()
                && final(self).world.next_entity == old(self).world.next_entity && pairs_view(
                final(self).proximity_warnings@,
            ) == prox_pairs(
                final(self).world.pos_order(),
                final(self).world.pos_map(),
                old(self).config.proximity_threshold as int,
            ),
    {
        let fits = check_step_fits(
            &self.world,
            self.config.gravitational_parameter,
            self.config.dt,
        );
        if fits {
            self.step();
            true
        } else {
            false
        }
    }

    /// Returns the positions of all satellites, in snapshot order: a
    /// read-only view for display or downstream consumption.
    pub fn get_positions(&self) -> (r: Vec<Position>)
        requires
            self.wf(),
        ensures
            r@.len() == self.world.pos_order().len(),
            forall|k: int|
                0 <= k < r@.len() ==> r@[k] == self.world.positions.contents()[self.world.pos_order()[k]],
    {
        let ghost ord = self.world.positions.order();
        proof {
            self.world.positions.lemma_inv();
        }
        let handle_list = self.world.positions.handles();
        let n = handle_list.len();
        let mut r: Vec<Position> = Vec::new();
        let mut i: usize = 0;
        while i < n
            invariant
                i <= n,
                self.wf(),
                handle_list@.len() == n,
                n == ord.len(),
                forall|k: int| 0 <= k < n ==> handle_list@[k] as int == ord[k],
                ord == self.world.positions.order(),
                r@.len() == i,
                forall|k: int|
                    0 <= k < i ==> r@[k] == self.world.positions.contents()[ord[k]],
            decreases n - i,
        {
            let h = handle_list[i];
            let pos = match self.world.positions.get(h) {
                Some(p) => p,
                None => {
                    proof {
                        self.world.positions.lemma_inv();
                        assert(ord[i as int] == h as int);
                        assert(ord.contains(h as int));
                        assert(false);
                    }
                    vstd::pervasive::unreached()
                },
            };
            r.push(pos);
            i = i + 1;
        }
        r
    }

    /// Returns the latest tick's close-encounter pairs.
    pub fn get_proximity_warnings(&self) -> (r: Vec<(EntityId, EntityId)>)
        ensures
            r@ == self.proximity_warnings@,
    {
        let n = self.proximity_warnings.len();
        let mut r: Vec<(EntityId, EntityId)> = Vec::new();
        let mut i: usize = 0;
        while i < n
            invariant
                i <= n,
                n == self.proximity_warnings@.len(),
                r@.len() == i,
                forall|k: int| 0 <= k < i ==> r@[k] == self.proximity_warnings@[k],
            decreases n - i,
        {
            let pair = self.proximity_warnings[i];
            r.push(pair);
            i = i + 1;
        }
        proof {
            assert_seqs_equal!(r@ == self.proximity_warnings@);
        }
        r
    }
}

} // verus!
