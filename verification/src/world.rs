//! The world: one position store, one velocity store, and handle allocation.

use crate::components::{pos_in_bounds, pos_triple, vel_triple, EntityId, Position, Velocity};
use crate::store::ComponentStore;
use vstd::prelude::*;

verus! {

/// Owns exactly one position store and one velocity store, both keyed by
/// entity handle, and allocates handles as consecutive counter values.
/// The storage backends are an injectable choice; the systems only ever see
/// the ghost views below.
pub struct World<SP, SV> where SP: ComponentStore<Position>, SV: ComponentStore<Velocity> {
    pub positions: SP,
    pub velocities: SV,
    pub next_entity: EntityId,
}

impl<SP: ComponentStore<Position>, SV: ComponentStore<Velocity>> World<SP, SV> {
    /// Positions by handle, as integer triples.
    pub open spec fn pos_map(&self) -> Map<int, (int, int, int)> {
        self.positions.contents().map_values(|p: Position| pos_triple(p))
    }

    /// Velocities by handle, as integer triples.
    pub open spec fn vel_map(&self) -> Map<int, (int, int, int)> {
        self.velocities.contents().map_values(|v: Velocity| vel_triple(v))
    }

    /// The deterministic enumeration of handles holding a position.
    pub open spec fn pos_order(&self) -> Seq<int> {
        self.positions.order()
    }

    /// The deterministic enumeration of handles holding a velocity.
    pub open spec fn vel_order(&self) -> Seq<int> {
        self.velocities.order()
    }

    /// Well-formedness: both stores are intact and sequentially attachable,
    /// every stored handle was allocated, and every stored position is within
    /// the machine-range coordinate limit.
    pub open spec fn wf(&self) -> bool {
        &&& self.positions.inv()
        &&& self.velocities.inv()
        &&& self.positions.can_attach(self.positions.order().len() as int)
        &&& self.velocities.can_attach(self.velocities.order().len() as int)
        &&& forall|h: int| #[trigger]
            self.positions.contents().dom().contains(h) ==> 0 <= h < self.next_entity
                && pos_in_bounds(self.positions.contents()[h])
        &&& forall|h: int| #[trigger]
            self.velocities.contents().dom().contains(h) ==> 0 <= h < self.next_entity
    }

    /// Steady state after setup: every allocated handle has both components,
    /// attached in allocation order.
    pub open spec fn fully_attached(&self) -> bool {
        &&& self.positions.order().len() == self.next_entity
        &&& self.velocities.order().len() == self.next_entity
    }

    /// Creates a new, empty world.
    pub fn new() -> (w: Self)
        ensures
            w.wf(),
            w.fully_attached(),
            w.pos_map() == Map::<int, (int, int, int)>::empty(),
            w.vel_map() == Map::<int, (int, int, int)>::empty(),
            w.pos_order() == Seq::<int>::empty(),
            w.vel_order() == Seq::<int>::empty(),
            w.next_entity == 0,
    {
        let w = World { positions: SP::empty(), velocities: SV::empty(), next_entity: 0 };
        proof {
            assert(w.pos_map() =~= Map::<int, (int, int, int)>::empty());
            assert(w.vel_map() =~= Map::<int, (int, int, int)>::empty());
        }
        w
    }

    /// Creates a new entity and returns its handle.
    pub fn create_entity(&mut self) -> (e: EntityId)
        requires
            old(self).wf(),
            old(self).next_entity < usize::MAX,
        ensures
            final(self).wf(),
            e == old(self).next_entity,
            final(self).next_entity == old(self).next_entity + 1,
            final(self).positions == old(self).positions,
            final(self).velocities == old(self).velocities,
    {
        let entity = self.next_entity;
        self.next_entity = self.next_entity + 1;
        entity
    }

    /// Attaches a position component to an entity. Components are attached
    /// once, in allocation order.
    pub fn add_position(&mut self, entity: EntityId, position: Position)
        requires
            old(self).wf(),
            entity < old(self).next_entity,
            entity == old(self).positions.order().len(),
            pos_in_bounds(position),
        ensures
            final(self).wf(),
            final(self).positions.contents() == old(self).positions.contents().insert(
                entity as int,
                position,
            ),
            final(self).pos_map() == old(self).pos_map().insert(entity as int, pos_triple(position)),
            final(self).pos_order() == old(self).pos_order().push(entity as int),
            final(self).velocities == old(self).velocities,
            final(self).next_entity == old(self).next_entity,
    {
        self.positions.attach(entity, position);
        proof {
            assert(self.pos_map() =~= old(self).pos_map().insert(
                entity as int,
                pos_triple(position),
            ));
        }
    }

    /// Attaches a velocity component to an entity. Components are attached
    /// once, in allocation order.
    pub fn add_velocity(&mut self, entity: EntityId, velocity: Velocity)
        requires
            old(self).wf(),
            entity < old(self).next_entity,
            entity == old(self).velocities.order().len(),
        ensures
            final(self).wf(),
            final(self).velocities.contents() == old(self).velocities.contents().insert(
                entity as int,
                velocity,
            ),
            final(self).vel_map() == old(self).vel_map().insert(entity as int, vel_triple(velocity)),
            final(self).vel_order() == old(self).vel_order().push(entity as int),
            final(self).positions == old(self).positions,
            final(self).next_entity == old(self).next_entity,
    {
        self.velocities.attach(entity, velocity);
        proof {
            assert(self.vel_map() =~= old(self).vel_map().insert(
                entity as int,
                vel_triple(velocity),
            ));
        }
    }

    /// Adds an entity whose two components are already known; the combined
    /// setup operation of the external initial-condition generator.
    pub fn add_entity(&mut self, position: Position, velocity: Velocity) -> (e: EntityId)
        requires
            old(self).wf(),
            old(self).fully_attached(),
            old(self).next_entity < usize::MAX,
            pos_in_bounds(position),
        ensures
            final(self).wf(),
            final(self).fully_attached(),
            e == old(self).next_entity,
            final(self).next_entity == old(self).next_entity + 1,
            final(self).pos_map() == old(self).pos_map().insert(e as int, pos_triple(position)),
            final(self).vel_map() == old(self).vel_map().insert(e as int, vel_triple(velocity)),
            final(self).pos_order() == old(self).pos_order().push(e as int),
            final(self).vel_order() == old(self).vel_order().push(e as int),
    {
        let entity = self.create_entity();
        self.add_position(entity, position);
        self.add_velocity(entity, velocity);
        entity
    }
}

} // verus!
