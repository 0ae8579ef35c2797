//! Verified core of a satellite orbit simulation.
//!
//! A population of point-mass satellites orbits a central gravitating body.
//! Each tick runs three systems, strictly in this order, against one `World`:
//! gravity integration (velocities), position propagation (positions), and
//! pairwise proximity detection (a fresh set of close-encounter pairs).
//!
//! All state is held in fixed-point integers so that every system is exact
//! arithmetic with a provable contract: positions in units of 1/1000 meter,
//! velocities in units of 1/1000 meter per second, the gravitational
//! parameter in m^3/s^2 and the time step in whole seconds.
//!
//! Component storage comes in two interchangeable backends, a dense
//! index-addressed one and a sparse key-addressed one, unified behind the
//! `ComponentStore` trait; the systems are written once against that trait,
//! and the per-tick state transition is a function of the component views
//! alone, so backend choice never changes a trajectory.

pub mod components;
pub mod driver;
pub mod gravity;
pub mod math;
pub mod propagate;
pub mod proximity;
pub mod store;
pub mod world;
