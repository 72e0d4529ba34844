//! Discrete-time wargame kernel: route interpolation, grid bucketing,
//! scout detection with found/lost differencing, and one-shot detonations.
//!
//! Positions are Earth-centred, Earth-fixed (ECEF) coordinates held as
//! whole millimetres, speeds as whole millimetres per hour, and times
//! inside a route as whole milliseconds. Scenario values are converted to
//! these units once, when a scenario is loaded; from there on every step of
//! the kernel is exact integer arithmetic: distances are compared squared,
//! segment times are the least whole number of milliseconds in which a
//! segment is travelled, interpolated positions are rounded down, and
//! reported distances are rounded to the nearest metre.
//!
//! A tick runs its phases in a fixed order (`sim::SoaState::run_tick`):
//! reposition, rebuild the grid, detect, detonate. Within a tick scouts are
//! handled in ascending entity order; each scout's `Found` events come
//! before its `Lost` events, and a scout lists what it sees in scan order
//! (grid slot, then entity index).

pub mod detect;
pub mod geo;
pub mod motion;
pub mod role;
pub mod route;
pub mod scenario;
pub mod sim;
pub mod spatial;

pub use geo::Ecef;
pub use role::Role;
