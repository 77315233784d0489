//! Firing-solution calculator: command and coordinate parsing, the
//! bookkeeping of firing positions and fire missions, and the firing-table
//! interpolation that turns a distance into an elevation.

pub mod charge;
pub mod command;
pub mod geometry;
pub mod names;
pub mod state;
pub mod text;

pub use charge::{Charge, ChargeInfo, Fraction, Lut, Quadratic};
pub use command::{parse_command, Command};
pub use geometry::{coords, distance, quadrant, Coords, Distance, Quadrant};
pub use names::NameMap;
pub use state::{add, delete, edit, fire_mission, new, FireMission, FireSolution, State};
pub use text::{parens, quotes};
