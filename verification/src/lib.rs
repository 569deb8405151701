//! A guard walks a grid of cells one step at a time, turning or advancing as a
//! decision rule tells it to. The walk ends when the guard steps off the grid
//! or when it stands in a cell, facing a way, that it has stood in before.
//!
//! - `patrol`: the headings, the answers of a decision rule, and the walk
//!   itself.
//! - `walk`: what a walk is, as mathematics, and what follows from it.
//! - `visit`: the record of the poses that the guard has taken.
//! - `guard`: the guard that turns right before an obstacle: reading its
//!   map, finding its start, and the search for one more obstacle that makes
//!   it walk in a loop.
//! - `render`: maps and patrols as text.
//! - `table`: what is taken on trust about the tables of the `array2d`
//!   crate.

pub mod guard;
pub mod patrol;
pub mod render;
pub mod table;
pub mod visit;
pub mod walk;
