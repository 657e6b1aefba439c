//! Decision core of a gang controller: picks a strategic mode each tick and
//! assigns every member a task, trading a shared wanted-level budget for
//! more valuable work.
//!
//! Quantities that the game reports as fractions are carried as fixed-point
//! integers; the conversion happens at the edge, outside this crate.

pub mod mode;
pub mod tasks;
pub mod allocate;
