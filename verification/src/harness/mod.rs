//! What the test programs around the engine decide and compute: the reference model,
//! the choice of operations, arguments, reports and rates.

pub mod args;
pub mod collect;
pub mod drive;
pub mod load;
pub mod model;
pub mod report;
pub mod sample;
pub mod steps;
pub mod tenants;
