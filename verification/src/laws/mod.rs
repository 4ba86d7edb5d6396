//! What the library's operations are for, each said of inputs and results alone.

pub mod archives;
pub mod arguments;
pub mod caches;
pub mod changes;
pub mod compactions;
pub mod figures;
pub mod formats;
pub mod jobs;
pub mod planner;
pub mod reads;
pub mod recovery;
pub mod reports;
pub mod settling;
pub mod sweeps;
pub mod texts;
pub mod workloads;
pub mod writes;
