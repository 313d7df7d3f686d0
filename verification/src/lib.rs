//! Planning of affected Cargo workspace checks: which packages a set of
//! changed files touches, which workspace packages depend on them, how a
//! policy narrows the selection, and which CI tasks follow from it.

pub mod text;
pub mod names;
pub mod error;
pub mod glob;
pub mod paths;
pub mod config;
pub mod workspace;
pub mod ci;
pub mod selection;
pub mod planner;
pub mod report;
pub mod input;
pub mod laws;
