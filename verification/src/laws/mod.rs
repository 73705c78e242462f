//! What the engine promises, stated over what goes into an operation and what comes out.

pub mod beams;
pub mod filters;
pub mod formats;
pub mod fusion;
pub mod graphs;
pub mod histories;
pub mod indexes;
pub mod levels;
pub mod linking;
pub mod numbers;
pub mod recommend;
pub mod recovery;
pub mod retention;
pub mod searches;
pub mod storage;
pub mod triggers;
