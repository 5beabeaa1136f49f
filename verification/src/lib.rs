//! Local filesystem state engine.

pub mod digest;
pub mod foundation;
pub mod git;
pub mod hosted;
pub mod kernel;
pub mod order;
pub mod performance;
pub mod sort;
pub mod storage;
pub mod text;
