//! The pool of pending transactions and its parts.

pub mod admission;
pub mod collision_manager;
pub mod error;
pub mod extracted_outputs;
pub mod extraction;
pub mod pool;
pub mod ratio;
pub mod removal;
pub mod selection;
pub mod spent_inputs;
pub mod storage;
pub mod types;
pub mod validation;
