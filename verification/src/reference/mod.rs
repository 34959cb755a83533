//! Reference evaluation of one epoch's candidates.

pub mod epoch;
pub mod branch_state;
pub mod evaluate;
pub mod epoch_engine;
pub mod batch;
