//! What the operations of the library promise, said of their inputs and results alone.

pub mod calls;
pub mod changes;
pub mod converging;
pub mod dominance;
pub mod evolution;
pub mod histories;
pub mod merges;
pub mod orders;
pub mod outcomes;
pub mod postorders;
pub mod solutions;
pub mod texts;
pub mod values;
