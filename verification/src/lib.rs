//! Converging divergent changes.
//!
//! A change is divergent if several commits have its change-id. Converging it means to find one
//! commit that can take their place. The evolution of the divergent commits tells what they have
//! in common: the closest commit that all of them evolved from, and for each of their attributes
//! the closest value that all of their values evolved from. Both are closest common dominators
//! of flow graphs.
//!
//! * Graphs and their dominators: [`graph`] has the graphs, over the maps of [`adjacency`], and
//!   [`dominators`] finds dominators, by the traversal of [`postorder`] and the iteration of
//!   [`immediate`]. What dominators are is said in [`paths`], and what graphs are in [`model`].
//! * Evolution: [`evolution`] walks over the predecessors of divergent commits, and [`truncated`]
//!   makes a flow graph of what was found, down to the fork point. [`orderly`] shows for which
//!   evolutions there always is one.
//! * Solutions: [`changes`] finds divergent changes, [`converge`](mod@converge) converges single
//!   attributes, and [`solution`] puts solutions together, where need be with answers of the user
//!   ([`ui`]).
//! * Laws: [`laws`] says what the operations promise, over all inputs, in terms of their inputs and
//!   results.
//!
//! The maps and sets of the `indexmap` crate are used through the functions of [`indexed`], whose
//! contracts are assumed. Everything else is proved.

pub mod adjacency;
pub mod changes;
pub mod commit;
pub mod converge;
pub mod dominators;
pub mod error;
pub mod evolution;
pub mod graph;
pub mod ids;
pub mod immediate;
pub mod indexed;
pub mod laws;
pub mod merge;
pub mod model;
pub mod node;
pub mod orderly;
pub mod paths;
pub mod postorder;
pub mod reach;
pub mod solution;
pub mod truncated;
pub mod ui;
pub mod values;
