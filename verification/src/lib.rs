//! A decision-time Monte Carlo Tree Search engine for turn-based games with
//! hidden information and transitions that may introduce fresh randomness.
//!
//! The engine never touches a game directly. A search tree stores, beside an
//! opaque snapshot of each position, the few plain facts that the search reads
//! from it; the caller supplies those facts, fresh snapshots and rollout
//! outcomes in answer to the requests that [`search::tree_search`] returns.
//! All statistics are integers and all scores are fixed-point integers, so
//! every decision the engine takes is stated and proved exactly.

pub mod backprop;
pub mod expansion;
pub mod laws;
pub mod node;
pub mod random;
pub mod rollout;
pub mod score;
pub mod search;
pub mod selection;

pub use node::{NodeView, Position, ShallowNode, Successor};
pub use search::{tree_search, SearchEvent, SearchPhase, SearchProgress, SearchRequest};
