//! Coordination logic of a sequencing full node: time-bucketed containers,
//! grouping heuristics for blob submission, block framing and the decision
//! functions of the sequencer and of the node driver.

pub mod garbage;
pub mod grouping_heuristic;
pub mod codec;
pub mod block;
pub mod blob;
pub mod sequencer;
pub mod partial;
pub mod bridge;
