//! Commit engine of a DAG-based Byzantine-fault-tolerant consensus protocol.
//!
//! Validators produce blocks that reference blocks of earlier rounds from all
//! validators, forming a directed acyclic graph. This crate holds the admitted
//! blocks, admits arriving blocks once their causal predecessors are present,
//! and deterministically extracts an ordered, gap-free sequence of leader
//! decisions (`Commit` or `Skip`) from the graph.

pub mod block_manager;
pub mod block_store;
pub mod consensus;
pub mod committee;
pub mod config;
pub mod faults;
pub mod instance;
pub mod logs;
pub mod monitor;
pub mod protocol;
pub mod settings;
pub mod test_util;
pub mod util;
pub mod types;

pub use types::{AuthorityIndex, BlockDigest, BlockReference, RoundNumber, StatementBlock};
