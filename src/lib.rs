//! Commit-graph rewriting: planning of commit moves, rewrite ordering,
//! destination resolution and operation diffs over a commit DAG held as an
//! arena of parent lists.

pub mod graph;
pub mod seqs;
pub mod plan;
pub mod order;
pub mod destination;
pub mod rebase;
pub mod op_diff;
pub mod cli;
pub mod refs;
