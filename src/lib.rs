//! Ground truth for benchmarking external motif-search tools: a FASTA genome
//! model, an exact-match oracle over both strands, and the reconciliation of
//! a tool's reported hits against that oracle.
pub mod adapter;
pub mod bench;
pub mod genome;
pub mod oracle;
pub mod reconcile;
