//! Per-read match/mismatch tallies over regions of aligned reads.

pub mod text;
pub mod compare;
pub mod tally;
pub mod scan;
pub mod regions;
pub mod report;
