//! Base composition of a reference genome: a streaming FASTA reader, a
//! sliding-window (AT, GC) counter with mergeable histograms, a k-mer
//! catalogue of target regions and its compact binary serialisation.

pub mod base;
pub mod bed;
pub mod kmcv;
pub mod kmers;
pub mod process;
pub mod reader;
pub mod regions;
pub mod table;
