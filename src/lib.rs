//! Detection of candidate editing sites: per-position nucleotide tallies
//! over aligned reads, a variability filter, and the sifting engine that
//! sweeps reference blocks, reconciles two datasets and collects final
//! statistics at the candidate positions; also a parser for feature
//! annotation (GFF) lines.
pub mod dna;
pub mod rules;
pub mod misc;
pub mod bam;
pub mod error;
pub mod stat_map;
pub mod aggregate;
pub mod positions;
pub mod scan;
pub mod tally_list;
pub mod stat_table;
pub mod sifter;
pub mod compare;
pub mod laws;
pub mod args;
pub mod gff;
