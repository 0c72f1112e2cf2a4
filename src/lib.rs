//! Strain deconvolution of mixed-population sequencing data: aggregation of
//! per-sample variant statistics, per-variant feature vectors, rank selection,
//! haplotype reconstruction from a merge tree, and strain sequence emission.

pub mod bytes;
pub mod codon;
pub mod emission;
pub mod features;
pub mod haplotype;
pub mod matrix;
pub mod rank;
