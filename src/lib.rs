//! Sparse, reproducible sampling of k-mer positions from DNA sequences:
//! syncmers with a provable distance lower bound, two-level minimizers,
//! mod-minimizers, subsampled minimizers, and metrics over the sampled
//! positions.
pub mod packing;
pub mod scoring;
pub mod syncmer;
pub mod window;
pub mod metrics;
pub mod twolevel;
