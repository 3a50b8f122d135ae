//! An incremental hierarchical clustering engine in the BIRCH family.
//!
//! The engine ingests a stream of fixed-dimensional points and maintains a
//! balanced tree of cluster features: bounded-size summaries that approximate
//! the shape of a point set without retaining the individual points. Two
//! interchangeable summary variants are provided — the classical
//! `(ls, ss, n)` form and a stable Welford-style `(n, μ, S)` form — together
//! with the insertion and split protocol that keeps the tree balanced, and
//! proofs of the structural laws the protocol maintains.
//!
//! Coordinates are fixed-point mantissas: a caller picks a scale (say, one
//! hundred units per axis unit) and supplies every coordinate and threshold
//! in those units; squared quantities such as distances, dispersions and
//! thresholds carry the squared scale. All arithmetic on mantissas saturates
//! at the bounds of [`point::Scalar`]; quotients truncate toward zero.

pub mod bounded_list;
pub mod cfeature;
pub mod cftree;
pub mod laws;
pub mod point;
pub mod sample;
