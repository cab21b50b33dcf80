//! K-means clustering of fixed-width vectors.
//!
//! A model ([`KMeans`]) is a set of centroids. Training assigns each vector to
//! its nearest centroid ([`KMeanMembership`]), moves the centroids to the means
//! of their vectors, and starts over until little changes.

pub mod array;
pub mod assign;
pub mod balance;
pub mod clusters;
pub mod copies;
pub mod determined;
pub mod distance;
pub mod error;
pub mod exact;
pub mod float;
pub mod history;
pub mod ieee;
pub mod kernels;
pub mod laws;
pub mod matrix;
pub mod measures;
pub mod membership;
pub mod model;
pub mod nearest;
pub mod partition;
pub mod promises;
pub mod reals;
pub mod requests;
pub mod sample;
pub mod scalar;
pub mod scaling;
pub mod splitting;
pub mod steps;
pub mod tiles;
pub mod training;
pub mod wording;

pub use distance::MetricType;
pub use error::Error;
pub use float::{Float32, Float64};
pub use matrix::MatrixView;
pub use membership::KMeanMembership;
pub use model::KMeans;
pub use partition::compute_partitions;
pub use scalar::{ArrowFloatType, FloatArithmetic};
pub use training::{Best, KMeanInit, KMeansParams, Run};
