//! Numerical-analysis primitives over fixed-point integer coordinates:
//! distance metrics, statistics helpers, and a k-means clustering engine
//! with a deterministic, equally-spaced centroid initializer.

pub mod distance;
pub mod kmeans;
pub mod kmeans_laws;
pub mod powers;
pub mod statistics;
