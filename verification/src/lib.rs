//! Team similarity analysis over per-season feature vectors.
//!
//! Each team is summarised by a fixed-length vector of fixed-point
//! statistics.  From one mapping of team identifier to feature vector the
//! library derives two structures: a similarity graph connecting admitted
//! teams whose vectors are close under Euclidean distance, and, for every
//! team, its k nearest neighbours under the same distance.  Distances are
//! carried as exact squared values, so every threshold comparison and
//! every ranking is computed without rounding.

pub mod data;
pub mod distance;
pub mod features;
pub mod graph;
pub mod ids;
pub mod knn;
