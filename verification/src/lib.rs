//! A small supervised-learning library: a k-nearest-neighbours classifier
//! over integer-valued feature vectors, together with the vector arithmetic
//! and the frequency counter that the prediction step relies on.

pub mod classifier;
pub mod knn;
pub mod util;
