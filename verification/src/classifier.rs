//! The capability contract that a classifier offers: train on labelled
//! examples, then predict labels for query points.

use vstd::prelude::*;

verus! {

/// A single data point: an ordered sequence of numeric coordinates.
pub type Example<T> = Vec<T>;

/// An ordered collection of examples; each index lines up with a label.
pub type Dataset<T> = Vec<Example<T>>;

/// The capability contract of a classifier.  Training stores labelled data;
/// prediction answers queries, and yields no result before training.  This
/// trait documents the shape of the interface; the concrete classifier of
/// this crate carries the verified contracts on its own inherent methods.
pub trait Classifier {
    /// Type of a single training example.
    type ExampleType;

    /// Type of the labels output by the classifier.
    type LabelType;

    /// Train the classifier on given labelled data.
    fn fit(&mut self, data: Vec<Self::ExampleType>, labels: Vec<Self::LabelType>);

    /// Predict the labels of a batch of data points.
    fn predict(&self, data: &Vec<Self::ExampleType>) -> Option<Vec<Self::LabelType>>;

    /// Predict the label of one data point.
    fn predict_one(&self, x: &Self::ExampleType) -> Option<Self::LabelType>;
}

} // verus!
