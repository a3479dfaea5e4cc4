//! Machine-learning models in the style of the numpy-ml project.
pub mod neural_nets;
pub mod ngram;
pub mod nonparametric;
pub mod utils;
