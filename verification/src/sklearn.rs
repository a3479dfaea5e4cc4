//! Estimators and helpers in the style of scikit-learn.
pub mod model_selection;
