//! NumPy, SciPy, scikit-learn and scikit-image style building blocks whose
//! discrete logic (index shuffling, cross-validation folds, n-gram counting,
//! binary morphology, component labelling) is specified and proved with Verus.
pub mod grid;
pub mod np;
pub mod numpy_ml;
pub mod sklearn;
pub mod sp;
pub mod skimage;
