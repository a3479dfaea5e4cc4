//! Image processing in the style of scikit-image.
pub mod color;
pub mod components;
pub mod exposure;
pub mod filters;
pub mod measure;
pub mod morphology;
pub mod transform;
