//! Shared utilities of the models.
pub mod kernels;
