//! Utility modules for memory layout.

pub mod alignment;

pub use alignment::{get_simd_width, is_aligned, pad_dimension, SimdSupport, SIMD_ALIGNMENT};
