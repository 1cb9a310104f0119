//! Paged flash attention on strided tensors.
//!
//! The kernels work on one element memory: a slice of elements that every
//! tensor of a batch lies in and that is addressed in bytes, as a device's
//! memory is. Requests and cache pages hold byte addresses and byte strides.
pub mod attention;
pub mod ceil;
pub mod laws;
pub mod memory;
pub mod scalar;
