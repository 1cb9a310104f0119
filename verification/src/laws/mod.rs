//! What holds of the kernels as a whole.
pub mod attention;
pub mod batch;
pub mod concat;
pub mod dense;
pub mod exact;
pub mod masked;
pub mod order;
pub mod parallel;
pub mod parts;
pub mod plain;
pub mod request;
pub mod rounded;
pub mod softmax;
pub mod whole;
