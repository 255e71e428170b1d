//! The state kept by the kernel's locks and one-time initializers.
pub mod once;
pub mod ticket;
