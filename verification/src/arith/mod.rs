//! The arithmetic expert: exact integers, expressions, and how an expression
//! is read off a prompt.

pub mod alu;
pub mod extract;
pub mod laws;
pub mod magnitude;
pub mod readback;
