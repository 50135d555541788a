//! Helpers that the crate's primitives share.

pub mod parent_waker;
