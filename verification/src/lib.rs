//! Browsing a store of encrypted secrets: which node of the store a request
//! names, what its tree looks like, and what leaves the process when a secret
//! is revealed.

pub mod dispatch;
pub mod error;
pub mod names;
pub mod render;
pub mod tree;
pub mod walk;
