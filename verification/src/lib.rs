//! A sandboxed file-browser core: request paths are resolved against a fixed
//! root directory, every filesystem operation takes a path proven to lie
//! inside that root, and each request is mapped to a typed outcome.

pub mod paths;
pub mod store;
pub mod file_manager;
pub mod dispatch;
pub mod listing;
