//! Retention of garbage-collection roots.
//!
//! A garbage-collection root is a symbolic link that protects an object of a
//! content-addressed store from collection. This library decides which roots
//! are monitored by which retention policy, which of them have expired, which
//! generations of a profile are kept, and what the run does about each
//! candidate. Reading the file system, asking the operator and deleting files
//! are left to the caller, which hands in what it observed and performs what
//! the library returns.
//!
//! Paths are held as text, and the library is written for Unix: a path is
//! absolute when it begins with `/`.

pub mod command;
pub mod config;
pub mod current;
pub mod error;
pub mod filter;
pub mod gc_root;
pub mod paths;
pub mod pattern;
pub mod policy;
pub mod profile;
pub mod run;
pub mod statistics;
pub mod text;
pub mod time;
pub mod touch;
pub mod utils;
