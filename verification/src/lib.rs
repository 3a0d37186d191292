//! The persistence core of a small version-control engine: a tagged object
//! codec, the key-value message format of commits and tags, a
//! content-addressed object store, a tree materializer and a reference graph.
//!
//! Everything in this crate computes on values. A [`repository::Repository`]
//! is an in-memory image of a repository; loading it from a directory and
//! saving it back is left to the program that uses the library.
//!
//! The modules whose names end in `_laws` hold no code that runs: they state
//! and prove what holds of the formats and of the stores.

pub mod branch_utils;
pub mod buffer;
pub mod checkout;
pub mod config;
pub mod error;
pub mod file_utils;
pub mod git_object;
pub mod ignore;
pub mod index;
pub mod key_value_list_message;
pub mod lookup;
pub mod message_laws;
pub mod object_laws;
pub mod object_utils;
pub mod ref_laws;
pub mod refs;
pub mod repository;
pub mod status;
pub mod text;
pub mod tree_format;
