//! Detection of byte-identical files.
//!
//! The library holds the verified core of a duplicate-file scanner: a
//! SHA-256 content fingerprint computed over a stream of chunks, a
//! duplicate index that maps each fingerprint to the first path seen with
//! it and to every later path carrying the same content, and the
//! classification rule of the directory traversal. File and directory
//! I/O, the worker pool and the final report live in the surrounding
//! program, which feeds plain values into these functions and reads
//! plain values back.

pub mod digest;
pub mod error;
pub mod file_index;
pub mod scan_model;
pub mod traverse;
