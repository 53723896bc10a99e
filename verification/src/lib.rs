//! Concurrent range download, verified: split a resource of known size into
//! contiguous byte ranges, decide the outcome of a concurrent fan-out of
//! range fetches, and reassemble the payloads in ascending range order so
//! the output reproduces the resource byte for byte.

pub mod assembler;
pub mod chunk;
pub mod content_length;
pub mod errors;
pub mod orchestrator;
pub mod planner;
