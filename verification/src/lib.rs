//! Renames filesystem entries so that every name uses only a small, safe
//! character set, resolving rename collisions with a zero-padded counter.
//!
//! The crate is organised around five pieces: a transliterator that maps an
//! arbitrary filename to its safe form, a codec that splits a filename into
//! stem, optional collision counter and optional extension, a collision
//! resolver that searches for the next free name, an in-memory filesystem
//! tree, and a traversal engine that walks paths and performs (or simulates)
//! the renames.

pub mod filename_parts;
pub mod mem_fs;
pub mod opts;
pub mod paths;
pub mod resolve;
pub mod translit;
pub mod traverse;
