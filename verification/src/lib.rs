//! Separates human-authored documentation from source declarations.
//!
//! The crate walks a parsed source tree, identifies every documentable
//! declaration, assigns each a stable structural address, and associates it
//! with the run of doc-comment lines immediately preceding it.  On top of
//! that engine sit two symmetric passes over a line buffer: a strip pass,
//! which moves doc text out of the buffer into an ordered store, and an
//! embed pass, which moves it back.  The structural addresses make the
//! round trip lossless: they depend only on declaration identity (kind,
//! name, nesting, impl target and trait), never on byte or line offsets.

pub mod tree;
pub mod visit;
pub mod address;
pub mod store;
pub mod buffer;
pub mod control;
pub mod locate;
