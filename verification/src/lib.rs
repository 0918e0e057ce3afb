//! A local persistence layer for a small collection of note cards.
//!
//! The crate keeps an in-memory index of cards, defines the binary
//! encoding used for the single backing file, and proves that every
//! mutation is reflected exactly in the bytes handed back for
//! persistence. File input and output themselves live outside this
//! library: callers read and write the byte images that the
//! [`repository::Repository`] produces and consumes.

pub mod card;
pub mod codec;
pub mod repository;
