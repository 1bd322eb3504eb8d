//! A language-agnostic source-code formatter core.
//!
//! The library reformats source text by matching declarative structural
//! rules against a parsed syntax tree and emitting layout directives,
//! instead of hand-writing a printer per language.  The pipeline is:
//!
//! * [`tree`] — an arena-style, read-only syntax tree supplied by the caller;
//! * [`query`] — an ordered pattern document whose rules claim tree nodes
//!   and bind captures with fixed formatting semantics;
//! * [`resolve`] — formatting directives anchored to token boundaries, with
//!   deterministic conflict resolution at each shared anchor;
//! * [`atoms`] — the position-ordered atom stream merging source tokens
//!   with resolved directives;
//! * [`render`] — a single linear pass over the atom stream tracking
//!   indentation depth and the blank-line budget;
//! * [`pipeline`] — one formatting pass, plus the idempotence check that
//!   accepts an output only when it is a fixed point of the pass.
//!
//! Selecting a grammar for a language, loading parser grammars, and all
//! file or terminal I/O are collaborators outside this crate: the library
//! consumes an already-parsed tree and already-loaded pattern document,
//! and produces a value.

pub mod error;
pub mod strutil;
pub mod language;
pub mod tree;
pub mod query;
pub mod resolve;
pub mod atoms;
pub mod render;
pub mod pipeline;
