//! A small library for assembling a change-set document: a JSON Patch-style
//! mutation wrapped in metadata, built from form input, validated against
//! domain rules, rendered to a canonical JSON encoding, and submitted to an
//! external configuration tool.
//!
//! The interactive shell, file dialogs, file writing and the subprocess call
//! live outside this crate; the crate holds the data model, the validator,
//! the serializer with its round-trip guarantee, and the submit decision
//! logic.

pub mod chars;
pub mod codec;
pub mod escape;
pub mod json;
pub mod model;
pub mod submit;
pub mod validate;
