//! Generation-and-merge engine for key/value language files.
//!
//! The crate combines two generation strategies, direct dictionary lookup
//! and combinatorially expanded template rules, then merges the generated
//! translations with a fallback translation set and the original source
//! text, flagging anything left untranslated.

pub mod config;
pub mod expand;
pub mod generator;
pub mod lang;
pub mod meta;
pub mod replacer;
pub mod rule;
