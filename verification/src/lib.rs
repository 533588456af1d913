//! Repair of text fields that were stored with each 16-bit code unit cut to its low byte.
pub mod decision;
pub mod document;
pub mod error;
pub mod fidelity;
pub mod layout;
pub mod options;
pub mod parse;
pub mod process;
pub mod rewrite;
pub mod text;
pub mod wire;
