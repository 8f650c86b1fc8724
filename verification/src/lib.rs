//! Nestable inline markup for terminal output.
//!
//! Tagged source text — two single-character control markers delimiting
//! color tags and pseudo-HTML tags — is parsed into an [`markup::AnsiString`]
//! document: a plain-text projection, an arena of tag nodes, and a map from
//! every character to the innermost node covering it.  The document can then
//! be rendered for different terminal capabilities (plain ANSI, 256-color,
//! MXP) or encoded back to tagged text.

pub mod color;

pub mod legacy;

pub mod markup;

pub mod parse;

pub mod render;

pub mod resolve;

pub mod roundtrip;

pub mod util;
