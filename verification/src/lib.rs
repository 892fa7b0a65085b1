//! A verified parser and normalizer for a heading-based outline markup
//! dialect.
//!
//! The pipeline turns a plain-text outline document into a typed tree and
//! then repairs that tree so that two structural guarantees hold: the
//! document always carries a zeroth section with a title and a description,
//! and every node carries a unique `CUSTOM_ID` property usable for
//! cross-referencing.
//!
//! [`blocks::parse`] takes the source text through line splitting, block
//! recognition and tree building; [`doctor::normalize`] establishes the two
//! guarantees and reports every repair. [`heading`] holds the heading-line
//! grammar, [`inline`] the inline object parser, [`model`] the document
//! tree, [`text`] the character-level helpers and [`config`] the
//! configuration values threaded through the calls.

pub mod blocks;
pub mod config;
pub mod doctor;
pub mod heading;
pub mod inline;
pub mod model;
pub mod text;
