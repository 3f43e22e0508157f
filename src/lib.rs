//! Reconstruction of water-right records from the drawing instructions of
//! their report documents.
//!
//! The pipeline runs in stages, each a module:
//! - [`text_block`] assembles the text blocks of a page from its drawing
//!   events, joining wrapped fragments;
//! - [`key_value`] groups the blocks into label/value pairs by their font;
//! - [`grouped`] segments the pairs into a root section, legal departments
//!   with their usage locations, and a trailing annotation;
//! - [`parse`] and [`fields`] read the fields into the typed model of
//!   [`model`] and [`helper_types`];
//! - [`document`] runs the stages for one report and cleans the record up,
//!   and [`enrich`] fills absent fields from spreadsheet rows.
//!
//! [`postgres_copy`] writes values in PostgreSQL's `COPY` text format.
use vstd::prelude::*;

pub mod document;
pub mod enrich;
pub mod fields;
pub mod grouped;
pub mod helper_types;
pub mod key_value;
pub mod model;
pub mod numbers;
pub mod parse;
pub mod postgres_copy;
pub mod text;
pub mod text_block;
pub mod util;

verus! {

} // verus!
