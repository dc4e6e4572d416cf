//! Finds the tokens of an analysed document that a search should highlight.
//!
//! A document is the sequence of tokens that an analyser cut out of a text. A
//! [`DocumentHighlighter`](document_highlighter::DocumentHighlighter) indexes them by term and
//! answers term, wildcard, regular expression, fuzzy, phrase and proximity searches with the
//! tokens that match. [`rows`] turns the answers into table rows.

pub mod answer_laws;
pub mod document;
pub mod document_highlighter;
pub mod edit_laws;
pub mod error;
pub mod fuzzy;
pub mod laws;
pub mod pattern;
pub mod proximity;
pub mod proximity_laws;
pub mod proximity_model;
pub mod proximity_paths;
pub mod proximity_tables;
pub mod rows;
pub mod token;
