//! Incremental document indexing for a full-text search engine.
//!
//! A batch of documents is deduplicated against the documents that are
//! already stored, split into chunks from which posting lists are extracted,
//! merged into the posting databases and finally reflected in the prefix
//! databases. The strings of the filterable fields are kept document by
//! document, and the number of documents that have each field can be
//! counted. Every function of this crate is verified against its contract.
//!
//! Three modules serve the tools around the engine: `flags` holds the
//! records of a command line, `helpers` the groups of lints, and
//! `text_edit` the edits that such tools make to a text.

pub mod bitmap;
pub mod bytes;
pub mod sorted_map;
pub mod postings;
pub mod documents;
pub mod fields;
pub mod error;
pub mod settings;
pub mod tokenizer;
pub mod sorter;
pub mod extract;
pub mod facet_values;
pub mod index;
pub mod enrich;
pub mod index_documents;
pub mod transform;
pub mod prefix;
pub mod prefix_databases;
pub mod typed_chunk;
pub mod distribution;
pub mod helpers;
pub mod flags;
pub mod text_edit;
pub mod laws;
