//! Ingestion, relation closure, materialization and indexed retrieval for a
//! lexical knowledge graph of senses and sense sets.

pub mod ids;
pub mod text;
pub mod relations;
pub mod wordnet;
pub mod key_index;
pub mod closure;
pub mod graph;
pub mod sense_closure;
pub mod laws;
pub mod members;
pub mod lexicon;
pub mod negotiation;
pub mod hbs;
pub mod codec;
pub mod store;
pub mod pipeline;
