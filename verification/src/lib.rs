//! Ontology engineering: a labeled-property-graph model, a forward-chaining
//! reasoner, query parsers, RDF codecs and persistence helpers.
pub mod model;
pub mod schema;
pub mod rules;
pub mod provenance;
pub mod engine;
pub mod org;
pub mod store;
pub mod checkpointer;
pub mod wire;
pub mod protocol;
pub mod lexer;
pub mod sparql;
pub mod cypher;
pub mod text;
pub mod rdf;
pub mod adapter;
pub mod ntriples;
pub mod turtle;
pub mod json;
pub mod jsonld;
pub mod induce;
pub mod order;
pub mod keyed;
