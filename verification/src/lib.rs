//! A forward-chaining reasoner for RDF-style triples.
//!
//! A graph is loaded from triples of terms: the dictionary gives every term
//! a compact identifier, and the store keeps the triples of identifiers,
//! one chunk of `(subject, object)` pairs per predicate, sorted and free of
//! duplicates. A fixed set of RDFS/OWL rules is then fired on the store,
//! round after round, until a round adds nothing: the store then holds the
//! closure of the input under the rules.
//!
//! - [`inferray::sorter`]: the histogram sort that orders a chunk and drops
//!   its duplicates.
//! - [`inferray::store`]: chunks and the store; insertion, merging, sorting,
//!   lookup by subject or by object.
//! - [`inferray::dictionary`]: terms, identifiers and the dictionary.
//! - [`inferray::graph`]: loading a graph from terms and reading it back.
//! - [`rules`]: the rules and the loop that fires them to a fixed point.
//!
//! Every function is verified against its contract. Two calls leave the
//! verified code: the validation of an IRI, which is sophia's, and the walk
//! that sorts the chunks in parallel, which is rayon's.

pub mod inferray;
pub mod rules;
