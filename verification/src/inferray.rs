//! The data side of the reasoner: pairs, the bucket sorter, the store, the
//! dictionary and the graph that ties them together.

pub mod dictionary;
pub mod graph;
pub mod pairs;
pub mod sorter;
pub mod store;

pub use self::dictionary::{NodeDictionary, Space, Term, TermError};
pub use self::graph::{InfGraph, LoadError, Triple};
pub use self::sorter::bucket_sort_pairs;
pub use self::store::{Chunk, TripleStore};
