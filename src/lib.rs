//! Relationship inference over chat activity: an entity cache, a bulk member
//! resolver, an inference engine and a decaying relationship graph store.

pub mod ids;
pub mod assoc;
pub mod cache;
pub mod entities;
pub mod graph;
pub mod inference;
pub mod lru_store;
pub mod mention;
pub mod persist;
pub mod render;
pub mod resolver;
pub mod social;
pub mod stats;
pub mod text;
