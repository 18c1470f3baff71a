//! Verified core of the ICM memory store.
pub mod text;
pub mod encode;
pub mod clock;
pub mod model;
pub mod order;
pub mod like;
pub mod store;
pub mod facts;
pub mod normalize;
pub mod memory;
pub mod patterns;
pub mod backends;
pub mod maintain;
pub mod search;
pub mod consolidate;
pub mod clusters;
pub mod graph;
pub mod links;
pub mod extract;
pub mod store_graph;
pub mod tally;
pub mod transcript;
pub mod store_transcript;
pub mod laws;
pub mod unoffered;
pub mod documents;
pub mod cache;
pub mod neighbours;
pub mod concepts;
pub mod neighbourhood;
