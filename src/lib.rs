//! Retrieval and index-maintenance core of a meme search service: rank fusion of vector
//! search hits, hydration of hits into published documents, the pages that answer a query,
//! the writes that keep the vector index a projection of the published documents, and
//! document slugs with their redirects.

pub mod model;
pub mod text;
pub mod fusion;
pub mod search;
pub mod results;
pub mod index;
pub mod slugs;
pub mod gallery;
pub mod control;
pub mod embedding;
