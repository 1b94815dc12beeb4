//! A client library for the pairing game: discovered elements and tried
//! pairs in two deduplicating stores, a sampler for the next pair to try,
//! the interpretation of the remote endpoint's answers, and import/export
//! of the web page's local-storage snapshot.

pub mod element;
pub mod order;
pub mod pairs;
pub mod sampler;
pub mod session;
pub mod store;
pub mod url;
