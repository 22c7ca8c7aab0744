//! Fraud scoring by exact nearest-neighbour search over labelled reference
//! transactions.
//!
//! `references` reads the references from their JSON text. `preprocess` groups
//! them by partition key, builds a vantage-point tree for each group (`vptree`)
//! and writes them to an index file (`codec`).
//! `index` reads the file back, `knn` searches it (`search` searches one tree),
//! and `response` answers a request. `features` and `datetime` read a request;
//! `single` says which numbers the bits of its features stand for.

pub mod bags;
pub mod codec;
pub mod datetime;
pub mod distance;
pub mod features;
pub mod index;
pub mod knn;
pub mod layout;
pub mod preprocess;
pub mod references;
pub mod response;
pub mod search;
pub mod select;
pub mod single;
pub mod tree;
pub mod vptree;
