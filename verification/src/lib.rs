//! Verified core of a small category service.
//!
//! Categories are persisted as flat rows, each holding a nullable reference
//! to its parent row. The library offers an in-memory category store with
//! the persistence interface of the service (`create`, `list_by_parent`),
//! and a tree builder that materializes the nested category forest from
//! those rows. The builder's contract pins the whole shape of the output:
//! one node per direct child, in store order, with the subtrees built from
//! the matching rows.

pub mod laws;
pub mod model;
pub mod store;
pub mod tree;
