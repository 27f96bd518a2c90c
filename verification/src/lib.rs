//! Runtime engine for dynamic abstract-type inference.
//!
//! Tracked scalar values carry a tag; every arithmetic operation or comparison
//! between two tracked values records an interaction in a global disjoint-set
//! ledger. Program sites observe which variables are bound to which tags and
//! fold those observations into a per-site partition of variable names.

mod forest;
pub mod inference;
pub mod operators;
pub mod partition;
pub mod site;
pub mod site_view;
pub mod sites;
pub mod tagged_value;
pub mod tagger;
pub mod text;
pub mod union_find;
