//! Immutable fragment metadata and buffered state changes.
//!
//! A table's fragments are kept in a tree of immutable nodes. Leaves hold
//! fragment records, interior nodes route by key and buffer pending changes.
//! This crate holds every decision of that tree: routing, replay, reduction,
//! draining, splitting, merging and publication. Objects are read and written
//! outside; what the decisions see of storage is [`store::NodeStore`].

pub mod action;
pub mod bitmap;
pub mod bulk;
pub mod commit;
pub mod delta_laws;
pub mod drain;
pub mod drain_laws;
pub mod edit_laws;
pub mod error;
pub mod failpoint;
pub mod flush;
pub mod fragment_catalog;
pub mod index;
pub mod inherit;
pub mod layout;
pub mod le;
pub mod leaf;
pub mod leaf_laws;
pub mod leaf_reads;
pub mod leaves;
pub mod levels;
pub mod lifting;
pub mod manifest;
pub mod merge;
pub mod message;
pub mod node;
pub mod order;
pub mod order_laws;
pub mod partial;
pub mod paths;
pub mod pb;
pub mod policy_laws;
pub mod reading_laws;
pub mod record;
pub mod refusal_laws;
pub mod replacement_laws;
pub mod replay;
pub mod replay_laws;
pub mod rewrite_laws;
pub mod rows;
pub mod same;
pub mod split;
pub mod squash;
pub mod squash_form_laws;
pub mod squash_laws;
pub mod steps;
pub mod store;
pub mod text;
pub mod tiered;
pub mod tree;
pub mod validation;
pub mod views;
pub mod wire;
pub mod world;
