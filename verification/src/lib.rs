//! Core of a collaborative sequence CRDT: identifiers and versions, a balanced
//! tree of run-length-encoded spans, and the tracker that orders concurrent
//! insertions.

pub mod container;
pub mod id;
pub mod span;
pub mod y_span;
pub mod version;
pub mod encoding;
pub mod frontiers;
pub mod cursor_map;
pub mod range_map;
pub mod op_span_set;
pub mod yata;
pub mod tracker;
pub mod yata_impl;

pub mod rle_tree;
