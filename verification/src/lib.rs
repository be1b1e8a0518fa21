//! Edge scans over graphs laid out along the Hilbert curve, and graph algorithms that run
//! as passes over a scan.
//!
//! - `curve_model`, `curve_blocks`, `bit_facts`: the Hilbert curve as mathematics, and why
//!   it can be followed a byte of each coordinate at a time.
//! - `hilbert_curve`: the codecs between a pair of `u32` and its index on the curve.
//! - `varint`, `delta_stream`, `delta_scan`: increasing indices as a byte stream of
//!   differences, read whole or byte by byte.
//! - `records`, `edge_list`, `offsets`: the other formats of a graph.
//! - `graph_iterator`: the scans over the layouts of a graph.
//! - `convert`, `dense`, `merge`: from one layout to another, dense names for the nodes, and
//!   the merge of sorted streams.
//! - `connectivity`, `union_find`, `label_prop`, `distances`, `bfs`, `stats`: what the
//!   edges of a graph join, how far its nodes are from node 0, and how large it is.

pub mod bfs;
pub mod bit_facts;
pub mod connectivity;
pub mod convert;
pub mod curve_blocks;
pub mod curve_model;
pub mod dense;
pub mod delta_scan;
pub mod delta_stream;
pub mod distances;
pub mod edge_list;
pub mod graph_iterator;
pub mod hilbert_curve;
pub mod label_prop;
pub mod merge;
pub mod offsets;
pub mod records;
pub mod stats;
pub mod union_find;
pub mod varint;
