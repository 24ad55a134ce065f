//! Graph storage formats and edge iteration for single-machine graph analytics.
//!
//! Graph algorithms are written once against one contract, `EdgeMapper`: a
//! walk hands every edge of the graph to an `EdgeAction`. Five backends keep
//! to it: a text edge list parsed on every walk, the same list parsed once and
//! replayed from memory in curve order, a CSR pair of node and edge files, a
//! curve-split pair of upper and lower files, and a delta-compressed stream of
//! curve indices.
//!
//! - `curve`: the Hilbert curve over the 2^32 x 2^32 grid, both ways.
//! - `delta`: the delta-compressed stream of curve indices.
//! - `records`: the little-endian records of the binary files.
//! - `graph_iterator`: the walking contract and the backends.
//! - `encode`: conversion to the curve-split format and to the delta stream.
//! - `csr`: conversion of an edge stream to the CSR format.
//! - `text`: the text edge list.
//! - `source`: byte sources that streaming backends read from.
//! - `bfs`, `components`, `union_find`, `stats`: algorithms over any backend.
pub mod curve;
pub mod delta;
pub mod records;
pub mod graph_iterator;
pub mod encode;
pub mod text;
pub mod source;
pub mod bfs;
pub mod csr;
pub mod components;
pub mod union_find;
pub mod stats;
pub mod two_way;
