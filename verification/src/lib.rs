//! Core of a 2D computational-geometry library: the integer lattice
//! primitives, the query filter (tags and kind bitmasks), and the structural
//! bookkeeping of the lazily-subdivided quadtree index (shape table, free
//! list, node lists, test counters and per-query caches), each with a
//! verified contract.

pub mod boundary;
pub mod point;
pub mod query;
pub mod quadtree;
pub mod rect;
