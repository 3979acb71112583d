//! Delta-dependency graph of the entries of an object pack: each entry is
//! classified from its header, and every offset delta is wired to its base.
pub mod header;
pub mod graph;
