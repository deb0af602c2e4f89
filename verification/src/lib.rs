//! Routing-net topology: axis-aligned wire segments and pins are assembled
//! into a validated spanning tree of directional junctions, which can then be
//! serialized back into canonical routing text.

pub mod errors;
pub mod geometry;
pub mod naming;
pub mod net;
pub mod records;
pub mod tree;
pub mod unionfind;
