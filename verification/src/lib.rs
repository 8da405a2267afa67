//! Core data-management layer of a multi-tenant inventory / location-tracking
//! service: per-tenant connection-pool lifecycle, a user-extensible item
//! schema, positional marshaling of item values, a hierarchical container
//! tree with delimited-set encoding, and the backup / restore pipeline.
//!
//! The library holds the decision and data logic; network transport, the
//! database driver and the filesystem are driven by a thin shell that calls
//! into it with plain values.

use vstd::prelude::*;

pub mod archive;
pub mod backup;
pub mod codec;
pub mod container;
pub mod errors;
pub mod images;
pub mod item;
pub mod pool;
pub mod schema;
pub mod strings;

verus! {

} // verus!
