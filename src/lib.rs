//! A microSD card served as a block device over a byte-stream host link:
//! the card protocol engine (`sd`), the link framing (`link`), the wire
//! vocabulary (`wire`) and the engine that joins them (`driver`).
use vstd::prelude::*;

pub mod driver;
pub mod link;
pub mod sd;
pub mod wire;

verus! {

} // verus!
