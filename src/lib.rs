//! Address expansion and result handling for a local-network scanner: reading
//! IPv4 address specifications (single addresses, prefix blocks, ranges),
//! expanding them into the addresses to probe, and turning probe outcomes into
//! the lines shown for live hosts.
use vstd::prelude::*;

pub mod address;
pub mod expand;
pub mod probe;
pub mod text;

verus! {

} // verus!
