//! Control layer for National Instruments X-series data-acquisition boards.
//!
//! The library holds the decisions of the driver as verified code: which
//! start request each subsystem issues, and how the board's PXI address is
//! read out of the kernel driver's device listing. Performing the requests
//! against the board is left to the caller.
use vstd::prelude::*;

pub mod subsystem;
pub mod lsdaq;

verus! {

} // verus!
