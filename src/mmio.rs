//! Devices that the machine reaches through memory-mapped registers.
use vstd::prelude::*;

pub mod uart;

verus! {

} // verus!
