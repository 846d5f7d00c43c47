//! Placeholder for an absent reset line.
use vstd::prelude::*;

verus! {

/// Stands for the reset pin when none is wired: the RESET line is held high
/// outside the driver, and toggling this pin does nothing.
pub struct NoPin;

} // verus!
