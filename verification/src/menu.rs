//! The top-level menu choices of the ticketing system.

use vstd::prelude::*;

verus! {

/// Which collection the caller wants to manage next, or leaving the program.
#[derive(Debug, Clone, Copy, PartialEq, Eq, Structural)]
pub enum Menu {
    Trains,
    Passengers,
    Bookings,
    Exit,
}

} // verus!
