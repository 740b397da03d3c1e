//! The actions a caller can take on one of the managed collections.

use vstd::prelude::*;

verus! {

/// One step of working with a collection: show it, grow it, shrink it,
/// change a record, or go back to the surrounding menu.
#[derive(Debug, Clone, Copy, PartialEq, Eq, Structural)]
pub enum Action {
    List,
    Add,
    Remove,
    Edit,
    Back,
}

} // verus!
