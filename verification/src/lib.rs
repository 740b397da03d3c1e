//! Train-ticket booking library.
//!
//! The heart of the crate is the booking service in [`bookings`]: it creates,
//! edits and removes bookings while keeping three in-memory collections
//! (passengers, trains, bookings) mutually consistent, and it enforces the
//! passenger-scheduling rule that no passenger holds two bookings on the same
//! train line or on trains with overlapping journey times.

use vstd::prelude::*;

pub mod actions;
pub mod bookings;
pub mod keys;
pub mod menu;
pub mod passengers;
pub mod trains;
pub mod times;

verus! {

/// Failure of a plain registry operation (adding or looking up a single
/// record, with no cross-entity rule involved).
#[derive(Debug, Clone, Copy, PartialEq, Eq, Structural)]
pub enum RegistryError {
    /// An `add` found the key already present.
    DuplicateKey,
    /// A lookup or removal found no record under the key.
    NotFound,
}

/// No two elements of the sequence are equal.
pub open spec fn all_distinct<A>(s: Seq<A>) -> bool {
    forall|i: int, j: int| 0 <= i < j < s.len() ==> s[i] != s[j]
}

/// String equality, stated over the character views.
pub fn str_eq(a: &str, b: &str) -> (r: bool)
    ensures
        r == (a@ == b@),
{
    let sa: String = a.to_owned();
    let sb: String = b.to_owned();
    sa == sb
}

/// Copies a vector of strings; the copy has the same character views.
pub fn clone_string_vec(v: &Vec<String>) -> (r: Vec<String>)
    ensures
        r@ == v@,
{
    let mut r: Vec<String> = Vec::new();
    let mut i: usize = 0;
    while i < v.len()
        invariant
            i <= v.len(),
            r@ =~= v@.take(i as int),
        decreases v.len() - i,
    {
        r.push(v[i].clone());
        i += 1;
    }
    proof {
        assert(v@.take(v@.len() as int) =~= v@);
    }
    r
}

} // verus!
