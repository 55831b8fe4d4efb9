//! Fresh identifiers for tasks and categories.

use vstd::prelude::*;

verus! {

/// Relies on uuid's `Uuid::new_v4` and its `Display` form: a random version-4
/// uuid written in the hyphenated lower-case form, which is 36 characters.
/// The draw is random, so nothing relates two calls; callers must check
/// freshness against the store themselves.  Like an allocation failure, a
/// failing operating-system random source aborts rather than returning.
#[verifier::external_body]
pub fn fresh_id() -> (r: String)
    ensures
        r@.len() == 36,
{
    uuid::Uuid::new_v4().to_string()
}

} // verus!
