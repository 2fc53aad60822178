//! What the crate keeps to itself.

use vstd::prelude::*;

verus! {

/// A trait that no type outside this crate can implement.
pub trait Sealed {

}

} // verus!
