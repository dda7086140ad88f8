//! Keeps the set of connection states closed.

use vstd::prelude::*;

verus! {

/// A trait that no other crate can implement.
pub trait Sealed {

}

} // verus!
