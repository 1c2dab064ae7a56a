//! A place for a boxed trait object.

use vstd::prelude::*;

verus! {

/// The place where a boxed trait object is kept.
pub struct Slot<T> {
    pub item: T,
}

} // verus!
