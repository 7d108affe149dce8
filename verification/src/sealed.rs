//! Containers that differ only in who may look inside.

use vstd::prelude::*;

verus! {

/// A container whose contents anyone may read and replace.
pub struct OpenBox<T> {
    pub contents: T,
}

/// A container that can be built from outside this module but not opened.
pub struct ClosedBox<T> {
    contents: T,
}

impl<T> View for ClosedBox<T> {
    type V = T;

    /// The value that was sealed into the box.
    closed spec fn view(&self) -> T {
        self.contents
    }
}

impl<T> ClosedBox<T> {
    /// Seals `contents` into a new box.
    pub fn new(contents: T) -> (sealed: ClosedBox<T>)
        ensures
            sealed@ == contents,
    {
        ClosedBox { contents: contents }
    }
}

} // verus!
