use vstd::prelude::*;

verus! {

/// A rectangle by its side lengths.
#[derive(Debug)]
pub struct Rectangle {
    pub width: u32,
    pub height: u32,
}

impl Rectangle {
    /// Width times height.  The product must fit in a `u32`.
    pub fn area(&self) -> (area: u32)
        requires
            self.width * self.height <= u32::MAX,
        ensures
            area == self.width * self.height,
    {
        self.width * self.height
    }
}

} // verus!
