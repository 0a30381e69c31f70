//! Small coordinate-access trait shared by the hit-testing API.

use vstd::prelude::*;

verus! {

/// A value that can be read as an `(x, y)` coordinate pair.
///
/// `Window::contains` accepts any such value, so callers can hand it a
/// tuple or a two-element array without converting first.
pub trait Coord<T> {
    /// The x component, as a specification-level value.
    spec fn spec_x(&self) -> T;

    /// The y component, as a specification-level value.
    spec fn spec_y(&self) -> T;

    /// The x component.
    fn x(&self) -> (r: T)
        ensures
            r == self.spec_x(),
    ;

    /// The y component.
    fn y(&self) -> (r: T)
        ensures
            r == self.spec_y(),
    ;
}

impl<T: Copy> Coord<T> for (T, T) {
    open spec fn spec_x(&self) -> T {
        self.0
    }

    open spec fn spec_y(&self) -> T {
        self.1
    }

    fn x(&self) -> (r: T)
        ensures
            r == self.spec_x(),
    {
        self.0
    }

    fn y(&self) -> (r: T)
        ensures
            r == self.spec_y(),
    {
        self.1
    }
}

impl<T: Copy> Coord<T> for [T; 2] {
    open spec fn spec_x(&self) -> T {
        self[0]
    }

    open spec fn spec_y(&self) -> T {
        self[1]
    }

    fn x(&self) -> (r: T)
        ensures
            r == self.spec_x(),
    {
        self[0]
    }

    fn y(&self) -> (r: T)
        ensures
            r == self.spec_y(),
    {
        self[1]
    }
}

} // verus!
