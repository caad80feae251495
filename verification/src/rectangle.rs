//! Rectangle areas, computed from separate sides, from a tuple, and from a
//! struct.

use vstd::prelude::*;

verus! {

/// A rectangle measured in whole pixels.
#[derive(Debug, Clone, Copy, PartialEq, Eq, Structural)]
pub struct Rectangle {
    pub width: u32,
    pub height: u32,
}

/// Area of a rectangle given as two separate side lengths.
pub fn basic_area(width: u32, height: u32) -> (area: u32)
    requires
        width * height <= u32::MAX,
    ensures
        area == width * height,
{
    width * height
}

/// Area of a rectangle given as a (width, height) tuple.
pub fn tuple_area(dimensions: (u32, u32)) -> (area: u32)
    requires
        dimensions.0 * dimensions.1 <= u32::MAX,
    ensures
        area == dimensions.0 * dimensions.1,
{
    dimensions.0 * dimensions.1
}

/// Area of a rectangle given as a struct.
pub fn struct_area(rectangle: &Rectangle) -> (area: u32)
    requires
        rectangle.width * rectangle.height <= u32::MAX,
    ensures
        area == rectangle.width * rectangle.height,
{
    rectangle.width * rectangle.height
}

} // verus!
