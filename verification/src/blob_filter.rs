//! Blob filtering support: a component's box as `(left, bottom, right,
//! top)` corner coordinates.
use vstd::prelude::*;
use crate::conncomp::ConnComp;

verus! {

/// A component's box as `(left, bottom, right, top)`: the `y` edge is
/// labelled "bottom" and `y + h` "top", so that the height `top - bottom`
/// and the width `right - left` come out positive.
pub fn box_tuple(c: &ConnComp) -> (r: (i32, i32, i32, i32))
    requires
        c.bb.x + c.bb.w <= i32::MAX,
        c.bb.y + c.bb.h <= i32::MAX,
        c.bb.x + c.bb.w >= i32::MIN,
        c.bb.y + c.bb.h >= i32::MIN,
    ensures
        r == (c.bb.x, c.bb.y, (c.bb.x + c.bb.w) as i32, (c.bb.y + c.bb.h) as i32),
{
    (c.bb.x, c.bb.y, c.bb.x + c.bb.w, c.bb.y + c.bb.h)
}

} // verus!
