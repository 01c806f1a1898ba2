use vstd::prelude::*;
use vstd::std_specs::convert::FromSpecImpl;

verus! {

/// A point in the plane.
#[derive(Debug, Copy, Clone)]
pub struct Point<T> {
    pub x: T,
    pub y: T,
}

impl<T> From<(T, T)> for Point<T> {
    fn from(xy: (T, T)) -> (p: Self) {
        Point { x: xy.0, y: xy.1 }
    }
}

impl<T> FromSpecImpl<(T, T)> for Point<T> {
    open spec fn obeys_from_spec() -> bool {
        true
    }

    open spec fn from_spec(v: (T, T)) -> Self {
        Point { x: v.0, y: v.1 }
    }
}

/// A width and a height.
#[derive(Debug, Copy, Clone)]
pub struct Size<T> {
    pub w: T,
    pub h: T,
}

impl<T> From<(T, T)> for Size<T> {
    fn from(wh: (T, T)) -> (s: Self) {
        Size { w: wh.0, h: wh.1 }
    }
}

impl<T> FromSpecImpl<(T, T)> for Size<T> {
    open spec fn obeys_from_spec() -> bool {
        true
    }

    open spec fn from_spec(v: (T, T)) -> Self {
        Size { w: v.0, h: v.1 }
    }
}

/// An axis-aligned rectangle given by two opposite corners.
#[derive(Debug, Copy, Clone)]
pub struct Rect<T> {
    pub x0: T,
    pub y0: T,
    pub x1: T,
    pub y1: T,
}

impl<T> From<(Point<T>, Point<T>)> for Rect<T> {
    fn from(corners: (Point<T>, Point<T>)) -> (r: Self) {
        let (p0, p1) = corners;
        Rect { x0: p0.x, y0: p0.y, x1: p1.x, y1: p1.y }
    }
}

impl<T> FromSpecImpl<(Point<T>, Point<T>)> for Rect<T> {
    open spec fn obeys_from_spec() -> bool {
        true
    }

    open spec fn from_spec(v: (Point<T>, Point<T>)) -> Self {
        Rect { x0: v.0.x, y0: v.0.y, x1: v.1.x, y1: v.1.y }
    }
}

impl Rect<usize> {
    /// The rectangle whose top-left corner is `p` and whose extent is `sz`.
    pub fn from_origin_size(p: Point<usize>, sz: Size<usize>) -> (r: Rect<usize>)
        requires
            p.x + sz.w <= usize::MAX,
            p.y + sz.h <= usize::MAX,
        ensures
            r.x0 == p.x,
            r.y0 == p.y,
            r.x1 == p.x + sz.w,
            r.y1 == p.y + sz.h,
    {
        Rect { x0: p.x, y0: p.y, x1: p.x + sz.w, y1: p.y + sz.h }
    }
}

} // verus!
