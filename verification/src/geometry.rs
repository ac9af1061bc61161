//! Integer rectangles in output space and the arithmetic on them.
//!
//! A rectangle is an origin and an extent. Its right and bottom edges saturate
//! at `i32::MAX`, so every rectangle denotes a set of pixels of the `i32` plane.

use vstd::prelude::*;

verus! {

/// A point of the plane.
#[derive(Clone, Copy, Debug, PartialEq, Eq, Structural)]
pub struct Offset2D {
    pub x: i32,
    pub y: i32,
}

/// A width and a height.
#[derive(Clone, Copy, Debug, PartialEq, Eq, Structural)]
pub struct Extent2D {
    pub width: u32,
    pub height: u32,
}

/// An axis-aligned rectangle.
#[derive(Clone, Copy, Debug, PartialEq, Eq, Structural)]
pub struct Rect2D {
    pub offset: Offset2D,
    pub extent: Extent2D,
}

/// The smaller of two integers.
pub open spec fn min_int(a: int, b: int) -> int {
    if a <= b { a } else { b }
}

/// The larger of two integers.
pub open spec fn max_int(a: int, b: int) -> int {
    if a >= b { a } else { b }
}

impl Rect2D {
    /// Left edge (inclusive).
    pub open spec fn x0(self) -> int {
        self.offset.x as int
    }

    /// Top edge (inclusive).
    pub open spec fn y0(self) -> int {
        self.offset.y as int
    }

    /// Right edge (exclusive), saturated at the plane's edge.
    pub open spec fn x1(self) -> int {
        min_int(self.offset.x + self.extent.width, i32::MAX as int)
    }

    /// Bottom edge (exclusive), saturated at the plane's edge.
    pub open spec fn y1(self) -> int {
        min_int(self.offset.y + self.extent.height, i32::MAX as int)
    }

    /// Whether the pixel `(x, y)` lies inside.
    pub open spec fn has(self, x: int, y: int) -> bool {
        self.x0() <= x < self.x1() && self.y0() <= y < self.y1()
    }

    /// The pixels of the rectangle.
    pub open spec fn px(self) -> Set<(int, int)> {
        Set::new(|p: (int, int)| self.has(p.0, p.1))
    }

    /// Whether the rectangles' sides overlap. Two that have pixels share one then;
    /// one without a pixel meets what it lies inside of.
    pub open spec fn meets(self, other: Rect2D) -> bool {
        self.x0() < other.x1() && other.x0() < self.x1() && self.y0() < other.y1() && other.y0()
            < self.y1()
    }

    /// Whether the rectangle has a pixel at all.
    pub open spec fn non_empty(self) -> bool {
        self.x0() < self.x1() && self.y0() < self.y1()
    }

    /// Right edge, saturating.
    pub fn right(&self) -> (r: i32)
        ensures
            r == self.x1(),
    {
        saturating_edge(self.offset.x, self.extent.width)
    }

    /// Bottom edge, saturating.
    pub fn bottom(&self) -> (r: i32)
        ensures
            r == self.y1(),
    {
        saturating_edge(self.offset.y, self.extent.height)
    }

    /// Whether the rectangle covers no pixel.
    pub fn is_empty(&self) -> (r: bool)
        ensures
            r == !self.non_empty(),
    {
        self.right() <= self.offset.x || self.bottom() <= self.offset.y
    }
}

/// `start + len`, saturated at the plane's edge.
fn saturating_edge(start: i32, len: u32) -> (r: i32)
    ensures
        r == min_int(start + len, i32::MAX as int),
{
    let s: i64 = start as i64 + len as i64;
    if s > i32::MAX as i64 {
        i32::MAX
    } else {
        s as i32
    }
}

/// The rectangle between two corners.
pub open spec fn corners(x0: int, y0: int, x1: int, y1: int) -> Rect2D {
    Rect2D {
        offset: Offset2D { x: x0 as i32, y: y0 as i32 },
        extent: Extent2D { width: (x1 - x0) as u32, height: (y1 - y0) as u32 },
    }
}

/// Builds the rectangle between two corners.
pub fn rect_from_corners(x0: i32, y0: i32, x1: i32, y1: i32) -> (r: Rect2D)
    requires
        x0 <= x1,
        y0 <= y1,
    ensures
        r == corners(x0 as int, y0 as int, x1 as int, y1 as int),
        r.x0() == x0,
        r.y0() == y0,
        r.x1() == x1,
        r.y1() == y1,
{
    Rect2D {
        offset: Offset2D { x: x0, y: y0 },
        extent: Extent2D {
            width: (x1 as i64 - x0 as i64) as u32,
            height: (y1 as i64 - y0 as i64) as u32,
        },
    }
}

/// The larger of two coordinates.
pub fn max_i32(a: i32, b: i32) -> (r: i32)
    ensures
        r == max_int(a as int, b as int),
{
    if a >= b { a } else { b }
}

/// The smaller of two coordinates.
pub fn min_i32(a: i32, b: i32) -> (r: i32)
    ensures
        r == min_int(a as int, b as int),
{
    if a <= b { a } else { b }
}

/// An unsigned length as a coordinate, saturated at `i32::MAX`.
pub open spec fn clamp_len(n: u32) -> int {
    min_int(n as int, i32::MAX as int)
}

/// Computes [`clamp_len`].
pub fn len_as_i32(n: u32) -> (r: i32)
    ensures
        r == clamp_len(n),
{
    if n > i32::MAX as u32 { i32::MAX } else { n as i32 }
}

/// What two rectangles share, `None` when they share no pixel.
pub open spec fn intersection(a: Rect2D, b: Rect2D) -> Option<Rect2D> {
    let x0 = max_int(a.x0(), b.x0());
    let y0 = max_int(a.y0(), b.y0());
    let x1 = min_int(a.x1(), b.x1());
    let y1 = min_int(a.y1(), b.y1());
    if x1 <= x0 || y1 <= y0 { None } else { Some(corners(x0, y0, x1, y1)) }
}

/// Intersection of two rects, `None` if they do not overlap.
pub fn intersect_rects(a: Rect2D, b: Rect2D) -> (r: Option<Rect2D>)
    ensures
        r == intersection(a, b),
        r is None <==> a.px().disjoint(b.px()),
        r matches Some(c) ==> c.non_empty() && c.px() == a.px().intersect(b.px()),
{
    let x0 = max_i32(a.offset.x, b.offset.x);
    let y0 = max_i32(a.offset.y, b.offset.y);
    let x1 = min_i32(a.right(), b.right());
    let y1 = min_i32(a.bottom(), b.bottom());
    if x1 <= x0 || y1 <= y0 {
        assert(a.px().disjoint(b.px()));
        return None;
    }
    let c = rect_from_corners(x0, y0, x1, y1);
    assert(c.px() =~= a.px().intersect(b.px()));
    assert(a.px().contains((x0 as int, y0 as int)) && b.px().contains((x0 as int, y0 as int)));
    Some(c)
}

/// Whether two rectangles overlap.
pub fn rects_intersect(a: Rect2D, b: Rect2D) -> (r: bool)
    ensures
        r == a.meets(b),
        a.non_empty() && b.non_empty() ==> r == !a.px().disjoint(b.px()),
{
    proof {
        let x = max_int(a.x0(), b.x0());
        let y = max_int(a.y0(), b.y0());
        if a.meets(b) && a.non_empty() && b.non_empty() {
            assert(a.px().contains((x, y)) && b.px().contains((x, y)));
        }
        assert(!a.meets(b) ==> forall|q: (int, int)|
            a.px().contains(q) ==> !(#[trigger] b.px().contains(q)));
    }
    a.offset.x < b.right() && b.offset.x < a.right() && a.offset.y < b.bottom() && b.offset.y
        < a.bottom()
}

/// The rectangle of the whole output, at the origin.
pub open spec fn output_rect(ext: Extent2D) -> Rect2D {
    Rect2D { offset: Offset2D { x: 0, y: 0 }, extent: ext }
}

/// Intersects a rect (in output-local coordinates) with the output's extent.
/// `None` if the rect lies fully outside or has no pixel.
pub fn clip_rect_to_output_extent(rect: Rect2D, ext: Extent2D) -> (r: Option<Rect2D>)
    ensures
        r == intersection(rect, output_rect(ext)),
        r is None <==> rect.px().disjoint(output_rect(ext).px()),
        r matches Some(c) ==> c.non_empty()
            && c.px() == rect.px().intersect(output_rect(ext).px()),
{
    intersect_rects(rect, Rect2D { offset: Offset2D { x: 0, y: 0 }, extent: ext })
}

/// The smallest rectangle around two rectangles' corners.
pub open spec fn bbox_of_two(a: Rect2D, b: Rect2D) -> Rect2D {
    corners(
        min_int(a.x0(), b.x0()),
        min_int(a.y0(), b.y0()),
        max_int(a.x1(), b.x1()),
        max_int(a.y1(), b.y1()),
    )
}

/// The smallest rectangle around two rectangles' corners.
pub fn union_bbox(a: Rect2D, b: Rect2D) -> (r: Rect2D)
    ensures
        r == bbox_of_two(a, b),
        a.px().subset_of(r.px()),
        b.px().subset_of(r.px()),
        r.x0() == min_int(a.x0(), b.x0()),
        r.y0() == min_int(a.y0(), b.y0()),
        r.x1() == max_int(a.x1(), b.x1()),
        r.y1() == max_int(a.y1(), b.y1()),
{
    let x0 = min_i32(a.offset.x, b.offset.x);
    let y0 = min_i32(a.offset.y, b.offset.y);
    let x1 = max_i32(a.right(), b.right());
    let y1 = max_i32(a.bottom(), b.bottom());
    rect_from_corners(x0, y0, x1, y1)
}

/// A storage-local rect moved by the node's output-local origin.
pub open spec fn projection(
    src: Rect2D,
    dx: int,
    dy: int,
    layout_w: u32,
    layout_h: u32,
) -> Option<Rect2D> {
    let x0 = max_int(src.x0() + dx, 0);
    let y0 = max_int(src.y0() + dy, 0);
    let x1 = min_int(src.x0() + dx + src.extent.width, clamp_len(layout_w));
    let y1 = min_int(src.y0() + dy + src.extent.height, clamp_len(layout_h));
    if x1 <= x0 || y1 <= y0 { None } else { Some(corners(x0, y0, x1, y1)) }
}

/// A storage-local rect translated by the node's output-local origin and
/// clipped to the output; `None` if nothing of it lands on the output.
pub fn project_onto_output(
    src: Rect2D,
    dx: i32,
    dy: i32,
    layout_w: u32,
    layout_h: u32,
) -> (r: Option<Rect2D>)
    ensures
        r == projection(src, dx as int, dy as int, layout_w, layout_h),
        r matches Some(c) ==> c.non_empty() && c.px().subset_of(
            output_rect(Extent2D { width: layout_w, height: layout_h }).px(),
        ),
{
    let ox: i64 = src.offset.x as i64 + dx as i64;
    let oy: i64 = src.offset.y as i64 + dy as i64;
    let w: i64 = len_as_i32(layout_w) as i64;
    let h: i64 = len_as_i32(layout_h) as i64;
    let x0: i64 = if ox > 0 { ox } else { 0 };
    let y0: i64 = if oy > 0 { oy } else { 0 };
    let ex: i64 = ox + src.extent.width as i64;
    let ey: i64 = oy + src.extent.height as i64;
    let x1: i64 = if ex < w { ex } else { w };
    let y1: i64 = if ey < h { ey } else { h };
    if x1 <= x0 || y1 <= y0 {
        None
    } else {
        Some(rect_from_corners(x0 as i32, y0 as i32, x1 as i32, y1 as i32))
    }
}

/// A root-space rect in an output's own space, clipped to the output; `None` if
/// nothing of it lands there.
pub fn clip_to_output(rect: Rect2D, origin: (i32, i32), ext: Extent2D) -> (r: Option<Rect2D>)
    ensures
        r == projection(rect, -origin.0, -origin.1, ext.width, ext.height),
{
    let ox: i64 = rect.offset.x as i64 - origin.0 as i64;
    let oy: i64 = rect.offset.y as i64 - origin.1 as i64;
    let w: i64 = len_as_i32(ext.width) as i64;
    let h: i64 = len_as_i32(ext.height) as i64;
    let x0: i64 = if ox > 0 { ox } else { 0 };
    let y0: i64 = if oy > 0 { oy } else { 0 };
    let ex: i64 = ox + rect.extent.width as i64;
    let ey: i64 = oy + rect.extent.height as i64;
    let x1: i64 = if ex < w { ex } else { w };
    let y1: i64 = if ey < h { ey } else { h };
    if x1 <= x0 || y1 <= y0 {
        None
    } else {
        Some(rect_from_corners(x0 as i32, y0 as i32, x1 as i32, y1 as i32))
    }
}

} // verus!
