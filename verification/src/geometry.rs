//! Integer sizes and rectangles in physical pixels.

use vstd::prelude::*;

verus! {

/// A two-dimensional extent in physical pixels.
#[derive(Debug, Clone, Copy, PartialEq, Eq, Hash, Structural)]
pub struct Size {
    pub width: u32,
    pub height: u32,
}

impl Size {
    /// Creates an extent.
    pub fn new(width: u32, height: u32) -> (size: Self)
        ensures
            size == (Size { width, height }),
    {
        Size { width, height }
    }
}

/// A rectangle in physical pixels.
#[derive(Debug, Clone, Copy, PartialEq, Eq, Hash, Structural)]
pub struct Rectangle {
    pub x: u32,
    pub y: u32,
    pub width: u32,
    pub height: u32,
}

impl Rectangle {
    /// Creates the rectangle of the given size at the origin.
    pub fn with_size(size: Size) -> (rectangle: Self)
        ensures
            rectangle == (Rectangle { x: 0, y: 0, width: size.width, height: size.height }),
    {
        Rectangle { x: 0, y: 0, width: size.width, height: size.height }
    }

    /// The extent of the rectangle.
    pub fn size(self) -> (size: Size)
        ensures
            size == (Size { width: self.width, height: self.height }),
    {
        Size { width: self.width, height: self.height }
    }

    /// Whether the pixel at `(x, y)` belongs to the rectangle.
    pub open spec fn contains(self, x: int, y: int) -> bool {
        self.x <= x < self.x + self.width && self.y <= y < self.y + self.height
    }
}

/// The least number of groups of `group` that hold `value` items.
pub open spec fn groups(value: int, group: int) -> int
    recommends
        group > 0,
{
    (value + group - 1) / group
}

/// Divides rounding up.
pub fn div_ceil(value: u32, group: u32) -> (count: u32)
    requires
        group > 0,
    ensures
        count == groups(value as int, group as int),
{
    let quotient: u32 = value / group;
    let remainder: u32 = value % group;
    proof {
        let v = value as int;
        let g = group as int;
        let q = quotient as int;
        let r = remainder as int;
        vstd::arithmetic::div_mod::lemma_fundamental_div_mod(v, g);
        assert(v == g * q + r);
        if r > 0 {
            assert((v + g - 1) / g == q + 1) by (nonlinear_arith)
                requires
                    g > 0,
                    0 < r < g,
                    v == g * q + r,
            ;
            assert(q < v) by (nonlinear_arith)
                requires
                    g > 0,
                    q >= 0,
                    0 < r < g,
                    v == g * q + r,
            ;
        } else {
            assert((v + g - 1) / g == q) by (nonlinear_arith)
                requires
                    g > 0,
                    r == 0,
                    v == g * q + r,
            ;
        }
    }
    if remainder > 0 {
        quotient + 1
    } else {
        quotient
    }
}

/// The edge coordinate `start + length`, saturated at the largest coordinate.
pub open spec fn saturated_edge(start: u32, length: u32) -> int {
    if start + length > u32::MAX {
        u32::MAX as int
    } else {
        start + length
    }
}

/// The overlap of two rectangles, whose far edges saturate at the largest coordinate.
pub open spec fn shared(a: Rectangle, b: Rectangle) -> Option<Rectangle> {
    let x = if a.x < b.x {
        b.x
    } else {
        a.x
    };
    let y = if a.y < b.y {
        b.y
    } else {
        a.y
    };
    let right = if saturated_edge(a.x, a.width) < saturated_edge(b.x, b.width) {
        saturated_edge(a.x, a.width)
    } else {
        saturated_edge(b.x, b.width)
    };
    let bottom = if saturated_edge(a.y, a.height) < saturated_edge(b.y, b.height) {
        saturated_edge(a.y, a.height)
    } else {
        saturated_edge(b.y, b.height)
    };
    if right > x && bottom > y {
        Some(Rectangle { x, y, width: (right - x) as u32, height: (bottom - y) as u32 })
    } else {
        None
    }
}

/// Returns the overlap of two rectangles, whose far edges saturate at the largest
/// coordinate.
pub fn intersect(a: Rectangle, b: Rectangle) -> (overlap: Option<Rectangle>)
    ensures
        overlap == shared(a, b),
{
    let x: u32 = if a.x < b.x {
        b.x
    } else {
        a.x
    };
    let y: u32 = if a.y < b.y {
        b.y
    } else {
        a.y
    };
    let a_right: u32 = a.x.saturating_add(a.width);
    let b_right: u32 = b.x.saturating_add(b.width);
    let right: u32 = if a_right < b_right {
        a_right
    } else {
        b_right
    };
    let a_bottom: u32 = a.y.saturating_add(a.height);
    let b_bottom: u32 = b.y.saturating_add(b.height);
    let bottom: u32 = if a_bottom < b_bottom {
        a_bottom
    } else {
        b_bottom
    };

    if right > x && bottom > y {
        Some(Rectangle { x, y, width: right - x, height: bottom - y })
    } else {
        None
    }
}

/// `value` moved to the nearest end of `0..=limit` when it lies outside.
pub open spec fn clamped(value: int, limit: int) -> int {
    if value < 0 {
        0
    } else if value > limit {
        limit
    } else {
        value
    }
}

fn clamp_edge(value: i64, limit: u32) -> (clamped: u32)
    ensures
        clamped == self::clamped(value as int, limit as int),
{
    if value < 0 {
        0
    } else if value > limit as i64 {
        limit
    } else {
        value as u32
    }
}

/// The part of the rectangle with the given edges that lies in a parent.
pub open spec fn clipped(left: int, top: int, right: int, bottom: int, parent: Size) -> Option<
    Rectangle,
> {
    let x = clamped(left, parent.width as int);
    let y = clamped(top, parent.height as int);
    let width = clamped(right, parent.width as int) - x;
    let height = clamped(bottom, parent.height as int) - y;
    if width <= 0 || height <= 0 {
        None
    } else {
        Some(
            Rectangle {
                x: x as u32,
                y: y as u32,
                width: width as u32,
                height: height as u32,
            },
        )
    }
}

/// Clips the rectangle with the given edges to a parent of size `parent`.
///
/// Edges are signed and may lie far outside the parent. An empty overlap has no
/// rectangle.
pub fn intersect_parent(left: i64, top: i64, right: i64, bottom: i64, parent: Size) -> (overlap:
    Option<Rectangle>)
    ensures
        overlap == clipped(left as int, top as int, right as int, bottom as int, parent),
{
    let left = clamp_edge(left, parent.width);
    let top = clamp_edge(top, parent.height);
    let right = clamp_edge(right, parent.width);
    let bottom = clamp_edge(bottom, parent.height);

    if right <= left || bottom <= top {
        return None;
    }
    Some(Rectangle { x: left, y: top, width: right - left, height: bottom - top })
}

/// Two rectangles overlap exactly where both have pixels, save for pixels on the largest
/// coordinate, which saturated edges leave out.
pub proof fn overlap_holds_shared_pixels(a: Rectangle, b: Rectangle, x: int, y: int)
    requires
        x < u32::MAX,
        y < u32::MAX,
    ensures
        (shared(a, b) matches Some(overlap) && overlap.contains(x, y)) == (a.contains(x, y)
            && b.contains(x, y)),
        shared(a, b) == shared(b, a),
{
}

/// A clipped rectangle holds exactly the pixels that lie in both the rectangle and its
/// parent.
pub proof fn clipping_keeps_shared_pixels(
    left: int,
    top: int,
    right: int,
    bottom: int,
    parent: Size,
    x: int,
    y: int,
)
    ensures
        (clipped(left, top, right, bottom, parent) matches Some(part) && part.contains(x, y)) == (
        left <= x < right && top <= y < bottom && 0 <= x < parent.width && 0 <= y < parent.height),
{
}

/// Where a captured surface lands in its parent, and which part of it was captured.
#[derive(Debug, Clone, Copy, PartialEq, Eq, Structural)]
pub struct Capture {
    /// The visible part in the parent's pixels.
    pub destination: Rectangle,
    /// The same part in the surface's own pixels.
    pub source: Rectangle,
}

/// A surface always owns at least one pixel along each axis.
pub open spec fn at_least_one(length: int) -> int {
    if length < 1 {
        1
    } else {
        length
    }
}

/// The part of a surface at `(left, top)` that its parent shows.
///
/// Nothing is shown of a surface whose far edge or clipped offset no coordinate holds.
pub open spec fn part_shown(left: int, top: int, width: int, height: int, parent: Size) -> Option<
    Capture,
> {
    let right = left + at_least_one(width);
    let bottom = top + at_least_one(height);
    if right > i64::MAX || bottom > i64::MAX {
        None
    } else {
        match clipped(left, top, right, bottom, parent) {
            Some(destination) => if destination.x - left > u32::MAX || destination.y - top
                > u32::MAX {
                None
            } else {
                Some(
                    Capture {
                        destination,
                        source: Rectangle {
                            x: (destination.x - left) as u32,
                            y: (destination.y - top) as u32,
                            width: destination.width,
                            height: destination.height,
                        },
                    },
                )
            },
            None => None,
        }
    }
}

/// Clips a surface of at least one pixel to its parent and keeps track of the clipped
/// offset.
///
/// The surface's extent depends only on its size, never on its position, so moving a
/// surface inside its parent leaves what is captured unchanged.
pub fn capture_surface(left: i64, top: i64, width: i64, height: i64, parent: Size) -> (capture:
    Option<Capture>)
    ensures
        capture == part_shown(left as int, top as int, width as int, height as int, parent),
{
    let width: i64 = if width < 1 {
        1
    } else {
        width
    };
    let height: i64 = if height < 1 {
        1
    } else {
        height
    };
    let right: i64 = match left.checked_add(width) {
        Some(right) => right,
        None => return None,
    };
    let bottom: i64 = match top.checked_add(height) {
        Some(bottom) => bottom,
        None => return None,
    };
    let destination = match intersect_parent(left, top, right, bottom, parent) {
        Some(destination) => destination,
        None => return None,
    };
    let source_x: u32 = match source_offset(destination.x, left) {
        Some(offset) => offset,
        None => return None,
    };
    let source_y: u32 = match source_offset(destination.y, top) {
        Some(offset) => offset,
        None => return None,
    };
    Some(
        Capture {
            destination,
            source: Rectangle {
                x: source_x,
                y: source_y,
                width: destination.width,
                height: destination.height,
            },
        },
    )
}

fn source_offset(visible: u32, start: i64) -> (offset: Option<u32>)
    requires
        start <= visible,
    ensures
        match offset {
            Some(offset) => offset == visible - start,
            None => visible - start > u32::MAX,
        },
{
    match (visible as i64).checked_sub(start) {
        Some(offset) => if offset <= u32::MAX as i64 {
            Some(offset as u32)
        } else {
            None
        },
        None => None,
    }
}

/// A surface that lies wholly inside its parent is captured whole wherever it stands.
pub proof fn capture_is_translation_invariant(
    first_left: int,
    first_top: int,
    second_left: int,
    second_top: int,
    width: int,
    height: int,
    parent: Size,
)
    requires
        0 <= first_left && first_left + at_least_one(width) <= parent.width,
        0 <= first_top && first_top + at_least_one(height) <= parent.height,
        0 <= second_left && second_left + at_least_one(width) <= parent.width,
        0 <= second_top && second_top + at_least_one(height) <= parent.height,
    ensures
        part_shown(first_left, first_top, width, height, parent) matches Some(first)
            && part_shown(second_left, second_top, width, height, parent) matches Some(second)
            && first.source == second.source && first.source == (Rectangle {
            x: 0,
            y: 0,
            width: at_least_one(width) as u32,
            height: at_least_one(height) as u32,
        }),
{
}

/// Parts of one surface that are captured at different offsets differ, even where their
/// extents agree.
pub proof fn captured_bands_do_not_alias(
    first_left: int,
    first_top: int,
    second_left: int,
    second_top: int,
    width: int,
    height: int,
    parent: Size,
)
    requires
        part_shown(first_left, first_top, width, height, parent) is Some,
        part_shown(second_left, second_top, width, height, parent) is Some,
        clamped(first_left, parent.width as int) - first_left != clamped(
            second_left,
            parent.width as int,
        ) - second_left || clamped(first_top, parent.height as int) - first_top != clamped(
            second_top,
            parent.height as int,
        ) - second_top,
    ensures
        part_shown(first_left, first_top, width, height, parent)->0.source != part_shown(
            second_left,
            second_top,
            width,
            height,
            parent,
        )->0.source,
{
}

/// Groups hold every item, and one group less would not.
pub proof fn groups_are_the_fewest_that_hold(value: int, group: int)
    requires
        value >= 0,
        group > 0,
    ensures
        groups(value, group) * group >= value,
        (groups(value, group) - 1) * group < value,
{
    let count = groups(value, group);
    let rest = (value + group - 1) % group;
    vstd::arithmetic::div_mod::lemma_fundamental_div_mod(value + group - 1, group);
    assert(count * group == value + group - 1 - rest) by (nonlinear_arith)
        requires
            value + group - 1 == group * count + rest,
    ;
    assert((count - 1) * group == count * group - group) by (nonlinear_arith);
}

/// Of a surface exactly those pixels are shown that lie in its parent too, each at the place
/// that it has in the surface. A surface has at least one pixel along each axis.
pub proof fn shown_parts_keep_every_shared_pixel(
    left: int,
    top: int,
    width: int,
    height: int,
    parent: Size,
    x: int,
    y: int,
)
    requires
        -0x8000_0000 <= left <= 0x8000_0000,
        -0x8000_0000 <= top <= 0x8000_0000,
        width <= 0x8000_0000,
        height <= 0x8000_0000,
    ensures
        ({
            let inside = left <= x && (x < left + width || x == left) && top <= y && (y < top
                + height || y == top) && 0 <= x < parent.width && 0 <= y < parent.height;
            match part_shown(left, top, width, height, parent) {
                Some(capture) => {
                    &&& capture.destination.contains(x, y) == inside
                    &&& capture.source.contains(x - left, y - top) == inside
                },
                None => !inside,
            }
        }),
{
}

} // verus!
