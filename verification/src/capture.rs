//! Which pixels of a parent an isolated layer captures.
//!
//! Bounds are floating-point and reach this module as bits. What needs floating-point
//! arithmetic is asked of the caller; every test and every step onto the pixel grid is made
//! here.

use crate::context::{CaptureGrid, Context, Placement, PointBits, SizeBits};
use crate::float_bits::{
    canonical, is_finite, is_negative, is_zero, rectangle_bits, RectangleBits,
};
use crate::geometry::{
    at_least_one, capture_is_translation_invariant, capture_surface, clipped, intersect_parent,
    part_shown, Capture, Rectangle, Size,
};
use crate::rounding::{
    ceil, checked_ceil, checked_floor, checked_round, floor, held, is_whole, nearest_whole, one,
    round, rounded_numbers_are_held_exactly, rounding_stays_within_half, small_wholes_are_exact,
    units, whole_bits,
};
use vstd::prelude::*;

verus! {

/// Whether the bits stand for a finite number above zero.
pub open spec fn is_positive(bits: u32) -> bool {
    is_finite(bits) && !is_negative(bits) && !is_zero(bits)
}

/// Returns whether the bits stand for a finite number above zero.
pub fn positive(bits: u32) -> (positive: bool)
    ensures
        positive == is_positive(bits),
{
    0 < bits && bits < 0x7f80_0000
}

/// Whether a rectangle is finite and has an extent above zero.
pub open spec fn is_valid_rectangle(rectangle: RectangleBits) -> bool {
    &&& is_finite(rectangle.x)
    &&& is_finite(rectangle.y)
    &&& is_positive(rectangle.width)
    &&& is_positive(rectangle.height)
}

/// Returns whether a rectangle is finite and has an extent above zero.
pub fn valid_rectangle(rectangle: RectangleBits) -> (valid: bool)
    ensures
        valid == is_valid_rectangle(rectangle),
{
    rectangle.x % 0x8000_0000 < 0x7f80_0000 && rectangle.y % 0x8000_0000 < 0x7f80_0000 && positive(
        rectangle.width,
    ) && positive(rectangle.height)
}

/// The bits of a rectangle in a parent's physical pixels, with its far edges.
#[derive(Debug, Clone, Copy, PartialEq, Eq, Structural)]
pub struct Projection {
    pub x: u32,
    pub y: u32,
    pub width: u32,
    pub height: u32,
    pub right: u32,
    pub bottom: u32,
}

/// Whether a number is finite and `integer`, the one next to it, fits a machine word.
pub open spec fn measurable(bits: u32, integer: int) -> bool {
    is_finite(bits) && held(integer) is Some
}

/// The pixels that a projected rectangle touches, clipped to its parent.
pub open spec fn touched(x: u32, y: u32, right: u32, bottom: u32, parent: Size) -> Option<
    Rectangle,
> {
    if measurable(x, floor(x)) && measurable(y, floor(y)) && measurable(right, ceil(right))
        && measurable(bottom, ceil(bottom)) {
        clipped(floor(x), floor(y), ceil(right), ceil(bottom), parent)
    } else {
        None
    }
}

/// Returns the pixels that a projected rectangle touches, clipped to its parent.
pub fn touched_pixels(x: u32, y: u32, right: u32, bottom: u32, parent: Size) -> (pixels: Option<
    Rectangle,
>)
    ensures
        pixels == touched(x, y, right, bottom, parent),
{
    let left: i64 = match checked_floor(x) {
        Some(left) => left,
        None => return None,
    };
    let top: i64 = match checked_floor(y) {
        Some(top) => top,
        None => return None,
    };
    let right: i64 = match checked_ceil(right) {
        Some(right) => right,
        None => return None,
    };
    let bottom: i64 = match checked_ceil(bottom) {
        Some(bottom) => bottom,
        None => return None,
    };
    intersect_parent(left, top, right, bottom, parent)
}

/// What is captured on the parent's own grid: every pixel that is touched.
pub open spec fn parent_aligned(physical: Projection, parent: Size) -> Option<Capture> {
    match touched(physical.x, physical.y, physical.right, physical.bottom, parent) {
        Some(destination) => Some(
            Capture {
                destination,
                source: Rectangle {
                    x: 0,
                    y: 0,
                    width: destination.width,
                    height: destination.height,
                },
            },
        ),
        None => None,
    }
}

/// What is captured on a layer's own grid: its rounded extent at its rounded origin.
pub open spec fn layer_aligned(physical: Projection, parent: Size) -> Option<Capture> {
    if measurable(physical.x, round(physical.x)) && measurable(physical.y, round(physical.y))
        && measurable(physical.width, round(physical.width)) && measurable(
        physical.height,
        round(physical.height),
    ) {
        part_shown(
            round(physical.x),
            round(physical.y),
            round(physical.width),
            round(physical.height),
            parent,
        )
    } else {
        None
    }
}

/// What is captured on a grid.
pub open spec fn captured(physical: Projection, parent: Size, grid: CaptureGrid) -> Option<Capture> {
    match grid {
        CaptureGrid::ParentAligned => parent_aligned(physical, parent),
        CaptureGrid::LayerAligned => layer_aligned(physical, parent),
    }
}

fn parent_aligned_geometry(physical: Projection, parent: Size) -> (capture: Option<Capture>)
    ensures
        capture == parent_aligned(physical, parent),
{
    match touched_pixels(physical.x, physical.y, physical.right, physical.bottom, parent) {
        Some(destination) => Some(
            Capture { destination, source: Rectangle::with_size(destination.size()) },
        ),
        None => None,
    }
}

fn layer_aligned_geometry(physical: Projection, parent: Size) -> (capture: Option<Capture>)
    ensures
        capture == layer_aligned(physical, parent),
{
    let left: i64 = match checked_round(physical.x) {
        Some(left) => left,
        None => return None,
    };
    let top: i64 = match checked_round(physical.y) {
        Some(top) => top,
        None => return None,
    };
    let width: i64 = match checked_round(physical.width) {
        Some(width) => width,
        None => return None,
    };
    let height: i64 = match checked_round(physical.height) {
        Some(height) => height,
        None => return None,
    };
    capture_surface(left, top, width, height, parent)
}

/// Returns what a projected rectangle captures of its parent on a grid.
pub fn capture_geometry(physical: Projection, parent: Size, grid: CaptureGrid) -> (capture: Option<
    Capture,
>)
    ensures
        capture == captured(physical, parent, grid),
{
    match grid {
        CaptureGrid::ParentAligned => parent_aligned_geometry(physical, parent),
        CaptureGrid::LayerAligned => layer_aligned_geometry(physical, parent),
    }
}

/// The floating-point facts of a captured region.
#[derive(Debug, Clone, Copy, PartialEq, Eq, Structural)]
pub struct Raster {
    /// The translation of the raster transform.
    pub translation: PointBits,
    /// The bounds that the captured pixels represent.
    pub represented_bounds: RectangleBits,
    /// The requested bounds relative to the represented ones.
    pub relative_content: RectangleBits,
}

/// Whether `context` is that of a captured region of `parent`.
pub open spec fn context_captured(
    context: Context,
    requested: RectangleBits,
    parent: Context,
    capture: Capture,
    origin: PointBits,
    raster: Raster,
) -> bool {
    &&& context.represented_bounds == raster.represented_bounds
    &&& context.source_rect == capture.source
    &&& context.placement.pixels() == capture.destination
    &&& context.placement.origin() == origin
    &&& context.logical_surface_size_bits == (SizeBits {
        width: requested.width,
        height: requested.height,
    })
    &&& context.source_content_relative_bits == (RectangleBits {
        x: canonical(raster.relative_content.x),
        y: canonical(raster.relative_content.y),
        width: canonical(raster.relative_content.width),
        height: canonical(raster.relative_content.height),
    })
    &&& context.backing_extent == (Size {
        width: capture.source.width,
        height: capture.source.height,
    })
    &&& context.scale_factor_bits == parent.scale_factor_bits
    &&& context.translation_bits == raster.translation
    &&& context.scale == parent.scale
    &&& context.format == parent.format
}

/// What a grid projects: the visible part on the parent's grid, and the whole request on
/// the layer's own.
pub open spec fn projected(
    requested: RectangleBits,
    visible: RectangleBits,
    grid: CaptureGrid,
) -> RectangleBits {
    match grid {
        CaptureGrid::ParentAligned => visible,
        CaptureGrid::LayerAligned => requested,
    }
}

/// Whether `origin` is the exact origin of a captured region in its parent's physical pixels:
/// on the parent's grid that of its pixels, and on a layer's own grid that of the layer with
/// the offset of the captured part added.
pub open spec fn originates<A: Fn(u32, u32) -> u32>(
    physical: Projection,
    capture: Capture,
    grid: CaptureGrid,
    plus: A,
    origin: PointBits,
) -> bool {
    match grid {
        CaptureGrid::ParentAligned => {
            &&& is_whole(origin.x, capture.destination.x)
            &&& is_whole(origin.y, capture.destination.y)
        },
        CaptureGrid::LayerAligned => {
            &&& is_moved(plus, physical.x, capture.source.x, origin.x)
            &&& is_moved(plus, physical.y, capture.source.y, origin.y)
        },
    }
}

/// Whether `sum` is a coordinate moved by whole pixels, by what `plus` answers.
pub open spec fn is_moved<A: Fn(u32, u32) -> u32>(
    plus: A,
    coordinate: u32,
    pixels: u32,
    sum: u32,
) -> bool {
    exists|offset: u32|
        is_whole(offset, pixels) && #[trigger] call_ensures(plus, (coordinate, offset), sum)
}

/// Whether `context` is the outcome of capturing `requested` in `parent`.
pub open spec fn bounded<F, P, A, R>(
    requested: RectangleBits,
    parent: Context,
    grid: CaptureGrid,
    trim: F,
    project: P,
    plus: A,
    place: R,
    context: Option<Context>,
) -> bool where
    F: Fn(RectangleBits, RectangleBits) -> Option<RectangleBits>,
    P: Fn(RectangleBits) -> Projection,
    A: Fn(u32, u32) -> u32,
    R: Fn(RectangleBits, PointBits, Capture) -> Raster,
 {
    if !is_valid_rectangle(requested) || !is_positive(parent.scale_factor_bits) {
        context is None
    } else {
        exists|visible: Option<RectangleBits>| #[trigger]
            call_ensures(trim, (requested, parent.represented_bounds), visible) && match visible {
                None => context is None,
                Some(visible) => exists|physical: Projection| #[trigger]
                    call_ensures(project, (projected(requested, visible, grid),), physical)
                        && match captured(physical, parent.viewport(), grid) {
                        None => context is None,
                        Some(capture) => exists|origin: PointBits, raster: Raster|
                            {
                                &&& originates(physical, capture, grid, plus, origin)
                                &&& #[trigger] call_ensures(
                                    place,
                                    (requested, origin, capture),
                                    raster,
                                )
                                &&& context is Some
                                &&& context_captured(
                                    context->0,
                                    requested,
                                    parent,
                                    capture,
                                    origin,
                                    raster,
                                )
                            },
                    },
            }
    }
}

fn moved<A: Fn(u32, u32) -> u32>(coordinate: u32, pixels: u32, plus: &A) -> (sum: u32)
    requires
        forall|a: u32, b: u32| call_requires(*plus, (a, b)),
    ensures
        is_moved(*plus, coordinate, pixels, sum),
{
    let offset: u32 = whole_bits(pixels);
    let sum: u32 = plus(coordinate, offset);
    assert(call_ensures(*plus, (coordinate, offset), sum));
    sum
}

/// Builds target-local geometry without choosing a pooled backing extent.
///
/// `trim` intersects the request with the bounds that the parent represents, `project`
/// brings bounds into the parent's physical pixels, `plus` adds, and `place` answers the
/// floating-point facts of a captured region at its exact origin. The intersection comes before any snapping: a tiny surface
/// wholly outside its parent does not appear because rounding moves it onto an edge pixel.
pub fn bounded_with_grid<F, P, A, R>(
    requested: RectangleBits,
    parent: &Context,
    grid: CaptureGrid,
    trim: &F,
    project: &P,
    plus: &A,
    place: &R,
) -> (context: Option<Context>) where
    F: Fn(RectangleBits, RectangleBits) -> Option<RectangleBits>,
    P: Fn(RectangleBits) -> Projection,
    A: Fn(u32, u32) -> u32,
    R: Fn(RectangleBits, PointBits, Capture) -> Raster,

    requires
        forall|a: RectangleBits, b: RectangleBits| call_requires(*trim, (a, b)),
        forall|a: RectangleBits| call_requires(*project, (a,)),
        forall|a: u32, b: u32| call_requires(*plus, (a, b)),
        forall|a: RectangleBits, b: PointBits, c: Capture| call_requires(*place, (a, b, c)),
    ensures
        bounded(requested, *parent, grid, *trim, *project, *plus, *place, context),
        context matches Some(context) ==> context.wf(),
{
    if !valid_rectangle(requested) || !positive(parent.scale_factor_bits) {
        return None;
    }
    let trimmed = trim(requested, parent.represented_bounds);
    assert(call_ensures(*trim, (requested, parent.represented_bounds), trimmed));
    let visible = match trimmed {
        Some(visible) => visible,
        None => return None,
    };
    let drawn = match grid {
        CaptureGrid::ParentAligned => visible,
        CaptureGrid::LayerAligned => requested,
    };
    let physical = project(drawn);
    assert(call_ensures(*project, (projected(requested, visible, grid),), physical));
    let capture = match capture_geometry(physical, parent.physical_viewport(), grid) {
        Some(capture) => capture,
        None => return None,
    };
    let origin = match grid {
        CaptureGrid::ParentAligned => PointBits {
            x: whole_bits(capture.destination.x),
            y: whole_bits(capture.destination.y),
        },
        CaptureGrid::LayerAligned => PointBits {
            x: moved(physical.x, capture.source.x, plus),
            y: moved(physical.y, capture.source.y, plus),
        },
    };
    let raster = place(requested, origin, capture);
    assert(call_ensures(*place, (requested, origin, capture), raster));
    Some(
        Context {
            represented_bounds: raster.represented_bounds,
            source_rect: capture.source,
            placement: Placement::new(capture.destination, origin),
            logical_surface_size_bits: SizeBits {
                width: requested.width,
                height: requested.height,
            },
            source_content_relative_bits: rectangle_bits(raster.relative_content),
            backing_extent: capture.source.size(),
            scale_factor_bits: parent.scale_factor_bits,
            translation_bits: raster.translation,
            scale: parent.scale,
            format: parent.format,
        },
    )
}

/// Whether a layer's rounded pixels lie wholly inside its parent.
pub open spec fn lies_inside(physical: Projection, parent: Size) -> bool {
    &&& is_finite(physical.x) && is_finite(physical.y)
    &&& is_finite(physical.width) && is_finite(physical.height)
    &&& 0 <= round(physical.x) && round(physical.x) + at_least_one(round(physical.width))
        <= parent.width
    &&& 0 <= round(physical.y) && round(physical.y) + at_least_one(round(physical.height))
        <= parent.height
    &&& round(physical.width) >= 0 && round(physical.height) >= 0
}

/// Moving a layer, by whole pixels or by parts of one, leaves what is captured of it
/// unchanged while it lies wholly inside its parent.
pub proof fn moving_keeps_the_captured_part(first: Projection, second: Projection, parent: Size)
    requires
        first.width == second.width,
        first.height == second.height,
        lies_inside(first, parent),
        lies_inside(second, parent),
    ensures
        layer_aligned(first, parent) matches Some(one) && layer_aligned(second, parent) matches Some(
            other,
        ) && one.source == other.source,
{
    capture_is_translation_invariant(
        round(first.x),
        round(first.y),
        round(second.x),
        round(second.y),
        round(first.width),
        round(first.height),
        parent,
    );
}

/// What is captured lies inside the parent, has at least one pixel, and is as large in the
/// layer as in the parent.
pub proof fn captures_stay_inside(physical: Projection, parent: Size, grid: CaptureGrid)
    ensures
        captured(physical, parent, grid) matches Some(capture) ==> {
            &&& capture.destination.width > 0 && capture.destination.height > 0
            &&& capture.destination.x + capture.destination.width <= parent.width
            &&& capture.destination.y + capture.destination.height <= parent.height
            &&& capture.source.width == capture.destination.width
            &&& capture.source.height == capture.destination.height
        },
{
}

/// On a layer's own grid the layer stands at most half a pixel from the pixels that it is
/// captured to, also where its parent cuts it off.
pub proof fn captures_are_snapped_by_half_a_pixel(physical: Projection, parent: Size)
    ensures
        layer_aligned(physical, parent) matches Some(capture) ==> {
            &&& -one() <= 2 * (units(physical.x) + (capture.source.x - capture.destination.x)
                * one()) <= one()
            &&& -one() <= 2 * (units(physical.y) + (capture.source.y - capture.destination.y)
                * one()) <= one()
        },
{
    rounding_stays_within_half(physical.x);
    rounding_stays_within_half(physical.y);
    if let Some(capture) = layer_aligned(physical, parent) {
        let unit = one();
        let left = round(physical.x);
        let top = round(physical.y);
        assert(capture.source.x - capture.destination.x == -left);
        assert(capture.source.y - capture.destination.y == -top);
        assert((-left) * unit == -(left * unit)) by (nonlinear_arith);
        assert((-top) * unit == -(top * unit)) by (nonlinear_arith);
    }
}

/// On the parent's grid the exact origin of a captured region is that of its pixels, as long
/// as single precision tells them apart.
pub proof fn parent_grids_place_exactly<F, P, A, R>(
    requested: RectangleBits,
    parent: Context,
    trim: F,
    project: P,
    plus: A,
    place: R,
    context: Context,
) where
    F: Fn(RectangleBits, RectangleBits) -> Option<RectangleBits>,
    P: Fn(RectangleBits) -> Projection,
    A: Fn(u32, u32) -> u32,
    R: Fn(RectangleBits, PointBits, Capture) -> Raster,

    requires
        bounded(
            requested,
            parent,
            CaptureGrid::ParentAligned,
            trim,
            project,
            plus,
            place,
            Some(context),
        ),
        context.placement.pixels().x <= 0x100_0000,
        context.placement.pixels().y <= 0x100_0000,
    ensures
        units(context.placement.origin().x) == context.placement.pixels().x * one(),
        units(context.placement.origin().y) == context.placement.pixels().y * one(),
{
    small_wholes_are_exact(context.placement.origin().x, context.placement.pixels().x);
    small_wholes_are_exact(context.placement.origin().y, context.placement.pixels().y);
}

/// Whether sums up to a limit are off by no more than `error` units.
pub open spec fn adds_within<A: Fn(u32, u32) -> u32>(plus: A, limit: int, error: int) -> bool {
    forall|a: u32, b: u32, sum: u32| #[trigger]
        call_ensures(plus, (a, b), sum) && -limit <= units(a) + units(b) <= limit ==> -error
            <= units(sum) - units(a) - units(b) <= error
}

/// On a layer's own grid the exact origin of a captured region lies within half a pixel of its
/// pixels, up to the error of one addition, also where the parent cuts the layer off.
pub proof fn layer_grids_place_within_half_a_pixel<F, P, A, R>(
    requested: RectangleBits,
    parent: Context,
    trim: F,
    project: P,
    plus: A,
    place: R,
    context: Context,
    error: int,
) where
    F: Fn(RectangleBits, RectangleBits) -> Option<RectangleBits>,
    P: Fn(RectangleBits) -> Projection,
    A: Fn(u32, u32) -> u32,
    R: Fn(RectangleBits, PointBits, Capture) -> Raster,

    requires
        bounded(
            requested,
            parent,
            CaptureGrid::LayerAligned,
            trim,
            project,
            plus,
            place,
            Some(context),
        ),
        adds_within(plus, (parent.viewport().width + 1) * one(), error),
        adds_within(plus, (parent.viewport().height + 1) * one(), error),
    ensures
        -one() - 2 * error <= 2 * (units(context.placement.origin().x)
            - context.placement.pixels().x * one()) <= one() + 2 * error,
        -one() - 2 * error <= 2 * (units(context.placement.origin().y)
            - context.placement.pixels().y * one()) <= one() + 2 * error,
{
    let visible = choose|visible: Option<RectangleBits>| #[trigger]
        call_ensures(trim, (requested, parent.represented_bounds), visible) && (visible
            is Some && exists|physical: Projection| #[trigger]
            call_ensures(project, (requested,), physical) && grounded(
                physical,
                parent,
                plus,
                context,
            ));
    let physical = choose|physical: Projection| #[trigger]
        call_ensures(project, (requested,), physical) && grounded(physical, parent, plus, context);
    let capture = layer_aligned(physical, parent.viewport())->0;
    captures_are_snapped_by_half_a_pixel(physical, parent.viewport());
    captures_stay_inside(physical, parent.viewport(), CaptureGrid::LayerAligned);
    if capture.source.x > 0 {
        rounded_numbers_are_held_exactly(physical.x, capture.source.x);
    }
    if capture.source.y > 0 {
        rounded_numbers_are_held_exactly(physical.y, capture.source.y);
    }
    lemma_moved_within(
        plus,
        physical.x,
        capture.source.x,
        context.placement.origin().x,
        capture.destination.x,
        parent.viewport().width,
        error,
    );
    lemma_moved_within(
        plus,
        physical.y,
        capture.source.y,
        context.placement.origin().y,
        capture.destination.y,
        parent.viewport().height,
        error,
    );
}

spec fn grounded<A: Fn(u32, u32) -> u32>(
    physical: Projection,
    parent: Context,
    plus: A,
    context: Context,
) -> bool {
    layer_aligned(physical, parent.viewport()) matches Some(capture) && {
        &&& originates(
            physical,
            capture,
            CaptureGrid::LayerAligned,
            plus,
            context.placement.origin(),
        )
        &&& context.placement.pixels() == capture.destination
        &&& context.source_rect == capture.source
    }
}

proof fn lemma_moved_within<A: Fn(u32, u32) -> u32>(
    plus: A,
    coordinate: u32,
    offset: u32,
    sum: u32,
    pixel: u32,
    side: u32,
    error: int,
)
    requires
        is_moved(plus, coordinate, offset, sum),
        nearest_whole(offset) == offset,
        pixel <= side,
        -one() <= 2 * (units(coordinate) + (offset - pixel) * one()) <= one(),
        adds_within(plus, (side + 1) * one(), error),
    ensures
        -one() - 2 * error <= 2 * (units(sum) - pixel * one()) <= one() + 2 * error,
{
    let whole = choose|whole: u32|
        is_whole(whole, offset) && #[trigger] call_ensures(plus, (coordinate, whole), sum);
    let unit = one();
    let (o, p, s) = (offset as int, pixel as int, side as int);
    assert((o - p) * unit == o * unit - p * unit) by (nonlinear_arith);
    vstd::arithmetic::power2::lemma_pow2_pos(149);
    assert(0 <= p * unit <= s * unit && (s + 1) * unit == s * unit + unit) by (nonlinear_arith)
        requires
            0 <= p <= s,
            unit > 0,
    ;
}

/// Numbers that are far from the ends of a machine word.
pub open spec fn moderate(bits: u32) -> bool {
    bits % 0x8000_0000 < 0x7f80_0000 && -0x4000_0000_0000_0000 * one() <= units(bits)
        <= 0x4000_0000_0000_0000 * one()
}

proof fn lemma_moderate(bits: u32, pixel: int)
    requires
        moderate(bits),
    ensures
        measurable(bits, floor(bits)),
        measurable(bits, ceil(bits)),
        measurable(bits, round(bits)),
        floor(bits) <= pixel <==> units(bits) < (pixel + 1) * one(),
        pixel < ceil(bits) <==> pixel * one() < units(bits),
{
    let unit = one();
    let (value, down, up, near) = (units(bits), floor(bits), ceil(bits), round(bits));
    vstd::arithmetic::power2::lemma_pow2_pos(149);
    crate::rounding::rounding_encloses(bits);
    rounding_stays_within_half(bits);
    assert(-0x4000_0000_0000_0001 <= down && down <= 0x4000_0000_0000_0001 && up
        <= 0x4000_0000_0000_0001 && -0x4000_0000_0000_0001 <= up && -0x4000_0000_0000_0001 <= near
        && near <= 0x4000_0000_0000_0001) by (nonlinear_arith)
        requires
            unit > 0,
            -0x4000_0000_0000_0000 * unit <= value <= 0x4000_0000_0000_0000 * unit,
            down * unit <= value < (down + 1) * unit,
            (up - 1) * unit < value <= up * unit,
            -unit <= 2 * (value - near * unit) <= unit,
    ;
    assert(down <= pixel <==> value < (pixel + 1) * unit) by (nonlinear_arith)
        requires
            unit > 0,
            down * unit <= value < (down + 1) * unit,
    ;
    assert(pixel < up <==> pixel * unit < value) by (nonlinear_arith)
        requires
            unit > 0,
            (up - 1) * unit < value <= up * unit,
    ;
}

/// The pixels that a rectangle touches are exactly those of its parent that it reaches into:
/// the pixel ends behind its near edges and starts before its far ones.
pub proof fn touched_pixels_are_reached(
    left: u32,
    top: u32,
    right: u32,
    bottom: u32,
    parent: Size,
    x: int,
    y: int,
)
    requires
        moderate(left),
        moderate(top),
        moderate(right),
        moderate(bottom),
    ensures
        (touched(left, top, right, bottom, parent) matches Some(pixels) && pixels.contains(x, y))
            == {
            &&& 0 <= x < parent.width
            &&& 0 <= y < parent.height
            &&& units(left) < (x + 1) * one()
            &&& x * one() < units(right)
            &&& units(top) < (y + 1) * one()
            &&& y * one() < units(bottom)
        },
{
    lemma_moderate(left, x);
    lemma_moderate(right, x);
    lemma_moderate(top, y);
    lemma_moderate(bottom, y);
    crate::geometry::clipping_keeps_shared_pixels(
        floor(left),
        floor(top),
        ceil(right),
        ceil(bottom),
        parent,
        x,
        y,
    );
}

/// On the parent's grid a capture holds every pixel of the parent that its bounds reach into,
/// and it starts at its own first pixel.
pub proof fn parent_grids_capture_every_reached_pixel(
    physical: Projection,
    parent: Size,
    x: int,
    y: int,
)
    requires
        moderate(physical.x),
        moderate(physical.y),
        moderate(physical.right),
        moderate(physical.bottom),
    ensures
        (captured(physical, parent, CaptureGrid::ParentAligned) matches Some(capture)
            && capture.destination.contains(x, y)) == {
            &&& 0 <= x < parent.width
            &&& 0 <= y < parent.height
            &&& units(physical.x) < (x + 1) * one()
            &&& x * one() < units(physical.right)
            &&& units(physical.y) < (y + 1) * one()
            &&& y * one() < units(physical.bottom)
        },
        captured(physical, parent, CaptureGrid::ParentAligned) matches Some(capture)
            ==> capture.source.x == 0 && capture.source.y == 0,
{
    touched_pixels_are_reached(
        physical.x,
        physical.y,
        physical.right,
        physical.bottom,
        parent,
        x,
        y,
    );
}

/// On its own grid a layer is captured at the pixel nearest to its origin, with the pixels
/// nearest to its extent and at least one, as far as its parent shows them. What is captured
/// are the same pixels of the layer.
pub proof fn layer_grids_capture_the_nearest_pixels(
    physical: Projection,
    parent: Size,
    x: int,
    y: int,
)
    requires
        moderate(physical.x),
        moderate(physical.y),
        moderate(physical.width),
        moderate(physical.height),
        -0x8000_0000 <= round(physical.x) <= 0x8000_0000,
        -0x8000_0000 <= round(physical.y) <= 0x8000_0000,
        round(physical.width) <= 0x8000_0000,
        round(physical.height) <= 0x8000_0000,
    ensures
        ({
            let (left, top) = (round(physical.x), round(physical.y));
            let inside = left <= x && (x < left + round(physical.width) || x == left) && top <= y
                && (y < top + round(physical.height) || y == top) && 0 <= x < parent.width && 0 <= y
                < parent.height;
            match captured(physical, parent, CaptureGrid::LayerAligned) {
                Some(capture) => {
                    &&& capture.destination.contains(x, y) == inside
                    &&& capture.source.contains(x - left, y - top) == inside
                },
                None => !inside,
            }
        }),
{
    lemma_moderate(physical.x, 0);
    lemma_moderate(physical.y, 0);
    lemma_moderate(physical.width, 0);
    lemma_moderate(physical.height, 0);
    crate::geometry::shown_parts_keep_every_shared_pixel(
        round(physical.x),
        round(physical.y),
        round(physical.width),
        round(physical.height),
        parent,
        x,
        y,
    );
}

/// Only bounds with a finite origin and a finite extent above zero are captured, in a parent
/// with a finite scale above zero.
pub proof fn only_sound_bounds_are_captured<F, P, A, R>(
    requested: RectangleBits,
    parent: Context,
    grid: CaptureGrid,
    trim: F,
    project: P,
    plus: A,
    place: R,
    context: Option<Context>,
) where
    F: Fn(RectangleBits, RectangleBits) -> Option<RectangleBits>,
    P: Fn(RectangleBits) -> Projection,
    A: Fn(u32, u32) -> u32,
    R: Fn(RectangleBits, PointBits, Capture) -> Raster,

    requires
        bounded(requested, parent, grid, trim, project, plus, place, context),
        context is Some,
    ensures
        requested.x % 0x8000_0000 < 0x7f80_0000,
        requested.y % 0x8000_0000 < 0x7f80_0000,
        0 < requested.width < 0x7f80_0000,
        0 < requested.height < 0x7f80_0000,
        0 < parent.scale_factor_bits < 0x7f80_0000,
{
    lemma_sound(requested, parent.scale_factor_bits);
}

proof fn lemma_sound(rectangle: RectangleBits, scale: u32)
    requires
        is_valid_rectangle(rectangle) && is_positive(scale),
    ensures
        rectangle.x % 0x8000_0000 < 0x7f80_0000,
        rectangle.y % 0x8000_0000 < 0x7f80_0000,
        0 < rectangle.width < 0x7f80_0000,
        0 < rectangle.height < 0x7f80_0000,
        0 < scale < 0x7f80_0000,
{
}

/// A capture keeps the scale, the scales of the surface and the format of its parent, and the
/// size that was asked for. Its texture is as large as what is captured until one is chosen.
pub proof fn captures_take_after_their_parent<F, P, A, R>(
    requested: RectangleBits,
    parent: Context,
    grid: CaptureGrid,
    trim: F,
    project: P,
    plus: A,
    place: R,
    context: Context,
) where
    F: Fn(RectangleBits, RectangleBits) -> Option<RectangleBits>,
    P: Fn(RectangleBits) -> Projection,
    A: Fn(u32, u32) -> u32,
    R: Fn(RectangleBits, PointBits, Capture) -> Raster,

    requires
        bounded(requested, parent, grid, trim, project, plus, place, Some(context)),
    ensures
        context.scale_factor_bits == parent.scale_factor_bits,
        context.scale == parent.scale,
        context.format == parent.format,
        context.logical_surface_size_bits.width == requested.width,
        context.logical_surface_size_bits.height == requested.height,
        context.backing_extent.width == context.source_rect.width,
        context.backing_extent.height == context.source_rect.height,
        context.placement.pixels().width == context.source_rect.width,
        context.placement.pixels().height == context.source_rect.height,
        context.placement.pixels().x + context.placement.pixels().width
            <= parent.source_rect.width,
        context.placement.pixels().y + context.placement.pixels().height
            <= parent.source_rect.height,
{
    let physical = captures_project_what_is_visible(
        requested,
        parent,
        grid,
        trim,
        project,
        plus,
        place,
        context,
    );
    captures_stay_inside(physical, parent.viewport(), grid);
}

/// What is captured is what is visible of the request: on the parent's grid the pixels that the
/// visible part reaches into, and on the layer's own grid the whole request, placed before it is
/// cut. A request of which nothing is visible is not captured.
pub proof fn captures_project_what_is_visible<F, P, A, R>(
    requested: RectangleBits,
    parent: Context,
    grid: CaptureGrid,
    trim: F,
    project: P,
    plus: A,
    place: R,
    context: Context,
) -> (physical: Projection)
    where
    F: Fn(RectangleBits, RectangleBits) -> Option<RectangleBits>,
    P: Fn(RectangleBits) -> Projection,
    A: Fn(u32, u32) -> u32,
    R: Fn(RectangleBits, PointBits, Capture) -> Raster,

    requires
        bounded(requested, parent, grid, trim, project, plus, place, Some(context)),
    ensures
        exists|visible: RectangleBits|
            {
                &&& #[trigger] call_ensures(
                    trim,
                    (requested, parent.represented_bounds),
                    Some(visible),
                )
                &&& grid == CaptureGrid::ParentAligned ==> call_ensures(
                    project,
                    (visible,),
                    physical,
                )
                &&& grid == CaptureGrid::LayerAligned ==> call_ensures(
                    project,
                    (requested,),
                    physical,
                )
            },
        captured(physical, parent.viewport(), grid) matches Some(capture)
            && context.placement.pixels() == capture.destination && context.source_rect
            == capture.source,
{
    let visible = choose|visible: Option<RectangleBits>| #[trigger]
        call_ensures(trim, (requested, parent.represented_bounds), visible) && (visible
            is Some && exists|physical: Projection| #[trigger]
            call_ensures(project, (projected(requested, visible->0, grid),), physical)
                && placed_from(physical, parent, grid, context));
    let physical = choose|physical: Projection| #[trigger]
        call_ensures(project, (projected(requested, visible->0, grid),), physical) && placed_from(
            physical,
            parent,
            grid,
            context,
        );
    assert(call_ensures(trim, (requested, parent.represented_bounds), Some(visible->0)));
    physical
}

spec fn placed_from(
    physical: Projection,
    parent: Context,
    grid: CaptureGrid,
    context: Context,
) -> bool {
    captured(physical, parent.viewport(), grid) matches Some(capture)
        && context.placement.pixels() == capture.destination && context.source_rect
        == capture.source
}

/// Sound bounds are captured if any of them is visible and what is projected has pixels of the
/// parent.
pub proof fn sound_visible_bounds_are_captured<F, P, A, R>(
    requested: RectangleBits,
    parent: Context,
    grid: CaptureGrid,
    trim: F,
    project: P,
    plus: A,
    place: R,
    context: Option<Context>,
) where
    F: Fn(RectangleBits, RectangleBits) -> Option<RectangleBits>,
    P: Fn(RectangleBits) -> Projection,
    A: Fn(u32, u32) -> u32,
    R: Fn(RectangleBits, PointBits, Capture) -> Raster,

    requires
        bounded(requested, parent, grid, trim, project, plus, place, context),
        requested.x % 0x8000_0000 < 0x7f80_0000,
        requested.y % 0x8000_0000 < 0x7f80_0000,
        0 < requested.width < 0x7f80_0000,
        0 < requested.height < 0x7f80_0000,
        0 < parent.scale_factor_bits < 0x7f80_0000,
        forall|visible: Option<RectangleBits>| #[trigger]
            call_ensures(trim, (requested, parent.represented_bounds), visible) ==> visible is Some,
        forall|part: RectangleBits, physical: Projection| #[trigger]
            call_ensures(project, (part,), physical) ==> captured(physical, parent.viewport(), grid)
                is Some,
    ensures
        context is Some,
{
    lemma_positive(requested.width);
    lemma_positive(requested.height);
    lemma_positive(parent.scale_factor_bits);
    lemma_finite_bits(requested.x);
    lemma_finite_bits(requested.y);
}

proof fn lemma_positive(bits: u32)
    requires
        0 < bits < 0x7f80_0000,
    ensures
        is_positive(bits),
{
}

proof fn lemma_finite_bits(bits: u32)
    requires
        bits % 0x8000_0000 < 0x7f80_0000,
    ensures
        is_finite(bits),
{
}

/// Nothing is captured where a coordinate that the grid goes by is not a finite number.
pub proof fn only_finite_projections_are_captured(physical: Projection, parent: Size)
    ensures
        physical.x % 0x8000_0000 >= 0x7f80_0000 || physical.y % 0x8000_0000 >= 0x7f80_0000
            ==> captured(physical, parent, CaptureGrid::ParentAligned) is None && captured(
            physical,
            parent,
            CaptureGrid::LayerAligned,
        ) is None,
        physical.right % 0x8000_0000 >= 0x7f80_0000 || physical.bottom % 0x8000_0000 >= 0x7f80_0000
            ==> captured(physical, parent, CaptureGrid::ParentAligned) is None,
        physical.width % 0x8000_0000 >= 0x7f80_0000 || physical.height % 0x8000_0000 >= 0x7f80_0000
            ==> captured(physical, parent, CaptureGrid::LayerAligned) is None,
{
    lemma_not_finite(physical.x);
    lemma_not_finite(physical.y);
    lemma_not_finite(physical.right);
    lemma_not_finite(physical.bottom);
    lemma_not_finite(physical.width);
    lemma_not_finite(physical.height);
}

proof fn lemma_not_finite(bits: u32)
    ensures
        bits % 0x8000_0000 >= 0x7f80_0000 ==> !is_finite(bits),
{
}

} // verus!
