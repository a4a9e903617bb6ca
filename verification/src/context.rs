//! Plain facts about an active raster target.

use crate::float_bits::{canonical, canonical_bits, rectangle_bits, RectangleBits};
use crate::format::TextureFormat;
use crate::geometry::{Rectangle, Size};
use crate::rounding::{is_whole, whole_bits};
use vstd::prelude::*;

verus! {

/// Selects the physical pixel grid used while capturing a bounded isolated layer.
///
/// This is a capture-geometry setting, not a final-placement policy.
#[derive(Debug, Clone, Copy, PartialEq, Eq, Structural)]
pub enum CaptureGrid {
    /// Capture into the immediate parent's physical-pixel grid.
    ///
    /// The layer's current fractional physical-pixel offset becomes part of the capture
    /// and is rasterized into its pixels.
    ParentAligned,
    /// Capture into a physical-pixel grid local to the layer.
    ///
    /// The captured contents are rasterized relative to the requested layer origin; the
    /// exact fractional origin is preserved separately in [`Placement`].
    LayerAligned,
}

/// Requested positioning of a completed isolated layer in its immediate parent.
///
/// This setting affects final composition only. It does not participate in
/// retained-output validity.
#[derive(Debug, Clone, Copy, PartialEq, Eq, Hash, Structural)]
pub enum CompositePositioning {
    /// Requests pixel-snapped final composition.
    Snapped,
    /// Requests final composition at the exact physical origin.
    Subpixel,
}

impl Default for CompositePositioning {
    fn default() -> (positioning: Self)
        ensures
            positioning == CompositePositioning::Snapped,
    {
        CompositePositioning::Snapped
    }
}

/// A portable fixed-function blend mode.
#[derive(Debug, Clone, Copy, PartialEq, Eq, Hash, Structural)]
pub enum BlendMode {
    /// Premultiplied source-over blending.
    SourceOver,
    /// Additive blending.
    Add,
}

/// Returns the grid on which a layer is captured.
///
/// Layers that may be composited again at another fractional position, because their
/// output is to be retained or because they are positioned between pixels, are captured
/// on their own grid.
pub fn capture_grid(cache_requested: bool, positioning: CompositePositioning) -> (grid: CaptureGrid)
    ensures
        grid == (if cache_requested || positioning == CompositePositioning::Subpixel {
            CaptureGrid::LayerAligned
        } else {
            CaptureGrid::ParentAligned
        }),
{
    if cache_requested || positioning == CompositePositioning::Subpixel {
        CaptureGrid::LayerAligned
    } else {
        CaptureGrid::ParentAligned
    }
}

/// The bits of a point's coordinates.
#[derive(Debug, Clone, Copy, PartialEq, Eq, Structural)]
pub struct PointBits {
    pub x: u32,
    pub y: u32,
}

/// The bits of an extent.
#[derive(Debug, Clone, Copy, PartialEq, Eq, Structural)]
pub struct SizeBits {
    pub width: u32,
    pub height: u32,
}

/// The bits of a scale's window and application parts.
#[derive(Debug, Clone, Copy, PartialEq, Eq, Structural)]
pub struct ScaleBits {
    pub window: u32,
    pub application: u32,
}

/// Final placement of a valid captured region in its immediate parent.
#[derive(Debug, Clone, Copy, PartialEq, Eq, Structural)]
pub struct Placement {
    snapped: Rectangle,
    exact_origin: PointBits,
}

impl Placement {
    /// The region in whole parent pixels.
    pub closed spec fn pixels(self) -> Rectangle {
        self.snapped
    }

    /// The bits of the exact origin in the parent.
    pub closed spec fn origin(self) -> PointBits {
        self.exact_origin
    }

    /// Creates the placement of a region at an exact origin.
    pub fn new(snapped: Rectangle, exact_origin: PointBits) -> (placement: Self)
        ensures
            placement.pixels() == snapped,
            placement.origin() == exact_origin,
    {
        Placement { snapped, exact_origin }
    }

    /// Creates the placement of a root target.
    pub fn root(size: Size) -> (placement: Self)
        ensures
            placement.pixels() == (Rectangle { x: 0, y: 0, width: size.width, height: size.height }),
            placement.origin() == (PointBits { x: 0, y: 0 }),
    {
        Placement { snapped: Rectangle::with_size(size), exact_origin: PointBits { x: 0, y: 0 } }
    }

    /// Returns the region in whole parent pixels.
    pub fn snapped(self) -> (snapped: Rectangle)
        ensures
            snapped == self.pixels(),
    {
        self.snapped
    }

    /// Returns the bits of the exact origin in the parent.
    pub fn exact_origin(self) -> (origin: PointBits)
        ensures
            origin == self.origin(),
    {
        self.exact_origin
    }

    /// Returns the exact bounds in the parent.
    pub fn exact_bounds(self) -> (bounds: RectangleBits)
        ensures
            bounds.x == self.origin().x,
            bounds.y == self.origin().y,
            is_whole(bounds.width, self.pixels().width),
            is_whole(bounds.height, self.pixels().height),
    {
        RectangleBits {
            x: self.exact_origin.x,
            y: self.exact_origin.y,
            width: whole_bits(self.snapped.width),
            height: whole_bits(self.snapped.height),
        }
    }
}

/// The coordinate and allocation facts of an active raster target.
///
/// Floating-point facts are held as bits.
#[derive(Debug, Clone, Copy, PartialEq, Eq, Structural)]
pub struct Context {
    /// Bounds represented by the valid pixels of this target.
    pub represented_bounds: RectangleBits,
    /// The captured region expressed in the untrimmed layer's physical-pixel space.
    pub source_rect: Rectangle,
    /// Final placement in the immediate parent target's pixel space.
    pub placement: Placement,
    /// The requested size before renderer transforms.
    pub logical_surface_size_bits: SizeBits,
    /// Unexpanded content geometry relative to the represented bounds, without absolute
    /// translation.
    pub source_content_relative_bits: RectangleBits,
    /// Full physical extent of the texture backing this target.
    pub backing_extent: Size,
    /// The scale encoded by the raster transform.
    pub scale_factor_bits: u32,
    /// The translation of the raster transform, from recorded bounds into this target's
    /// physical-pixel space.
    pub translation_bits: PointBits,
    /// Window and application scale inherited from the root viewport.
    pub scale: ScaleBits,
    /// Format shared by the target and every compatible rendering pipeline.
    pub format: TextureFormat,
}

impl Context {
    /// Creates the context of a root target of `size` physical pixels.
    ///
    /// `logical_size` and `scale_factor` are those of its viewport.
    pub fn root(
        size: Size,
        logical_size: SizeBits,
        scale_factor: u32,
        scale: ScaleBits,
        format: TextureFormat,
    ) -> (context: Self)
        ensures
            context.wf(),
            context.viewport() == size,
            context.backing_extent == size,
            context.represented_bounds == (RectangleBits {
                x: 0,
                y: 0,
                width: logical_size.width,
                height: logical_size.height,
            }),
            context.source_rect == (Rectangle { x: 0, y: 0, width: size.width, height: size.height }),
            context.placement.pixels() == context.source_rect,
            context.placement.origin() == (PointBits { x: 0, y: 0 }),
            context.logical_surface_size_bits == logical_size,
            context.source_content_relative_bits == context.represented_bounds,
            context.scale_factor_bits == scale_factor,
            context.translation_bits == (PointBits { x: 0, y: 0 }),
            context.scale == scale,
            context.format == format,
    {
        let represented_bounds = RectangleBits {
            x: 0,
            y: 0,
            width: logical_size.width,
            height: logical_size.height,
        };
        Context {
            represented_bounds,
            source_rect: Rectangle::with_size(size),
            placement: Placement::root(size),
            logical_surface_size_bits: logical_size,
            source_content_relative_bits: represented_bounds,
            backing_extent: size,
            scale_factor_bits: scale_factor,
            translation_bits: PointBits { x: 0, y: 0 },
            scale,
            format,
        }
    }

    /// The valid physical-pixel viewport inside the backing texture.
    pub open spec fn viewport(self) -> Size {
        Size { width: self.source_rect.width, height: self.source_rect.height }
    }

    /// The backing texture contains its valid viewport.
    pub open spec fn wf(self) -> bool {
        self.viewport().width <= self.backing_extent.width && self.viewport().height
            <= self.backing_extent.height
    }

    /// Returns the valid physical-pixel viewport inside the backing texture.
    pub fn physical_viewport(&self) -> (viewport: Size)
        ensures
            viewport == self.viewport(),
    {
        Size { width: self.source_rect.width, height: self.source_rect.height }
    }

    /// Returns the full physical extent of the backing texture.
    pub fn backing_extent(&self) -> (extent: Size)
        ensures
            extent == self.backing_extent,
    {
        self.backing_extent
    }

    /// Sets the backing extent after capture geometry has selected its valid viewport.
    pub fn set_backing_extent(&mut self, backing_extent: Size)
        requires
            old(self).viewport().width <= backing_extent.width,
            old(self).viewport().height <= backing_extent.height,
        ensures
            *final(self) == (Context { backing_extent, ..*old(self) }),
            final(self).wf(),
    {
        self.backing_extent = backing_extent;
    }

    /// Records translation-invariant producer geometry for retained validity.
    ///
    /// `content` is relative to the represented bounds.
    pub fn set_source_geometry(&mut self, size: SizeBits, content: RectangleBits)
        ensures
            *final(self) == (Context {
                logical_surface_size_bits: SizeBits {
                    width: canonical(size.width),
                    height: canonical(size.height),
                },
                source_content_relative_bits: RectangleBits {
                    x: canonical(content.x),
                    y: canonical(content.y),
                    width: canonical(content.width),
                    height: canonical(content.height),
                },
                ..*old(self)
            }),
    {
        self.logical_surface_size_bits =
        SizeBits { width: canonical_bits(size.width), height: canonical_bits(size.height) };
        self.source_content_relative_bits = rectangle_bits(content);
    }

    /// Returns the bits of the scale encoded by the raster transform.
    pub fn scale_factor(&self) -> (scale_factor: u32)
        ensures
            scale_factor == self.scale_factor_bits,
    {
        self.scale_factor_bits
    }

    /// Transforms recorded bounds into target-local physical pixels without clipping them.
    ///
    /// `project` scales bounds and then moves them.
    pub fn raster_bounds<P: Fn(RectangleBits, u32, PointBits) -> RectangleBits>(
        &self,
        bounds: RectangleBits,
        project: &P,
    ) -> (physical: RectangleBits)
        requires
            call_requires(*project, (bounds, self.scale_factor_bits, self.translation_bits)),
        ensures
            call_ensures(
                *project,
                (bounds, self.scale_factor_bits, self.translation_bits),
                physical,
            ),
    {
        project(bounds, self.scale_factor_bits, self.translation_bits)
    }

    /// Returns the part of recorded bounds that this target shows, in its physical pixels.
    ///
    /// `trim` intersects two rectangles, and `project` scales bounds and then moves them.
    pub fn local_bounds<
        F: Fn(RectangleBits, RectangleBits) -> Option<RectangleBits>,
        P: Fn(RectangleBits, u32, PointBits) -> RectangleBits,
    >(&self, bounds: RectangleBits, trim: &F, project: &P) -> (local: Option<
        RectangleBits,
    >)
        requires
            forall|a: RectangleBits, b: RectangleBits| call_requires(*trim, (a, b)),
            forall|bounds: RectangleBits, scale: u32, translation: PointBits|
                call_requires(*project, (bounds, scale, translation)),
        ensures
            shows(*self, bounds, *trim, *project, local),
    {
        let clipped = trim(bounds, self.represented_bounds);
        assert(call_ensures(*trim, (bounds, self.represented_bounds), clipped));
        match clipped {
            Some(clipped) => {
                let physical = self.raster_bounds(clipped, project);
                let viewport = self.physical_viewport();
                let pixels = RectangleBits {
                    x: 0,
                    y: 0,
                    width: whole_bits(viewport.width),
                    height: whole_bits(viewport.height),
                };
                let local = trim(physical, pixels);
                assert(shows_clipped(*self, clipped, *trim, *project, local)) by {
                    assert(covers(viewport, pixels));
                    assert(call_ensures(
                        *project,
                        (clipped, self.scale_factor_bits, self.translation_bits),
                        physical,
                    ));
                }
                local
            },
            None => None,
        }
    }

    /// Returns the whole pixels of this target that recorded bounds may touch.
    ///
    /// `snap` rounds the edges of a rectangle to whole pixels; the other functions are those
    /// of [`Context::local_bounds`].
    pub fn local_scissor<
        F: Fn(RectangleBits, RectangleBits) -> Option<RectangleBits>,
        P: Fn(RectangleBits, u32, PointBits) -> RectangleBits,
        S: Fn(RectangleBits) -> Option<Rectangle>,
    >(&self, bounds: RectangleBits, trim: &F, project: &P, snap: &S) -> (scissor: Option<
        Rectangle,
    >)
        requires
            forall|a: RectangleBits, b: RectangleBits| call_requires(*trim, (a, b)),
            forall|bounds: RectangleBits, scale: u32, translation: PointBits|
                call_requires(*project, (bounds, scale, translation)),
            forall|local: RectangleBits| call_requires(*snap, (local,)),
        ensures
            exists|local: Option<RectangleBits>| #[trigger]
                shows(*self, bounds, *trim, *project, local) && match local {
                    Some(local) => call_ensures(*snap, (local,), scissor),
                    None => scissor is None,
                },
    {
        let local = self.local_bounds(bounds, trim, project);
        assert(shows(*self, bounds, *trim, *project, local));
        match local {
            Some(local) => snap(local),
            None => None,
        }
    }

    /// Returns the bits of the texture coordinates at which the valid pixels end, where `ratio`
    /// divides two whole numbers.
    pub fn valid_uv<D: Fn(u32, u32) -> u32>(&self, ratio: &D) -> (uv: PointBits)
        requires
            forall|a: u32, b: u32| call_requires(*ratio, (a, b)),
        ensures
            call_ensures(*ratio, (self.viewport().width, self.backing_extent.width), uv.x),
            call_ensures(*ratio, (self.viewport().height, self.backing_extent.height), uv.y),
    {
        let viewport = self.physical_viewport();
        PointBits {
            x: ratio(viewport.width, self.backing_extent.width),
            y: ratio(viewport.height, self.backing_extent.height),
        }
    }
}

/// Whether `pixels` is a viewport as a rectangle.
pub open spec fn covers(viewport: Size, pixels: RectangleBits) -> bool {
    &&& pixels.x == 0
    &&& pixels.y == 0
    &&& is_whole(pixels.width, viewport.width)
    &&& is_whole(pixels.height, viewport.height)
}

/// Whether `local` is the part of bounds that a context shows, in its physical pixels: what is
/// inside the represented bounds, scaled and moved, and then what is inside the viewport.
pub open spec fn shows<
    F: Fn(RectangleBits, RectangleBits) -> Option<RectangleBits>,
    P: Fn(RectangleBits, u32, PointBits) -> RectangleBits,
>(
    context: Context,
    bounds: RectangleBits,
    trim: F,
    project: P,
    local: Option<RectangleBits>,
) -> bool {
    exists|clipped: Option<RectangleBits>| #[trigger]
        call_ensures(trim, (bounds, context.represented_bounds), clipped) && match clipped {
            Some(clipped) => shows_clipped(context, clipped, trim, project, local),
            None => local is None,
        }
}

/// Whether `local` is the part of bounds inside the represented ones that a context shows.
pub open spec fn shows_clipped<
    F: Fn(RectangleBits, RectangleBits) -> Option<RectangleBits>,
    P: Fn(RectangleBits, u32, PointBits) -> RectangleBits,
>(
    context: Context,
    clipped: RectangleBits,
    trim: F,
    project: P,
    local: Option<RectangleBits>,
) -> bool {
    exists|physical: RectangleBits, pixels: RectangleBits|
        {
            &&& #[trigger] call_ensures(
                project,
                (clipped, context.scale_factor_bits, context.translation_bits),
                physical,
            )
            &&& #[trigger] covers(context.viewport(), pixels)
            &&& call_ensures(trim, (physical, pixels), local)
        }
}

/// Bounds are shown only as far as the target represents them, and as far as its valid pixels
/// reach: they are cut before and after they are brought to pixels.
pub proof fn shown_bounds_are_cut_twice<
    F: Fn(RectangleBits, RectangleBits) -> Option<RectangleBits>,
    P: Fn(RectangleBits, u32, PointBits) -> RectangleBits,
>(context: Context, bounds: RectangleBits, trim: F, project: P, local: RectangleBits)
    requires
        shows(context, bounds, trim, project, Some(local)),
    ensures
        exists|clipped: RectangleBits, physical: RectangleBits, pixels: RectangleBits|
            {
                &&& #[trigger] call_ensures(
                    trim,
                    (bounds, context.represented_bounds),
                    Some(clipped),
                )
                &&& #[trigger] call_ensures(
                    project,
                    (clipped, context.scale_factor_bits, context.translation_bits),
                    physical,
                )
                &&& #[trigger] call_ensures(trim, (physical, pixels), Some(local))
                &&& pixels.x == 0 && pixels.y == 0
                &&& is_whole(pixels.width, context.source_rect.width)
                &&& is_whole(pixels.height, context.source_rect.height)
            },
{
    let clipped = choose|clipped: Option<RectangleBits>| #[trigger]
        call_ensures(trim, (bounds, context.represented_bounds), clipped) && match clipped {
            Some(clipped) => shows_clipped(context, clipped, trim, project, Some(local)),
            None => false,
        };
    let (physical, pixels) = choose|physical: RectangleBits, pixels: RectangleBits|
        {
            &&& #[trigger] call_ensures(
                project,
                (clipped->0, context.scale_factor_bits, context.translation_bits),
                physical,
            )
            &&& #[trigger] covers(context.viewport(), pixels)
            &&& call_ensures(trim, (physical, pixels), Some(local))
        };
    assert(call_ensures(trim, (bounds, context.represented_bounds), Some(clipped->0)));
}

/// The texture of a target is at least as large as its valid pixels.
pub proof fn textures_hold_their_viewport(context: Context)
    ensures
        context.wf() <==> context.source_rect.width <= context.backing_extent.width
            && context.source_rect.height <= context.backing_extent.height,
        context.viewport().width == context.source_rect.width,
        context.viewport().height == context.source_rect.height,
{
}

/// Bounds that are not cut away altogether are shown.
pub proof fn visible_bounds_are_shown<
    F: Fn(RectangleBits, RectangleBits) -> Option<RectangleBits>,
    P: Fn(RectangleBits, u32, PointBits) -> RectangleBits,
>(
    context: Context,
    bounds: RectangleBits,
    trim: F,
    project: P,
    local: Option<RectangleBits>,
)
    requires
        shows(context, bounds, trim, project, local),
        forall|a: RectangleBits, b: RectangleBits| !#[trigger] call_ensures(trim, (a, b), None),
    ensures
        local is Some,
{
}

} // verus!
