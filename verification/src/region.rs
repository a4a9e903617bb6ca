//! Where custom primitives are prepared and rendered.

use crate::context::{Context, PointBits, ScaleBits, SizeBits};
use crate::float_bits::RectangleBits;
use crate::geometry::{Rectangle, Size};
use vstd::prelude::*;

verus! {

/// The valid pixels of a render target and the scales that lead to them.
#[derive(Debug, Clone, Copy, PartialEq, Eq, Structural)]
pub struct Viewport {
    physical_size: Size,
    scale: ScaleBits,
}

impl Viewport {
    /// The size in physical pixels.
    pub closed spec fn pixels(self) -> Size {
        self.physical_size
    }

    /// The scales of the window and of the application.
    pub closed spec fn scales(self) -> ScaleBits {
        self.scale
    }

    /// Creates a viewport with the given physical size.
    pub fn with_physical_size(physical_size: Size, scale: ScaleBits) -> (viewport: Self)
        ensures
            viewport.pixels() == physical_size,
            viewport.scales() == scale,
    {
        Viewport { physical_size, scale }
    }

    /// Returns the size in physical pixels.
    pub fn physical_size(&self) -> (size: Size)
        ensures
            size == self.pixels(),
    {
        self.physical_size
    }

    /// Returns the scales of the window and of the application.
    pub fn scale(&self) -> (scale: ScaleBits)
        ensures
            scale == self.scales(),
    {
        self.scale
    }

    /// Returns the size in logical pixels, where `divide` divides a size by both scales.
    pub fn logical_size<D: Fn(Size, ScaleBits) -> SizeBits>(&self, divide: &D) -> (size: SizeBits)
        requires
            call_requires(*divide, (self.pixels(), self.scales())),
        ensures
            call_ensures(*divide, (self.pixels(), self.scales()), size),
    {
        divide(self.physical_size, self.scale)
    }
}

/// Describes a primitive occurrence and the render target for which it is being prepared.
///
/// An isolated or intermediate target may have a valid viewport smaller than its pooled
/// backing texture.
#[derive(Debug, Clone, Copy, PartialEq, Eq, Structural)]
pub struct PrepareRegion {
    bounds: RectangleBits,
    viewport: Viewport,
    represented_bounds: RectangleBits,
    backing_extent: Size,
    scale_factor: u32,
    translation: PointBits,
}

impl PrepareRegion {
    /// The complete primitive bounds.
    pub closed spec fn whole(self) -> RectangleBits {
        self.bounds
    }

    /// The valid viewport of the target.
    pub closed spec fn target(self) -> Viewport {
        self.viewport
    }

    /// The valid pixels of the target.
    pub open spec fn valid(self) -> Size {
        self.target().pixels()
    }

    /// The bounds that the valid pixels represent.
    pub closed spec fn represents(self) -> RectangleBits {
        self.represented_bounds
    }

    /// The extent of the backing texture.
    pub closed spec fn backing(self) -> Size {
        self.backing_extent
    }

    /// The scale from logical coordinates to physical pixels.
    pub closed spec fn scale(self) -> u32 {
        self.scale_factor
    }

    /// How far physical pixels are moved from scaled logical coordinates.
    pub closed spec fn moves(self) -> PointBits {
        self.translation
    }

    /// Describes a primitive with the given bounds in a target of the given context.
    pub fn new(bounds: RectangleBits, context: &Context) -> (region: Self)
        ensures
            region.whole() == bounds,
            region.valid() == context.viewport(),
            region.target().scales() == context.scale,
            region.represents() == context.represented_bounds,
            region.backing() == context.backing_extent,
            region.scale() == context.scale_factor_bits,
            region.moves() == context.translation_bits,
    {
        PrepareRegion {
            bounds,
            viewport: Viewport::with_physical_size(context.physical_viewport(), context.scale),
            represented_bounds: context.represented_bounds,
            backing_extent: context.backing_extent(),
            scale_factor: context.scale_factor_bits,
            translation: context.translation_bits,
        }
    }

    /// Returns the complete, uncut primitive bounds in scene-logical pixels.
    pub fn bounds(&self) -> (bounds: RectangleBits)
        ensures
            bounds == self.whole(),
    {
        self.bounds
    }

    /// Returns the valid viewport of the active render target, without unused padding.
    pub fn viewport(&self) -> (viewport: Viewport)
        ensures
            viewport == self.target(),
    {
        self.viewport
    }

    /// Returns the scene-logical bounds represented by the valid target pixels.
    pub fn represented_bounds(&self) -> (bounds: RectangleBits)
        ensures
            bounds == self.represents(),
    {
        self.represented_bounds
    }

    /// Returns the full physical extent of the backing color texture.
    ///
    /// Use this extent for attachments which must match the color attachment.
    pub fn backing_extent(&self) -> (extent: Size)
        ensures
            extent == self.backing(),
    {
        self.backing_extent
    }

    /// Returns the scale and offset that lead from scene-logical coordinates to target-local
    /// physical pixels.
    pub fn logical_to_physical(&self) -> (transformation: (u32, PointBits))
        ensures
            transformation == (self.scale(), self.moves()),
    {
        (self.scale_factor, self.translation)
    }

    /// Returns the primitive bounds in target-local logical pixels, where `minus` subtracts.
    ///
    /// They have the size of the primitive, and the origin of the represented bounds is at
    /// zero.
    pub fn local_bounds<M: Fn(u32, u32) -> u32>(&self, minus: &M) -> (bounds: RectangleBits)
        requires
            forall|a: u32, b: u32| call_requires(*minus, (a, b)),
        ensures
            call_ensures(*minus, (self.whole().x, self.represents().x), bounds.x),
            call_ensures(*minus, (self.whole().y, self.represents().y), bounds.y),
            bounds.width == self.whole().width,
            bounds.height == self.whole().height,
    {
        RectangleBits {
            x: minus(self.bounds.x, self.represented_bounds.x),
            y: minus(self.bounds.y, self.represented_bounds.y),
            width: self.bounds.width,
            height: self.bounds.height,
        }
    }

    /// Returns the complete, uncut primitive bounds in target-local physical pixels, where
    /// `project` scales bounds and then moves them.
    pub fn physical_bounds<P: Fn(RectangleBits, u32, PointBits) -> RectangleBits>(
        &self,
        project: &P,
    ) -> (bounds: RectangleBits)
        requires
            call_requires(*project, (self.whole(), self.scale(), self.moves())),
        ensures
            call_ensures(*project, (self.whole(), self.scale(), self.moves()), bounds),
    {
        project(self.bounds, self.scale_factor, self.translation)
    }

    /// Returns the transformation from scene-logical coordinates to normalized device
    /// coordinates for the active target.
    ///
    /// `compose` puts the projection of a viewport behind the scaling and moving that lead to
    /// its physical pixels.
    pub fn logical_projection<M, P: Fn(Size, u32, PointBits) -> M>(&self, compose: &P) -> (
    projection: M)
        requires
            call_requires(*compose, (self.valid(), self.scale(), self.moves())),
        ensures
            call_ensures(*compose, (self.valid(), self.scale(), self.moves()), projection),
    {
        compose(self.viewport.physical_size(), self.scale_factor, self.translation)
    }
}

/// The authoritative region used to render one primitive occurrence.
///
/// The physical viewport remains complete and uncut so clipping cannot stretch
/// primitive-local coordinates. The physical scissor is the visible intersection with the
/// active clip and valid target pixels.
#[derive(Debug, Clone, Copy, PartialEq, Eq, Structural)]
pub struct RenderRegion {
    bounds: RectangleBits,
    physical_viewport: RectangleBits,
    physical_scissor: Rectangle,
}

impl RenderRegion {
    /// The complete primitive bounds.
    pub closed spec fn whole(self) -> RectangleBits {
        self.bounds
    }

    /// The complete viewport.
    pub closed spec fn mapped(self) -> RectangleBits {
        self.physical_viewport
    }

    /// The visible pixels.
    pub closed spec fn visible(self) -> Rectangle {
        self.physical_scissor
    }

    /// Creates a region.
    pub fn new(
        bounds: RectangleBits,
        physical_viewport: RectangleBits,
        physical_scissor: Rectangle,
    ) -> (region: Self)
        ensures
            region.whole() == bounds,
            region.mapped() == physical_viewport,
            region.visible() == physical_scissor,
    {
        RenderRegion { bounds, physical_viewport, physical_scissor }
    }

    /// Returns the complete, uncut primitive bounds in scene-logical pixels.
    pub fn bounds(&self) -> (bounds: RectangleBits)
        ensures
            bounds == self.whole(),
    {
        self.bounds
    }

    /// Returns the complete, uncut viewport in target-local physical pixels.
    pub fn physical_viewport(&self) -> (viewport: RectangleBits)
        ensures
            viewport == self.mapped(),
    {
        self.physical_viewport
    }

    /// Returns the scissor rectangle in target-local physical pixels.
    pub fn physical_scissor(&self) -> (scissor: Rectangle)
        ensures
            scissor == self.visible(),
    {
        self.physical_scissor
    }
}

/// Whether `region` is where a primitive with the given bounds is rendered.
pub open spec fn region_found<
    P: Fn(RectangleBits) -> RectangleBits,
    C: Fn(RectangleBits, RectangleBits) -> Option<Rectangle>,
>(
    bounds: RectangleBits,
    active_clip: RectangleBits,
    project: P,
    cut: C,
    region: Option<RenderRegion>,
) -> bool {
    exists|mapped: RectangleBits, visible: Option<Rectangle>|
        #![trigger call_ensures(project, (bounds,), mapped), call_ensures(cut, (mapped, active_clip), visible)]
        call_ensures(project, (bounds,), mapped) && call_ensures(
            cut,
            (mapped, active_clip),
            visible,
        ) && match (visible, region) {
            (Some(visible), Some(region)) => region.whole() == bounds && region.mapped() == mapped
                && region.visible() == visible,
            (None, None) => true,
            _ => false,
        }
}

/// Returns the region of a primitive, if any of its pixels are visible.
///
/// `project` brings bounds into the target's physical pixels, and `cut` answers which whole
/// pixels are left of them in a clip and in the valid pixels of the target. Cutting never
/// changes the viewport onto which the primitive is mapped.
pub fn primitive_region<
    P: Fn(RectangleBits) -> RectangleBits,
    C: Fn(RectangleBits, RectangleBits) -> Option<Rectangle>,
>(context: &Context, bounds: RectangleBits, active_clip: RectangleBits, project: &P, cut: &C) -> (
region: Option<RenderRegion>)
    requires
        call_requires(*project, (bounds,)),
        forall|mapped: RectangleBits| call_requires(*cut, (mapped, active_clip)),
        forall|mapped: RectangleBits, visible: Rectangle|
            call_ensures(*cut, (mapped, active_clip), Some(visible)) ==> visible.x + visible.width
                <= context.viewport().width && visible.y + visible.height
                <= context.viewport().height,
    ensures
        region_found(bounds, active_clip, *project, *cut, region),
        region matches Some(region) ==> region.visible().x + region.visible().width
            <= context.viewport().width && region.visible().y + region.visible().height
            <= context.viewport().height,
{
    let physical_viewport = project(bounds);
    let physical_scissor = cut(physical_viewport, active_clip);
    assert(call_ensures(*project, (bounds,), physical_viewport));
    assert(call_ensures(*cut, (physical_viewport, active_clip), physical_scissor));
    match physical_scissor {
        Some(physical_scissor) => Some(
            RenderRegion::new(bounds, physical_viewport, physical_scissor),
        ),
        None => None,
    }
}

/// Clipping a primitive never changes what it is mapped onto: its whole bounds, brought to
/// pixels without regard to the clip. It is rendered exactly if some of its pixels are left.
pub proof fn clips_only_cut_pixels<
    P: Fn(RectangleBits) -> RectangleBits,
    C: Fn(RectangleBits, RectangleBits) -> Option<Rectangle>,
>(
    bounds: RectangleBits,
    active_clip: RectangleBits,
    project: P,
    cut: C,
    region: Option<RenderRegion>,
)
    requires
        region_found(bounds, active_clip, project, cut, region),
    ensures
        match region {
            Some(region) => {
                &&& region.whole() == bounds
                &&& call_ensures(project, (bounds,), region.mapped())
                &&& call_ensures(cut, (region.mapped(), active_clip), Some(region.visible()))
            },
            None => exists|mapped: RectangleBits| #[trigger]
                call_ensures(project, (bounds,), mapped) && call_ensures(
                    cut,
                    (mapped, active_clip),
                    None::<Rectangle>,
                ),
        },
{
}

} // verus!
