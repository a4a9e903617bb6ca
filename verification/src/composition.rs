//! Final composition of a completed layer into its parent.

use crate::capture::{touched, touched_pixels};
use crate::context::{BlendMode, CompositePositioning, Context, Placement, PointBits};
use crate::float_bits::{is_finite, is_negative, is_zero};
use crate::geometry::{intersect, shared, Rectangle, Size};
use crate::request::{unit_clamped, Composite, ONE_BITS};
use vstd::prelude::*;

verus! {

/// How a resampled layer is blended.
#[derive(Debug, Clone, Copy, PartialEq, Eq, Structural)]
pub enum SubpixelBlend {
    SourceOver,
    Add,
    Replace,
}

/// Complete source-to-destination mapping for one subpixel blit.
///
/// Keeping these values together makes the coordinate spaces explicit in both uses: final
/// composition and backdrop acquisition. Origins and opacity are held as bits.
#[derive(Debug, Clone, Copy, PartialEq, Eq, Structural)]
pub struct SubpixelBlit {
    pub valid_extent: Size,
    pub backing_extent: Size,
    pub source_origin: PointBits,
    pub destination_origin: PointBits,
    pub opacity: u32,
    pub blend: SubpixelBlend,
}

/// The blend of a resampled layer under a composition's blend mode.
pub open spec fn subpixel_blend(mode: BlendMode) -> SubpixelBlend {
    match mode {
        BlendMode::SourceOver => SubpixelBlend::SourceOver,
        BlendMode::Add => SubpixelBlend::Add,
    }
}

impl SubpixelBlit {
    /// Whether the valid pixels lie in the backing, the origins are finite, and the opacity
    /// lies between zero and one.
    pub open spec fn valid(self) -> bool {
        &&& self.valid_extent.width <= self.backing_extent.width
        &&& self.valid_extent.height <= self.backing_extent.height
        &&& is_finite(self.source_origin.x) && is_finite(self.source_origin.y)
        &&& is_finite(self.destination_origin.x) && is_finite(self.destination_origin.y)
        &&& is_zero(self.opacity) || (!is_negative(self.opacity) && self.opacity <= ONE_BITS)
    }

    /// Maps a completed layer onto its exact place in its parent.
    pub fn composite(context: &Context, composite: Composite) -> (blit: Self)
        ensures
            blit == (SubpixelBlit {
                valid_extent: context.viewport(),
                backing_extent: context.backing_extent,
                source_origin: PointBits { x: 0, y: 0 },
                destination_origin: context.placement.origin(),
                opacity: composite.strength(),
                blend: subpixel_blend(composite.blend()),
            }),
    {
        SubpixelBlit {
            valid_extent: context.physical_viewport(),
            backing_extent: context.backing_extent(),
            source_origin: PointBits { x: 0, y: 0 },
            destination_origin: context.placement.exact_origin(),
            opacity: composite.opacity(),
            blend: match composite.blend_mode() {
                BlendMode::SourceOver => SubpixelBlend::SourceOver,
                BlendMode::Add => SubpixelBlend::Add,
            },
        }
    }

    /// Maps what a parent shows below a child onto the child's own pixels.
    pub fn backdrop(parent: &Context, child: &Context) -> (blit: Self)
        ensures
            blit == (SubpixelBlit {
                valid_extent: parent.viewport(),
                backing_extent: parent.backing_extent,
                source_origin: child.placement.origin(),
                destination_origin: PointBits { x: 0, y: 0 },
                opacity: ONE_BITS,
                blend: SubpixelBlend::Replace,
            }),
    {
        SubpixelBlit {
            valid_extent: parent.physical_viewport(),
            backing_extent: parent.backing_extent(),
            source_origin: child.placement.exact_origin(),
            destination_origin: PointBits { x: 0, y: 0 },
            opacity: ONE_BITS,
            blend: SubpixelBlend::Replace,
        }
    }

    /// Returns whether the mapping can be drawn.
    pub fn is_valid(self) -> (valid: bool)
        ensures
            valid == self.valid(),
    {
        self.valid_extent.width <= self.backing_extent.width && self.valid_extent.height
            <= self.backing_extent.height && finite_point(self.source_origin) && finite_point(
            self.destination_origin,
        ) && (self.opacity <= ONE_BITS || self.opacity == 0x8000_0000)
    }
}

fn finite_point(point: PointBits) -> (finite: bool)
    ensures
        finite == (is_finite(point.x) && is_finite(point.y)),
{
    point.x % 0x8000_0000 < 0x7f80_0000 && point.y % 0x8000_0000 < 0x7f80_0000
}

/// A layer with a finite exact origin is mapped validly, whatever opacity was requested.
pub proof fn blits_are_valid(context: Context, opacity: u32, blend: SubpixelBlend)
    requires
        context.wf(),
        is_finite(context.placement.origin().x),
        is_finite(context.placement.origin().y),
    ensures
        (SubpixelBlit {
            valid_extent: context.viewport(),
            backing_extent: context.backing_extent,
            source_origin: PointBits { x: 0, y: 0 },
            destination_origin: context.placement.origin(),
            opacity: unit_clamped(opacity),
            blend,
        }).valid(),
{
}

impl Placement {
    /// The extent of the region in parent pixels.
    pub open spec fn extent(self) -> Size {
        Size { width: self.pixels().width, height: self.pixels().height }
    }

    /// Returns every parent pixel which can receive a non-zero filtered sample.
    ///
    /// `reach` answers the far corner of a region of the given extent at an exact origin.
    pub fn conservative_coverage<F: Fn(PointBits, Size) -> PointBits>(
        self,
        parent: Size,
        reach: &F,
    ) -> (coverage: Option<Rectangle>)
        requires
            forall|origin: PointBits, extent: Size| call_requires(*reach, (origin, extent)),
        ensures
            exists|corner: PointBits| #[trigger]
                call_ensures(*reach, (self.origin(), self.extent()), corner) && coverage == touched(
                    self.origin().x,
                    self.origin().y,
                    corner.x,
                    corner.y,
                    parent,
                ),
    {
        let origin = self.exact_origin();
        let corner = reach(origin, self.snapped().size());
        assert(call_ensures(*reach, (self.origin(), self.extent()), corner));
        touched_pixels(origin.x, origin.y, corner.x, corner.y, parent)
    }
}

/// A composition pass: the viewport onto which the layer is stretched, and the pixels that
/// it may write.
#[derive(Debug, Clone, Copy, PartialEq, Eq, Structural)]
pub struct CompositePass {
    pub positioning: CompositePositioning,
    pub viewport: Rectangle,
    pub scissor: Rectangle,
}

/// The viewport of a composition: the layer's own pixels where it is snapped to them, and
/// the whole parent where it is resampled.
pub open spec fn composite_viewport(
    positioning: CompositePositioning,
    destination: Rectangle,
    parent: Size,
) -> Rectangle {
    match positioning {
        CompositePositioning::Snapped => destination,
        CompositePositioning::Subpixel => Rectangle {
            x: 0,
            y: 0,
            width: parent.width,
            height: parent.height,
        },
    }
}

/// The pass that writes the shared pixels of `covered` and `clip`.
pub open spec fn pass_over(
    positioning: CompositePositioning,
    destination: Rectangle,
    covered: Option<Rectangle>,
    clip: Rectangle,
    parent: Size,
) -> Option<CompositePass> {
    match covered {
        Some(covered) => match shared(covered, clip) {
            Some(scissor) => Some(
                CompositePass {
                    positioning,
                    viewport: composite_viewport(positioning, destination, parent),
                    scissor,
                },
            ),
            None => None,
        },
        None => None,
    }
}

/// Returns the pass that composites a placed layer into its parent, if it writes any pixel.
///
/// `reach` answers the far corner of a region of the given extent at an exact origin.
pub fn composite_pass<F: Fn(PointBits, Size) -> PointBits>(
    parent: Size,
    placement: Placement,
    clip: Rectangle,
    positioning: CompositePositioning,
    reach: &F,
) -> (pass: Option<CompositePass>)
    requires
        forall|origin: PointBits, extent: Size| call_requires(*reach, (origin, extent)),
    ensures
        match positioning {
            CompositePositioning::Snapped => pass == pass_over(
                positioning,
                placement.pixels(),
                Some(placement.pixels()),
                clip,
                parent,
            ),
            CompositePositioning::Subpixel => exists|corner: PointBits| #[trigger]
                call_ensures(*reach, (placement.origin(), placement.extent()), corner) && pass
                    == pass_over(
                    positioning,
                    placement.pixels(),
                    touched(
                        placement.origin().x,
                        placement.origin().y,
                        corner.x,
                        corner.y,
                        parent,
                    ),
                    clip,
                    parent,
                ),
        },
{
    let destination = placement.snapped();
    let (covered, viewport) = match positioning {
        CompositePositioning::Snapped => (Some(destination), destination),
        CompositePositioning::Subpixel => (
            placement.conservative_coverage(parent, reach),
            Rectangle::with_size(parent),
        ),
    };
    let covered = match covered {
        Some(covered) => covered,
        None => return None,
    };
    match intersect(covered, clip) {
        Some(scissor) => Some(CompositePass { positioning, viewport, scissor }),
        None => None,
    }
}

/// Returns the pass that fills a backdrop of the given size.
pub fn backdrop_pass(size: Size) -> (pass: CompositePass)
    ensures
        pass == (CompositePass {
            positioning: CompositePositioning::Subpixel,
            viewport: Rectangle { x: 0, y: 0, width: size.width, height: size.height },
            scissor: Rectangle { x: 0, y: 0, width: size.width, height: size.height },
        }),
{
    let bounds = Rectangle::with_size(size);
    CompositePass { positioning: CompositePositioning::Subpixel, viewport: bounds, scissor: bounds }
}

/// A composition writes only pixels inside its clip, and a snapped one only pixels of the
/// layer.
pub proof fn composition_stays_inside_its_clip(
    positioning: CompositePositioning,
    destination: Rectangle,
    covered: Rectangle,
    clip: Rectangle,
    parent: Size,
    x: int,
    y: int,
)
    ensures
        pass_over(positioning, destination, Some(covered), clip, parent) matches Some(pass)
            && pass.scissor.contains(x, y) ==> covered.contains(x, y) && clip.contains(x, y),
{
}

/// One kind of composition pipeline.
#[derive(Debug, Clone, Copy, PartialEq, Eq, Structural)]
pub enum Variant {
    Snapped(BlendMode),
    Subpixel(SubpixelBlend),
}

/// Returns the kind of pipeline that composites under the given settings.
pub fn composite_variant(composite: Composite) -> (variant: Variant)
    ensures
        variant == (match composite.place() {
            CompositePositioning::Snapped => Variant::Snapped(composite.blend()),
            CompositePositioning::Subpixel => Variant::Subpixel(
                subpixel_blend(composite.blend()),
            ),
        }),
{
    match composite.positioning() {
        CompositePositioning::Snapped => Variant::Snapped(composite.blend_mode()),
        CompositePositioning::Subpixel => match composite.blend_mode() {
            BlendMode::SourceOver => Variant::Subpixel(SubpixelBlend::SourceOver),
            BlendMode::Add => Variant::Subpixel(SubpixelBlend::Add),
        },
    }
}

/// Empty-at-start storage for lazily-created composition pipelines.
#[derive(Debug)]
pub struct Storage<P> {
    snapped_source_over: Option<P>,
    snapped_add: Option<P>,
    subpixel_source_over: Option<P>,
    subpixel_add: Option<P>,
    subpixel_replace: Option<P>,
}

impl<P> Storage<P> {
    /// The pipeline of a kind, if it was created.
    pub closed spec fn slot(self, variant: Variant) -> Option<P> {
        match variant {
            Variant::Snapped(BlendMode::SourceOver) => self.snapped_source_over,
            Variant::Snapped(BlendMode::Add) => self.snapped_add,
            Variant::Subpixel(SubpixelBlend::SourceOver) => self.subpixel_source_over,
            Variant::Subpixel(SubpixelBlend::Add) => self.subpixel_add,
            Variant::Subpixel(SubpixelBlend::Replace) => self.subpixel_replace,
        }
    }

    /// Creates storage without any pipeline.
    pub fn new() -> (storage: Self)
        ensures
            forall|variant: Variant| #[trigger] storage.slot(variant) is None,
    {
        Storage {
            snapped_source_over: None,
            snapped_add: None,
            subpixel_source_over: None,
            subpixel_add: None,
            subpixel_replace: None,
        }
    }

    /// Returns the pipeline of a kind, if it was created.
    pub fn pipeline(&self, variant: Variant) -> (pipeline: Option<&P>)
        ensures
            match pipeline {
                Some(pipeline) => self.slot(variant) == Some(*pipeline),
                None => self.slot(variant) is None,
            },
    {
        match variant {
            Variant::Snapped(BlendMode::SourceOver) => self.snapped_source_over.as_ref(),
            Variant::Snapped(BlendMode::Add) => self.snapped_add.as_ref(),
            Variant::Subpixel(SubpixelBlend::SourceOver) => self.subpixel_source_over.as_ref(),
            Variant::Subpixel(SubpixelBlend::Add) => self.subpixel_add.as_ref(),
            Variant::Subpixel(SubpixelBlend::Replace) => self.subpixel_replace.as_ref(),
        }
    }

    fn put(&mut self, variant: Variant, pipeline: P)
        ensures
            final(self).slot(variant) == Some(pipeline),
            forall|other: Variant|
                other != variant ==> #[trigger] final(self).slot(other) == old(self).slot(other),
    {
        match variant {
            Variant::Snapped(BlendMode::SourceOver) => self.snapped_source_over = Some(pipeline),
            Variant::Snapped(BlendMode::Add) => self.snapped_add = Some(pipeline),
            Variant::Subpixel(SubpixelBlend::SourceOver) => self.subpixel_source_over = Some(
                pipeline,
            ),
            Variant::Subpixel(SubpixelBlend::Add) => self.subpixel_add = Some(pipeline),
            Variant::Subpixel(SubpixelBlend::Replace) => self.subpixel_replace = Some(pipeline),
        }
    }

    /// Makes sure that a pipeline of the given kind exists, creating it if none does.
    ///
    /// Every other kind stays as it was, and a pipeline is created at most once.
    pub fn ensure<F: FnOnce(Variant) -> P>(&mut self, variant: Variant, create: F)
        requires
            call_requires(create, (variant,)),
        ensures
            final(self).slot(variant) is Some,
            match old(self).slot(variant) {
                Some(pipeline) => final(self).slot(variant) == Some(pipeline),
                None => call_ensures(create, (variant,), final(self).slot(variant)->0),
            },
            forall|other: Variant|
                other != variant ==> #[trigger] final(self).slot(other) == old(self).slot(other),
    {
        if self.pipeline(variant).is_none() {
            self.put(variant, create(variant));
        }
    }
}

impl<P> Default for Storage<P> {
    fn default() -> (storage: Self)
        ensures
            forall|variant: Variant| #[trigger] storage.slot(variant) is None,
    {
        Storage::new()
    }
}

/// A composition writes every pixel that its layer covers inside the clip, and only those. It
/// writes none exactly if there is no such pixel.
pub proof fn compositions_write_all_visible_pixels(
    positioning: CompositePositioning,
    destination: Rectangle,
    covered: Rectangle,
    clip: Rectangle,
    parent: Size,
    x: int,
    y: int,
)
    requires
        x < u32::MAX,
        y < u32::MAX,
    ensures
        ({
            let written = pass_over(positioning, destination, Some(covered), clip, parent);
            &&& (written matches Some(pass) && pass.scissor.contains(x, y)) == (covered.contains(
                x,
                y,
            ) && clip.contains(x, y))
            &&& pass_over(positioning, destination, None, clip, parent) is None
        }),
{
    crate::geometry::overlap_holds_shared_pixels(covered, clip, x, y);
}

/// A snapped layer is stretched over its own pixels, one for one. A layer that is placed between
/// pixels is drawn over its whole parent. Clipping changes neither.
pub proof fn clips_do_not_stretch_layers(
    positioning: CompositePositioning,
    destination: Rectangle,
    covered: Rectangle,
    clip: Rectangle,
    parent: Size,
)
    ensures
        pass_over(positioning, destination, Some(covered), clip, parent) matches Some(pass) ==> {
            &&& pass.positioning == positioning
            &&& positioning == CompositePositioning::Snapped ==> pass.viewport == destination
            &&& positioning == CompositePositioning::Subpixel ==> pass.viewport.x == 0
                && pass.viewport.y == 0 && pass.viewport.width == parent.width
                && pass.viewport.height == parent.height
        },
{
}

/// Resampling keeps the blend mode that was asked for.
pub proof fn resampling_keeps_the_blend_mode(mode: BlendMode)
    ensures
        subpixel_blend(mode) == SubpixelBlend::Add <==> mode == BlendMode::Add,
        subpixel_blend(mode) == SubpixelBlend::SourceOver <==> mode == BlendMode::SourceOver,
        subpixel_blend(mode) != SubpixelBlend::Replace,
{
}

/// A mapping can be drawn only if its valid pixels lie in their backing, both origins are
/// finite, and the opacity is a number between zero and one.
pub proof fn drawable_mappings_are_sound(blit: SubpixelBlit)
    requires
        blit.valid(),
    ensures
        blit.valid_extent.width <= blit.backing_extent.width,
        blit.valid_extent.height <= blit.backing_extent.height,
        blit.source_origin.x % 0x8000_0000 < 0x7f80_0000,
        blit.source_origin.y % 0x8000_0000 < 0x7f80_0000,
        blit.destination_origin.x % 0x8000_0000 < 0x7f80_0000,
        blit.destination_origin.y % 0x8000_0000 < 0x7f80_0000,
        0 <= crate::rounding::units(blit.opacity) <= crate::rounding::one(),
{
    crate::request::full_opacity_is_one();
    crate::rounding::zeroes_are_no_units(0);
    crate::rounding::zeroes_are_no_units(blit.opacity);
    crate::rounding::ranks_order_values(blit.opacity, ONE_BITS);
    crate::rounding::ranks_order_values(0, blit.opacity);
}

} // verus!
