//! Exact signatures of retained pixels.

use crate::content::{CacheRequest, ContentStamp, Stamp};
use crate::context::{Context, SizeBits};
use crate::evidence::{Evidence, LayerInputEvidence};
use crate::float_bits::{canonical, canonical_bits, rectangle_bits, RectangleBits};
use crate::format::TextureFormat;
use crate::geometry::{Rectangle, Size};
use vstd::prelude::*;

verus! {

/// Every rasterization fact that can change retained pixels.
#[derive(Debug, Clone, Copy, PartialEq, Eq, Structural)]
pub struct RasterDescriptor {
    pub source_rect: Rectangle,
    pub logical_surface_size_bits: SizeBits,
    pub source_content_relative_bits: RectangleBits,
    pub represented_size_bits: SizeBits,
    pub physical_viewport: Size,
    pub backing_extent: Size,
    pub scale_factor_bits: u32,
    pub format: TextureFormat,
    pub device_epoch: u64,
}

impl RasterDescriptor {
    /// The facts of a context on a device.
    pub open spec fn of(context: Context, device_epoch: u64) -> RasterDescriptor {
        RasterDescriptor {
            source_rect: context.source_rect,
            logical_surface_size_bits: context.logical_surface_size_bits,
            source_content_relative_bits: context.source_content_relative_bits,
            represented_size_bits: SizeBits {
                width: canonical(context.represented_bounds.width),
                height: canonical(context.represented_bounds.height),
            },
            physical_viewport: context.viewport(),
            backing_extent: context.backing_extent,
            scale_factor_bits: canonical(context.scale_factor_bits),
            format: context.format,
            device_epoch,
        }
    }

    /// Collects the facts of a context on a device.
    pub fn new(context: &Context, device_epoch: u64) -> (raster: Self)
        ensures
            raster == RasterDescriptor::of(*context, device_epoch),
    {
        RasterDescriptor {
            source_rect: context.source_rect,
            logical_surface_size_bits: context.logical_surface_size_bits,
            source_content_relative_bits: context.source_content_relative_bits,
            represented_size_bits: SizeBits {
                width: canonical_bits(context.represented_bounds.width),
                height: canonical_bits(context.represented_bounds.height),
            },
            physical_viewport: context.physical_viewport(),
            backing_extent: context.backing_extent(),
            scale_factor_bits: canonical_bits(context.scale_factor_bits),
            format: context.format,
            device_epoch,
        }
    }
}

/// Where a position-sensitive producer stands.
#[derive(Debug, Clone, Copy, PartialEq, Eq, Structural)]
pub struct AbsoluteGeometry {
    pub represented_bounds: RectangleBits,
    pub content_bounds: RectangleBits,
}

impl AbsoluteGeometry {
    /// The geometry of a context and its content, without negative zeroes.
    pub open spec fn of(context: Context, content_bounds: RectangleBits) -> AbsoluteGeometry {
        AbsoluteGeometry {
            represented_bounds: RectangleBits {
                x: canonical(context.represented_bounds.x),
                y: canonical(context.represented_bounds.y),
                width: canonical(context.represented_bounds.width),
                height: canonical(context.represented_bounds.height),
            },
            content_bounds: RectangleBits {
                x: canonical(content_bounds.x),
                y: canonical(content_bounds.y),
                width: canonical(content_bounds.width),
                height: canonical(content_bounds.height),
            },
        }
    }
}

/// The first part in which two signatures differ.
#[derive(Debug, Clone, Copy, PartialEq, Eq, Structural)]
pub enum KeyMismatch {
    Content,
    Raster,
    Geometry,
    EffectInputs,
}

/// What an [`OutputKey`] holds.
#[verifier::ext_equal]
pub ghost struct Signature {
    pub content: Stamp,
    pub raster: RasterDescriptor,
    pub geometry: Option<AbsoluteGeometry>,
    pub evidence: Evidence,
}

impl Signature {
    /// The first part in which two signatures differ, in order of the parts.
    pub open spec fn mismatch(self, other: Self) -> Option<KeyMismatch> {
        if self.content != other.content {
            Some(KeyMismatch::Content)
        } else if self.raster != other.raster {
            Some(KeyMismatch::Raster)
        } else if self.geometry != other.geometry {
            Some(KeyMismatch::Geometry)
        } else if !self.evidence.matching(other.evidence) {
            Some(KeyMismatch::EffectInputs)
        } else {
            None
        }
    }

    /// Whether pixels with this signature are the pixels that `other` asks for.
    pub open spec fn matching(self, other: Self) -> bool {
        self.mismatch(other) is None
    }
}

/// An exact signature for the pixels in one retained output slot.
///
/// Fixed-function composition is deliberately absent. It happens after the cached output
/// and therefore cannot change the retained pixels.
#[derive(Debug)]
pub struct OutputKey {
    content: ContentStamp,
    raster: RasterDescriptor,
    absolute_geometry: Option<AbsoluteGeometry>,
    evidence: LayerInputEvidence,
}

impl View for OutputKey {
    type V = Signature;

    closed spec fn view(&self) -> Signature {
        Signature {
            content: self.content@,
            raster: self.raster,
            geometry: self.absolute_geometry,
            evidence: self.evidence@,
        }
    }
}

fn same_geometry(a: &Option<AbsoluteGeometry>, b: &Option<AbsoluteGeometry>) -> (same: bool)
    ensures
        same == (*a == *b),
{
    match (a, b) {
        (Some(a), Some(b)) => *a == *b,
        (None, None) => true,
        _ => false,
    }
}

impl OutputKey {
    /// Captures every renderer-owned input needed to validate a final output.
    ///
    /// `position_sensitive` must be true when either the captured child or any effect can
    /// make its pixels depend on absolute layer position.
    pub fn new(
        request: &CacheRequest,
        evidence: LayerInputEvidence,
        context: &Context,
        content_bounds: RectangleBits,
        position_sensitive: bool,
        device_epoch: u64,
    ) -> (key: Self)
        ensures
            key@ == (Signature {
                content: request.evidence(),
                raster: RasterDescriptor::of(*context, device_epoch),
                geometry: if position_sensitive {
                    Some(AbsoluteGeometry::of(*context, content_bounds))
                } else {
                    None
                },
                evidence: evidence@,
            }),
    {
        OutputKey {
            content: request.stamp().clone(),
            raster: RasterDescriptor::new(context, device_epoch),
            absolute_geometry: if position_sensitive {
                Some(
                    AbsoluteGeometry {
                        represented_bounds: rectangle_bits(context.represented_bounds),
                        content_bounds: rectangle_bits(content_bounds),
                    },
                )
            } else {
                None
            },
            evidence,
        }
    }

    /// Returns the content stamp that the pixels were made from.
    pub fn content(&self) -> (content: &ContentStamp)
        ensures
            content@ == self@.content,
    {
        &self.content
    }

    /// Returns whether the effect inputs decline retained-output reuse.
    pub fn is_volatile(&self) -> (volatile: bool)
        ensures
            volatile == self@.evidence.volatile,
    {
        self.evidence.is_volatile()
    }

    /// Compares complete keys, including retained effect-input snapshots.
    ///
    /// Volatile evidence never matches, including an otherwise equal snapshot.
    pub fn matches(&self, other: &Self) -> (matches: bool)
        ensures
            matches == self@.matching(other@),
    {
        self.first_mismatch(other).is_none()
    }

    /// Returns the first part in which two keys differ.
    pub fn first_mismatch(&self, other: &Self) -> (mismatch: Option<KeyMismatch>)
        ensures
            mismatch == self@.mismatch(other@),
    {
        if self.content != other.content {
            Some(KeyMismatch::Content)
        } else if self.raster != other.raster {
            Some(KeyMismatch::Raster)
        } else if !same_geometry(&self.absolute_geometry, &other.absolute_geometry) {
            Some(KeyMismatch::Geometry)
        } else if !self.evidence.matches(&other.evidence) {
            Some(KeyMismatch::EffectInputs)
        } else {
            None
        }
    }
}

impl Clone for OutputKey {
    fn clone(&self) -> (key: Self)
        ensures
            key@ == self@,
    {
        OutputKey {
            content: self.content.clone(),
            raster: self.raster,
            absolute_geometry: self.absolute_geometry,
            evidence: self.evidence.clone(),
        }
    }
}

/// Signatures of translation-invariant producers do not mention where they stand: moving
/// such a producer, which changes only its placement and the origin of what it represents,
/// keeps its signature.
pub proof fn moving_keeps_translation_invariant_raster(
    before: Context,
    after: Context,
    device_epoch: u64,
)
    requires
        after == (Context {
            placement: after.placement,
            represented_bounds: RectangleBits {
                x: after.represented_bounds.x,
                y: after.represented_bounds.y,
                ..before.represented_bounds
            },
            ..before
        }),
    ensures
        RasterDescriptor::of(before, device_epoch) == RasterDescriptor::of(after, device_epoch),
{
}

/// A position-sensitive producer that moves no longer matches.
pub proof fn moving_invalidates_position_sensitive_output(a: Signature, b: Signature)
    requires
        a.content == b.content,
        a.raster == b.raster,
        a.geometry != b.geometry,
    ensures
        a.mismatch(b) == Some(KeyMismatch::Geometry),
{
}

/// A signature with volatile inputs matches nothing.
pub proof fn volatile_signatures_never_match(a: Signature, b: Signature)
    requires
        a.evidence.volatile || b.evidence.volatile,
    ensures
        !a.matching(b),
{
}

/// Pixels are the ones that are asked for only if everything that they were made from is the
/// same: the content, every rasterization fact, the position where it matters, and the inputs
/// of the effects, which must be stable. And nothing else keeps them from being used again.
pub proof fn matching_signatures_agree_in_every_part(a: Signature, b: Signature)
    ensures
        a.matching(b) <==> {
            &&& a.content == b.content
            &&& a.raster == b.raster
            &&& a.geometry == b.geometry
            &&& !a.evidence.volatile
            &&& !b.evidence.volatile
            &&& crate::evidence::same_atoms(a.evidence.atoms, b.evidence.atoms)
        },
        a.matching(b) <==> a.mismatch(b) is None,
{
}

/// The reason for a mismatch names a part that differs, and the parts before it agree.
pub proof fn mismatches_name_the_first_difference(a: Signature, b: Signature)
    ensures
        a.mismatch(b) == Some(KeyMismatch::Content) <==> a.content != b.content,
        a.mismatch(b) == Some(KeyMismatch::Raster) <==> a.content == b.content && a.raster
            != b.raster,
        a.mismatch(b) == Some(KeyMismatch::Geometry) <==> a.content == b.content && a.raster
            == b.raster && a.geometry != b.geometry,
{
}

/// Which key is asked about the other does not matter.
pub proof fn matching_signatures_is_symmetric(a: Signature, b: Signature)
    ensures
        a.matching(b) == b.matching(a),
{
    crate::evidence::matching_is_symmetric(a.evidence, b.evidence);
}

/// Two bit patterns that stand for the same number, or are the same pattern.
pub open spec fn same_number(a: u32, b: u32) -> bool {
    a == b || (a % 0x8000_0000 == 0 && b % 0x8000_0000 == 0)
}

/// Two captures rasterize alike only if they agree in every fact that changes pixels: the part
/// that is shown, the surface and the content relative to it, the size that is represented, the
/// valid and the backing pixels, the scale, the format and the device. Agreeing in all of them
/// is enough.
pub proof fn rasters_tell_captures_apart(
    first: Context,
    second: Context,
    first_epoch: u64,
    second_epoch: u64,
)
    ensures
        RasterDescriptor::of(first, first_epoch) == RasterDescriptor::of(second, second_epoch)
            <==> {
            &&& first.source_rect == second.source_rect
            &&& first.logical_surface_size_bits == second.logical_surface_size_bits
            &&& first.source_content_relative_bits == second.source_content_relative_bits
            &&& same_number(first.represented_bounds.width, second.represented_bounds.width)
            &&& same_number(first.represented_bounds.height, second.represented_bounds.height)
            &&& first.viewport() == second.viewport()
            &&& first.backing_extent == second.backing_extent
            &&& same_number(first.scale_factor_bits, second.scale_factor_bits)
            &&& first.format == second.format
            &&& first_epoch == second_epoch
        },
{
}

/// What a position-sensitive producer records of its place changes with every coordinate of
/// what it represents and of its content, and with nothing else.
pub proof fn geometries_tell_positions_apart(
    first: Context,
    second: Context,
    first_content: RectangleBits,
    second_content: RectangleBits,
)
    ensures
        AbsoluteGeometry::of(first, first_content) == AbsoluteGeometry::of(second, second_content)
            <==> {
            &&& same_number(first.represented_bounds.x, second.represented_bounds.x)
            &&& same_number(first.represented_bounds.y, second.represented_bounds.y)
            &&& same_number(first.represented_bounds.width, second.represented_bounds.width)
            &&& same_number(first.represented_bounds.height, second.represented_bounds.height)
            &&& same_number(first_content.x, second_content.x)
            &&& same_number(first_content.y, second_content.y)
            &&& same_number(first_content.width, second_content.width)
            &&& same_number(first_content.height, second_content.height)
        },
{
}

} // verus!
