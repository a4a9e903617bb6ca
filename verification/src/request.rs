//! Requests for isolated drawing and how its result is composed.

use crate::content::{CacheRequest, CacheResidencyPriority, ContentChangeHandle, SurfaceHandle};
use crate::context::{BlendMode, CompositePositioning};
use crate::float_bits::{
    equal_numbers, equal_rectangles, is_nan, is_negative, is_zero, numerically_equal,
    numerically_equal_rectangles, RectangleBits,
};
use vstd::std_specs::cmp::PartialEqSpec;
use vstd::prelude::*;

verus! {

/// The bits of one.
pub const ONE_BITS: u32 = 0x3f80_0000;

/// The bits of a number brought between zero and one. What is no number becomes zero.
pub open spec fn unit_clamped(bits: u32) -> u32 {
    if is_nan(bits) {
        0
    } else if is_negative(bits) {
        if is_zero(bits) {
            bits
        } else {
            0
        }
    } else if bits > ONE_BITS {
        ONE_BITS
    } else {
        bits
    }
}

/// Returns the bits of a number brought between zero and one, and of zero for what is no
/// number.
pub fn clamp_to_unit(bits: u32) -> (clamped: u32)
    ensures
        clamped == unit_clamped(bits),
{
    if bits == 0x8000_0000 {
        bits
    } else if bits > 0x7f80_0000 {
        0
    } else if bits > ONE_BITS {
        ONE_BITS
    } else {
        bits
    }
}

/// Clamping twice changes nothing more.
pub proof fn clamping_is_idempotent(bits: u32)
    ensures
        unit_clamped(unit_clamped(bits)) == unit_clamped(bits),
        !is_nan(unit_clamped(bits)),
{
}

/// Fixed-function composition settings for an isolated layer.
///
/// The opacity is held as bits.
#[derive(Debug, Clone, Copy)]
pub struct Composite {
    opacity: u32,
    blend_mode: BlendMode,
    positioning: CompositePositioning,
}

impl Composite {
    /// The opacity applied to the whole captured group.
    pub closed spec fn strength(self) -> u32 {
        self.opacity
    }

    /// The fixed-function blend mode.
    pub closed spec fn blend(self) -> BlendMode {
        self.blend_mode
    }

    /// How the completed layer is positioned in its parent.
    pub closed spec fn place(self) -> CompositePositioning {
        self.positioning
    }

    /// Creates source-over composition at the given group opacity.
    pub fn source_over(opacity: u32) -> (composite: Self)
        ensures
            composite.strength() == unit_clamped(opacity),
            composite.blend() == BlendMode::SourceOver,
            composite.place() == CompositePositioning::Snapped,
    {
        Composite {
            opacity: clamp_to_unit(opacity),
            blend_mode: BlendMode::SourceOver,
            positioning: CompositePositioning::default(),
        }
    }

    /// Creates additive composition at the given group opacity.
    pub fn additive(opacity: u32) -> (composite: Self)
        ensures
            composite.strength() == unit_clamped(opacity),
            composite.blend() == BlendMode::Add,
            composite.place() == CompositePositioning::Snapped,
    {
        Composite {
            opacity: clamp_to_unit(opacity),
            blend_mode: BlendMode::Add,
            positioning: CompositePositioning::default(),
        }
    }

    /// Sets the opacity applied to the whole captured group.
    pub fn with_opacity(self, opacity: u32) -> (composite: Self)
        ensures
            composite.strength() == unit_clamped(opacity),
            composite.blend() == self.blend(),
            composite.place() == self.place(),
    {
        Composite { opacity: clamp_to_unit(opacity), ..self }
    }

    /// Sets the fixed-function blend mode.
    pub fn with_blend_mode(self, blend_mode: BlendMode) -> (composite: Self)
        ensures
            composite.strength() == self.strength(),
            composite.blend() == blend_mode,
            composite.place() == self.place(),
    {
        Composite { blend_mode, ..self }
    }

    /// Sets how the completed layer is positioned in its parent.
    pub fn with_positioning(self, positioning: CompositePositioning) -> (composite: Self)
        ensures
            composite.strength() == self.strength(),
            composite.blend() == self.blend(),
            composite.place() == positioning,
    {
        Composite { positioning, ..self }
    }

    /// Returns the opacity applied to the whole captured group.
    pub fn opacity(self) -> (opacity: u32)
        ensures
            opacity == self.strength(),
    {
        self.opacity
    }

    /// Returns the fixed-function blend mode.
    pub fn blend_mode(self) -> (blend_mode: BlendMode)
        ensures
            blend_mode == self.blend(),
    {
        self.blend_mode
    }

    /// Returns how the completed layer is positioned in its parent.
    pub fn positioning(self) -> (positioning: CompositePositioning)
        ensures
            positioning == self.place(),
    {
        self.positioning
    }
}

impl Composite {
    /// Source-over composition at full opacity, snapped to pixels.
    pub closed spec fn plain() -> Composite {
        Composite {
            opacity: ONE_BITS,
            blend_mode: BlendMode::SourceOver,
            positioning: CompositePositioning::Snapped,
        }
    }
}

impl PartialEq for Composite {
    fn eq(&self, other: &Self) -> (equal: bool) {
        equal_numbers(self.opacity, other.opacity) && self.blend_mode == other.blend_mode
            && self.positioning == other.positioning
    }
}

impl vstd::std_specs::cmp::PartialEqSpecImpl for Composite {
    open spec fn obeys_eq_spec() -> bool {
        true
    }

    open spec fn eq_spec(&self, other: &Self) -> bool {
        &&& numerically_equal(self.strength(), other.strength())
        &&& self.blend() == other.blend()
        &&& self.place() == other.place()
    }
}

impl Default for Composite {
    fn default() -> (composite: Self)
        ensures
            composite == Composite::plain(),
            composite.strength() == ONE_BITS,
            composite.blend() == BlendMode::SourceOver,
            composite.place() == CompositePositioning::Snapped,
    {
        Composite::source_over(ONE_BITS)
    }
}

/// An isolated-layer request.
///
/// Bounds are held as bits. The clip restricts composition, not capture: an effect may read
/// captured pixels outside it before the result is clipped.
#[derive(Debug)]
pub struct Layer {
    /// The capture and output bounds.
    pub bounds: RectangleBits,
    /// Bounds of the unexpanded content.
    pub content_bounds: RectangleBits,
    /// The final composite clip.
    pub clip: RectangleBits,
    /// How the resulting pixels are composed into the parent.
    pub composite: Composite,
    /// Whether captured child pixels depend on absolute translation.
    pub content_depends_on_translation: bool,
    /// Optional final-output cache identity, content evidence, and residency priority.
    pub output_cache_request: Option<CacheRequest>,
}

impl Clone for Layer {
    fn clone(&self) -> (layer: Self)
        ensures
            layer == (Layer { output_cache_request: layer.output_cache_request, ..*self }),
            match (self.output_cache_request, layer.output_cache_request) {
                (Some(request), Some(cloned)) => request.slot() == cloned.slot()
                    && request.residency() == cloned.residency() && request.evidence()
                    == cloned.evidence() && request.watched() == cloned.watched(),
                (None, None) => true,
                _ => false,
            },
    {
        Layer {
            bounds: self.bounds,
            content_bounds: self.content_bounds,
            clip: self.clip,
            composite: self.composite,
            content_depends_on_translation: self.content_depends_on_translation,
            output_cache_request: match &self.output_cache_request {
                Some(request) => Some(request.clone()),
                None => None,
            },
        }
    }
}

impl PartialEq for Layer {
    fn eq(&self, other: &Self) -> (equal: bool) {
        equal_rectangles(self.bounds, other.bounds) && equal_rectangles(
            self.content_bounds,
            other.content_bounds,
        ) && equal_rectangles(self.clip, other.clip) && self.composite == other.composite
            && self.content_depends_on_translation == other.content_depends_on_translation
            && match (&self.output_cache_request, &other.output_cache_request) {
            (Some(request), Some(another)) => *request == *another,
            (None, None) => true,
            _ => false,
        }
    }
}

impl vstd::std_specs::cmp::PartialEqSpecImpl for Layer {
    open spec fn obeys_eq_spec() -> bool {
        true
    }

    open spec fn eq_spec(&self, other: &Self) -> bool {
        &&& numerically_equal_rectangles(self.bounds, other.bounds)
        &&& numerically_equal_rectangles(self.content_bounds, other.content_bounds)
        &&& numerically_equal_rectangles(self.clip, other.clip)
        &&& PartialEqSpec::eq_spec(&self.composite, &other.composite)
        &&& self.content_depends_on_translation == other.content_depends_on_translation
        &&& match (self.output_cache_request, other.output_cache_request) {
            (Some(request), Some(another)) => PartialEqSpec::eq_spec(&request, &another),
            (None, None) => true,
            _ => false,
        }
    }
}

impl Layer {
    /// Whether the cache request, if there is one, is well formed.
    pub open spec fn wf(self) -> bool {
        self.output_cache_request matches Some(request) ==> request.wf()
    }

    /// Creates a layer request with source-over composition.
    pub fn new(bounds: RectangleBits, clip: RectangleBits) -> (layer: Self)
        ensures
            layer.wf(),
            layer.bounds == bounds,
            layer.content_bounds == bounds,
            layer.clip == clip,
            layer.composite.strength() == ONE_BITS,
            layer.composite.blend() == BlendMode::SourceOver,
            layer.composite.place() == CompositePositioning::Snapped,
            !layer.content_depends_on_translation,
            layer.output_cache_request is None,
    {
        Layer {
            bounds,
            content_bounds: bounds,
            clip,
            composite: Composite::default(),
            content_depends_on_translation: false,
            output_cache_request: None,
        }
    }

    /// Sets the unexpanded widget content bounds.
    pub fn content_bounds(self, bounds: RectangleBits) -> (layer: Self)
        ensures
            layer == (Layer { content_bounds: bounds, ..self }),
    {
        Layer { content_bounds: bounds, ..self }
    }

    /// Sets composition settings.
    pub fn composite(self, composite: Composite) -> (layer: Self)
        ensures
            layer == (Layer { composite, ..self }),
    {
        Layer { composite, ..self }
    }

    /// Declares whether captured child pixels depend on absolute translation.
    ///
    /// Child content is considered translation invariant by default.
    pub fn content_depends_on_translation(self, depends: bool) -> (layer: Self)
        ensures
            layer == (Layer { content_depends_on_translation: depends, ..self }),
    {
        Layer { content_depends_on_translation: depends, ..self }
    }

    /// Requests caching of the final pre-composite output under the logical `surface`
    /// identity.
    ///
    /// `content` supplies evidence for every captured-content input that may change the
    /// output pixels. A request with no observations is retained in the layer value, but
    /// renderers must fail closed and bypass output reuse.
    pub fn cache_output(self, surface: &SurfaceHandle, content: &[&ContentChangeHandle]) -> (layer:
        Self)
        ensures
            layer == (Layer { output_cache_request: layer.output_cache_request, ..self }),
            layer.output_cache_request matches Some(request) && surface.requests(
                content@,
                CacheResidencyPriority::Normal,
                request,
            ),
    {
        self.cache_output_with(surface, CacheResidencyPriority::Normal, content)
    }

    /// Requests final-output caching with an explicit residency priority.
    pub fn cache_output_with(
        self,
        surface: &SurfaceHandle,
        priority: CacheResidencyPriority,
        content: &[&ContentChangeHandle],
    ) -> (layer: Self)
        ensures
            layer == (Layer { output_cache_request: layer.output_cache_request, ..self }),
            layer.output_cache_request matches Some(request) && surface.requests(
                content@,
                priority,
                request,
            ),
    {
        self.cache_output_request(surface.cache_request_with(priority, content))
    }

    /// Sets a previously constructed output-cache request.
    pub fn cache_output_request(self, request: CacheRequest) -> (layer: Self)
        ensures
            layer == (Layer { output_cache_request: Some(request), ..self }),
    {
        Layer { output_cache_request: Some(request), ..self }
    }
}

/// Full opacity is one.
pub proof fn full_opacity_is_one()
    ensures
        crate::rounding::units(ONE_BITS) == crate::rounding::one(),
        crate::float_bits::is_finite(ONE_BITS),
        !is_negative(ONE_BITS),
{
    vstd::arithmetic::power2::lemma2_to64();
    crate::rounding::powers_of_two_are_exact(ONE_BITS, 0);
}

/// An opacity is used as it is between zero and one, and else as the end that it lies beyond.
/// What is no number is not visible.
pub proof fn opacities_are_used_between_zero_and_one(bits: u32)
    ensures
        bits % 0x8000_0000 > 0x7f80_0000 ==> crate::rounding::units(unit_clamped(bits)) == 0,
        bits % 0x8000_0000 <= 0x7f80_0000 ==> crate::rounding::units(unit_clamped(bits)) == (
        if crate::rounding::units(bits) <= 0 {
            0
        } else if crate::rounding::units(bits) <= crate::rounding::one() {
            crate::rounding::units(bits)
        } else {
            crate::rounding::one()
        }),
{
    full_opacity_is_one();
    crate::rounding::limiting_clamps_values(bits, ONE_BITS);
    crate::rounding::zeroes_are_no_units(unit_clamped(bits));
    crate::rounding::zeroes_are_no_units(crate::float_bits::limited(bits, ONE_BITS));
}

/// A plain composite shows an output as it is: at full strength, over what is below, and on whole
/// pixels.
pub proof fn plain_composites_show_outputs_as_they_are()
    ensures
        Composite::plain().strength() == 0x3f80_0000,
        Composite::plain().blend() == BlendMode::SourceOver,
        Composite::plain().place() == CompositePositioning::Snapped,
{
}

/// Composites are equal exactly if their strength is the same number, and blend mode and
/// positioning are the same.
pub proof fn composites_are_equal_in_every_part(a: Composite, b: Composite)
    ensures
        PartialEqSpec::eq_spec(&a, &b) <==> {
            &&& a.strength() % 0x8000_0000 <= 0x7f80_0000
            &&& b.strength() % 0x8000_0000 <= 0x7f80_0000
            &&& a.strength() == b.strength() || (a.strength() % 0x8000_0000 == 0 && b.strength()
                % 0x8000_0000 == 0)
            &&& a.blend() == b.blend()
            &&& a.place() == b.place()
        },
{
}

/// Layers are equal exactly if their bounds, their content and their clip are the same numbers,
/// they are composited alike, depend alike on their place, and ask for equal outputs or for none.
pub proof fn layers_are_equal_in_every_part(a: Layer, b: Layer)
    ensures
        PartialEqSpec::eq_spec(&a, &b) ==> {
            &&& numerically_equal(a.bounds.x, b.bounds.x)
            &&& numerically_equal(a.bounds.width, b.bounds.width)
            &&& PartialEqSpec::eq_spec(&a.composite, &b.composite)
            &&& a.content_depends_on_translation == b.content_depends_on_translation
            &&& a.output_cache_request is Some <==> b.output_cache_request is Some
            &&& a.output_cache_request is Some ==> a.output_cache_request->0.slot()
                == b.output_cache_request->0.slot() && a.output_cache_request->0.evidence()
                == b.output_cache_request->0.evidence()
        },
        !numerically_equal_rectangles(a.bounds, b.bounds) ==> !PartialEqSpec::eq_spec(&a, &b),
        !numerically_equal_rectangles(a.content_bounds, b.content_bounds)
            ==> !PartialEqSpec::eq_spec(&a, &b),
        !numerically_equal_rectangles(a.clip, b.clip) ==> !PartialEqSpec::eq_spec(&a, &b),
        numerically_equal_rectangles(a.bounds, b.bounds) && numerically_equal_rectangles(
            a.content_bounds,
            b.content_bounds,
        ) && numerically_equal_rectangles(a.clip, b.clip) && PartialEqSpec::eq_spec(
            &a.composite,
            &b.composite,
        ) && a.content_depends_on_translation == b.content_depends_on_translation
            && a.output_cache_request == b.output_cache_request ==> PartialEqSpec::eq_spec(&a, &b),
{
}

} // verus!
