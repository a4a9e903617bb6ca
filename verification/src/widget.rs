//! What an isolating widget requests of its renderer.

use crate::content::{
    CacheKeepAlive, CacheResidencyPriority, ContentChangeHandle, SurfaceHandle,
};
use crate::context::CompositePositioning;
use crate::effect::{Effect, EffectStack, Stage};
use crate::float_bits::{
    canonical, canonical_bits, is_below, is_finite, is_valid_side, rank, ExpansionBits,
    RectangleBits,
};
use crate::request::{unit_clamped, Composite, Layer};
use vstd::prelude::*;

verus! {

/// Determines which widget traversal keeps retained isolated-layer values resident.
#[derive(Debug, Clone, Copy, PartialEq, Eq, Structural)]
pub enum CacheKeepAliveScope {
    /// Keeps pixels resident only while the retained producer is visibly recorded.
    VisibleOnly,
    /// Also marks pixels while redraw events reach the widget's update traversal.
    ///
    /// This is a best-effort policy. Event capture and widget-specific routing may prevent a
    /// mounted widget from receiving a redraw event; a visible producer still marks itself
    /// while drawing.
    KeepWhileRedrawVisited,
}

impl Default for CacheKeepAliveScope {
    fn default() -> (scope: Self)
        ensures
            scope == CacheKeepAliveScope::VisibleOnly,
    {
        CacheKeepAliveScope::VisibleOnly
    }
}

/// The output slot that a widget caches in, and how firmly it is kept.
#[derive(Debug)]
pub struct CacheConfig {
    pub surface: SurfaceHandle,
    pub priority: CacheResidencyPriority,
}

impl CacheConfig {
    /// Creates the configuration of a slot.
    pub fn new(surface: &SurfaceHandle, priority: CacheResidencyPriority) -> (config: Self)
        ensures
            config == (CacheConfig { surface: *surface, priority }),
    {
        CacheConfig { surface: surface.clone(), priority }
    }

    /// Returns the request that keeps the slot resident.
    pub fn keep_alive(&self) -> (keep_alive: CacheKeepAlive)
        ensures
            keep_alive.slot() == self.surface.slot(),
            keep_alive.residency() == self.priority,
    {
        self.surface.cache_keep_alive_with(self.priority)
    }
}

/// The bits of expanded bounds, with the edges and sums that decide whether they are used.
#[derive(Debug, Clone, Copy, PartialEq, Eq, Structural)]
pub struct Grown {
    pub x: u32,
    pub y: u32,
    pub width: u32,
    pub height: u32,
    /// The far edges.
    pub right: u32,
    pub bottom: u32,
    /// The origin and the extent added up.
    pub end_x: u32,
    pub end_y: u32,
}

/// Whether bounds are finite with an extent of at least zero.
pub open spec fn is_valid_content(bounds: RectangleBits) -> bool {
    &&& is_finite(bounds.x) && is_finite(bounds.y)
    &&& is_valid_side(bounds.width) && is_valid_side(bounds.height)
}

/// Whether grown bounds can be drawn: everything is finite, the extent is above zero and the
/// far edges do not lie before the origin.
pub open spec fn is_drawable(grown: Grown) -> bool {
    &&& is_finite(grown.x) && is_finite(grown.y)
    &&& is_finite(grown.width) && is_finite(grown.height)
    &&& is_finite(grown.right) && is_finite(grown.bottom)
    &&& is_finite(grown.end_x) && is_finite(grown.end_y)
    &&& rank(grown.width) > 0 && rank(grown.height) > 0
    &&& rank(grown.right) >= rank(grown.x) && rank(grown.bottom) >= rank(grown.y)
}

/// The bounds of a grown rectangle, with every negative zero replaced.
pub open spec fn grown_bounds(grown: Grown) -> RectangleBits {
    RectangleBits {
        x: canonical(grown.x),
        y: canonical(grown.y),
        width: canonical(grown.width),
        height: canonical(grown.height),
    }
}

fn finite(bits: u32) -> (finite: bool)
    ensures
        finite == is_finite(bits),
{
    bits % 0x8000_0000 < 0x7f80_0000
}

fn valid_side(bits: u32) -> (valid: bool)
    ensures
        valid == is_valid_side(bits),
{
    bits < 0x7f80_0000 || bits == 0x8000_0000
}

/// Whether `expanded` is the outcome of growing bounds by an expansion.
pub open spec fn expands_to<F: Fn(RectangleBits, ExpansionBits) -> Grown>(
    bounds: RectangleBits,
    expansion: ExpansionBits,
    grow: F,
    expanded: Option<RectangleBits>,
) -> bool {
    if !is_valid_content(bounds) || !expansion.valid() {
        expanded is None
    } else {
        exists|grown: Grown| #[trigger]
            call_ensures(grow, (bounds, expansion), grown) && expanded == (if is_drawable(grown) {
                Some(grown_bounds(grown))
            } else {
                None
            })
    }
}

/// Returns bounds grown by an expansion, if both are valid and so is the outcome.
///
/// `grow` answers the sums that decide it.
pub fn expanded<F: Fn(RectangleBits, ExpansionBits) -> Grown>(
    bounds: RectangleBits,
    expansion: ExpansionBits,
    grow: &F,
) -> (expanded: Option<RectangleBits>)
    requires
        forall|a: RectangleBits, b: ExpansionBits| call_requires(*grow, (a, b)),
    ensures
        expands_to(bounds, expansion, *grow, expanded),
{
    if !finite(bounds.x) || !finite(bounds.y) || !valid_side(bounds.width) || !valid_side(
        bounds.height,
    ) {
        return None;
    }
    if !valid_side(expansion.top) || !valid_side(expansion.right) || !valid_side(expansion.bottom)
        || !valid_side(expansion.left) {
        return None;
    }
    let grown = grow(bounds, expansion);
    assert(call_ensures(*grow, (bounds, expansion), grown));
    if !finite(grown.x) || !finite(grown.y) || !finite(grown.width) || !finite(grown.height)
        || !finite(grown.right) || !finite(grown.bottom) || !finite(grown.end_x) || !finite(
        grown.end_y,
    ) {
        return None;
    }
    if !is_below(0, grown.width) || !is_below(0, grown.height) || is_below(grown.right, grown.x)
        || is_below(grown.bottom, grown.y) {
        return None;
    }
    Some(
        RectangleBits {
            x: canonical_bits(grown.x),
            y: canonical_bits(grown.y),
            width: canonical_bits(grown.width),
            height: canonical_bits(grown.height),
        },
    )
}

/// The settings of a widget that captures its content in an isolated layer.
///
/// An ancestor viewport determines whether the layer is visible and clips the final
/// composite. Once visible, the complete expanded layer bounds are captured so retained
/// pixels remain valid if a later viewport exposes more of the same surface.
///
/// Effects run in order. Caching retains only the complete pre-composite output, and fails
/// closed without any observed content handle.
#[derive(Debug)]
pub struct IsolatedLayer {
    pub effects: EffectStack,
    pub composite: Composite,
    pub output_cache: Option<CacheConfig>,
    pub content_changes: Vec<ContentChangeHandle>,
    pub content_depends_on_translation: bool,
    pub cache_keep_alive_scope: CacheKeepAliveScope,
}

/// The handles behind a list of references.
pub open spec fn behind(changes: Seq<&ContentChangeHandle>) -> Seq<ContentChangeHandle> {
    changes.map_values(|handle: &ContentChangeHandle| *handle)
}

impl IsolatedLayer {
    /// Creates an isolated layer with an empty effect stack.
    pub fn new() -> (layer: Self)
        ensures
            layer.effects@ == Seq::<Stage>::empty(),
            layer.composite == Composite::plain(),
            layer.output_cache is None,
            layer.content_changes@ == Seq::<ContentChangeHandle>::empty(),
            !layer.content_depends_on_translation,
            layer.cache_keep_alive_scope == CacheKeepAliveScope::VisibleOnly,
    {
        IsolatedLayer {
            effects: EffectStack::new(),
            composite: Composite::default(),
            output_cache: None,
            content_changes: Vec::new(),
            content_depends_on_translation: false,
            cache_keep_alive_scope: CacheKeepAliveScope::default(),
        }
    }

    /// Creates an isolated layer with one effect.
    pub fn with_effect(effect: Effect) -> (layer: Self)
        ensures
            layer.effects@ == seq![effect@],
            layer.composite == Composite::plain(),
            layer.output_cache is None,
            layer.content_changes@ == Seq::<ContentChangeHandle>::empty(),
            !layer.content_depends_on_translation,
            layer.cache_keep_alive_scope == CacheKeepAliveScope::VisibleOnly,
    {
        let layer = IsolatedLayer::new().then_effect(effect);
        assert(layer.effects@ =~= seq![effect@]);
        layer
    }

    /// Appends an effect to the ordered effect stack.
    pub fn then_effect(self, effect: Effect) -> (layer: Self)
        ensures
            layer == (IsolatedLayer { effects: layer.effects, ..self }),
            layer.effects@ == self.effects@.push(effect@),
    {
        IsolatedLayer { effects: self.effects.with(effect), ..self }
    }

    /// Replaces the ordered effect stack.
    pub fn effects(self, effects: EffectStack) -> (layer: Self)
        ensures
            layer == (IsolatedLayer { effects, ..self }),
    {
        IsolatedLayer { effects, ..self }
    }

    /// Sets how the effect output is composed into the parent.
    pub fn composite(self, composite: Composite) -> (layer: Self)
        ensures
            layer == (IsolatedLayer { composite, ..self }),
    {
        IsolatedLayer { composite, ..self }
    }

    /// Sets how the completed layer is positioned in its parent.
    pub fn positioning(self, positioning: CompositePositioning) -> (layer: Self)
        ensures
            layer == (IsolatedLayer { composite: layer.composite, ..self }),
            layer.composite.place() == positioning,
            layer.composite.strength() == self.composite.strength(),
            layer.composite.blend() == self.composite.blend(),
    {
        IsolatedLayer { composite: self.composite.with_positioning(positioning), ..self }
    }

    /// Adds caller-managed child-content change evidence.
    pub fn observe_content_changes(self, changes: &ContentChangeHandle) -> (layer: Self)
        ensures
            layer == (IsolatedLayer { content_changes: layer.content_changes, ..self }),
            layer.content_changes@ == self.content_changes@.push(*changes),
    {
        let mut content_changes = self.content_changes;
        content_changes.push(changes.clone());
        IsolatedLayer { content_changes, ..self }
    }

    /// Adds several caller-managed child-content change handles.
    pub fn observe_content_changes_from(self, changes: &[&ContentChangeHandle]) -> (layer: Self)
        ensures
            layer == (IsolatedLayer { content_changes: layer.content_changes, ..self }),
            layer.content_changes@ == self.content_changes@ + behind(changes@),
    {
        let ghost before = self.content_changes@;
        let mut content_changes = self.content_changes;
        let mut index: usize = 0;
        while index < changes.len()
            invariant
                index <= changes@.len(),
                content_changes@ == before + behind(changes@).take(index as int),
            decreases changes@.len() - index,
        {
            content_changes.push(changes[index].clone());
            index = index + 1;
            assert(content_changes@ =~= before + behind(changes@).take(index as int));
        }
        assert(content_changes@ =~= before + behind(changes@));
        IsolatedLayer { content_changes, ..self }
    }

    /// Declares whether captured child pixels depend on absolute translation.
    ///
    /// Child content is translation invariant by default.
    pub fn content_depends_on_translation(self, depends: bool) -> (layer: Self)
        ensures
            layer == (IsolatedLayer { content_depends_on_translation: depends, ..self }),
    {
        IsolatedLayer { content_depends_on_translation: depends, ..self }
    }

    /// Requests final-output caching with normal residency priority.
    pub fn cache_output(self, surface: &SurfaceHandle) -> (layer: Self)
        ensures
            layer == (IsolatedLayer {
                output_cache: Some(
                    CacheConfig { surface: *surface, priority: CacheResidencyPriority::Normal },
                ),
                ..self
            }),
    {
        self.cache_output_with(surface, CacheResidencyPriority::Normal)
    }

    /// Requests final-output caching with protected residency priority.
    pub fn cache_output_protected(self, surface: &SurfaceHandle) -> (layer: Self)
        ensures
            layer == (IsolatedLayer {
                output_cache: Some(
                    CacheConfig { surface: *surface, priority: CacheResidencyPriority::Protected },
                ),
                ..self
            }),
    {
        self.cache_output_with(surface, CacheResidencyPriority::Protected)
    }

    /// Requests final-output caching with an explicit residency priority.
    pub fn cache_output_with(self, surface: &SurfaceHandle, priority: CacheResidencyPriority) -> (
    layer: Self)
        ensures
            layer == (IsolatedLayer {
                output_cache: Some(CacheConfig { surface: *surface, priority }),
                ..self
            }),
    {
        IsolatedLayer { output_cache: Some(CacheConfig::new(surface, priority)), ..self }
    }

    /// Sets the traversal policy used to keep the retained output resident.
    pub fn cache_keep_alive_scope(self, scope: CacheKeepAliveScope) -> (layer: Self)
        ensures
            layer == (IsolatedLayer { cache_keep_alive_scope: scope, ..self }),
    {
        IsolatedLayer { cache_keep_alive_scope: scope, ..self }
    }

    /// Keeps retained pixels only while the producer is visibly recorded.
    pub fn visible_only(self) -> (layer: Self)
        ensures
            layer == (IsolatedLayer {
                cache_keep_alive_scope: CacheKeepAliveScope::VisibleOnly,
                ..self
            }),
    {
        self.cache_keep_alive_scope(CacheKeepAliveScope::VisibleOnly)
    }

    /// Also keeps retained pixels resident while redraw events visit the widget.
    pub fn keep_while_redraw_visited(self) -> (layer: Self)
        ensures
            layer == (IsolatedLayer {
                cache_keep_alive_scope: CacheKeepAliveScope::KeepWhileRedrawVisited,
                ..self
            }),
    {
        self.cache_keep_alive_scope(CacheKeepAliveScope::KeepWhileRedrawVisited)
    }

    /// Returns the keep-alive that an event asks of the renderer.
    ///
    /// Only a redraw asks for one, and only under the wider scope and with a cached output.
    pub fn update(&self, redraw_requested: bool) -> (keep_alive: Option<CacheKeepAlive>)
        ensures
            match keep_alive {
                Some(keep_alive) => {
                    &&& redraw_requested
                    &&& self.cache_keep_alive_scope == CacheKeepAliveScope::KeepWhileRedrawVisited
                    &&& self.output_cache matches Some(config)
                    &&& keep_alive.slot() == config.surface.slot()
                    &&& keep_alive.residency() == config.priority
                },
                None => !redraw_requested || self.cache_keep_alive_scope
                    != CacheKeepAliveScope::KeepWhileRedrawVisited || self.output_cache is None,
            },
    {
        if redraw_requested && self.cache_keep_alive_scope
            == CacheKeepAliveScope::KeepWhileRedrawVisited {
            match &self.output_cache {
                Some(config) => Some(config.keep_alive()),
                None => None,
            }
        } else {
            None
        }
    }

    /// Whether `layer` is the request that drawing in the given bounds records.
    pub open spec fn records(
        self,
        content_bounds: RectangleBits,
        bounds: RectangleBits,
        clip: RectangleBits,
        layer: Layer,
    ) -> bool {
        &&& layer.wf()
        &&& layer.bounds == bounds
        &&& layer.content_bounds == content_bounds
        &&& layer.clip == clip
        &&& layer.composite == self.composite
        &&& layer.content_depends_on_translation == self.content_depends_on_translation
        &&& match self.output_cache {
            Some(config) => layer.output_cache_request matches Some(request)
                && config.surface.requests(
                self.content_changes@.map_values(|handle: ContentChangeHandle| &handle),
                config.priority,
                request,
            ),
            None => layer.output_cache_request is None,
        }
    }

    /// Whether `layer` is the outcome of drawing content in a viewport.
    pub open spec fn drawn<S, F, T>(
        self,
        content_bounds: RectangleBits,
        viewport: RectangleBits,
        total: S,
        grow: F,
        trim: T,
        layer: Option<Layer>,
    ) -> bool where
        S: Fn(&Vec<ExpansionBits>) -> ExpansionBits,
        F: Fn(RectangleBits, ExpansionBits) -> Grown,
        T: Fn(RectangleBits, RectangleBits) -> Option<RectangleBits>,
     {
        exists|expansion: Option<ExpansionBits>| #[trigger]
            self.effects.expands(total, expansion) && match expansion {
                None => layer is None,
                Some(expansion) => exists|bounds: Option<RectangleBits>| #[trigger]
                    expands_to(content_bounds, expansion, grow, bounds) && match bounds {
                        None => layer is None,
                        Some(bounds) => exists|clip: Option<RectangleBits>| #[trigger]
                            call_ensures(trim, (bounds, viewport), clip) && match clip {
                                None => layer is None,
                                Some(clip) => layer is Some && self.records(
                                    content_bounds,
                                    bounds,
                                    clip,
                                    layer->0,
                                ),
                            },
                    },
            }
    }

    /// Returns the layer that drawing content in a viewport records, if any of it is
    /// visible.
    ///
    /// `total` adds up the expansions of the effects, `grow` grows bounds by one, and `trim`
    /// intersects bounds with the viewport. The viewport decides about visibility and the
    /// final clip alone: what is captured does not depend on it.
    pub fn draw<S, F, T>(
        &self,
        content_bounds: RectangleBits,
        viewport: RectangleBits,
        total: &S,
        grow: &F,
        trim: &T,
    ) -> (layer: Option<Layer>) where
        S: Fn(&Vec<ExpansionBits>) -> ExpansionBits,
        F: Fn(RectangleBits, ExpansionBits) -> Grown,
        T: Fn(RectangleBits, RectangleBits) -> Option<RectangleBits>,

        requires
            forall|expansions: &Vec<ExpansionBits>| call_requires(*total, (expansions,)),
            forall|a: RectangleBits, b: ExpansionBits| call_requires(*grow, (a, b)),
            forall|a: RectangleBits, b: RectangleBits| call_requires(*trim, (a, b)),
        ensures
            self.drawn(content_bounds, viewport, *total, *grow, *trim, layer),
    {
        let expansion = self.effects.expansion(total);
        assert(self.effects.expands(*total, expansion));
        let expansion = match expansion {
            Some(expansion) => expansion,
            None => return None,
        };
        let bounds = expanded(content_bounds, expansion, grow);
        assert(expands_to(content_bounds, expansion, *grow, bounds));
        let bounds = match bounds {
            Some(bounds) => bounds,
            None => return None,
        };
        let clip = trim(bounds, viewport);
        assert(call_ensures(*trim, (bounds, viewport), clip));
        let clip = match clip {
            Some(clip) => clip,
            None => return None,
        };
        let layer = Layer::new(bounds, clip).content_bounds(content_bounds).composite(
            self.composite,
        ).content_depends_on_translation(self.content_depends_on_translation);
        match &self.output_cache {
            Some(config) => {
                let mut content: Vec<&ContentChangeHandle> = Vec::new();
                let mut index: usize = 0;
                let ghost all = self.content_changes@.map_values(
                    |handle: ContentChangeHandle| &handle,
                );
                while index < self.content_changes.len()
                    invariant
                        index <= self.content_changes@.len(),
                        all == self.content_changes@.map_values(
                            |handle: ContentChangeHandle| &handle,
                        ),
                        content@ == all.take(index as int),
                    decreases self.content_changes@.len() - index,
                {
                    content.push(&self.content_changes[index]);
                    index = index + 1;
                    assert(content@ =~= all.take(index as int));
                }
                assert(content@ =~= all);
                Some(layer.cache_output_with(&config.surface, config.priority, content.as_slice()))
            },
            None => Some(layer),
        }
    }
}

impl Default for IsolatedLayer {
    fn default() -> (layer: Self)
        ensures
            layer.effects@ == Seq::<Stage>::empty(),
            layer.composite == Composite::plain(),
            layer.output_cache is None,
            layer.content_changes@ == Seq::<ContentChangeHandle>::empty(),
            !layer.content_depends_on_translation,
            layer.cache_keep_alive_scope == CacheKeepAliveScope::VisibleOnly,
    {
        IsolatedLayer::new()
    }
}

/// Two viewports that both show some of a layer differ only in its final clip: what is
/// captured, and how it is composed, is the same.
pub proof fn viewports_only_change_the_clip(
    widget: IsolatedLayer,
    content_bounds: RectangleBits,
    bounds: RectangleBits,
    first_clip: RectangleBits,
    second_clip: RectangleBits,
    first: Layer,
    second: Layer,
)
    requires
        widget.records(content_bounds, bounds, first_clip, first),
        widget.records(content_bounds, bounds, second_clip, second),
    ensures
        first.bounds == second.bounds,
        first.content_bounds == second.content_bounds,
        first.composite == second.composite,
        first.content_depends_on_translation == second.content_depends_on_translation,
        first.output_cache_request is Some <==> second.output_cache_request is Some,
        first.output_cache_request is Some ==> first.output_cache_request->0.slot()
            == second.output_cache_request->0.slot(),
{
}

/// The settings of a widget that applies uniform group opacity.
#[derive(Debug)]
pub struct Opacity {
    pub composite: Composite,
}

impl Opacity {
    /// Creates an opacity group.
    pub fn new(opacity: u32) -> (group: Self)
        ensures
            group.composite.strength() == unit_clamped(opacity),
            group.composite.blend() == crate::context::BlendMode::SourceOver,
            group.composite.place() == CompositePositioning::Snapped,
    {
        Opacity { composite: Composite::source_over(opacity) }
    }

    /// Sets how the completed opacity group is positioned in its parent.
    pub fn positioning(self, positioning: CompositePositioning) -> (group: Self)
        ensures
            group.composite.place() == positioning,
            group.composite.strength() == self.composite.strength(),
            group.composite.blend() == self.composite.blend(),
    {
        Opacity { composite: self.composite.with_positioning(positioning) }
    }

    /// Returns the layer that drawing content in a viewport records, if any of it is
    /// visible.
    ///
    /// `trim` intersects bounds with the viewport.
    pub fn draw<T: Fn(RectangleBits, RectangleBits) -> Option<RectangleBits>>(
        &self,
        bounds: RectangleBits,
        viewport: RectangleBits,
        trim: &T,
    ) -> (layer: Option<Layer>)
        requires
            forall|a: RectangleBits, b: RectangleBits| call_requires(*trim, (a, b)),
        ensures
            exists|clip: Option<RectangleBits>| #[trigger]
                call_ensures(*trim, (bounds, viewport), clip) && match clip {
                    None => layer is None,
                    Some(clip) => layer == Some(
                        Layer {
                            bounds,
                            content_bounds: bounds,
                            clip,
                            composite: self.composite,
                            content_depends_on_translation: false,
                            output_cache_request: None,
                        },
                    ),
                },
    {
        let clip = trim(bounds, viewport);
        assert(call_ensures(*trim, (bounds, viewport), clip));
        match clip {
            Some(clip) => Some(Layer::new(bounds, clip).composite(self.composite)),
            None => None,
        }
    }
}

/// Bounds are grown only if they and the expansion are finite with sides of at least zero, and
/// what comes out is finite and covers something.
pub proof fn only_sound_bounds_are_grown<F: Fn(RectangleBits, ExpansionBits) -> Grown>(
    bounds: RectangleBits,
    expansion: ExpansionBits,
    grow: F,
    grown: RectangleBits,
)
    requires
        expands_to(bounds, expansion, grow, Some(grown)),
    ensures
        bounds.x % 0x8000_0000 < 0x7f80_0000 && bounds.y % 0x8000_0000 < 0x7f80_0000,
        bounds.width < 0x7f80_0000 || bounds.width == 0x8000_0000,
        bounds.height < 0x7f80_0000 || bounds.height == 0x8000_0000,
        expansion.top < 0x7f80_0000 || expansion.top == 0x8000_0000,
        expansion.right < 0x7f80_0000 || expansion.right == 0x8000_0000,
        expansion.bottom < 0x7f80_0000 || expansion.bottom == 0x8000_0000,
        expansion.left < 0x7f80_0000 || expansion.left == 0x8000_0000,
        grown.x % 0x8000_0000 < 0x7f80_0000 && grown.y % 0x8000_0000 < 0x7f80_0000,
        0 < grown.width < 0x7f80_0000,
        0 < grown.height < 0x7f80_0000,
        grown.x != 0x8000_0000 && grown.y != 0x8000_0000,
{
    crate::float_bits::valid_sides_are_finite_and_not_negative(bounds.width);
    crate::float_bits::valid_sides_are_finite_and_not_negative(bounds.height);
    crate::float_bits::valid_sides_are_finite_and_not_negative(expansion.top);
    crate::float_bits::valid_sides_are_finite_and_not_negative(expansion.right);
    crate::float_bits::valid_sides_are_finite_and_not_negative(expansion.bottom);
    crate::float_bits::valid_sides_are_finite_and_not_negative(expansion.left);
    let sums = choose|sums: Grown| #[trigger]
        call_ensures(grow, (bounds, expansion), sums) && Some(grown) == (if is_drawable(sums) {
            Some(grown_bounds(sums))
        } else {
            None
        });
    lemma_finite(bounds.x);
    lemma_finite(bounds.y);
    lemma_finite(sums.x);
    lemma_finite(sums.y);
    lemma_above_zero(sums.width);
    lemma_above_zero(sums.height);
}

proof fn lemma_finite(bits: u32)
    ensures
        is_finite(bits) ==> bits % 0x8000_0000 < 0x7f80_0000,
        is_finite(bits) ==> canonical(bits) % 0x8000_0000 < 0x7f80_0000,
        canonical(bits) != 0x8000_0000,
{
}

proof fn lemma_above_zero(bits: u32)
    ensures
        is_finite(bits) && rank(bits) > 0 ==> 0 < bits < 0x7f80_0000 && canonical(bits) == bits,
{
}

/// Sound bounds are grown by a sound expansion to just what the sums say, as long as those are
/// finite, cover something and do not turn the edges around.
pub proof fn sound_bounds_are_grown<F: Fn(RectangleBits, ExpansionBits) -> Grown>(
    bounds: RectangleBits,
    expansion: ExpansionBits,
    grow: F,
    sums: Grown,
    expanded: Option<RectangleBits>,
)
    requires
        expands_to(bounds, expansion, grow, expanded),
        forall|grown: Grown| #[trigger]
            call_ensures(grow, (bounds, expansion), grown) ==> grown == sums,
        bounds.x % 0x8000_0000 < 0x7f80_0000 && bounds.y % 0x8000_0000 < 0x7f80_0000,
        bounds.width < 0x7f80_0000,
        bounds.height < 0x7f80_0000,
        expansion.top < 0x7f80_0000 && expansion.right < 0x7f80_0000 && expansion.bottom
            < 0x7f80_0000 && expansion.left < 0x7f80_0000,
        sums.end_x % 0x8000_0000 < 0x7f80_0000 && sums.end_y % 0x8000_0000 < 0x7f80_0000,
        0 < sums.x <= sums.right < 0x7f80_0000,
        0 < sums.y <= sums.bottom < 0x7f80_0000,
        sums.width < 0x7f80_0000,
        sums.height < 0x7f80_0000,
    ensures
        sums.width > 0 && sums.height > 0 ==> expanded == Some(
            RectangleBits { x: sums.x, y: sums.y, width: sums.width, height: sums.height },
        ),
        sums.width == 0 || sums.height == 0 ==> expanded is None,
{
}

/// Grown bounds whose far edge lies before their origin are not drawn, nor are those with a sum
/// that is not finite.
pub proof fn reversed_bounds_are_not_drawn(grown: Grown)
    ensures
        is_drawable(grown) ==> is_finite(grown.end_x) && is_finite(grown.end_y),
        grown.right < grown.x < 0x8000_0000 ==> !is_drawable(grown),
        grown.bottom < grown.y < 0x8000_0000 ==> !is_drawable(grown),
        grown.right % 0x8000_0000 >= 0x7f80_0000 ==> !is_drawable(grown),
        grown.bottom % 0x8000_0000 >= 0x7f80_0000 ==> !is_drawable(grown),
        grown.end_x % 0x8000_0000 >= 0x7f80_0000 ==> !is_drawable(grown),
        grown.end_y % 0x8000_0000 >= 0x7f80_0000 ==> !is_drawable(grown),
{
}

/// A recorded layer carries the settings of its widget. It asks for a retained output exactly if
/// the widget caches one, then in the slot and at the priority of the widget, and watches every
/// handle that the widget observes.
pub proof fn recorded_layers_carry_their_settings(
    widget: IsolatedLayer,
    content_bounds: RectangleBits,
    bounds: RectangleBits,
    clip: RectangleBits,
    layer: Layer,
    i: int,
)
    requires
        widget.records(content_bounds, bounds, clip, layer),
    ensures
        layer.bounds == bounds,
        layer.content_bounds == content_bounds,
        layer.clip == clip,
        layer.composite == widget.composite,
        layer.content_depends_on_translation == widget.content_depends_on_translation,
        layer.output_cache_request is Some <==> widget.output_cache is Some,
        layer.output_cache_request matches Some(request) ==> {
            &&& request.slot() == widget.output_cache->0.surface.slot()
            &&& request.residency() == widget.output_cache->0.priority
            &&& 0 <= i < widget.content_changes@.len() ==> request.observed().contains(
                widget.content_changes@[i].id(),
            )
        },
{
    if layer.output_cache_request is Some && 0 <= i < widget.content_changes@.len() {
        let content = widget.content_changes@.map_values(|handle: ContentChangeHandle| &handle);
        assert(content[i] == &widget.content_changes@[i]);
        crate::content::requests_watch_all_their_content(
            widget.output_cache->0.surface,
            content,
            widget.output_cache->0.priority,
            layer.output_cache_request->0,
            0,
            i,
        );
    }
}

/// A drawn layer captures its content bounds grown by the expansion of its effects, and shows of
/// them what the viewport does.
pub proof fn drawn_layers_are_cut_to_the_viewport<S, F, T>(
    widget: IsolatedLayer,
    content_bounds: RectangleBits,
    viewport: RectangleBits,
    total: S,
    grow: F,
    trim: T,
    layer: Layer,
) where
    S: Fn(&Vec<ExpansionBits>) -> ExpansionBits,
    F: Fn(RectangleBits, ExpansionBits) -> Grown,
    T: Fn(RectangleBits, RectangleBits) -> Option<RectangleBits>,

    requires
        widget.drawn(content_bounds, viewport, total, grow, trim, Some(layer)),
    ensures
        call_ensures(trim, (layer.bounds, viewport), Some(layer.clip)),
        layer.content_bounds == content_bounds,
        exists|expansion: ExpansionBits|
            widget.effects.expands(total, Some(expansion)) && #[trigger] expands_to(
                content_bounds,
                expansion,
                grow,
                Some(layer.bounds),
            ),
        0 < layer.bounds.width < 0x7f80_0000,
        0 < layer.bounds.height < 0x7f80_0000,
{
    let expansion = choose|expansion: Option<ExpansionBits>| #[trigger]
        widget.effects.expands(total, expansion) && match expansion {
            None => false,
            Some(expansion) => exists|bounds: Option<RectangleBits>| #[trigger]
                expands_to(content_bounds, expansion, grow, bounds) && match bounds {
                    None => false,
                    Some(bounds) => exists|clip: Option<RectangleBits>| #[trigger]
                        call_ensures(trim, (bounds, viewport), clip) && match clip {
                            None => false,
                            Some(clip) => widget.records(content_bounds, bounds, clip, layer),
                        },
                },
        };
    only_sound_bounds_are_grown(content_bounds, expansion->0, grow, layer.bounds);
}

/// Content that something is visible of is drawn: only an expansion that is not sound, bounds
/// that cannot be grown, or a viewport that shows nothing keep it out.
pub proof fn visible_content_is_drawn<S, F, T>(
    widget: IsolatedLayer,
    content_bounds: RectangleBits,
    viewport: RectangleBits,
    total: S,
    grow: F,
    trim: T,
    layer: Option<Layer>,
) where
    S: Fn(&Vec<ExpansionBits>) -> ExpansionBits,
    F: Fn(RectangleBits, ExpansionBits) -> Grown,
    T: Fn(RectangleBits, RectangleBits) -> Option<RectangleBits>,

    requires
        widget.drawn(content_bounds, viewport, total, grow, trim, layer),
        !widget.effects.expands(total, None),
        forall|expansion: ExpansionBits| #[trigger]
            widget.effects.expands(total, Some(expansion)) ==> !expands_to(
                content_bounds,
                expansion,
                grow,
                None,
            ),
        forall|bounds: RectangleBits| !#[trigger] call_ensures(trim, (bounds, viewport), None),
    ensures
        layer is Some,
{
}

/// Handles are observed one by one, in order.
pub proof fn observed_handles_keep_their_order(changes: Seq<&ContentChangeHandle>, i: int)
    requires
        0 <= i < changes.len(),
    ensures
        behind(changes).len() == changes.len(),
        behind(changes)[i] == *changes[i],
{
}

} // verus!
