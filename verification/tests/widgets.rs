//! What isolating widgets request, and the effects they come with.

use isolated_layer::blur::{
    level_sizes, plan_chain, Blur, ChainMode, ChainStep, DualKawaseBlur, GaussianBlur,
};
use isolated_layer::content::{
    CacheResidencyPriority, ContentChangeHandle, IdentitySource, SurfaceHandle,
};
use isolated_layer::context::{BlendMode, CompositePositioning, PointBits};
use isolated_layer::effect::{Effect, EffectStack};
use isolated_layer::evidence::Requirements;
use isolated_layer::filters::{AlphaMask, ColorBits, DropShadow};
use isolated_layer::float_bits::{is_below, limit, ExpansionBits, RectangleBits};
use isolated_layer::geometry::Size;
use isolated_layer::kernel_cache::{KernelCache, CACHED_KERNELS};
use isolated_layer::request::{Composite, Layer};
use isolated_layer::widget::{
    expanded, CacheConfig, CacheKeepAliveScope, Grown, IsolatedLayer, Opacity,
};

const EXPANDING_NOOP: u64 = 1;
const GAUSSIAN: u64 = 2;
const SHADOW: u64 = 3;
const MASK: u64 = 4;
const KAWASE: u64 = 5;

fn area(x: f32, y: f32, width: f32, height: f32) -> RectangleBits {
    RectangleBits {
        x: x.to_bits(),
        y: y.to_bits(),
        width: width.to_bits(),
        height: height.to_bits(),
    }
}

fn padding(top: f32, right: f32, bottom: f32, left: f32) -> ExpansionBits {
    ExpansionBits {
        top: top.to_bits(),
        right: right.to_bits(),
        bottom: bottom.to_bits(),
        left: left.to_bits(),
    }
}

fn even_padding(value: f32) -> ExpansionBits {
    padding(value, value, value, value)
}

fn plus(a: u32, b: u32) -> u32 {
    (f32::from_bits(a) + f32::from_bits(b)).to_bits()
}

fn narrow(value: f64) -> u32 {
    if value.is_finite() && value.abs() <= f64::from(f32::MAX) {
        (value as f32).to_bits()
    } else {
        f32::NAN.to_bits()
    }
}

fn grow(bounds: RectangleBits, expansion: ExpansionBits) -> Grown {
    let wide = |bits: u32| f64::from(f32::from_bits(bits));
    let left = wide(bounds.x) - wide(expansion.left);
    let top = wide(bounds.y) - wide(expansion.top);
    let right = wide(bounds.x) + wide(bounds.width) + wide(expansion.right);
    let bottom = wide(bounds.y) + wide(bounds.height) + wide(expansion.bottom);
    let (x, y) = (narrow(left), narrow(top));
    let (width, height) = (narrow(right - left), narrow(bottom - top));
    Grown {
        x,
        y,
        width,
        height,
        right: narrow(right),
        bottom: narrow(bottom),
        end_x: plus(x, width),
        end_y: plus(y, height),
    }
}

fn total(expansions: &Vec<ExpansionBits>) -> ExpansionBits {
    let sum = |side: fn(&ExpansionBits) -> u32| {
        narrow(
            expansions
                .iter()
                .map(|expansion| f64::from(f32::from_bits(side(expansion))))
                .sum(),
        )
    };
    ExpansionBits {
        top: sum(|e| e.top),
        right: sum(|e| e.right),
        bottom: sum(|e| e.bottom),
        left: sum(|e| e.left),
    }
}

fn trim(a: RectangleBits, b: RectangleBits) -> Option<RectangleBits> {
    let value = f32::from_bits;
    let x = value(a.x).max(value(b.x));
    let y = value(a.y).max(value(b.y));
    let right = (value(a.x) + value(a.width)).min(value(b.x) + value(b.width));
    let bottom = (value(a.y) + value(a.height)).min(value(b.y) + value(b.height));
    (right - x > 0.0 && bottom - y > 0.0).then_some(area(x, y, right - x, bottom - y))
}

fn draw(layer: &IsolatedLayer, content: RectangleBits, viewport: RectangleBits) -> Option<Layer> {
    layer.draw(content, viewport, &total, &grow, &trim)
}

fn expanding_noop() -> Effect {
    Effect::new(EXPANDING_NOOP)
        .pass(Requirements::new())
        .expand(padding(4.0, 3.0, 5.0, 2.0))
}

#[test]
fn expands_asymmetrically() {
    assert_eq!(
        expanded(
            area(10.0, 20.0, 30.0, 40.0),
            padding(1.0, 2.0, 3.0, 4.0),
            &grow
        ),
        Some(area(6.0, 19.0, 36.0, 44.0))
    );
}

#[test]
fn expanded_bounds_reject_invalid_or_overflowing_geometry() {
    let bounds = area(10.0, 20.0, 30.0, 40.0);

    for invalid in [f32::NAN, f32::INFINITY, f32::NEG_INFINITY, -1.0] {
        assert!(expanded(bounds, even_padding(invalid), &grow).is_none());
    }

    assert!(expanded(
        area(0.0, 0.0, f32::MAX, 1.0),
        even_padding(f32::MAX),
        &grow
    )
    .is_none());
    assert!(expanded(
        area(f32::MAX, 0.0, 1.0, 1.0),
        even_padding(0.0),
        &grow
    )
    .is_none());
    assert!(expanded(area(0.0, 0.0, 0.0, 1.0), even_padding(0.0), &grow).is_none());
    assert!(expanded(area(0.0, 0.0, -1.0, 1.0), even_padding(4.0), &grow).is_none());
}

#[test]
fn positioning_defaults_to_snapped_and_survives_unrelated_builders() {
    let default = IsolatedLayer::new();

    assert_eq!(
        default.composite.positioning(),
        CompositePositioning::Snapped
    );

    let surface = SurfaceHandle::new(&mut IdentitySource::new());
    let configured = default
        .composite(Composite::additive(0.25f32.to_bits()))
        .positioning(CompositePositioning::Subpixel)
        .cache_output(&surface)
        .cache_keep_alive_scope(CacheKeepAliveScope::KeepWhileRedrawVisited)
        .then_effect(expanding_noop());

    assert_eq!(f32::from_bits(configured.composite.opacity()), 0.25);
    assert_eq!(configured.composite.blend_mode(), BlendMode::Add);
    assert_eq!(
        configured.composite.positioning(),
        CompositePositioning::Subpixel
    );
    assert!(configured.output_cache.is_some());
    assert_eq!(
        configured.cache_keep_alive_scope,
        CacheKeepAliveScope::KeepWhileRedrawVisited
    );
}

#[test]
fn heterogeneous_effects_share_one_nongeneric_layer_and_preserve_output_cache() {
    let surface = SurfaceHandle::new(&mut IdentitySource::new());
    let layer = IsolatedLayer::with_effect(expanding_noop())
        .cache_output(&surface)
        .then_effect(GaussianBlur::new(2.0f32.to_bits()).effect(GAUSSIAN));

    assert!(layer.output_cache.is_some());
    assert_eq!(layer.effects.len(), 2);
}

#[test]
fn child_content_is_translation_invariant_by_default_and_can_opt_in() {
    let default = IsolatedLayer::new();
    let dependent = IsolatedLayer::new().content_depends_on_translation(true);

    assert!(!default.content_depends_on_translation);
    assert!(dependent.content_depends_on_translation);
}

#[test]
fn partial_visibility_only_changes_the_final_layer_clip() {
    let layer = IsolatedLayer::with_effect(expanding_noop())
        .positioning(CompositePositioning::Subpixel);
    let content = area(10.0, 20.0, 16.0, 16.0);
    let bounds =
        expanded(content, padding(4.0, 3.0, 5.0, 2.0), &grow).expect("valid expanded bounds");
    let narrow_viewport = area(0.0, 35.0, 100.0, 4.0);
    let wider_viewport = area(0.0, 28.0, 100.0, 11.0);

    let first = draw(&layer, content, narrow_viewport).expect("visible layer");
    let second = draw(&layer, content, wider_viewport).expect("visible layer");

    assert_eq!(first.bounds, bounds);
    assert_eq!(second.bounds, bounds);
    assert_eq!(Some(first.clip), trim(bounds, narrow_viewport));
    assert_eq!(Some(second.clip), trim(bounds, wider_viewport));
    for layer in [first, second] {
        assert_eq!(layer.content_bounds, content);
        assert_eq!(
            layer.composite.positioning(),
            CompositePositioning::Subpixel
        );
    }
}

#[test]
fn fully_culled_layer_does_not_draw_its_child() {
    let layer = IsolatedLayer::new();

    assert!(draw(
        &layer,
        area(0.0, 0.0, 16.0, 16.0),
        area(0.0, 20.0, 16.0, 8.0)
    )
    .is_none());
}

#[test]
fn invalid_effect_expansion_culls_before_recording_the_child() {
    let layer = IsolatedLayer::with_effect(
        Effect::new(9)
            .pass(Requirements::new())
            .expand(even_padding(f32::NAN)),
    );
    let bounds = area(0.0, 0.0, 16.0, 16.0);

    assert!(draw(&layer, bounds, bounds).is_none());
}

#[test]
fn cache_config_keeps_only_output_slot_residency() {
    let surface = SurfaceHandle::new(&mut IdentitySource::new());
    let config = CacheConfig::new(&surface, CacheResidencyPriority::Protected);
    let keep_alive = config.keep_alive();

    assert_eq!(keep_alive.identity(), surface.identity());
    assert_eq!(keep_alive.priority(), CacheResidencyPriority::Protected);
}

#[test]
fn update_keep_alive_and_draw_use_separate_slot_and_content_handles() {
    let mut identities = IdentitySource::new();
    let surface = SurfaceHandle::new(&mut identities);
    let first = ContentChangeHandle::new(&mut identities);
    let second = ContentChangeHandle::new(&mut identities);
    // Scope builders deliberately work before caching is configured.
    let layer = IsolatedLayer::new()
        .keep_while_redraw_visited()
        .observe_content_changes_from(&[&second, &first, &second])
        .cache_output_with(&surface, CacheResidencyPriority::Protected);

    let _ = first.mark_changed();

    let bounds = area(0.0, 0.0, 16.0, 16.0);
    let keep_alive = layer.update(true).expect("keep-alive");
    let drawn = draw(&layer, bounds, bounds).expect("visible layer");
    let cache_request = drawn
        .output_cache_request
        .as_ref()
        .expect("draw cache request");

    assert_eq!(keep_alive.identity(), cache_request.identity());
    assert_eq!(keep_alive.priority(), cache_request.priority());
    assert_eq!(keep_alive.priority(), CacheResidencyPriority::Protected);
    assert_eq!(
        cache_request.revisions(),
        &[first.revision(), second.revision()]
    );
}

#[test]
fn visible_only_scope_never_emits_an_explicit_keep_alive() {
    let mut identities = IdentitySource::new();
    let surface = SurfaceHandle::new(&mut identities);
    let content = ContentChangeHandle::new(&mut identities);
    let layer = IsolatedLayer::new()
        .keep_while_redraw_visited()
        .observe_content_changes(&content)
        .cache_output(&surface)
        .visible_only();
    let bounds = area(0.0, 0.0, 16.0, 16.0);

    assert!(layer.update(true).is_none());
    assert!(draw(&layer, bounds, bounds).is_some());
}

#[test]
fn output_cache_without_content_evidence_is_forwarded_fail_closed() {
    let surface = SurfaceHandle::new(&mut IdentitySource::new());
    let layer = IsolatedLayer::new().cache_output(&surface);
    let bounds = area(0.0, 0.0, 16.0, 16.0);

    let drawn = draw(&layer, bounds, bounds).expect("visible layer");
    let request = drawn
        .output_cache_request
        .as_ref()
        .expect("output cache request");
    assert!(!request.has_content_evidence());
    assert!(!request.is_current());
}

#[test]
fn keep_alive_scope_ignores_non_redraw_events() {
    let mut identities = IdentitySource::new();
    let surface = SurfaceHandle::new(&mut identities);
    let content = ContentChangeHandle::new(&mut identities);
    let layer = IsolatedLayer::new()
        .observe_content_changes(&content)
        .cache_output(&surface)
        .keep_while_redraw_visited();

    assert!(layer.update(false).is_none());
}

#[test]
fn output_slot_identity_is_independent_from_content_evidence() {
    let mut identities = IdentitySource::new();
    let surface = SurfaceHandle::new(&mut identities);
    let content = ContentChangeHandle::new(&mut identities);
    let layer = IsolatedLayer::with_effect(expanding_noop())
        .observe_content_changes(&content)
        .cache_output_protected(&surface)
        .keep_while_redraw_visited();
    let _ = content.mark_changed();
    let bounds = area(0.0, 0.0, 16.0, 16.0);

    assert!(layer.update(true).is_some());
    let drawn = draw(&layer, bounds, bounds).expect("visible layer");
    let request = drawn
        .output_cache_request
        .as_ref()
        .expect("output cache request");
    assert_eq!(request.identity(), surface.identity());
    assert_eq!(request.priority(), CacheResidencyPriority::Protected);
    assert_eq!(request.revisions(), &[content.revision()]);
}

#[test]
fn positioning_defaults_to_snapped_and_preserves_opacity() {
    let opacity = Opacity::new(0.4f32.to_bits());

    assert_eq!(
        opacity.composite.positioning(),
        CompositePositioning::Snapped
    );

    let opacity = opacity.positioning(CompositePositioning::Subpixel);

    assert_eq!(f32::from_bits(opacity.composite.opacity()), 0.4);
    assert_eq!(
        opacity.composite.positioning(),
        CompositePositioning::Subpixel
    );
}

#[test]
fn partial_visibility_only_changes_the_final_opacity_clip() {
    let opacity = Opacity::new(0.5f32.to_bits()).positioning(CompositePositioning::Subpixel);
    let bounds = area(10.0, 20.0, 16.0, 16.0);
    let narrow_viewport = area(0.0, 32.0, 100.0, 4.0);
    let wider_viewport = area(0.0, 26.0, 100.0, 10.0);
    let culled_viewport = area(0.0, 40.0, 100.0, 4.0);

    let first = opacity
        .draw(bounds, narrow_viewport, &trim)
        .expect("visible group");
    let second = opacity
        .draw(bounds, wider_viewport, &trim)
        .expect("visible group");
    assert!(opacity.draw(bounds, culled_viewport, &trim).is_none());

    assert_eq!(first.bounds, bounds);
    assert_eq!(second.bounds, bounds);
    assert_eq!(Some(first.clip), trim(bounds, narrow_viewport));
    assert_eq!(Some(second.clip), trim(bounds, wider_viewport));
    for layer in [first, second] {
        assert_eq!(
            layer.composite.positioning(),
            CompositePositioning::Subpixel
        );
        assert!(layer.output_cache_request.is_none());
    }
}

#[test]
fn settings_are_canonical_and_depth_is_independent_of_radius() {
    assert_eq!(
        DualKawaseBlur::default(),
        DualKawaseBlur::new(0.0f32.to_bits())
    );
    for radius in [f32::NAN, f32::NEG_INFINITY, -1.0, -0.0] {
        assert_eq!(
            DualKawaseBlur::new(f32::to_bits(radius)).radius(),
            0.0f32.to_bits()
        );
    }
    assert_eq!(
        f32::from_bits(DualKawaseBlur::new(f32::INFINITY.to_bits()).radius()),
        128.0
    );
    let one = DualKawaseBlur::new(1.0f32.to_bits());
    assert_eq!(one.pyramid_depth(0).depth(), 1);
    assert_eq!(one.pyramid_depth(u32::MAX).depth(), 8);
    for radius in [0.0, 0.01, 1.0, 128.0] {
        assert_eq!(DualKawaseBlur::new(f32::to_bits(radius)).depth(), 3);
    }
}

#[test]
fn dimensions_are_ceil_halved_and_stop_at_one() {
    assert_eq!(
        level_sizes(Size::new(19, 11), 8),
        [
            Size::new(10, 6),
            Size::new(5, 3),
            Size::new(3, 2),
            Size::new(2, 1),
            Size::new(1, 1),
        ]
    );
    assert!(level_sizes(Size::new(1, 1), 8).is_empty());
}

#[test]
fn guard_bands_grow_with_radius_and_depth() {
    for radius in [0.0f32, 0.001, 0.3, 1.0, 12.5, 128.0] {
        for depth in 1..=8u32 {
            let blur = DualKawaseBlur::new(radius.to_bits()).pyramid_depth(depth);
            let expected = if radius == 0.0 {
                0.0
            } else {
                (4.0 * radius + 6.0 * ((1 << depth) - 1) as f32).ceil()
            };
            assert_eq!(f32::from_bits(blur.padding(&plus)), expected);
            let effect = blur.effect(KAWASE, &plus);
            assert_eq!(effect.expansion(), even_padding(expected));
            assert_eq!(effect.passes_len(), usize::from(radius > 0.0));
        }
    }
}

#[test]
fn pyramids_descend_and_ascend_without_sampling_their_attachment() {
    let levels = level_sizes(Size::new(16, 8), 3);
    assert_eq!(
        levels,
        [Size::new(8, 4), Size::new(4, 2), Size::new(2, 1)]
    );
    let plan = plan_chain(&levels, false);
    assert_eq!(
        plan.textures,
        [
            Size::new(8, 4),
            Size::new(4, 2),
            Size::new(2, 1),
            Size::new(4, 2),
            Size::new(8, 4)
        ]
    );
    let step = |source, original, output, weight, mode| ChainStep {
        source,
        original,
        output,
        weight,
        mode,
    };
    assert_eq!(
        plan.steps,
        [
            step(None, None, Some(0), 0, ChainMode::Down),
            step(Some(0), None, Some(1), 0, ChainMode::Down),
            step(Some(1), None, Some(2), 0, ChainMode::Down),
            step(Some(2), Some(1), Some(3), 2, ChainMode::Up),
            step(Some(3), Some(0), Some(4), 1, ChainMode::Up),
            step(Some(4), None, None, 0, ChainMode::Blur),
        ]
    );

    let single = plan_chain(&Vec::new(), true);
    assert!(single.textures.is_empty());
    assert_eq!(
        single.steps,
        [step(None, None, None, 0, ChainMode::Shadow)]
    );
}

fn shadow(blur: Blur) -> DropShadow {
    DropShadow {
        color: ColorBits {
            red: 0.0f32.to_bits(),
            green: 0.0f32.to_bits(),
            blue: 0.0f32.to_bits(),
            alpha: 1.0f32.to_bits(),
        },
        offset: PointBits {
            x: (-2.0f32).to_bits(),
            y: 3.0f32.to_bits(),
        },
        blur,
    }
}

#[test]
fn public_fields_normalize_like_the_constructor_including_cache_evidence() {
    assert_eq!(GaussianBlur::default(), GaussianBlur::new(0.0f32.to_bits()));
    for (radius, expected) in [
        (f32::NAN, 0.0f32),
        (f32::NEG_INFINITY, 0.0),
        (-10.0, 0.0),
        (-0.0, 0.0),
        (0.25, 0.25),
        (128.0, 128.0),
        (129.0, 128.0),
        (f32::INFINITY, 128.0),
    ] {
        let literal = GaussianBlur {
            radius: f32::to_bits(radius),
        };
        let canonical = GaussianBlur::new(f32::to_bits(radius));
        assert_eq!(canonical.radius, expected.to_bits());
        assert_eq!(literal.normalized(), canonical);
        assert_eq!(
            literal.effect(GAUSSIAN).expansion(),
            even_padding(expected.ceil())
        );
        assert_eq!(
            EffectStack::from_effect(literal.effect(GAUSSIAN)).input_evidence(),
            EffectStack::from_effect(canonical.effect(GAUSSIAN)).input_evidence(),
        );

        assert_eq!(
            shadow(Blur::Gaussian(literal)).expansion(&plus),
            padding(
                expected.ceil(),
                expected.ceil(),
                expected.ceil() + 3.0,
                expected.ceil() + 2.0,
            )
        );
        assert_eq!(
            EffectStack::from_effect(shadow(Blur::Gaussian(literal)).effect(SHADOW, &plus))
                .input_evidence(),
            EffectStack::from_effect(shadow(Blur::Gaussian(canonical)).effect(SHADOW, &plus))
                .input_evidence(),
        );
    }
}

#[test]
fn radius_changes_invalidate_standalone_and_shadow_caches() {
    let original = GaussianBlur::new(3.0f32.to_bits());
    for changed in [
        GaussianBlur::new(3.01f32.to_bits()),
        GaussianBlur::new(0.0f32.to_bits()),
    ] {
        assert_ne!(
            EffectStack::from_effect(original.effect(GAUSSIAN)).input_evidence(),
            EffectStack::from_effect(changed.effect(GAUSSIAN)).input_evidence(),
        );
        let shadow = |blur| DropShadow {
            blur: Blur::Gaussian(blur),
            ..DropShadow::default()
        };
        assert_ne!(
            EffectStack::from_effect(shadow(original).effect(SHADOW, &plus)).input_evidence(),
            EffectStack::from_effect(shadow(changed).effect(SHADOW, &plus)).input_evidence(),
        );
    }
}

#[test]
fn shadows_plan_their_blur_and_one_more_pass() {
    let passes = |blur| shadow(blur).effect(SHADOW, &plus).passes_len();
    assert_eq!(passes(Blur::Gaussian(GaussianBlur::new(2.0f32.to_bits()))), 3);
    assert_eq!(passes(Blur::default()), 1);
    assert_eq!(passes(Blur::DualKawase(DualKawaseBlur::default())), 1);
    assert_eq!(
        passes(Blur::DualKawase(DualKawaseBlur::new(9.0f32.to_bits()))),
        1
    );
}

#[test]
fn masks_limit_their_fades_and_need_no_space() {
    let mask = AlphaMask::new(
        f32::NAN.to_bits(),
        5_000.0f32.to_bits(),
        (-1.0f32).to_bits(),
        12.5f32.to_bits(),
    );
    assert_eq!(f32::from_bits(mask.top), 0.0);
    assert_eq!(f32::from_bits(mask.right), 4_096.0);
    assert_eq!(f32::from_bits(mask.bottom), 0.0);
    assert_eq!(f32::from_bits(mask.left), 12.5);
    assert_eq!(
        AlphaMask::vertical(1.0f32.to_bits(), 2.0f32.to_bits()),
        AlphaMask::new(1.0f32.to_bits(), 0, 2.0f32.to_bits(), 0)
    );
    let effect = mask.effect(MASK);
    assert_eq!(effect.passes_len(), 1);
    assert!(effect.pass_requirements(0).fully_overwrites());
    assert_eq!(effect.expansion(), even_padding(0.0));
    assert_eq!(AlphaMask::default(), AlphaMask::new(0, 0, 0, 0));
}

#[test]
fn kernels_are_reused_and_bounded() {
    let mut cache: KernelCache<u32> = KernelCache::new();
    let mut next = 0;
    let mut kernel = |cache: &mut KernelCache<u32>, radius: f32| {
        next += 1;
        let number = next;
        *cache.kernel(radius.to_bits(), move |_| number)
    };
    let first = kernel(&mut cache, 30.0);
    assert_eq!(kernel(&mut cache, 30.0), first);
    let scaled = kernel(&mut cache, 60.0);
    assert_ne!(first, scaled);
    for radius in 1..=29 {
        let _ = kernel(&mut cache, radius as f32);
    }
    assert_eq!(cache.len(), CACHED_KERNELS);
    assert_ne!(kernel(&mut cache, 30.0), first);

    // The least recently used kernel leaves, not the oldest one.
    let mut cache: KernelCache<u32> = KernelCache::default();
    let kept = kernel(&mut cache, 1.0);
    for radius in 2..=8 {
        let _ = kernel(&mut cache, radius as f32);
    }
    assert_eq!(kernel(&mut cache, 1.0), kept);
    let _ = kernel(&mut cache, 9.0);
    assert_eq!(kernel(&mut cache, 1.0), kept);
}

#[test]
fn comparisons_follow_the_machine() {
    let values = [
        f32::NEG_INFINITY,
        -2.5,
        -0.0,
        0.0,
        1.0e-45,
        0.5,
        128.0,
        f32::INFINITY,
        f32::NAN,
    ];
    for a in values {
        for b in values {
            assert_eq!(is_below(a.to_bits(), b.to_bits()), a < b, "{a} < {b}");
        }
        let limited = f32::from_bits(limit(a.to_bits(), 100.0f32.to_bits()));
        let expected = if a.is_nan() { 0.0 } else { a.clamp(0.0, 100.0) };
        assert_eq!(limited, expected);
    }
}
