//! Captured regions, their placement and their final composition.

use isolated_layer::capture::{bounded_with_grid, valid_rectangle, Projection, Raster};
use isolated_layer::composition::{
    backdrop_pass, composite_pass, composite_variant, Storage, SubpixelBlend, SubpixelBlit, Variant,
};
use isolated_layer::context::{
    capture_grid, BlendMode, CaptureGrid, CompositePositioning, Context, Placement, PointBits,
    ScaleBits, SizeBits,
};
use isolated_layer::float_bits::RectangleBits;
use isolated_layer::format::TextureFormat;
use isolated_layer::geometry::{intersect, Capture, Rectangle, Size};
use isolated_layer::request::Composite;
use isolated_layer::rounding::{ceil_bits, checked_ceil, checked_floor, checked_round, whole_bits};

fn edge_weight(position: f32, extent: f32) -> f32 {
    (position.min(extent - position) + 0.5).clamp(0.0, 1.0)
}

#[test]
fn transparent_border_weights_are_exact_at_edges_and_centers() {
    let extent = 8.0;

    assert_eq!(edge_weight(-0.5, extent), 0.0);
    assert_eq!(edge_weight(-0.25, extent), 0.25);
    assert_eq!(edge_weight(0.0, extent), 0.5);
    assert_eq!(edge_weight(0.25, extent), 0.75);
    assert_eq!(edge_weight(0.5, extent), 1.0);
    assert_eq!(edge_weight(4.5, extent), 1.0);
    assert_eq!(edge_weight(7.5, extent), 1.0);
    assert_eq!(edge_weight(8.0, extent), 0.5);
    assert_eq!(edge_weight(8.25, extent), 0.25);
    assert_eq!(edge_weight(8.5, extent), 0.0);
}

#[test]
fn corner_coverage_factors_into_axis_weights() {
    assert_eq!(edge_weight(-0.25, 8.0) * edge_weight(0.25, 8.0), 0.1875);
    assert_eq!(edge_weight(0.5, 8.0) * edge_weight(7.5, 8.0), 1.0);
}

#[derive(Clone, Copy, Debug, PartialEq)]
struct Bounds {
    x: f32,
    y: f32,
    width: f32,
    height: f32,
}

fn bounds(x: f32, y: f32, width: f32, height: f32) -> Bounds {
    Bounds {
        x,
        y,
        width,
        height,
    }
}

impl Bounds {
    fn bits(self) -> RectangleBits {
        RectangleBits {
            x: self.x.to_bits(),
            y: self.y.to_bits(),
            width: self.width.to_bits(),
            height: self.height.to_bits(),
        }
    }

    fn from_bits(bits: RectangleBits) -> Self {
        bounds(
            f32::from_bits(bits.x),
            f32::from_bits(bits.y),
            f32::from_bits(bits.width),
            f32::from_bits(bits.height),
        )
    }

    fn intersection(self, other: Self) -> Option<Self> {
        let x = self.x.max(other.x);
        let y = self.y.max(other.y);
        let right = (self.x + self.width).min(other.x + other.width);
        let bottom = (self.y + self.height).min(other.y + other.height);
        let width = right - x;
        let height = bottom - y;

        (width > 0.0 && height > 0.0).then_some(bounds(x, y, width, height))
    }
}

fn rectangle(x: u32, y: u32, width: u32, height: u32) -> Rectangle {
    Rectangle {
        x,
        y,
        width,
        height,
    }
}

fn root(width: f32, height: f32, scale_factor: f32) -> Context {
    Context::root(
        Size::new((width * scale_factor) as u32, (height * scale_factor) as u32),
        SizeBits {
            width: width.to_bits(),
            height: height.to_bits(),
        },
        scale_factor.to_bits(),
        ScaleBits {
            window: scale_factor.to_bits(),
            application: 1.0f32.to_bits(),
        },
        TextureFormat::Rgba8Unorm,
    )
}

fn transform(context: &Context) -> (f32, f32, f32) {
    (
        f32::from_bits(context.scale_factor_bits),
        f32::from_bits(context.translation_bits.x),
        f32::from_bits(context.translation_bits.y),
    )
}

fn trim(a: RectangleBits, b: RectangleBits) -> Option<RectangleBits> {
    Bounds::from_bits(a)
        .intersection(Bounds::from_bits(b))
        .map(Bounds::bits)
}

fn scaled_and_moved(area: RectangleBits, scale: u32, translation: PointBits) -> RectangleBits {
    let area = Bounds::from_bits(area);
    let scale = f32::from_bits(scale);
    bounds(
        area.x * scale + f32::from_bits(translation.x),
        area.y * scale + f32::from_bits(translation.y),
        area.width * scale,
        area.height * scale,
    )
    .bits()
}

fn plus(a: u32, b: u32) -> u32 {
    (f32::from_bits(a) + f32::from_bits(b)).to_bits()
}

fn snap(area: RectangleBits) -> Option<Rectangle> {
    let area = Bounds::from_bits(area);
    let x = area.x.round() as u32;
    let y = area.y.round() as u32;
    let right = (area.x + area.width).round() as u32;
    let bottom = (area.y + area.height).round() as u32;
    (right > x && bottom > y).then_some(rectangle(x, y, right - x, bottom - y))
}

fn project(context: &Context, area: Bounds) -> Bounds {
    let (scale, x, y) = transform(context);
    bounds(
        area.x * scale + x,
        area.y * scale + y,
        area.width * scale,
        area.height * scale,
    )
}

fn bounded(requested: Bounds, parent: &Context, grid: CaptureGrid) -> Option<Context> {
    let (scale, translation_x, translation_y) = transform(parent);
    bounded_with_grid(
        requested.bits(),
        parent,
        grid,
        &|a, b| {
            Bounds::from_bits(a)
                .intersection(Bounds::from_bits(b))
                .map(Bounds::bits)
        },
        &|area| {
            let physical = project(parent, Bounds::from_bits(area));
            Projection {
                x: physical.x.to_bits(),
                y: physical.y.to_bits(),
                width: physical.width.to_bits(),
                height: physical.height.to_bits(),
                right: (physical.x + physical.width).to_bits(),
                bottom: (physical.y + physical.height).to_bits(),
            }
        },
        &plus,
        &|requested: RectangleBits, origin: PointBits, capture: Capture| {
            let (x, y) = (f32::from_bits(origin.x), f32::from_bits(origin.y));
            let (moved_x, moved_y) = (translation_x - x, translation_y - y);
            let represented = bounds(
                -moved_x / scale,
                -moved_y / scale,
                capture.source.width as f32 / scale,
                capture.source.height as f32 / scale,
            );
            let content = Bounds::from_bits(requested);
            Raster {
                translation: PointBits {
                    x: moved_x.to_bits(),
                    y: moved_y.to_bits(),
                },
                represented_bounds: represented.bits(),
                relative_content: bounds(
                    content.x - represented.x,
                    content.y - represented.y,
                    content.width,
                    content.height,
                )
                .bits(),
            }
        },
    )
}

fn origin(context: &Context) -> (f32, f32) {
    let origin = context.placement.exact_origin();
    (f32::from_bits(origin.x), f32::from_bits(origin.y))
}

fn position(context: &Context, area: Bounds) -> (f32, f32) {
    let physical = project(context, area);
    (physical.x, physical.y)
}

fn assert_point_close(actual: (f32, f32), expected: (f32, f32)) {
    assert!(
        (actual.0 - expected.0).abs() < 0.001 && (actual.1 - expected.1).abs() < 0.001,
        "expected {expected:?}, got {actual:?}"
    );
}

#[test]
fn transient_context_preserves_existing_localization() {
    let root = root(800.0, 600.0, 2.0);

    let mut context = bounded(
        bounds(10.25, 20.25, 30.0, 40.0),
        &root,
        CaptureGrid::ParentAligned,
    )
    .expect("bounded context");
    context.set_backing_extent(Size::new(64, 128));

    assert_eq!(context.placement.snapped(), rectangle(20, 40, 61, 81));
    assert_eq!(context.source_rect, Rectangle::with_size(Size::new(61, 81)));
    assert_eq!(context.physical_viewport(), Size::new(61, 81));
    assert_eq!(context.backing_extent(), Size::new(64, 128));
    assert_eq!(
        context.local_scissor(
            context.represented_bounds,
            &trim,
            &scaled_and_moved,
            &snap
        ),
        Some(rectangle(0, 0, 61, 81))
    );
    let uv = context.valid_uv(&|a, b| (a as f32 / b as f32).to_bits());
    assert_eq!(
        [f32::from_bits(uv.x), f32::from_bits(uv.y)],
        [61.0 / 64.0, 81.0 / 128.0]
    );
}

#[test]
fn localized_bounds_are_cut_in_both_spaces() {
    let root = root(800.0, 600.0, 2.0);
    let context = bounded(
        bounds(10.0, 20.0, 30.0, 40.0),
        &root,
        CaptureGrid::ParentAligned,
    )
    .expect("bounded context");
    let local = |area: Bounds| {
        context
            .local_bounds(area.bits(), &trim, &scaled_and_moved)
            .map(Bounds::from_bits)
    };

    assert_eq!(f32::from_bits(context.scale_factor()), 2.0);
    assert_eq!(
        local(bounds(5.0, 15.0, 20.0, 20.0)),
        Some(bounds(0.0, 0.0, 30.0, 30.0))
    );
    assert_eq!(
        local(bounds(15.0, 25.0, 100.0, 100.0)),
        Some(bounds(10.0, 10.0, 50.0, 70.0))
    );
    assert_eq!(local(bounds(50.0, 20.0, 10.0, 10.0)), None);
    assert_eq!(
        Bounds::from_bits(context.placement.exact_bounds()),
        bounds(20.0, 40.0, 60.0, 80.0)
    );
}

#[test]
fn retained_geometry_is_translation_invariant_across_pixel_phase() {
    let root = root(100.0, 100.0, 2.0);
    let first_requested = bounds(10.2, 7.2, 30.2, 20.1);
    let second_requested = bounds(10.3, 7.2, 30.2, 20.1);
    let first = bounded(first_requested, &root, CaptureGrid::LayerAligned)
        .expect("first retained context");
    let second = bounded(second_requested, &root, CaptureGrid::LayerAligned)
        .expect("second retained context");

    assert_eq!(first.source_rect, second.source_rect);
    assert_eq!(first.source_rect, Rectangle::with_size(Size::new(60, 40)));
    assert_eq!(
        first.logical_surface_size_bits,
        second.logical_surface_size_bits
    );
    assert_eq!(first.placement.snapped().x, 20);
    assert_eq!(second.placement.snapped().x, 21);
    assert_point_close(origin(&first), (20.4, 14.4));
    assert_point_close(origin(&second), (20.6, 14.4));
    assert_point_close(position(&first, first_requested), (0.0, 0.0));
    assert_point_close(position(&second, second_requested), (0.0, 0.0));
}

#[test]
fn raster_bounds_preserve_uncut_geometry() {
    let root = root(800.0, 600.0, 2.0);
    let mut context = bounded(
        bounds(10.25, 20.25, 30.0, 40.0),
        &root,
        CaptureGrid::ParentAligned,
    )
    .expect("bounded context");
    context.set_backing_extent(Size::new(64, 128));

    assert_eq!(context.physical_viewport(), Size::new(61, 81));
    assert_eq!(context.backing_extent(), Size::new(64, 128));
    assert_eq!(
        context.raster_bounds(bounds(5.0, 15.0, 20.0, 20.0).bits(), &scaled_and_moved),
        bounds(-10.0, -10.0, 40.0, 40.0).bits(),
    );
}

#[test]
fn whole_numbers_round_to_the_nearest_and_then_to_even() {
    for shift in 0..32 {
        let power = 1u32 << shift;
        for value in [
            power,
            power - 1,
            power.saturating_add(1),
            power.saturating_add(power / 3),
            power.saturating_add(power / 2 + 1),
        ] {
            assert_eq!(whole_bits(value), (value as f32).to_bits(), "{value}");
        }
    }
    for value in 0x1ff_fff0..0x200_0010u32 {
        assert_eq!(whole_bits(value), (value as f32).to_bits(), "{value}");
    }
    for value in 0xffff_fe00..=u32::MAX {
        assert_eq!(whole_bits(value), (value as f32).to_bits(), "{value}");
    }
}

#[test]
fn exact_origins_stay_near_their_pixels() {
    let root = root(100.0, 100.0, 1.5);
    for step in 0..200 {
        let x = -20.0 + 0.37 * step as f32;
        let area = bounds(x, 8.25, 30.0, 10.0);
        if let Some(context) = bounded(area, &root, CaptureGrid::LayerAligned) {
            let pixels = context.placement.snapped();
            assert!((origin(&context).0 - pixels.x as f32).abs() <= 0.501);
            assert!((origin(&context).1 - pixels.y as f32).abs() <= 0.501);
        }
        if let Some(context) = bounded(area, &root, CaptureGrid::ParentAligned) {
            let pixels = context.placement.snapped();
            assert_eq!(origin(&context), (pixels.x as f32, pixels.y as f32));
        }
    }
}

#[test]
fn distant_origins_are_held_exactly() {
    // Far away, what is cut off is as whole a number as the layer's own position.
    let root = root(100.0, 100.0, 1.0);
    for distance in [16_777_216.0f32, 16_777_218.0, 33_554_436.0, 1_073_741_952.0] {
        let area = bounds(-distance, 8.25, 2.0 * distance, 10.0);
        let context = bounded(area, &root, CaptureGrid::LayerAligned).expect("visible layer");
        let pixels = context.placement.snapped();
        assert_eq!(context.source_rect.x, distance as u32);
        assert_eq!((origin(&context).0, pixels.x), (0.0, 0));
    }
}

#[test]
fn layer_aligned_phase_is_derived_from_exact_and_snapped_origins() {
    let root = root(100.0, 100.0, 1.0);
    let before = bounded(
        bounds(10.49, 8.25, 10.0, 10.0),
        &root,
        CaptureGrid::LayerAligned,
    )
    .expect("before rounding boundary");
    let after = bounded(
        bounds(10.51, 8.25, 10.0, 10.0),
        &root,
        CaptureGrid::LayerAligned,
    )
    .expect("after rounding boundary");

    let before_phase = origin(&before).0 - before.placement.snapped().x as f32;
    let after_phase = origin(&after).0 - after.placement.snapped().x as f32;

    assert!((before_phase - 0.49).abs() < 0.001);
    assert!((after_phase + 0.49).abs() < 0.001);
    assert_eq!(before.source_rect, after.source_rect);
}

fn reach(origin: PointBits, extent: Size) -> PointBits {
    PointBits {
        x: (f32::from_bits(origin.x) + extent.width as f32).to_bits(),
        y: (f32::from_bits(origin.y) + extent.height as f32).to_bits(),
    }
}

fn placement(snapped: Rectangle, x: f32, y: f32) -> Placement {
    Placement::new(
        snapped,
        PointBits {
            x: x.to_bits(),
            y: y.to_bits(),
        },
    )
}

#[test]
fn conservative_coverage_contains_the_fractional_filter_footprint() {
    let inside = placement(rectangle(11, 4, 10, 5), 10.75, 4.25);

    assert_eq!(
        inside.conservative_coverage(Size::new(100, 100), &reach),
        Some(rectangle(10, 4, 11, 6))
    );

    let clipped = placement(rectangle(0, 0, 4, 4), -0.25, -0.25);
    assert_eq!(
        clipped.conservative_coverage(Size::new(100, 100), &reach),
        Some(rectangle(0, 0, 4, 4))
    );
}

#[test]
fn layer_aligned_transient_geometry_carries_phase_only_in_placement() {
    let root = root(100.0, 100.0, 1.5);
    let requested = bounds(10.25, 8.5, 20.0, 10.0);
    let context = bounded(requested, &root, CaptureGrid::LayerAligned)
        .expect("layer-aligned transient context");

    assert_point_close(position(&context, requested), (0.0, 0.0));
    assert_point_close(origin(&context), (15.375, 12.75));
    assert_eq!(context.placement.snapped(), rectangle(15, 13, 30, 15));
}

#[test]
fn retained_geometry_clips_negative_origins_with_signed_intermediates() {
    let root = root(100.0, 100.0, 1.0);
    let requested = bounds(-20.25, -10.25, 100.5, 50.5);
    let context =
        bounded(requested, &root, CaptureGrid::LayerAligned).expect("clipped retained context");

    assert_eq!(context.placement.snapped(), rectangle(0, 0, 81, 41));
    assert_eq!(context.source_rect, rectangle(20, 10, 81, 41));
    assert_point_close(origin(&context), (-0.25, -0.25));
    assert_point_close(position(&context, requested), (-20.0, -10.0));
}

#[test]
fn retained_clipping_bands_with_equal_extents_do_not_alias() {
    let root = root(50.0, 50.0, 1.0);
    let showing_bottom = bounded(
        bounds(10.0, -50.0, 20.0, 100.0),
        &root,
        CaptureGrid::LayerAligned,
    )
    .expect("bottom band");
    let showing_top = bounded(
        bounds(10.0, 0.0, 20.0, 100.0),
        &root,
        CaptureGrid::LayerAligned,
    )
    .expect("top band");

    assert_eq!(
        showing_bottom.source_rect.size(),
        showing_top.source_rect.size()
    );
    assert_eq!(showing_bottom.source_rect.y, 50);
    assert_eq!(showing_top.source_rect.y, 0);
    assert_ne!(showing_bottom.source_rect, showing_top.source_rect);
}

#[test]
fn nested_retained_geometry_uses_parent_target_coordinates() {
    let root = root(100.0, 100.0, 1.0);
    let outer_first = bounded(
        bounds(10.4, 5.0, 60.2, 60.2),
        &root,
        CaptureGrid::LayerAligned,
    )
    .expect("first outer context");
    let outer_second = bounded(
        bounds(10.7, 5.0, 60.2, 60.2),
        &root,
        CaptureGrid::LayerAligned,
    )
    .expect("second outer context");
    let inner_first_bounds = bounds(20.4, 15.0, 20.2, 20.2);
    let inner_second_bounds = bounds(20.7, 15.0, 20.2, 20.2);
    let inner_first = bounded(inner_first_bounds, &outer_first, CaptureGrid::LayerAligned)
        .expect("first inner context");
    let inner_second = bounded(
        inner_second_bounds,
        &outer_second,
        CaptureGrid::LayerAligned,
    )
    .expect("second inner context");

    assert_eq!(
        inner_first.placement.snapped(),
        inner_second.placement.snapped()
    );
    assert_eq!(inner_first.source_rect, inner_second.source_rect);
    assert_eq!(inner_first.placement.snapped().x, 10);
    assert_point_close(
        (
            origin(&outer_first).0 + origin(&inner_first).0,
            origin(&outer_first).1 + origin(&inner_first).1,
        ),
        (inner_first_bounds.x, inner_first_bounds.y),
    );
    assert_point_close(
        (
            origin(&outer_second).0 + origin(&inner_second).0,
            origin(&outer_second).1 + origin(&inner_second).1,
        ),
        (inner_second_bounds.x, inner_second_bounds.y),
    );
    assert_point_close(position(&inner_first, inner_first_bounds), (0.0, 0.0));
    assert_point_close(position(&inner_second, inner_second_bounds), (0.0, 0.0));
}

#[test]
fn transient_child_preserves_phase_inside_a_retained_parent() {
    let root = root(100.0, 100.0, 1.0);
    let outer_first = bounded(
        bounds(10.4, 5.0, 60.2, 60.2),
        &root,
        CaptureGrid::LayerAligned,
    )
    .expect("first outer context");
    let outer_second = bounded(
        bounds(10.7, 5.0, 60.2, 60.2),
        &root,
        CaptureGrid::LayerAligned,
    )
    .expect("second outer context");
    let inner_first_bounds = bounds(20.65, 15.0, 10.2, 10.2);
    let inner_second_bounds = bounds(20.95, 15.0, 10.2, 10.2);
    let inner_first = bounded(inner_first_bounds, &outer_first, CaptureGrid::ParentAligned)
        .expect("first inner context");
    let inner_second = bounded(
        inner_second_bounds,
        &outer_second,
        CaptureGrid::ParentAligned,
    )
    .expect("second inner context");

    assert_eq!(
        inner_first.placement.snapped(),
        inner_second.placement.snapped()
    );
    assert_eq!(inner_first.source_rect, inner_second.source_rect);
    assert_point_close(position(&inner_first, inner_first_bounds), (0.25, 0.0));
    assert_point_close(position(&inner_second, inner_second_bounds), (0.25, 0.0));
}

#[test]
fn logical_size_bits_distinguish_sizes_with_the_same_physical_extent() {
    let root = root(300.0, 100.0, 1.0);
    let first = bounded(
        bounds(10.0, 10.0, 100.1, 20.0),
        &root,
        CaptureGrid::LayerAligned,
    )
    .expect("first size");
    let second = bounded(
        bounds(10.0, 10.0, 100.4, 20.0),
        &root,
        CaptureGrid::LayerAligned,
    )
    .expect("second size");

    assert_eq!(first.source_rect, second.source_rect);
    assert_ne!(
        first.logical_surface_size_bits,
        second.logical_surface_size_bits
    );
}

#[test]
fn invalid_or_nonintersecting_bounds_are_rejected_before_snapping() {
    let root = root(100.0, 100.0, 1.0);

    assert!(bounded(
        bounds(f32::INFINITY, 0.0, 10.0, 10.0),
        &root,
        CaptureGrid::LayerAligned,
    )
    .is_none());
    assert!(bounded(
        bounds(-0.4, 10.0, 0.1, 10.0),
        &root,
        CaptureGrid::LayerAligned,
    )
    .is_none());
}

#[test]
fn rectangles_need_a_finite_origin_and_a_positive_extent() {
    assert!(valid_rectangle(bounds(-1.0, 2.0, 3.0, 4.0).bits()));
    for invalid in [
        bounds(f32::NAN, 0.0, 1.0, 1.0),
        bounds(0.0, f32::NEG_INFINITY, 1.0, 1.0),
        bounds(0.0, 0.0, 0.0, 1.0),
        bounds(0.0, 0.0, 1.0, -0.0),
        bounds(0.0, 0.0, -1.0, 1.0),
        bounds(0.0, 0.0, f32::INFINITY, 1.0),
    ] {
        assert!(!valid_rectangle(invalid.bits()));
    }
}

#[test]
fn rounding_agrees_with_the_machine() {
    let interesting = [
        0.0,
        -0.0,
        0.25,
        0.5,
        0.75,
        1.0,
        1.5,
        2.5,
        -0.25,
        -0.5,
        -0.75,
        -1.0,
        -1.5,
        -2.5,
        20.4,
        -20.25,
        8_388_607.5,
        8_388_608.0,
        16_777_216.0,
        1.0e12,
        -1.0e12,
        9.223_371e18,
        -9.223_372e18,
        f32::MIN_POSITIVE,
        -f32::MIN_POSITIVE,
        1.0e-45,
    ];
    for value in interesting {
        let bits = f32::to_bits(value);
        assert_eq!(checked_floor(bits), Some(value.floor() as i64), "{value}");
        assert_eq!(checked_ceil(bits), Some(value.ceil() as i64), "{value}");
        assert_eq!(checked_round(bits), Some(value.round() as i64), "{value}");
        if value >= 0.0 && value.is_sign_positive() {
            assert_eq!(ceil_bits(bits), value.ceil().to_bits(), "{value}");
        }
    }
    for value in [
        f32::NAN,
        f32::INFINITY,
        f32::NEG_INFINITY,
        f32::MAX,
        f32::MIN,
        9.223_372e18,
        -1.0e19,
    ] {
        assert_eq!(checked_floor(f32::to_bits(value)), None, "{value}");
        assert_eq!(checked_ceil(f32::to_bits(value)), None, "{value}");
        assert_eq!(checked_round(f32::to_bits(value)), None, "{value}");
    }
    for value in [0, 1, 2, 3, 7, 42, 128, 1530, 8_388_607, 8_388_608] {
        assert_eq!(whole_bits(value), (value as f32).to_bits(), "{value}");
    }
}

#[test]
fn cached_and_subpixel_layers_are_captured_on_their_own_grid() {
    assert_eq!(
        capture_grid(false, CompositePositioning::Snapped),
        CaptureGrid::ParentAligned
    );
    assert_eq!(
        capture_grid(true, CompositePositioning::Snapped),
        CaptureGrid::LayerAligned
    );
    assert_eq!(
        capture_grid(false, CompositePositioning::Subpixel),
        CaptureGrid::LayerAligned
    );
}

#[test]
fn rectangles_overlap_in_their_shared_pixels() {
    assert_eq!(
        intersect(rectangle(0, 0, 10, 10), rectangle(4, 6, 10, 10)),
        Some(rectangle(4, 6, 6, 4))
    );
    assert_eq!(
        intersect(rectangle(0, 0, 4, 4), rectangle(4, 0, 4, 4)),
        None
    );
    assert_eq!(
        intersect(
            rectangle(u32::MAX - 2, 0, 10, 1),
            rectangle(u32::MAX - 1, 0, 10, 1)
        ),
        Some(rectangle(u32::MAX - 1, 0, 1, 1))
    );
}

#[test]
fn composition_is_clipped_to_the_pixels_it_covers() {
    let parent = Size::new(100, 100);
    let clip = rectangle(0, 0, 15, 100);
    let placed = placement(rectangle(11, 4, 10, 5), 10.75, 4.25);

    let snapped = composite_pass(parent, placed, clip, CompositePositioning::Snapped, &reach)
        .expect("visible pixels");
    assert_eq!(snapped.viewport, rectangle(11, 4, 10, 5));
    assert_eq!(snapped.scissor, rectangle(11, 4, 4, 5));

    let resampled = composite_pass(parent, placed, clip, CompositePositioning::Subpixel, &reach)
        .expect("visible pixels");
    assert_eq!(resampled.viewport, rectangle(0, 0, 100, 100));
    assert_eq!(resampled.scissor, rectangle(10, 4, 5, 6));

    let outside = rectangle(50, 50, 10, 10);
    for positioning in [
        CompositePositioning::Snapped,
        CompositePositioning::Subpixel,
    ] {
        assert!(composite_pass(parent, placed, outside, positioning, &reach).is_none());
    }

    let backdrop = backdrop_pass(Size::new(7, 9));
    assert_eq!(backdrop.viewport, rectangle(0, 0, 7, 9));
    assert_eq!(backdrop.scissor, rectangle(0, 0, 7, 9));
    assert_eq!(backdrop.positioning, CompositePositioning::Subpixel);
}

#[test]
fn blits_map_layers_out_and_backdrops_in() {
    let root = root(100.0, 100.0, 1.0);
    let child = bounded(
        bounds(10.25, 20.5, 30.0, 10.0),
        &root,
        CaptureGrid::LayerAligned,
    )
    .expect("child");

    let composite = Composite::additive(0.5f32.to_bits());
    let out = SubpixelBlit::composite(&child, composite);
    assert_eq!(out.valid_extent, Size::new(30, 10));
    assert_eq!(out.blend, SubpixelBlend::Add);
    assert_eq!(out.opacity, 0.5f32.to_bits());
    assert_eq!(out.destination_origin, child.placement.exact_origin());
    assert!(out.is_valid());

    let backdrop = SubpixelBlit::backdrop(&root, &child);
    assert_eq!(backdrop.valid_extent, Size::new(100, 100));
    assert_eq!(backdrop.blend, SubpixelBlend::Replace);
    assert_eq!(backdrop.opacity, 1.0f32.to_bits());
    assert_eq!(backdrop.source_origin, child.placement.exact_origin());
    assert!(backdrop.is_valid());

    let broken = SubpixelBlit {
        opacity: 1.5f32.to_bits(),
        ..backdrop
    };
    assert!(!broken.is_valid());
}

#[test]
fn composition_pipelines_are_created_once_for_each_variant() {
    let snapped = composite_variant(Composite::default());
    let additive = composite_variant(
        Composite::additive(1.0f32.to_bits()).with_positioning(CompositePositioning::Subpixel),
    );
    assert_eq!(snapped, Variant::Snapped(BlendMode::SourceOver));
    assert_eq!(additive, Variant::Subpixel(SubpixelBlend::Add));

    let mut storage: Storage<u32> = Storage::new();
    assert_eq!(storage.pipeline(snapped), None);
    storage.ensure(snapped, |_| 1);
    storage.ensure(snapped, |_| 2);
    storage.ensure(additive, |_| 3);
    assert_eq!(storage.pipeline(snapped), Some(&1));
    assert_eq!(storage.pipeline(additive), Some(&3));
    assert_eq!(
        storage.pipeline(Variant::Subpixel(SubpixelBlend::Replace)),
        None
    );
}
