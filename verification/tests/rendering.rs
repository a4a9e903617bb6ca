//! Whole draws, from what was recorded to the steps that render it.

use std::cell::Cell;

use isolated_layer::batch::Batch;
use isolated_layer::capture::{bounded_with_grid, Projection, Raster};
use isolated_layer::commands::{Command, Fill, Surface};
use isolated_layer::content::{ContentChangeHandle, IdentitySource, SurfaceHandle};
use isolated_layer::context::{
    CaptureGrid, CompositePositioning, Context, PointBits, ScaleBits, SizeBits,
};
use isolated_layer::diagnostics::{Diagnostics, Limits, Platform};
use isolated_layer::drawing::{DrawCommand, Placed};
use isolated_layer::effect::{Effect, EffectStack};
use isolated_layer::evidence::Requirements;
use isolated_layer::float_bits::RectangleBits;
use isolated_layer::format::TextureFormat;
use isolated_layer::frame::Located;
use isolated_layer::geometry::{Capture, Rectangle, Size};
use isolated_layer::recording::Node;
use isolated_layer::region::{primitive_region, PrepareRegion, RenderRegion};
use isolated_layer::renderer::{draw_segmented, Draw, Renderer};
use isolated_layer::request::{Composite, Layer};
use isolated_layer::root_target::{validate_root_target, RootTarget, RootTargetError};
use isolated_layer::scratch::{release, ScratchAllocator};
use isolated_layer::screenshot::BufferDimensions;

#[derive(Clone, Copy, Debug, PartialEq)]
struct Bounds {
    x: f32,
    y: f32,
    width: f32,
    height: f32,
}

fn bounds(x: f32, y: f32, width: f32, height: f32) -> Bounds {
    Bounds {
        x,
        y,
        width,
        height,
    }
}

impl Bounds {
    fn bits(self) -> RectangleBits {
        RectangleBits {
            x: self.x.to_bits(),
            y: self.y.to_bits(),
            width: self.width.to_bits(),
            height: self.height.to_bits(),
        }
    }

    fn from_bits(bits: RectangleBits) -> Self {
        bounds(
            f32::from_bits(bits.x),
            f32::from_bits(bits.y),
            f32::from_bits(bits.width),
            f32::from_bits(bits.height),
        )
    }

    fn intersection(self, other: Self) -> Option<Self> {
        let x = self.x.max(other.x);
        let y = self.y.max(other.y);
        let right = (self.x + self.width).min(other.x + other.width);
        let bottom = (self.y + self.height).min(other.y + other.height);

        (right - x > 0.0 && bottom - y > 0.0).then_some(bounds(x, y, right - x, bottom - y))
    }

    fn snap(self) -> Option<Rectangle> {
        let x = self.x.round() as u32;
        let y = self.y.round() as u32;
        let right = (self.x + self.width).round() as u32;
        let bottom = (self.y + self.height).round() as u32;
        (right > x && bottom > y).then_some(Rectangle {
            x,
            y,
            width: right - x,
            height: bottom - y,
        })
    }
}

fn area(x: f32, y: f32, width: f32, height: f32) -> RectangleBits {
    bounds(x, y, width, height).bits()
}

fn whole(size: Size) -> Bounds {
    bounds(0.0, 0.0, size.width as f32, size.height as f32)
}

fn root_context(size: Size, scale: f32) -> Context {
    Context::root(
        size,
        SizeBits {
            width: (size.width as f32 / scale).to_bits(),
            height: (size.height as f32 / scale).to_bits(),
        },
        scale.to_bits(),
        ScaleBits {
            window: scale.to_bits(),
            application: 1.0f32.to_bits(),
        },
        TextureFormat::Rgba8Unorm,
    )
}

fn project(context: &Context, area: Bounds) -> Bounds {
    let scale = f32::from_bits(context.scale_factor_bits);
    bounds(
        area.x * scale + f32::from_bits(context.translation_bits.x),
        area.y * scale + f32::from_bits(context.translation_bits.y),
        area.width * scale,
        area.height * scale,
    )
}

fn plus(a: u32, b: u32) -> u32 {
    (f32::from_bits(a) + f32::from_bits(b)).to_bits()
}

fn scaled_and_moved(area: RectangleBits, scale: u32, translation: PointBits) -> RectangleBits {
    let area = Bounds::from_bits(area);
    let scale = f32::from_bits(scale);
    bounds(
        area.x * scale + f32::from_bits(translation.x),
        area.y * scale + f32::from_bits(translation.y),
        area.width * scale,
        area.height * scale,
    )
    .bits()
}

fn bounded(requested: RectangleBits, parent: &Context, grid: CaptureGrid) -> Option<Context> {
    let scale = f32::from_bits(parent.scale_factor_bits);
    bounded_with_grid(
        requested,
        parent,
        grid,
        &|a, b| {
            Bounds::from_bits(a)
                .intersection(Bounds::from_bits(b))
                .map(Bounds::bits)
        },
        &|area| {
            let physical = project(parent, Bounds::from_bits(area));
            Projection {
                x: physical.x.to_bits(),
                y: physical.y.to_bits(),
                width: physical.width.to_bits(),
                height: physical.height.to_bits(),
                right: (physical.x + physical.width).to_bits(),
                bottom: (physical.y + physical.height).to_bits(),
            }
        },
        &plus,
        &|requested: RectangleBits, origin: PointBits, capture: Capture| {
            let (x, y) = (f32::from_bits(origin.x), f32::from_bits(origin.y));
            let moved_x = f32::from_bits(parent.translation_bits.x) - x;
            let moved_y = f32::from_bits(parent.translation_bits.y) - y;
            let represented = bounds(
                -moved_x / scale,
                -moved_y / scale,
                capture.source.width as f32 / scale,
                capture.source.height as f32 / scale,
            );
            let content = Bounds::from_bits(requested);
            Raster {
                translation: PointBits {
                    x: moved_x.to_bits(),
                    y: moved_y.to_bits(),
                },
                represented_bounds: represented.bits(),
                relative_content: bounds(
                    content.x - represented.x,
                    content.y - represented.y,
                    content.width,
                    content.height,
                )
                .bits(),
            }
        },
    )
}

fn locate(
    requested: RectangleBits,
    content: RectangleBits,
    clip: RectangleBits,
    parent: Context,
    grid: CaptureGrid,
) -> Option<Located> {
    let context = bounded(requested, &parent, grid)?;
    let represented = Bounds::from_bits(context.represented_bounds);
    let content = Bounds::from_bits(content);
    Some(Located {
        content: bounds(
            content.x - represented.x,
            content.y - represented.y,
            content.width,
            content.height,
        )
        .bits(),
        clip: place(clip, parent).map(|placed| placed.scissor),
        context,
    })
}

fn place(area: RectangleBits, context: Context) -> Option<Placed> {
    let physical = project(
        &context,
        Bounds::from_bits(area).intersection(Bounds::from_bits(context.represented_bounds))?,
    )
    .intersection(whole(context.physical_viewport()))?;
    Some(Placed {
        bounds: physical.bits(),
        scissor: physical.snap()?,
    })
}

type TestRenderer = Renderer<Batch, (), u32, ()>;

fn same(area: RectangleBits, _: ()) -> RectangleBits {
    area
}

fn renderer() -> TestRenderer {
    Renderer::new((), TextureFormat::Rgba8Unorm, 4096, 1, Platform::Native)
}

const VIEWPORT: Size = Size {
    width: 200,
    height: 100,
};

/// Draws what was recorded, names the steps that were taken, and counts new targets.
fn render(renderer: &mut TestRenderer) -> (Vec<String>, u32) {
    let created = Cell::new(0);
    let create = |_: Size| {
        created.set(created.get() + 1);
        created.get()
    };
    let draw = renderer.begin_draw(root_context(VIEWPORT, 1.0), &locate, &place, &create);
    let steps = match &draw {
        Draw::Direct { prepared, .. } => renderer
            .render(prepared, true)
            .iter()
            .map(|command| {
                match command {
                    DrawCommand::BeginPass { .. } => "begin",
                    DrawCommand::EndPass => "end",
                    DrawCommand::Quads { .. } => "quads",
                    DrawCommand::Triangles { .. } => "triangles",
                    DrawCommand::Primitive { .. } => "primitive",
                    DrawCommand::ResetRegion => "whole",
                    DrawCommand::Images { .. } => "images",
                    DrawCommand::Text { .. } => "text",
                }
                .to_owned()
            })
            .collect(),
        Draw::Segmented {
            context,
            root,
            sequence,
        } => draw_segmented(context, root, sequence, true)
            .iter()
            .map(|command| {
                let on = |surface: &Surface<'_, u32, ()>| match surface {
                    Surface::Root => "root",
                    Surface::Target(_) => "target",
                };
                match command {
                    Command::Clear { surface, fill } => format!("clear {} {fill:?}", on(surface)),
                    Command::Leaf { into, .. } => format!("leaf {}", on(into)),
                    Command::CopyBackdrop { from, .. } => format!("copy {}", on(from)),
                    Command::BlitBackdrop { from, .. } => format!("blit {}", on(from)),
                    Command::Pass { pass, .. } => {
                        format!("pass {} {}", pass.planned.effect, pass.planned.pass)
                    }
                    Command::Composite { into, fill, .. } => {
                        format!("composite {} {fill:?}", on(into))
                    }
                }
            })
            .collect(),
    };
    let audit = renderer.finish_draw(draw);
    assert_eq!(audit.output_leases, 0);
    (steps, created.get())
}

#[test]
fn ordinary_drawing_needs_no_targets() {
    let mut renderer = renderer();
    renderer.layers.current_mut().0.draw_quad();
    renderer.layers.current_mut().0.draw_mesh();
    renderer.layers.current_mut().0.draw_text();

    let (steps, created) = render(&mut renderer);
    assert_eq!(
        steps,
        ["begin", "quads", "end", "triangles", "begin", "text", "end"]
    );
    assert_eq!(created, 0);
    assert_eq!(renderer.isolated_layer_diagnostics().layer_count(), 0);
}

fn record(renderer: &mut TestRenderer, layer: Layer, effects: Option<EffectStack>) {
    match effects {
        Some(effects) => {
            renderer
                .recorder
                .start_effects(&mut renderer.layers, layer, effects, &same)
        }
        None => renderer.recorder.start(&mut renderer.layers, layer, &same),
    }
    renderer.layers.current_mut().0.draw_quad();
    renderer.recorder.end(&mut renderer.layers);
}

#[test]
fn isolated_layers_are_captured_and_composited_in_order() {
    let mut renderer = renderer();
    renderer.layers.current_mut().0.draw_quad();
    let layer = Layer::new(area(10.0, 10.0, 30.0, 20.0), area(10.0, 10.0, 30.0, 20.0));
    record(&mut renderer, layer, None);
    renderer.layers.current_mut().0.draw_quad();

    let (steps, created) = render(&mut renderer);
    assert_eq!(
        steps,
        [
            format!("clear root {:?}", Fill::Background),
            "leaf root".to_owned(),
            format!("clear target {:?}", Fill::Transparent),
            "leaf target".to_owned(),
            format!("composite root {:?}", Fill::Keep),
            "leaf root".to_owned(),
        ]
    );
    assert_eq!(created, 1);
    let diagnostics = renderer.isolated_layer_diagnostics();
    assert_eq!(diagnostics.uncached_renders, 1);
    assert_eq!(diagnostics.allocated_bytes, 64 * 64 * 4);
    assert_eq!(diagnostics.retained_bytes(), 64 * 64 * 4);

    // The same recording draws again without a new target.
    let (again, created) = render(&mut renderer);
    assert_eq!(again, steps);
    assert_eq!(created, 0);
}

#[test]
fn restored_recordings_are_taken_again() {
    let mut renderer = renderer();
    renderer.layers.current_mut().0.draw_quad();
    let bounds = area(10.0, 10.0, 30.0, 20.0);
    record(&mut renderer, Layer::new(bounds, bounds), None);
    renderer.layers.current_mut().0.draw_quad();

    let first = renderer.recorder.take(&mut renderer.layers);
    assert_eq!(first.0.len(), 3);
    assert!(!renderer.recorder.is_segmented());
    renderer.recorder.restore(first);
    assert!(renderer.recorder.is_segmented());
    let again = renderer.recorder.take(&mut renderer.layers);
    assert_eq!(again.0.len(), 3);
    assert!(matches!(
        again.0[..],
        [Node::Leaf(_), Node::Layer(_), Node::Leaf(_)]
    ));
}

#[test]
fn unchanged_outputs_are_only_composited_again() {
    let mut identities = IdentitySource::new();
    let surface = SurfaceHandle::new(&mut identities);
    let content = ContentChangeHandle::new(&mut identities);
    let mut renderer = renderer();

    for (frame, changed, steps, hits) in [
        (1, false, 4, 0),
        (2, false, 2, 1),
        (3, true, 4, 0),
        (4, false, 2, 1),
    ] {
        if changed {
            let _ = content.mark_changed();
        }
        renderer.reset(whole(VIEWPORT).bits());
        // The layer moves between frames: its pixels stay valid.
        let area = area(10.0 + frame as f32, 10.25, 30.0, 20.0);
        let layer = Layer::new(area, area).cache_output(&surface, &[&content]);
        record(&mut renderer, layer, None);

        let (taken, _) = render(&mut renderer);
        assert_eq!(taken.len(), steps, "frame {frame}: {taken:?}");
        let diagnostics = renderer.isolated_layer_diagnostics();
        assert_eq!(diagnostics.output_cache_hits, hits);
        assert_eq!(diagnostics.output_cache_misses, 1 - hits);
    }
}

#[test]
fn targets_come_back_to_the_pool_or_stay_retained() {
    let mut identities = IdentitySource::new();
    let surface = SurfaceHandle::new(&mut identities);
    let content = ContentChangeHandle::new(&mut identities);
    let mut renderer = renderer();
    let mut owned = 0;

    for frame in 0..4 {
        let _ = content.mark_changed();
        renderer.reset(whole(VIEWPORT).bits());
        let cached = area(10.0, 10.0, 30.0 + 20.0 * frame as f32, 20.0);
        let layer = Layer::new(cached, cached).cache_output(&surface, &[&content]);
        record(&mut renderer, layer, None);
        let plain = area(100.0, 10.0, 30.0, 20.0);
        record(&mut renderer, Layer::new(plain, plain), None);

        let _ = render(&mut renderer);
        let diagnostics = renderer.isolated_layer_diagnostics();
        owned += diagnostics.allocated_bytes;
        assert_eq!(diagnostics.retained_bytes(), owned);
        assert!(diagnostics.normal_priority_bytes > 0 && diagnostics.pool_bytes > 0);
    }
}

#[test]
fn draw_diagnostics_count_processed_layers_and_allocations_before_trim() {
    const BYTES: u64 = 64 * 64 * 4;
    let mut identities = IdentitySource::new();
    let surface = SurfaceHandle::new(&mut identities);
    let content = ContentChangeHandle::new(&mut identities);
    let bounds = area(0.0, 0.0, 45.0, 47.0);
    let mut drawn = renderer();

    for draw in 0..2 {
        drawn.reset(bounds);
        let parent = Layer::new(bounds, bounds).cache_output(&surface, &[&content]);
        drawn.recorder.start(&mut drawn.layers, parent, &same);
        record(&mut drawn, Layer::new(bounds, bounds), None);
        drawn.recorder.end(&mut drawn.layers);
        let _ = render(&mut drawn);
        let stats = drawn.isolated_layer_diagnostics();
        if draw == 0 {
            assert_eq!(stats.output_cache_misses, 1);
            assert_eq!(stats.uncached_renders, 1);
            assert_eq!(stats.output_cache_hits, 0);
            assert_eq!(stats.allocated_bytes, 2 * BYTES);
            assert_eq!(stats.pool_bytes, BYTES);
            assert_eq!(stats.normal_priority_bytes, BYTES);
        } else {
            assert_eq!(stats.output_cache_hits, 1);
            assert_eq!(stats.layer_count(), 1);
            assert_eq!(stats.allocated_bytes, 0);
        }
    }

    // A fresh allocation remains counted even when a zero budget discards it.
    let mut drawn = renderer();
    drawn.set_isolated_layer_limits(Limits::new(0, 0));
    record(&mut drawn, Layer::new(bounds, bounds), None);
    let _ = render(&mut drawn);
    let stats = drawn.isolated_layer_diagnostics();
    assert_eq!(stats.uncached_renders, 1);
    assert_eq!(stats.allocated_bytes, BYTES);
    assert_eq!(stats.retained_bytes(), 0);

    drawn.reset(bounds);
    let _ = render(&mut drawn);
    assert_eq!(drawn.isolated_layer_diagnostics(), Diagnostics::default());
}

#[test]
fn retained_output_excludes_scratch_reuse_until_swept() {
    const BYTES: u64 = 64 * 64 * 4;
    let format = TextureFormat::Rgba8Unorm;
    let extent = Size::new(64, 64);
    let bounds = area(0.0, 0.0, 45.0, 47.0);
    let mut identities = IdentitySource::new();
    let surface = SurfaceHandle::new(&mut identities);
    let content = ContentChangeHandle::new(&mut identities);
    let mut drawn = renderer();
    let seeded = 77;
    let state = &mut drawn.frame.state;
    let mut allocator = ScratchAllocator::new(format, 4096);
    let handle = allocator
        .allocate(&mut state.pool, &mut state.diagnostics, extent, |_| seeded)
        .expect("scratch texture");
    assert_eq!(*handle.resources(), seeded);
    release(&mut state.pool, allocator.finish());

    for hits in [0, 1] {
        drawn.reset(bounds);
        let layer = Layer::new(bounds, bounds).cache_output(&surface, &[&content]);
        record(&mut drawn, layer, None);
        let (_, created) = render(&mut drawn);
        assert_eq!(created, 0);
        assert_eq!(drawn.frame.state.pool.bytes(), 0);
        assert_eq!(drawn.frame.state.registry.bytes(), BYTES);
        let stats = drawn.isolated_layer_diagnostics();
        assert_eq!(stats.output_cache_hits, hits);
        assert_eq!(stats.allocated_bytes, 0);
    }

    let other = drawn
        .frame
        .state
        .pool
        .lease_scratch(format, extent, 4096)
        .expect("valid scratch size");
    assert!(other.reused.is_none());
    drawn.set_isolated_layer_limits(Limits::new(BYTES, 0));
    drawn.reset(bounds);
    let _ = render(&mut drawn);
    assert_eq!(drawn.frame.state.registry.bytes(), 0);
    let released = drawn
        .frame
        .state
        .pool
        .lease_scratch(format, extent, 4096)
        .expect("valid scratch size");
    let target = released.reused.expect("returned backing");
    assert_eq!(target.get().resources, seeded);
}

#[test]
fn effects_read_their_backdrop_and_chain_their_passes() {
    let mut renderer = renderer();
    renderer.layers.current_mut().0.draw_quad();
    let effects = EffectStack::from_effect(
        Effect::new(1)
            .pass(Requirements::new().writes_every_pixel())
            .pass(Requirements::new().with_backdrop()),
    );
    let layer = Layer::new(area(0.0, 0.0, 30.0, 20.0), area(0.0, 0.0, 30.0, 20.0));
    record(&mut renderer, layer, Some(effects.clone()));

    let (steps, created) = render(&mut renderer);
    assert_eq!(
        steps,
        [
            "clear target Background",
            "leaf target",
            "copy target",
            "clear target Transparent",
            "leaf target",
            "pass 0 0",
            "clear target Transparent",
            "pass 0 1",
            "composite target Keep",
            "composite root Transparent",
        ]
    );
    // The stand-in for the root, the child, the backdrop and one output for each pass.
    assert_eq!(created, 5);

    renderer.reset(whole(VIEWPORT).bits());
    let layer = Layer::new(area(0.0, 0.0, 30.0, 20.0), area(0.0, 0.0, 30.0, 20.0))
        .composite(Composite::default().with_positioning(CompositePositioning::Subpixel));
    record(&mut renderer, layer, Some(effects));
    let (steps, _) = render(&mut renderer);
    assert!(steps.contains(&"blit target".to_owned()));
}

#[test]
fn invisible_layers_take_no_target() {
    let mut renderer = renderer();
    let layer = Layer::new(
        area(500.0, 500.0, 30.0, 20.0),
        area(500.0, 500.0, 30.0, 20.0),
    );
    record(&mut renderer, layer, None);
    let (steps, created) = render(&mut renderer);
    assert_eq!(steps, [format!("clear root {:?}", Fill::Background)]);
    assert_eq!(created, 0);
    assert_eq!(renderer.isolated_layer_diagnostics().layer_count(), 0);
}

#[test]
fn budgets_are_enforced_when_a_draw_ends() {
    let mut renderer = renderer();
    renderer.set_isolated_layer_limits(Limits::new(0, 2));
    assert_eq!(renderer.isolated_layer_limits(), Limits::new(0, 2));
    let layer = Layer::new(area(0.0, 0.0, 30.0, 20.0), area(0.0, 0.0, 30.0, 20.0));
    record(&mut renderer, layer, None);
    let (_, created) = render(&mut renderer);
    assert_eq!(created, 1);
    assert_eq!(renderer.isolated_layer_diagnostics().retained_bytes(), 0);
    let (_, created) = render(&mut renderer);
    assert_eq!(created, 1);
}

#[test]
fn keep_alives_outlast_hidden_producers() {
    let mut identities = IdentitySource::new();
    let surface = SurfaceHandle::new(&mut identities);
    let content = ContentChangeHandle::new(&mut identities);
    let mut renderer = renderer();
    let area = area(10.0, 10.0, 30.0, 20.0);
    record(
        &mut renderer,
        Layer::new(area, area).cache_output(&surface, &[&content]),
        None,
    );
    let _ = render(&mut renderer);

    for _ in 0..6 {
        renderer.mark_cache_alive(surface.cache_keep_alive());
        renderer.reset(whole(VIEWPORT).bits());
        let _ = render(&mut renderer);
    }
    renderer.reset(whole(VIEWPORT).bits());
    record(
        &mut renderer,
        Layer::new(area, area).cache_output(&surface, &[&content]),
        None,
    );
    let _ = render(&mut renderer);
    assert_eq!(renderer.isolated_layer_diagnostics().output_cache_hits, 1);

    for _ in 0..6 {
        renderer.reset(whole(VIEWPORT).bits());
        let _ = render(&mut renderer);
    }
    renderer.reset(whole(VIEWPORT).bits());
    record(
        &mut renderer,
        Layer::new(area, area).cache_output(&surface, &[&content]),
        None,
    );
    let _ = render(&mut renderer);
    assert_eq!(renderer.isolated_layer_diagnostics().output_cache_misses, 1);
}

#[test]
fn missing_content_evidence_is_reported_once() {
    let surface = SurfaceHandle::new(&mut IdentitySource::new());
    let mut renderer = renderer();
    let area = area(10.0, 10.0, 30.0, 20.0);
    record(
        &mut renderer,
        Layer::new(area, area).cache_output(&surface, &[]),
        None,
    );
    let _ = render(&mut renderer);
    assert_eq!(renderer.frame.reports, vec![surface.identity()]);
    assert_eq!(renderer.isolated_layer_diagnostics().uncached_renders, 1);
    let _ = render(&mut renderer);
    assert!(renderer.frame.reports.is_empty());
}

fn region(context: &Context, area: Bounds, clip: Bounds) -> Option<RenderRegion> {
    primitive_region(
        context,
        area.bits(),
        clip.bits(),
        &|area| project(context, Bounds::from_bits(area)).bits(),
        &|physical, clip| {
            Bounds::from_bits(physical)
                .intersection(Bounds::from_bits(clip))?
                .intersection(whole(context.physical_viewport()))?
                .snap()
        },
    )
}

#[test]
fn primitive_region_uses_physical_bounds_and_clips_to_active_region() {
    let context = root_context(Size::new(200, 100), 2.0);

    assert_eq!(
        region(
            &context,
            bounds(10.0, 5.0, 20.0, 10.0),
            bounds(25.0, 12.0, 20.0, 10.0),
        ),
        Some(RenderRegion::new(
            area(10.0, 5.0, 20.0, 10.0),
            area(20.0, 10.0, 40.0, 20.0),
            Rectangle {
                x: 25,
                y: 12,
                width: 20,
                height: 10,
            },
        ))
    );
}

#[test]
fn primitive_region_preserves_uncut_isolated_bounds_and_excludes_padding() {
    let root = root_context(Size::new(200, 200), 2.0);
    let mut context = bounded(
        area(20.0, 30.0, 40.0, 30.0),
        &root,
        CaptureGrid::ParentAligned,
    )
    .expect("bounded context");
    context.set_backing_extent(Size::new(128, 64));

    assert_eq!(
        region(
            &context,
            bounds(10.0, 25.0, 50.0, 30.0),
            whole(context.backing_extent()),
        ),
        Some(RenderRegion::new(
            area(10.0, 25.0, 50.0, 30.0),
            area(-20.0, -10.0, 100.0, 60.0),
            Rectangle {
                x: 0,
                y: 0,
                width: 80,
                height: 50,
            },
        ))
    );
}

#[test]
fn primitive_region_rejects_fully_clipped_bounds() {
    let context = root_context(Size::new(200, 100), 2.0);

    assert_eq!(
        region(
            &context,
            bounds(150.0, 100.0, 10.0, 10.0),
            whole(context.physical_viewport()),
        ),
        None
    );
}

#[test]
fn prepare_region_preserves_scene_logical_bounds_and_exposes_explicit_conversions() {
    let root = root_context(Size::new(200, 200), 2.0);
    let mut context = bounded(
        area(20.0, 30.0, 40.0, 30.0),
        &root,
        CaptureGrid::ParentAligned,
    )
    .expect("bounded context");
    context.set_backing_extent(Size::new(128, 64));
    let target = PrepareRegion::new(area(10.0, 25.0, 50.0, 30.0), &context);

    assert_eq!(target.bounds(), area(10.0, 25.0, 50.0, 30.0));
    assert_eq!(target.represented_bounds(), area(20.0, 30.0, 40.0, 30.0));
    assert_eq!(target.viewport().physical_size(), Size::new(80, 60));
    assert_eq!(target.viewport().scale(), context.scale);
    let divide = |size: Size, scale: ScaleBits| {
        let factor = f32::from_bits(scale.window) * f32::from_bits(scale.application);
        SizeBits {
            width: (size.width as f32 / factor).to_bits(),
            height: (size.height as f32 / factor).to_bits(),
        }
    };
    let logical = target.viewport().logical_size(&divide);
    assert_eq!(
        (f32::from_bits(logical.width), f32::from_bits(logical.height)),
        (40.0, 30.0)
    );
    assert_eq!(target.backing_extent(), Size::new(128, 64));
    assert_eq!(
        target.local_bounds(&|a, b| (f32::from_bits(a) - f32::from_bits(b)).to_bits()),
        area(-10.0, -5.0, 50.0, 30.0)
    );
    assert_eq!(
        target.physical_bounds(&scaled_and_moved),
        area(-20.0, -10.0, 100.0, 60.0)
    );
    // The projection of the valid viewport, after scaling and moving.
    let compose = |viewport: Size, scale: u32, moved: PointBits| {
        let (width, height) = (viewport.width as f32, viewport.height as f32);
        let scale = f32::from_bits(scale);
        (
            (2.0 / width * scale, -2.0 / height * scale),
            (
                2.0 / width * f32::from_bits(moved.x) - 1.0,
                1.0 - 2.0 / height * f32::from_bits(moved.y),
            ),
        )
    };
    assert_eq!(
        target.logical_projection(&compose),
        ((0.05, -2.0 / 60.0 * 2.0), (-2.0, 3.0))
    );
    let (scale, translation) = target.logical_to_physical();
    assert_eq!(f32::from_bits(scale), 2.0);
    assert_eq!(
        (
            f32::from_bits(translation.x),
            f32::from_bits(translation.y)
        ),
        (-40.0, -60.0)
    );
}

#[test]
fn render_region_keeps_logical_viewport_and_scissor_components_distinct() {
    let bounds = area(10.0, 25.0, 50.0, 30.0);
    let physical_viewport = area(-20.0, -10.0, 100.0, 60.0);
    let physical_scissor = Rectangle {
        x: 0,
        y: 0,
        width: 80,
        height: 50,
    };
    let region = RenderRegion::new(bounds, physical_viewport, physical_scissor);

    assert_eq!(region.bounds(), bounds);
    assert_eq!(region.physical_viewport(), physical_viewport);
    assert_eq!(region.physical_scissor(), physical_scissor);
}

#[test]
fn root_targets_are_checked_in_order() {
    let valid = RootTarget {
        is_two_dimensional: true,
        array_layers: 1,
        mip_levels: 1,
        sample_count: 1,
        format: TextureFormat::Rgba8Unorm,
        extent: VIEWPORT,
    };
    let check = |target| validate_root_target(target, VIEWPORT, TextureFormat::Rgba8Unorm);
    assert_eq!(check(valid), Ok(()));
    for (target, error) in [
        (
            RootTarget {
                is_two_dimensional: false,
                ..valid
            },
            RootTargetError::Dimension,
        ),
        (
            RootTarget {
                array_layers: 2,
                ..valid
            },
            RootTargetError::ArrayLayers,
        ),
        (
            RootTarget {
                mip_levels: 2,
                ..valid
            },
            RootTargetError::MipLevels,
        ),
        (
            RootTarget {
                sample_count: 4,
                ..valid
            },
            RootTargetError::SampleCount,
        ),
        (
            RootTarget {
                format: TextureFormat::Bgra8Unorm,
                ..valid
            },
            RootTargetError::Format,
        ),
        (
            RootTarget {
                extent: Size::new(1, 1),
                ..valid
            },
            RootTargetError::Extent,
        ),
    ] {
        assert_eq!(check(target), Err(error));
        assert!(error.message().starts_with("root target"));
    }
}

#[test]
fn screenshots_drop_the_padding_of_their_rows() {
    let dimensions = BufferDimensions::new(Size::new(3, 2));
    assert_eq!(dimensions.unpadded_bytes_per_row, 12);
    assert_eq!(dimensions.padded_bytes_per_row, 256);
    assert_eq!(dimensions.buffer_size(), 512);

    let padded: Vec<u8> = (0..512u32).map(|index| (index % 251) as u8).collect();
    let pixels = dimensions.unpad(&padded);
    assert_eq!(pixels.len(), 24);
    assert_eq!(pixels[..12], padded[..12]);
    assert_eq!(pixels[12..], padded[256..268]);

    let exact = BufferDimensions::new(Size::new(64, 1));
    assert_eq!(exact.padded_bytes_per_row, 256);
}
