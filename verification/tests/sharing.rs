//! One pool for layers, scratch textures and retained outputs.

use std::cell::Cell;

use isolated_layer::content::{
    CacheRequest, CacheResidencyPriority, ContentChangeHandle, IdentitySource, SurfaceHandle,
};
use isolated_layer::context::{Context, ScaleBits, SizeBits};
use isolated_layer::diagnostics::{Limits, Platform};
use isolated_layer::evidence::{InputValue, InputWord, LayerInputEvidence, LayerInputRecords};
use isolated_layer::float_bits::RectangleBits;
use isolated_layer::format::TextureFormat;
use isolated_layer::free_pool::Role;
use isolated_layer::geometry::Size;
use isolated_layer::output_key::OutputKey;
use isolated_layer::pool::{Checkout, Pool, Target, TargetStorage};
use isolated_layer::scratch::{release, ScratchAllocator};
use isolated_layer::state::State;

const FORMAT: TextureFormat = TextureFormat::Rgba8Unorm;
const EXTENT: Size = Size {
    width: 64,
    height: 64,
};
const BYTES: u64 = 64 * 64 * 4;
const MAXIMUM: u32 = 8192;

/// Names textures in the order in which they are created.
#[derive(Default)]
struct Textures(Cell<u32>);

impl Textures {
    fn create(&self) -> u32 {
        self.0.set(self.0.get() + 1);
        self.0.get()
    }

    fn complete(
        &self,
        checkout: Checkout<u32, ()>,
        format: TextureFormat,
        role: Role,
    ) -> (Target<u32, ()>, bool) {
        checkout.complete(format, role, |_| self.create())
    }

    fn layer(&self, pool: &mut Pool<u32, ()>, size: Size) -> (Target<u32, ()>, bool) {
        let checkout = pool.lease_layer(FORMAT, size, MAXIMUM);
        self.complete(checkout, FORMAT, Role::Layer)
    }

    fn scratch(
        &self,
        pool: &mut Pool<u32, ()>,
        format: TextureFormat,
        size: Size,
    ) -> (Target<u32, ()>, bool) {
        let checkout = pool
            .lease_scratch(format, size, MAXIMUM)
            .expect("valid scratch size");
        self.complete(checkout, format, Role::Scratch)
    }
}

#[test]
fn role_changes_reuse_exact_backings_and_account_for_the_current_request() {
    let textures = Textures::default();
    let mut state: State<u32, ()> = State::default_on(Platform::Native);
    state.begin_frame();
    let (target, hit) = textures.layer(&mut state.pool, Size::new(45, 47));
    assert!(!hit);
    assert!(target.get().text_viewport.is_none());
    let texture = target.get().resources;
    let address = std::ptr::from_ref::<TargetStorage<u32, ()>>(target.get());
    state.pool.release(target);

    for _ in 0..4 {
        let mut allocator = ScratchAllocator::new(FORMAT, MAXIMUM);
        let handle = allocator
            .allocate(
                &mut state.pool,
                &mut state.diagnostics,
                Size::new(49, 61),
                |_| textures.create(),
            )
            .expect("scratch texture");
        assert_eq!(*handle.resources(), texture);
        assert_eq!(handle.physical_size(), Size::new(49, 61));
        assert_eq!(handle.backing_extent(), EXTENT);
        let uv = handle.valid_uv(&|a, b| (a as f32 / b as f32).to_bits());
        assert_eq!(
            [f32::from_bits(uv.x), f32::from_bits(uv.y)],
            [49.0 / 64.0, 61.0 / 64.0]
        );
        let leases = allocator.finish();
        assert_eq!(
            std::ptr::from_ref::<TargetStorage<u32, ()>>(leases[0].get()),
            address
        );
        assert_eq!(state.pool.bytes(), 0);
        release(&mut state.pool, leases);
        assert_eq!(state.pool.scratch_bytes(), BYTES);

        let (target, hit) = textures.layer(&mut state.pool, EXTENT);
        assert!(hit);
        assert_eq!(target.get().resources, texture);
        assert_eq!(
            std::ptr::from_ref::<TargetStorage<u32, ()>>(target.get()),
            address
        );
        assert!(target.get().text_viewport.is_none());
        state.pool.release(target);
        assert_eq!(state.pool.scratch_bytes(), 0);
        assert_eq!(state.pool.bytes(), BYTES);
    }
    assert_eq!(state.diagnostics.allocated_bytes, 0);

    // Neither an incompatible size nor format may consume the existing backing.
    let (small, hit) = textures.scratch(&mut state.pool, FORMAT, Size::new(7, 5));
    assert!(!hit);
    assert_eq!(small.get().extent, Size::new(8, 8));
    let (_wide, hit) = textures.scratch(&mut state.pool, FORMAT, Size::new(65, 64));
    assert!(!hit);
    let (float, hit) = textures.scratch(&mut state.pool, TextureFormat::Rgba16Float, EXTENT);
    assert!(!hit);
    assert_eq!(float.get().byte_size(), 2 * BYTES);
    assert_eq!(state.pool.bytes(), BYTES);
    let (active, hit) = textures.scratch(&mut state.pool, FORMAT, EXTENT);
    assert!(hit);
    let (other, hit) = textures.layer(&mut state.pool, EXTENT);
    assert!(!hit);
    assert_ne!(active.get().resources, other.get().resources);
}

#[test]
fn trimming_uses_release_order_and_one_shared_budget_without_idle_expiry() {
    let textures = Textures::default();
    let mut state: State<u32, ()> = State::default_on(Platform::Native);
    let (layer, _) = textures.layer(&mut state.pool, EXTENT);
    let (scratch, _) = textures.scratch(&mut state.pool, FORMAT, EXTENT);
    // Return scratch first in the same frame: role must not override recency.
    state.pool.release(scratch);
    state.pool.release(layer);
    state.set_limits(Limits::new(2 * BYTES, 2));
    for frame in [1, 122, 10_000, u64::MAX, 0] {
        state.frame = frame;
        let _ = state.finish_frame();
        assert_eq!(state.diagnostics.retained_bytes(), 2 * BYTES);
    }
    state.set_limits(Limits::new(BYTES, 2));
    let _ = state.finish_frame();
    assert_eq!(state.pool.scratch_bytes(), 0);
    assert_eq!(state.diagnostics.retained_bytes(), BYTES);

    let (oversized, _) = textures.layer(&mut state.pool, Size::new(128, 128));
    state.pool.release(oversized);
    let _ = state.finish_frame();
    assert_eq!(state.diagnostics.retained_bytes(), BYTES);
    let (kept, hit) = textures.layer(&mut state.pool, EXTENT);
    assert!(hit);
    state.pool.release(kept);
    state.set_limits(Limits::new(0, 2));
    let _ = state.finish_frame();
    assert_eq!(state.diagnostics.retained_bytes(), 0);
}

fn root() -> Context {
    Context::root(
        EXTENT,
        SizeBits {
            width: 64.0f32.to_bits(),
            height: 64.0f32.to_bits(),
        },
        1.0f32.to_bits(),
        ScaleBits {
            window: 1.0f32.to_bits(),
            application: 1.0f32.to_bits(),
        },
        FORMAT,
    )
}

fn key(request: &CacheRequest, evidence: LayerInputEvidence) -> OutputKey {
    let bounds = RectangleBits {
        x: 0,
        y: 0,
        width: 64.0f32.to_bits(),
        height: 64.0f32.to_bits(),
    };
    OutputKey::new(request, evidence, &root(), bounds, false, 7)
}

fn retain_output(
    state: &mut State<u32, ()>,
    textures: &Textures,
    identities: &mut IdentitySource,
    priority: CacheResidencyPriority,
) -> CacheRequest {
    let surface = SurfaceHandle::new(identities);
    let content = ContentChangeHandle::new(identities);
    let request = surface.cache_request_with(priority, &[&content]);
    let lease = state.registry.lease_output(
        &request,
        key(&request, LayerInputRecords::new().finish()),
        state.frame,
    );
    let (target, _) = textures.layer(&mut state.pool, EXTENT);
    assert!(state
        .registry
        .store_output(
            lease.ticket.expect("granted lease"),
            &request,
            key(&request, LayerInputRecords::new().finish()),
            state.frame,
            target
        )
        .stored());
    request
}

#[test]
fn frame_end_evicts_free_then_normal_then_protected_outputs() {
    let textures = Textures::default();
    let mut identities = IdentitySource::new();
    let mut state: State<u32, ()> = State::default_on(Platform::Native);
    state.begin_frame();
    for priority in [
        CacheResidencyPriority::Protected,
        CacheResidencyPriority::Normal,
    ] {
        let _ = retain_output(&mut state, &textures, &mut identities, priority);
    }
    let (free, _) = textures.layer(&mut state.pool, EXTENT);
    state.pool.release(free);
    state.set_limits(Limits::new(2 * BYTES, 2));
    let _ = state.finish_frame();
    assert_eq!(state.diagnostics.retained_bytes(), 2 * BYTES);
    assert_eq!(state.diagnostics.pool_bytes, 0);
    assert_eq!(state.diagnostics.normal_priority_bytes, BYTES);
    assert_eq!(state.diagnostics.protected_priority_bytes, BYTES);
    state.set_limits(Limits::new(BYTES, 2));
    let _ = state.finish_frame();
    assert_eq!(state.diagnostics.retained_bytes(), BYTES);
    assert_eq!(state.diagnostics.protected_priority_bytes, BYTES);
    state.set_limits(Limits::new(0, 2));
    let _ = state.finish_frame();
    assert_eq!(state.diagnostics.retained_bytes(), 0);
    assert_eq!(state.registry.metadata_counts().outputs, 2);
    assert_eq!(state.registry.metadata_counts().resident_outputs, 0);
}

#[test]
fn active_replacement_excess_is_reported_and_trimmed_after_recovery() {
    let textures = Textures::default();
    let mut identities = IdentitySource::new();
    let mut state: State<u32, ()> = State::default_on(Platform::Native);
    state.begin_frame();
    let request = retain_output(
        &mut state,
        &textures,
        &mut identities,
        CacheResidencyPriority::Protected,
    );
    let mut inputs = LayerInputRecords::new();
    inputs.record(&InputValue::new(1, vec![InputWord::Integer(1)]));
    let active =
        state
            .registry
            .lease_output(&request, key(&request, inputs.finish()), state.frame);
    assert!(!active.valid);
    assert!(active.ticket.is_some());
    state.set_limits(Limits::new(0, 2));
    let audit = state.finish_frame();
    assert_eq!(audit.output_leases, 1);
    assert_eq!(state.registry.finish_frame(state.frame).output_leases, 1);
    assert_eq!(state.diagnostics.retained_bytes(), BYTES);
    state.begin_frame();
    let _ = state.finish_frame();
    assert_eq!(state.registry.finish_frame(state.frame).output_leases, 0);
    assert_eq!(state.diagnostics.retained_bytes(), 0);
}
