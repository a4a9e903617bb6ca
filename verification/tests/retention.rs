//! Retained outputs: reuse, replacement, competition, recovery and eviction.

use isolated_layer::capture::{bounded_with_grid, Projection, Raster};
use isolated_layer::content::{
    CacheRequest, CacheResidencyPriority, ContentChangeHandle, IdentitySource, SurfaceHandle,
};
use isolated_layer::context::{CaptureGrid, Context, PointBits, ScaleBits, SizeBits};
use isolated_layer::evidence::{InputValue, InputWord, LayerInputEvidence, LayerInputRecords};
use isolated_layer::float_bits::RectangleBits;
use isolated_layer::format::TextureFormat;
use isolated_layer::geometry::{Capture, Size};
use isolated_layer::output_key::{KeyMismatch, OutputKey};
use isolated_layer::retained::{
    EvictionTier, LeaseTicket, MetadataCounts, OutputMiss, OutputTarget, Registry,
    StoreDisposition,
};

#[derive(Debug, PartialEq, Eq)]
struct FakeTarget {
    id: u64,
    bytes: u64,
}

impl FakeTarget {
    fn new(id: u64) -> Self {
        Self { id, bytes: 16 }
    }
}

impl OutputTarget for FakeTarget {
    fn size(&self) -> u64 {
        self.bytes
    }

    fn output_byte_size(&self) -> u64 {
        self.bytes
    }
}

const EMPTY: MetadataCounts = MetadataCounts {
    outputs: 0,
    resident_outputs: 0,
    watermark_records: 0,
};

fn evidence(value: u8) -> LayerInputEvidence {
    let mut inputs = LayerInputRecords::new();
    inputs.record(&InputValue::new(
        1,
        vec![InputWord::Integer(u64::from(value))],
    ));
    inputs.finish()
}

fn area(x: f32, y: f32, width: f32, height: f32) -> RectangleBits {
    RectangleBits {
        x: x.to_bits(),
        y: y.to_bits(),
        width: width.to_bits(),
        height: height.to_bits(),
    }
}

fn context_at(x: f32) -> Context {
    let root = Context::root(
        Size::new(512, 512),
        SizeBits {
            width: 512.0f32.to_bits(),
            height: 512.0f32.to_bits(),
        },
        1.0f32.to_bits(),
        ScaleBits {
            window: 1.0f32.to_bits(),
            application: 1.0f32.to_bits(),
        },
        TextureFormat::Rgba8Unorm,
    );
    let bounds = area(x, 20.0, 80.0, 40.0);
    let mut context = bounded_with_grid(
        bounds,
        &root,
        CaptureGrid::LayerAligned,
        &|requested, _| Some(requested),
        &|bounds: RectangleBits| Projection {
            x: bounds.x,
            y: bounds.y,
            width: bounds.width,
            height: bounds.height,
            right: (f32::from_bits(bounds.x) + f32::from_bits(bounds.width)).to_bits(),
            bottom: (f32::from_bits(bounds.y) + f32::from_bits(bounds.height)).to_bits(),
        },
        &|a, b| (f32::from_bits(a) + f32::from_bits(b)).to_bits(),
        &|requested: RectangleBits, origin: PointBits, capture: Capture| Raster {
            translation: PointBits {
                x: (-f32::from_bits(origin.x)).to_bits(),
                y: (-f32::from_bits(origin.y)).to_bits(),
            },
            represented_bounds: RectangleBits {
                x: origin.x,
                y: origin.y,
                width: (capture.source.width as f32).to_bits(),
                height: (capture.source.height as f32).to_bits(),
            },
            relative_content: RectangleBits {
                x: 0,
                y: 0,
                width: requested.width,
                height: requested.height,
            },
        },
    )
    .expect("visible layer context");
    context.set_source_geometry(
        SizeBits {
            width: bounds.width,
            height: bounds.height,
        },
        area(0.0, 0.0, 80.0, 40.0),
    );
    context
}

fn key(
    request: &CacheRequest,
    evidence: LayerInputEvidence,
    context: &Context,
    position_sensitive: bool,
) -> OutputKey {
    OutputKey::new(
        request,
        evidence,
        context,
        context.represented_bounds,
        position_sensitive,
        7,
    )
}

#[test]
fn one_slot_replaces_x_with_y_and_does_not_retain_x_history() {
    let mut identities = IdentitySource::new();
    let surface = SurfaceHandle::new(&mut identities);
    let content = ContentChangeHandle::new(&mut identities);
    let request = surface.cache_request(&[&content]);
    let context = context_at(10.0);
    let mut registry = Registry::<FakeTarget>::default();

    let x = key(&request, evidence(1), &context, false);
    let initial = registry.lease_output(&request, x.clone(), 1);
    assert_eq!(initial.miss, Some(OutputMiss::UnknownIdentity));
    let stored = registry.store_output(
        initial.ticket.expect("initial ticket"),
        &request,
        x.clone(),
        1,
        FakeTarget::new(1),
    );
    assert!(stored.stored());

    let y = key(&request, evidence(2), &context, false);
    let replacement = registry.lease_output(&request, y.clone(), 2);
    assert_eq!(replacement.miss, Some(OutputMiss::EffectInputsChanged));
    assert_eq!(registry.bytes(), 16, "old X remains during replacement");
    let stored = registry.store_output(
        replacement.ticket.expect("replacement ticket"),
        &request,
        y,
        2,
        FakeTarget::new(2),
    );
    assert_eq!(stored.released, vec![FakeTarget::new(1)]);

    let back_to_x = registry.lease_output(&request, x, 3);
    assert_eq!(back_to_x.miss, Some(OutputMiss::EffectInputsChanged));
    assert!(back_to_x.target.is_none());
    let stored = registry.store_output(
        back_to_x.ticket.expect("back-to-X ticket"),
        &request,
        key(&request, evidence(1), &context, false),
        3,
        FakeTarget::new(3),
    );
    assert_eq!(stored.released, vec![FakeTarget::new(2)]);
    assert_eq!(registry.metadata_counts().outputs, 1);
    assert_eq!(registry.metadata_counts().resident_outputs, 1);
}

#[test]
fn stale_content_during_lease_rejects_candidate_and_preserves_old_output() {
    let mut identities = IdentitySource::new();
    let surface = SurfaceHandle::new(&mut identities);
    let content = ContentChangeHandle::new(&mut identities);
    let request = surface.cache_request(&[&content]);
    let context = context_at(10.0);
    let mut registry = Registry::<FakeTarget>::default();
    let x = key(&request, evidence(1), &context, false);

    let initial = registry.lease_output(&request, x.clone(), 1);
    let _ = registry.store_output(
        initial.ticket.expect("initial ticket"),
        &request,
        x,
        1,
        FakeTarget::new(1),
    );

    let y = key(&request, evidence(2), &context, false);
    let replacement = registry.lease_output(&request, y.clone(), 2);
    let _ = content.mark_changed();
    let rejected = registry.store_output(
        replacement.ticket.expect("replacement ticket"),
        &request,
        y,
        2,
        FakeTarget::new(2),
    );

    assert_eq!(rejected.disposition, StoreDisposition::ContentChanged);
    assert_eq!(rejected.released, vec![FakeTarget::new(2)]);
    assert_eq!(registry.bytes(), 16);
    let evicted = registry.evict_to_bytes(0, 3).evicted;
    assert_eq!(
        evicted.iter().map(|entry| entry.target.id).collect::<Vec<_>>(),
        vec![1]
    );
}

#[test]
fn competing_writer_invalidates_first_lease_without_displacing_old_output() {
    let mut identities = IdentitySource::new();
    let surface = SurfaceHandle::new(&mut identities);
    let content = ContentChangeHandle::new(&mut identities);
    let request = surface.cache_request(&[&content]);
    let context = context_at(10.0);
    let mut registry = Registry::<FakeTarget>::default();
    let x = key(&request, evidence(1), &context, false);

    let initial = registry.lease_output(&request, x.clone(), 1);
    let _ = registry.store_output(
        initial.ticket.expect("initial ticket"),
        &request,
        x,
        1,
        FakeTarget::new(1),
    );

    let y = key(&request, evidence(2), &context, false);
    let first = registry.lease_output(&request, y.clone(), 2);
    let second = registry.lease_output(&request, y.clone(), 2);
    assert_eq!(second.miss, Some(OutputMiss::CompetingWriter));
    assert!(!second.cacheable);

    let rejected = registry.store_output(
        first.ticket.expect("first writer ticket"),
        &request,
        y,
        2,
        FakeTarget::new(2),
    );
    assert_eq!(rejected.disposition, StoreDisposition::CompetingWriter);
    assert_eq!(rejected.released, vec![FakeTarget::new(2)]);
    assert_eq!(registry.bytes(), 16);
}

#[test]
fn absolute_geometry_is_conditional_on_translation_sensitivity() {
    let mut identities = IdentitySource::new();
    let surface = SurfaceHandle::new(&mut identities);
    let content = ContentChangeHandle::new(&mut identities);
    let request = surface.cache_request(&[&content]);
    let first = context_at(10.0);
    let moved = context_at(73.25);

    let invariant_a = key(&request, evidence(1), &first, false);
    let invariant_b = key(&request, evidence(1), &moved, false);
    assert!(invariant_a.matches(&invariant_b));

    let sensitive_a = key(&request, evidence(1), &first, true);
    let sensitive_b = key(&request, evidence(1), &moved, true);
    assert!(!sensitive_a.matches(&sensitive_b));
    assert_eq!(
        sensitive_a.first_mismatch(&sensitive_b),
        Some(KeyMismatch::Geometry)
    );
}

#[test]
fn keep_alive_only_marks_existing_identity_and_normalizes_priority_conflict() {
    let mut identities = IdentitySource::new();
    let missing = SurfaceHandle::new(&mut identities);
    let mut registry = Registry::<FakeTarget>::default();
    assert!(!registry.keep_alive(&missing.cache_keep_alive(), 1).found);
    assert_eq!(registry.metadata_counts().outputs, 0);

    let content = ContentChangeHandle::new(&mut identities);
    let request = missing.cache_request_with(CacheResidencyPriority::Protected, &[&content]);
    let context = context_at(10.0);
    let output_key = key(&request, evidence(1), &context, false);
    let lease = registry.lease_output(&request, output_key.clone(), 2);
    let _ = registry.store_output(
        lease.ticket.expect("ticket"),
        &request,
        output_key,
        2,
        FakeTarget::new(1),
    );

    let outcome = registry.keep_alive(&missing.cache_keep_alive(), 2);
    assert!(outcome.found);
    assert!(outcome.priority_conflict);
    assert_eq!(registry.resident_bytes().normal, 16);
    assert_eq!(registry.resident_bytes().protected, 0);
}

#[test]
fn recovery_sweep_and_budget_operate_on_whole_output_slots() {
    let mut identities = IdentitySource::new();
    let first_surface = SurfaceHandle::new(&mut identities);
    let second_surface = SurfaceHandle::new(&mut identities);
    let first_content = ContentChangeHandle::new(&mut identities);
    let second_content = ContentChangeHandle::new(&mut identities);
    let first_request = first_surface.cache_request(&[&first_content]);
    let second_request = second_surface
        .cache_request_with(CacheResidencyPriority::Protected, &[&second_content]);
    let context = context_at(10.0);
    let mut registry = Registry::<FakeTarget>::default();

    let first_key = key(&first_request, evidence(1), &context, false);
    let first_lease = registry.lease_output(&first_request, first_key.clone(), 1);
    let _ = registry.store_output(
        first_lease.ticket.expect("first ticket"),
        &first_request,
        first_key,
        1,
        FakeTarget::new(1),
    );
    let second_key = key(&second_request, evidence(2), &context, false);
    let second_lease = registry.lease_output(&second_request, second_key.clone(), 2);
    let _ = registry.store_output(
        second_lease.ticket.expect("second ticket"),
        &second_request,
        second_key.clone(),
        2,
        FakeTarget::new(2),
    );

    let abandoned = registry.lease_output(&second_request, second_key, 3);
    assert!(abandoned.valid);
    assert_eq!(registry.finish_frame(3).output_leases, 1);
    assert_eq!(registry.recover_abandoned(4).output_leases, 1);

    let eviction = registry.evict_to_bytes(0, 4);
    assert_eq!(eviction.evicted.len(), 1);
    assert_eq!(eviction.evicted[0].tier, EvictionTier::Normal);
    assert_eq!(eviction.evicted[0].target.id, 1);
    assert_eq!(eviction.remaining_bytes, 0);

    let swept = registry.sweep(10, 1);
    assert_eq!(swept.outputs, 2);
    assert!(swept.released.is_empty());
    assert_eq!(registry.metadata_counts(), EMPTY);
}

#[test]
fn empty_content_evidence_fails_closed_without_creating_a_slot() {
    let mut identities = IdentitySource::new();
    let surface = SurfaceHandle::new(&mut identities);
    let request = surface.cache_request(&[]);
    let context = context_at(10.0);
    let mut registry = Registry::<FakeTarget>::default();
    let lease = registry.lease_output(&request, key(&request, evidence(1), &context, false), 1);

    assert_eq!(lease.miss, Some(OutputMiss::MissingContentEvidence));
    assert!(!lease.cacheable);
    assert_eq!(registry.metadata_counts(), EMPTY);
}

#[test]
fn fresh_request_is_accepted_after_pre_lookup_generation_race() {
    let mut identities = IdentitySource::new();
    let surface = SurfaceHandle::new(&mut identities);
    let content = ContentChangeHandle::new(&mut identities);
    let initial_request = surface.cache_request(&[&content]);
    let context = context_at(10.0);
    let mut registry = Registry::<FakeTarget>::default();
    let initial_key = key(&initial_request, evidence(1), &context, false);
    let initial = registry.lease_output(&initial_request, initial_key.clone(), 1);
    let _ = registry.store_output(
        initial.ticket.expect("initial ticket"),
        &initial_request,
        initial_key,
        1,
        FakeTarget::new(1),
    );

    let stale_request = surface.cache_request(&[&content]);
    let _ = content.mark_changed();
    let rejected = registry.lease_output(
        &stale_request,
        key(&stale_request, evidence(1), &context, false),
        2,
    );
    assert_eq!(rejected.miss, Some(OutputMiss::ContentChangedBeforeLookup));

    let fresh_request = stale_request.resnapshot();
    let accepted = registry.lease_output(
        &fresh_request,
        key(&fresh_request, evidence(1), &context, false),
        2,
    );
    assert_eq!(accepted.miss, Some(OutputMiss::ContentChanged));
    assert!(accepted.cacheable);
}

/// A slot with one stored output, ready to be looked up again.
struct Stored {
    registry: Registry<FakeTarget>,
    surface: SurfaceHandle,
    content: ContentChangeHandle,
    other: ContentChangeHandle,
}

fn stored() -> Stored {
    let mut identities = IdentitySource::new();
    let surface = SurfaceHandle::new(&mut identities);
    let content = ContentChangeHandle::new(&mut identities);
    let other = ContentChangeHandle::new(&mut identities);
    let mut registry = Registry::<FakeTarget>::default();
    let request = surface.cache_request(&[&content, &other]);
    let output = key(&request, evidence(1), &context_at(10.0), true);
    let lease = registry.lease_output(&request, output.clone(), 1);
    let outcome = registry.store_output(
        lease.ticket.expect("ticket"),
        &request,
        output,
        1,
        FakeTarget::new(1),
    );
    assert!(outcome.stored());
    Stored {
        registry,
        surface,
        content,
        other,
    }
}

#[test]
fn unchanged_outputs_are_handed_back() {
    let mut stored = stored();
    let request = stored
        .surface
        .cache_request(&[&stored.content, &stored.other]);
    let same = key(&request, evidence(1), &context_at(10.0), true);
    let hit = stored.registry.lease_output(&request, same.clone(), 2);

    assert!(hit.valid);
    assert_eq!(hit.miss, None);
    assert_eq!(hit.target, Some(FakeTarget::new(1)));
    let returned = stored.registry.store_output(
        hit.ticket.expect("hit ticket"),
        &request,
        same,
        2,
        FakeTarget::new(1),
    );
    assert!(returned.stored());
    assert!(returned.released.is_empty());
}

#[test]
fn every_changed_fact_is_named() {
    let mut stored = stored();
    let request = stored
        .surface
        .cache_request(&[&stored.content, &stored.other]);

    let moved = key(&request, evidence(1), &context_at(40.0), true);
    let lease = stored.registry.lease_output(&request, moved, 2);
    assert_eq!(lease.miss, Some(OutputMiss::GeometryChanged));
    stored.registry.recover_abandoned(3);

    let other_device = OutputKey::new(
        &request,
        evidence(1),
        &context_at(10.0),
        context_at(10.0).represented_bounds,
        true,
        8,
    );
    let lease = stored.registry.lease_output(&request, other_device, 3);
    assert_eq!(lease.miss, Some(OutputMiss::RasterChanged));
    stored.registry.recover_abandoned(4);

    let mut inputs = LayerInputRecords::new();
    inputs.mark_volatile();
    let volatile = key(&request, inputs.finish(), &context_at(10.0), true);
    let lease = stored.registry.lease_output(&request, volatile, 4);
    assert_eq!(lease.miss, Some(OutputMiss::VolatileInputs));
    assert!(!lease.cacheable);

    let evicted = stored.registry.evict_to_bytes(0, 5);
    assert_eq!(evicted.evicted.len(), 1);
    let same = key(&request, evidence(1), &context_at(10.0), true);
    let lease = stored.registry.lease_output(&request, same, 5);
    assert_eq!(lease.miss, Some(OutputMiss::Targetless));
}

#[test]
fn conflicting_evidence_is_rejected_before_lookup() {
    let mut identities = IdentitySource::new();
    let surface = SurfaceHandle::new(&mut identities);
    let content = ContentChangeHandle::new(&mut identities);
    let earlier = content.revision();
    let _ = content.mark_changed();
    let request = surface.cache_request_observed(
        CacheResidencyPriority::Normal,
        vec![content.clone(), content.clone()],
        vec![earlier, content.revision()],
    );
    let mut registry = Registry::<FakeTarget>::default();
    let lease = registry.lease_output(
        &request,
        key(&request, evidence(1), &context_at(10.0), false),
        1,
    );
    assert_eq!(lease.miss, Some(OutputMiss::ContentConflict));
    assert!(!lease.cacheable);
}

#[test]
fn stores_are_checked_against_their_lease() {
    let mut stored = stored();
    let request = stored
        .surface
        .cache_request(&[&stored.content, &stored.other]);
    let changed = key(&request, evidence(2), &context_at(10.0), true);
    let lease = stored.registry.lease_output(&request, changed.clone(), 2);
    let ticket = lease.ticket.expect("replacement ticket");

    let wrong_ticket = stored.registry.store_output(
        LeaseTicket(ticket.0 + 100),
        &request,
        changed.clone(),
        2,
        FakeTarget::new(2),
    );
    assert_eq!(wrong_ticket.disposition, StoreDisposition::TicketMismatch);
    assert_eq!(wrong_ticket.released, vec![FakeTarget::new(2)]);

    let unknown = SurfaceHandle::new(&mut IdentitySource::new()).cache_request(&[]);
    let mut empty = Registry::<FakeTarget>::default();
    let nowhere = empty.store_output(
        ticket,
        &unknown,
        key(&unknown, evidence(1), &context_at(10.0), true),
        2,
        FakeTarget::new(3),
    );
    assert_eq!(nowhere.disposition, StoreDisposition::UnknownEntry);
}

#[test]
fn unmarked_outputs_are_swept_after_their_grace() {
    let mut stored = stored();
    assert_eq!(stored.registry.sweep(3, 2).outputs, 0);
    let swept = stored.registry.sweep(4, 2);
    assert_eq!(swept.outputs, 1);
    assert_eq!(swept.released, vec![FakeTarget::new(1)]);
    assert_eq!(stored.registry.metadata_counts(), EMPTY);
}
