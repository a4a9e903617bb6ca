//! Output slots, content generations and what a cache request observes.

use std::collections::HashSet;

use isolated_layer::content::{
    content_stamp_from_revisions, next_generation, normalize_revisions, published_generation,
    CacheResidencyPriority, ContentChangeHandle, IdentitySource, Revision, SurfaceHandle,
};
use isolated_layer::context::{BlendMode, CompositePositioning};
use isolated_layer::float_bits::RectangleBits;
use isolated_layer::request::{Composite, Layer};

#[test]
fn composite_builders_canonicalize_and_preserve_positioning() {
    let composite = Composite::additive(2.0f32.to_bits())
        .with_positioning(CompositePositioning::Subpixel)
        .with_opacity(f32::NAN.to_bits())
        .with_blend_mode(BlendMode::SourceOver);

    assert_eq!(f32::from_bits(composite.opacity()), 0.0);
    assert_eq!(composite.blend_mode(), BlendMode::SourceOver);
    assert_eq!(composite.positioning(), CompositePositioning::Subpixel);
    assert_eq!(
        Composite::default().positioning(),
        CompositePositioning::Snapped
    );
}

#[test]
fn opacities_are_clamped_to_the_unit_interval() {
    for (requested, expected) in [
        (2.0, 1.0),
        (1.0, 1.0),
        (0.25, 0.25),
        (-0.5, 0.0),
        (f32::INFINITY, 1.0),
        (f32::NEG_INFINITY, 0.0),
    ] {
        let composite = Composite::source_over(f32::to_bits(requested));
        assert_eq!(f32::from_bits(composite.opacity()), expected);
    }
    assert_eq!(f32::from_bits(Composite::default().opacity()), 1.0);
}

#[test]
fn surface_clones_share_only_the_output_slot_identity() {
    let mut identities = IdentitySource::new();
    let surface = SurfaceHandle::new(&mut identities);
    let clone = surface.clone();

    assert_eq!(surface, clone);
    assert_eq!(surface.identity(), clone.identity());
    assert_ne!(
        surface.identity(),
        SurfaceHandle::new(&mut identities).identity()
    );
}

#[test]
fn content_change_generations_are_shared_and_monotonic() {
    let mut identities = IdentitySource::new();
    let content = ContentChangeHandle::new(&mut identities);
    let clone = content.clone();

    assert_eq!(content, clone);
    assert_eq!(clone.mark_changed(), Some(1));
    assert_eq!(content.generation(), 1);
}

#[test]
fn exhausted_generations_are_never_reused() {
    assert_eq!(next_generation(u64::MAX - 1), Some(u64::MAX));
    assert_eq!(next_generation(u64::MAX), None);
    assert_eq!(published_generation(Ok(u64::MAX - 1)), Some(u64::MAX));
    assert_eq!(published_generation(Err(u64::MAX)), None);
}

#[test]
fn cache_request_normalizes_content_revisions_and_priority() {
    let mut identities = IdentitySource::new();
    let surface = SurfaceHandle::new(&mut identities);
    let first = ContentChangeHandle::new(&mut identities);
    let second = ContentChangeHandle::new(&mut identities);
    let _ = first.mark_changed();
    let cache_request = surface.cache_request_with(
        CacheResidencyPriority::Protected,
        &[&second, &first, &second],
    );

    assert_eq!(cache_request.identity(), surface.identity());
    assert_eq!(cache_request.priority(), CacheResidencyPriority::Protected);
    assert_eq!(
        cache_request.revisions(),
        &[first.revision(), second.revision()]
    );
    assert!(cache_request.has_content_evidence());
    assert!(!cache_request.is_conflicted());
    assert!(cache_request.is_current());
}

#[test]
fn output_keep_alive_contains_only_slot_identity_and_priority() {
    let mut identities = IdentitySource::new();
    let surface = SurfaceHandle::new(&mut identities);
    let content = ContentChangeHandle::new(&mut identities);
    let request = surface.cache_request(&[&content]);
    let keep_alive = surface.cache_keep_alive_with(CacheResidencyPriority::Protected);

    assert_eq!(request.identity(), keep_alive.identity());
    assert_eq!(keep_alive.priority(), CacheResidencyPriority::Protected);
}

#[test]
fn empty_content_evidence_fails_closed() {
    let mut identities = IdentitySource::new();
    let surface = SurfaceHandle::new(&mut identities);
    let request = surface.cache_request(&[]);

    assert!(!request.has_content_evidence());
    assert!(request.stamp().is_empty());
    assert!(!request.is_current());
}

#[test]
fn cache_request_can_revalidate_and_resnapshot_live_content() {
    let mut identities = IdentitySource::new();
    let surface = SurfaceHandle::new(&mut identities);
    let content = ContentChangeHandle::new(&mut identities);
    let request = surface.cache_request(&[&content]);

    assert!(request.is_current());
    assert_eq!(content.mark_changed(), Some(1));
    assert!(!request.is_current());

    let refreshed = request.resnapshot();
    assert_eq!(refreshed.identity(), request.identity());
    assert_eq!(refreshed.priority(), request.priority());
    assert_eq!(refreshed.revisions(), &[content.revision()]);
    assert!(refreshed.is_current());
    assert_ne!(refreshed.stamp(), request.stamp());
}

#[test]
fn conflicting_duplicate_observations_fail_closed_with_newest_evidence() {
    let mut identities = IdentitySource::new();
    let surface = SurfaceHandle::new(&mut identities);
    let content = ContentChangeHandle::new(&mut identities);

    // The content changes between the two observations of one handle.
    let earlier = content.revision();
    let _ = content.mark_changed();
    let later = content.revision();
    let request = surface.cache_request_observed(
        CacheResidencyPriority::Normal,
        vec![content.clone(), content.clone()],
        vec![earlier, later],
    );
    let stamp = request.stamp();

    assert!(stamp.is_conflicted());
    assert_eq!(
        stamp.revisions(),
        &[Revision::new(content.identity(), 1)]
    );
    assert!(!request.is_current());
}

#[test]
fn core_layer_carries_an_output_request() {
    let mut identities = IdentitySource::new();
    let surface = SurfaceHandle::new(&mut identities);
    let content = ContentChangeHandle::new(&mut identities);
    let bounds = RectangleBits {
        x: 0.0f32.to_bits(),
        y: 0.0f32.to_bits(),
        width: 20.0f32.to_bits(),
        height: 10.0f32.to_bits(),
    };
    let layer = Layer::new(bounds, bounds).cache_output_with(
        &surface,
        CacheResidencyPriority::Protected,
        &[&content],
    );
    let request = layer.output_cache_request.expect("output cache request");

    assert_eq!(request.identity(), surface.identity());
    assert_eq!(request.revisions(), &[content.revision()]);
    assert_eq!(request.priority(), CacheResidencyPriority::Protected);
}

#[test]
fn normalization_orders_revisions_and_keeps_the_newest() {
    let (revisions, conflicted) = normalize_revisions(vec![
        Revision::new(9, 2),
        Revision::new(4, 1),
        Revision::new(9, 5),
        Revision::new(4, 1),
    ]);
    assert_eq!(revisions, vec![Revision::new(4, 1), Revision::new(9, 5)]);
    assert!(conflicted);

    let stamp = content_stamp_from_revisions(vec![Revision::new(4, 1), Revision::new(4, 1)]);
    assert!(!stamp.is_conflicted());
    assert_eq!(stamp.generation_of(4), Some(1));
    assert_eq!(stamp.generation_of(5), None);
}

#[test]
fn identities_start_above_zero_and_never_repeat() {
    let mut identities = IdentitySource::new();
    let first = identities.next_identity();
    let second = identities.next_identity();
    assert_eq!(first, 1);
    assert_eq!(second, 2);
    assert!(!identities.is_exhausted());
}

#[test]
fn observed_content_is_taken_into_a_new_snapshot() {
    let mut identities = IdentitySource::new();
    let surface = SurfaceHandle::new(&mut identities);
    let content = ContentChangeHandle::new(&mut identities);
    let request =
        surface.cache_request_with(CacheResidencyPriority::Protected, &[&content]);
    let _ = content.mark_changed();
    let current = request.current_stamp();

    let refreshed = request.resnapshot_at(current.clone());
    assert_eq!(refreshed.identity(), surface.identity());
    assert_eq!(refreshed.priority(), CacheResidencyPriority::Protected);
    assert_eq!(refreshed.stamp(), &current);
    assert!(refreshed.is_current_at(&current));
    assert!(!request.is_current_at(&current));

    let _ = content.mark_changed();
    assert!(!refreshed.is_current());
    assert!(refreshed.resnapshot().is_current());
}

#[test]
fn requests_are_equal_when_slot_priority_and_evidence_are() {
    let mut identities = IdentitySource::new();
    let surface = SurfaceHandle::new(&mut identities);
    let other = SurfaceHandle::new(&mut identities);
    let content = ContentChangeHandle::new(&mut identities);
    let request = surface.cache_request(&[&content]);

    assert!(request == surface.cache_request(&[&content, &content]));
    assert!(request == request.clone());
    assert!(request != other.cache_request(&[&content]));
    assert!(request != surface.cache_request(&[]));
    assert!(
        request != surface.cache_request_with(CacheResidencyPriority::Protected, &[&content])
    );
    let _ = content.mark_changed();
    assert!(request != request.resnapshot());
    assert!(request.resnapshot() == surface.cache_request(&[&content]));
}

#[test]
fn content_handles_hash_by_what_they_share() {
    let mut identities = IdentitySource::new();
    let first = ContentChangeHandle::new(&mut identities);
    let second = ContentChangeHandle::new(&mut identities);
    let mut seen = HashSet::new();

    assert!(seen.insert(first.clone()));
    let _ = first.mark_changed();
    assert!(!seen.insert(first));
    assert!(seen.insert(second));
}

#[test]
fn layers_are_cloned_and_compared_by_value() {
    let mut identities = IdentitySource::new();
    let surface = SurfaceHandle::new(&mut identities);
    let content = ContentChangeHandle::new(&mut identities);
    let area = |x: f32| RectangleBits {
        x: x.to_bits(),
        y: 0.0f32.to_bits(),
        width: 20.0f32.to_bits(),
        height: 10.0f32.to_bits(),
    };
    let layer = Layer::new(area(0.0), area(0.0)).cache_output(&surface, &[&content]);

    assert!(layer == layer.clone());
    assert!(layer == Layer::new(area(-0.0), area(0.0)).cache_output(&surface, &[&content]));
    assert!(layer != Layer::new(area(1.0), area(0.0)).cache_output(&surface, &[&content]));
    assert!(layer != Layer::new(area(0.0), area(0.0)));
    assert!(layer != layer.clone().composite(Composite::additive(1.0f32.to_bits())));
    assert!(layer != layer.clone().content_bounds(area(2.0)));
    assert!(layer != layer.clone().content_depends_on_translation(true));
    let undefined = Layer::new(area(f32::NAN), area(0.0));
    assert!(undefined != undefined.clone());
}

#[test]
fn composites_compare_their_opacity_as_a_number() {
    assert!(
        Composite::source_over((-0.0f32).to_bits()) == Composite::source_over(0.0f32.to_bits())
    );
    assert!(
        Composite::source_over(0.5f32.to_bits()) != Composite::source_over(0.25f32.to_bits())
    );
    assert!(Composite::source_over(1.0f32.to_bits()) != Composite::additive(1.0f32.to_bits()));
}

#[test]
fn clones_of_requests_observe_the_same_content() {
    let mut identities = IdentitySource::new();
    let surface = SurfaceHandle::new(&mut identities);
    let first = ContentChangeHandle::new(&mut identities);
    let second = ContentChangeHandle::new(&mut identities);
    let request = surface.cache_request(&[&second, &first]);
    let clone = request.clone();

    assert!(clone.is_current());
    assert_eq!(second.mark_changed(), Some(1));
    assert!(!clone.is_current() && !request.is_current());
    assert_eq!(
        clone.current_stamp().revisions(),
        [
            Revision::new(first.identity(), 0),
            Revision::new(second.identity(), 1)
        ]
    );
    assert!(clone.resnapshot() == request.resnapshot());
}

#[test]
fn stale_requests_stay_stale() {
    let mut identities = IdentitySource::new();
    let surface = SurfaceHandle::new(&mut identities);
    let content = ContentChangeHandle::new(&mut identities);
    let request = surface.cache_request(&[&content]);
    let revision = content.revision();

    for generation in 1..5 {
        assert_eq!(content.clone().mark_changed(), Some(generation));
        assert_eq!(content.generation(), generation);
        assert_eq!(revision, Revision::new(content.identity(), 0));
        assert_ne!(content.revision(), revision);
        assert!(!request.is_current());
    }
}
