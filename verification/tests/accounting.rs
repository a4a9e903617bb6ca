//! Limits, statistics, texture sizes and renderer-local state.

use isolated_layer::content::{CacheResidencyPriority, IdentitySource, SurfaceHandle};
use isolated_layer::diagnostics::{Diagnostics, Limits, Platform};
use isolated_layer::format::{texture_byte_size, TextureFormat};
use isolated_layer::geometry::Size;
use isolated_layer::pool::{Pool, SizeClass, SIZE_INCREMENT};
use isolated_layer::retained::OutputMiss;
use isolated_layer::scratch::{backing_extent, ScratchError};
use isolated_layer::state::State;

#[test]
fn default_limits_are_platform_specific_and_use_two_frame_grace() {
    let limits = Limits::default_on(Platform::WebAssembly);
    assert_eq!(limits.budget_bytes, Limits::WASM_BUDGET_BYTES);
    assert_eq!(limits.grace_frames, 2);

    let limits = Limits::default_on(Platform::Native);
    assert_eq!(limits.budget_bytes, Limits::NATIVE_BUDGET_BYTES);
    assert_eq!(limits.grace_frames, 2);
}

#[test]
fn pending_keep_alives_are_identity_bounded_and_priority_conflicts_fail_normal() {
    let mut identities = IdentitySource::new();
    let surface = SurfaceHandle::new(&mut identities);
    let mut state: State<(), ()> = State::default_on(Platform::Native);

    state.mark_cache_alive(surface.cache_keep_alive_with(CacheResidencyPriority::Protected));
    state.mark_cache_alive(surface.cache_keep_alive());

    let pending = &state.pending_keep_alives;
    assert_eq!(pending.len(), 1);
    let priority = pending
        .priority(surface.identity())
        .expect("output keep-alive");
    assert_eq!(priority, CacheResidencyPriority::Normal);
}

#[test]
fn reset_replaces_the_keep_alive_snapshot_and_begin_consumes_it_once() {
    let mut identities = IdentitySource::new();
    let stale = SurfaceHandle::new(&mut identities);
    let current = SurfaceHandle::new(&mut identities);
    let mut state: State<(), ()> = State::default_on(Platform::Native);

    state.mark_cache_alive(stale.cache_keep_alive());
    state.snapshot_pending_keep_alives();
    assert_eq!(state.pending_keep_alives.len(), 0);
    assert!(state.frame_keep_alives.priority(stale.identity()).is_some());

    state.mark_cache_alive(current.cache_keep_alive());
    state.snapshot_pending_keep_alives();
    assert_eq!(state.frame_keep_alives.len(), 1);
    assert!(state.frame_keep_alives.priority(stale.identity()).is_none());
    assert!(state
        .frame_keep_alives
        .priority(current.identity())
        .is_some());

    state.begin_frame();
    assert_eq!(state.frame_keep_alives.len(), 0);
    state.diagnostics.record_layer(false, true);

    state.begin_frame();
    assert_eq!(state.diagnostics, Diagnostics::default());
}

#[test]
fn diagnostics_separate_outcomes_and_allocation_from_residency() {
    let mut diagnostics = Diagnostics::default();
    diagnostics.record_layer(true, true);
    diagnostics.record_layer(false, true);
    diagnostics.record_layer(false, false);
    assert_eq!(diagnostics.layer_count(), 3);
    assert_eq!(diagnostics.output_cache_hits, 1);
    assert_eq!(diagnostics.output_cache_misses, 1);
    assert_eq!(diagnostics.uncached_renders, 1);
    diagnostics.record_allocation(256, false);
    diagnostics.record_allocation(512, true);
    assert_eq!(diagnostics.allocated_bytes, 256);
    assert_eq!(diagnostics.retained_bytes(), 0);
}

#[test]
fn missing_content_errors_are_deduplicated_across_consecutive_draws() {
    let mut state: State<(), ()> = State::default_on(Platform::Native);
    let missing = OutputMiss::MissingContentEvidence;
    state.begin_frame();
    assert!(!state.should_report_missing_content(1, OutputMiss::ContentChanged));
    assert!(state.should_report_missing_content(1, missing));
    assert!(!state.should_report_missing_content(1, missing));
    state.begin_frame();
    assert!(!state.should_report_missing_content(1, missing));
    assert!(state.should_report_missing_content(2, missing));
    state.begin_frame();
    state.begin_frame();
    assert!(state.should_report_missing_content(1, missing));
}

#[test]
fn size_classes_are_normalized_in_increment_units() {
    assert_eq!(
        SizeClass::new(Size::new(1, 64), 4096),
        Some(SizeClass {
            width: 1,
            height: 1,
        })
    );
    assert_eq!(
        SizeClass::new(Size::new(65, 128), 4096),
        Some(SizeClass {
            width: 2,
            height: 2,
        })
    );
    assert_eq!(
        Pool::<(), ()>::backing_extent(Size::new(1, 65), 4096),
        Some(Size::new(64, 128))
    );
}

#[test]
fn terminal_size_class_does_not_cross_the_device_limit() {
    let maximum = 4096;
    let first = SizeClass::new(Size::new(maximum - SIZE_INCREMENT + 1, maximum), maximum)
        .expect("terminal size class");
    let last = SizeClass::new(Size::new(maximum, maximum), maximum).expect("maximum size class");

    assert_eq!(first, last);
    assert_eq!(last.extent(), Size::new(maximum, maximum));
    assert_eq!(
        Pool::<(), ()>::backing_extent(Size::new(maximum + 1, 1), maximum),
        None
    );
    assert_eq!(
        Pool::<(), ()>::backing_extent(Size::new(0, 1), maximum),
        None
    );
    // Layers require a complete size class even at a non-aligned limit.
    assert_eq!(Pool::<(), ()>::backing_extent(Size::new(65, 1), 100), None);
}

#[test]
fn texture_accounting_uses_the_actual_render_format() {
    let extent = Size::new(64, 32);

    assert_eq!(
        texture_byte_size(TextureFormat::Rgba8Unorm, extent),
        64 * 32 * 4
    );
    assert_eq!(
        texture_byte_size(TextureFormat::Rgba16Float, extent),
        64 * 32 * 8
    );
}

#[test]
fn texture_accounting_covers_every_texel_size() {
    let extent = Size::new(10, 10);

    assert_eq!(texture_byte_size(TextureFormat::R8Unorm, extent), 100);
    assert_eq!(texture_byte_size(TextureFormat::Rg8Unorm, extent), 200);
    assert_eq!(texture_byte_size(TextureFormat::R16Float, extent), 200);
    assert_eq!(texture_byte_size(TextureFormat::Rgb10a2Unorm, extent), 400);
    assert_eq!(texture_byte_size(TextureFormat::Rg11b10Ufloat, extent), 400);
    assert_eq!(
        texture_byte_size(TextureFormat::Rgba8Unorm, Size::new(0, 10)),
        0
    );
}

#[test]
fn small_levels_do_not_allocate_full_layer_size_classes() {
    for (requested, expected) in [(1, 1), (3, 4), (17, 32), (64, 64), (65, 128)] {
        assert_eq!(
            backing_extent(Size::new(requested, 1), 4096),
            Ok(Size::new(expected, 1))
        );
    }
}

#[test]
fn dimensions_are_checked_before_rounding() {
    assert_eq!(
        backing_extent(Size::new(0, 1), 4096),
        Err(ScratchError::Empty)
    );
    assert_eq!(
        backing_extent(Size::new(4097, 1), 4096),
        Err(ScratchError::TooLarge)
    );
    assert_eq!(backing_extent(Size::new(65, 1), 100), Ok(Size::new(100, 1)));
    assert_eq!(
        backing_extent(Size::new(u32::MAX, 1), u32::MAX),
        Ok(Size::new(u32::MAX, 1))
    );
}
