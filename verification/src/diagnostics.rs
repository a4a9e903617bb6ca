//! Renderer-local limits and per-draw statistics.

use vstd::prelude::*;

verus! {

/// What a renderer is built for.
#[derive(Debug, Clone, Copy, PartialEq, Eq, Structural)]
pub enum Platform {
    Native,
    WebAssembly,
}

/// Renderer-local limits for retained and transient GPU textures.
#[derive(Debug, Clone, Copy, PartialEq, Eq, Structural)]
pub struct Limits {
    /// Baseline bytes owned by the shared free texture pool and retained registry.
    ///
    /// Free textures remain reusable indefinitely while ownership fits. At frame end,
    /// excess ownership is trimmed: oversized free backings first, then the oldest free
    /// backings, normal cached outputs, and finally protected outputs. A free backing is
    /// oversized when it alone exceeds this entire budget. Active leases and private
    /// allocations are not capped by this budget.
    pub budget_bytes: u64,
    /// Number of completed rendered frames an unmarked output may survive.
    pub grace_frames: u64,
}

impl Limits {
    /// Default native renderer budget (128 MiB).
    pub const NATIVE_BUDGET_BYTES: u64 = 134_217_728;

    /// Default WebAssembly renderer budget (32 MiB).
    pub const WASM_BUDGET_BYTES: u64 = 33_554_432;

    /// Default rendered-frame grace period.
    pub const GRACE_FRAMES: u64 = 2;

    /// Creates renderer-local isolated layer limits.
    pub fn new(budget_bytes: u64, grace_frames: u64) -> (limits: Self)
        ensures
            limits == (Limits { budget_bytes, grace_frames }),
    {
        Limits { budget_bytes, grace_frames }
    }

    /// The default limits on a platform.
    pub open spec fn defaults(platform: Platform) -> Limits {
        Limits {
            budget_bytes: match platform {
                Platform::Native => Limits::NATIVE_BUDGET_BYTES,
                Platform::WebAssembly => Limits::WASM_BUDGET_BYTES,
            },
            grace_frames: Limits::GRACE_FRAMES,
        }
    }

    /// Returns the default limits on a platform.
    pub fn default_on(platform: Platform) -> (limits: Self)
        ensures
            limits == Limits::defaults(platform),
    {
        let budget_bytes: u64 = match platform {
            Platform::Native => Limits::NATIVE_BUDGET_BYTES,
            Platform::WebAssembly => Limits::WASM_BUDGET_BYTES,
        };
        Limits::new(budget_bytes, Limits::GRACE_FRAMES)
    }
}

/// Isolated layer statistics for the most recently completed renderer draw.
///
/// Counts include processed layers, excluding culled layers, descendants skipped by a
/// cached ancestor, and the synthetic root used for backdrop rendering. Byte counts
/// estimate texture backing storage, including rounded extents; they do not measure driver
/// overhead or total GPU memory usage.
#[derive(Debug, Clone, Copy, PartialEq, Eq, Structural)]
pub struct Diagnostics {
    /// Layers whose cached output was reused without rendering their contents.
    pub output_cache_hits: usize,
    /// Cache-eligible layers rendered because no matching output was available.
    pub output_cache_misses: usize,
    /// Layers rendered without caching, including requests that bypass caching.
    pub uncached_renders: usize,
    /// Newly allocated texture bytes during this draw, including layer, effect, scratch,
    /// and root intermediates, even if discarded before the draw ends. Reusing a pooled or
    /// cached texture contributes zero.
    pub allocated_bytes: u64,
    /// Free pooled texture bytes after draw cleanup and budget enforcement.
    pub pool_bytes: u64,
    /// Normal-priority cached texture bytes after cleanup and budget enforcement.
    pub normal_priority_bytes: u64,
    /// Protected-priority cached texture bytes after cleanup and budget enforcement.
    /// Protection affects eviction order; these textures are not pinned.
    pub protected_priority_bytes: u64,
}

impl Diagnostics {
    /// All counts at zero.
    pub open spec fn zero() -> Diagnostics {
        Diagnostics {
            output_cache_hits: 0,
            output_cache_misses: 0,
            uncached_renders: 0,
            allocated_bytes: 0,
            pool_bytes: 0,
            normal_priority_bytes: 0,
            protected_priority_bytes: 0,
        }
    }

    /// The number of processed isolated layers.
    pub open spec fn layers(self) -> int {
        self.output_cache_hits + self.output_cache_misses + self.uncached_renders
    }

    /// The sum of pooled and cached texture bytes.
    pub open spec fn retained(self) -> int {
        self.pool_bytes + self.normal_priority_bytes + self.protected_priority_bytes
    }

    /// Returns the number of processed isolated layers in this draw.
    pub fn layer_count(&self) -> (count: usize)
        requires
            self.layers() <= usize::MAX,
        ensures
            count == self.layers(),
    {
        self.output_cache_hits + self.output_cache_misses + self.uncached_renders
    }

    /// Returns the disjoint sum of pooled and cached texture bytes after this draw.
    pub fn retained_bytes(&self) -> (bytes: u64)
        requires
            self.retained() <= u64::MAX,
        ensures
            bytes == self.retained(),
    {
        self.pool_bytes + self.normal_priority_bytes + self.protected_priority_bytes
    }

    /// The diagnostics after one more layer was processed.
    pub open spec fn with_layer(self, valid: bool, cacheable: bool) -> Diagnostics {
        if valid {
            Diagnostics { output_cache_hits: one_more(self.output_cache_hits), ..self }
        } else if cacheable {
            Diagnostics { output_cache_misses: one_more(self.output_cache_misses), ..self }
        } else {
            Diagnostics { uncached_renders: one_more(self.uncached_renders), ..self }
        }
    }

    /// Counts one processed layer under its outcome.
    pub fn record_layer(&mut self, valid: bool, cacheable: bool)
        ensures
            *final(self) == old(self).with_layer(valid, cacheable),
    {
        if valid {
            self.output_cache_hits = self.output_cache_hits.saturating_add(1);
        } else if cacheable {
            self.output_cache_misses = self.output_cache_misses.saturating_add(1);
        } else {
            self.uncached_renders = self.uncached_renders.saturating_add(1);
        }
    }

    /// The diagnostics after a texture was leased.
    pub open spec fn with_allocation(self, bytes: u64, reused: bool) -> Diagnostics {
        Diagnostics {
            allocated_bytes: if reused {
                self.allocated_bytes
            } else if self.allocated_bytes + bytes > u64::MAX {
                u64::MAX
            } else {
                (self.allocated_bytes + bytes) as u64
            },
            ..self
        }
    }

    /// Counts the bytes of a texture that was not reused.
    pub fn record_allocation(&mut self, bytes: u64, reused: bool)
        ensures
            *final(self) == old(self).with_allocation(bytes, reused),
    {
        if !reused {
            self.allocated_bytes = self.allocated_bytes.saturating_add(bytes);
        }
    }
}

/// A count increased by one, as far as it can be held.
pub open spec fn one_more(count: usize) -> usize {
    if count < usize::MAX {
        (count + 1) as usize
    } else {
        count
    }
}

/// While counts can be held, each processed layer is counted exactly once.
pub proof fn layers_are_counted_once(before: Diagnostics, valid: bool, cacheable: bool)
    requires
        before.layers() < usize::MAX,
    ensures
        before.with_layer(valid, cacheable).layers() == before.layers() + 1,
{
}

impl Default for Diagnostics {
    fn default() -> (diagnostics: Self)
        ensures
            diagnostics == Diagnostics::zero(),
    {
        Diagnostics {
            output_cache_hits: 0,
            output_cache_misses: 0,
            uncached_renders: 0,
            allocated_bytes: 0,
            pool_bytes: 0,
            normal_priority_bytes: 0,
            protected_priority_bytes: 0,
        }
    }
}

/// A layer whose output was reused counts as a hit, one whose output may be kept as a miss, and
/// any other as uncached. No other count changes.
pub proof fn outcomes_are_counted_apart(before: Diagnostics, valid: bool, cacheable: bool)
    requires
        before.output_cache_hits < usize::MAX,
        before.output_cache_misses < usize::MAX,
        before.uncached_renders < usize::MAX,
    ensures
        ({
            let after = before.with_layer(valid, cacheable);
            &&& after.output_cache_hits - before.output_cache_hits == (if valid {
                1int
            } else {
                0
            })
            &&& after.output_cache_misses - before.output_cache_misses == (if cacheable && !valid {
                1int
            } else {
                0
            })
            &&& after.uncached_renders - before.uncached_renders == (if !cacheable && !valid {
                1int
            } else {
                0
            })
            &&& after.allocated_bytes == before.allocated_bytes
            &&& after.retained() == before.retained()
        }),
{
}

/// Only new textures are counted as allocated, with all their bytes. A count that cannot be
/// held stays at its largest.
pub proof fn only_new_textures_are_allocated(before: Diagnostics, bytes: u64)
    ensures
        before.with_allocation(bytes, true) == before,
        before.allocated_bytes + bytes <= u64::MAX ==> before.with_allocation(
            bytes,
            false,
        ).allocated_bytes == before.allocated_bytes + bytes,
        before.allocated_bytes + bytes > u64::MAX ==> before.with_allocation(
            bytes,
            false,
        ).allocated_bytes == u64::MAX,
        before.with_allocation(bytes, false).layers() == before.layers(),
        before.with_allocation(bytes, false).retained() == before.retained(),
{
}

/// Retained bytes are those of the pool and of both priorities, each once; layers are those of
/// the three outcomes.
pub proof fn sums_are_of_their_parts(diagnostics: Diagnostics)
    ensures
        diagnostics.retained() - diagnostics.pool_bytes - diagnostics.normal_priority_bytes
            - diagnostics.protected_priority_bytes == 0,
        diagnostics.layers() - diagnostics.output_cache_hits - diagnostics.output_cache_misses
            - diagnostics.uncached_renders == 0,
        Diagnostics::zero().retained() == 0 && Diagnostics::zero().layers() == 0
            && Diagnostics::zero().allocated_bytes == 0,
{
}

/// By default a renderer may keep 128 MiB, and a quarter of that on the web; an output survives
/// two frames without being marked.
pub proof fn defaults_differ_only_in_their_budget()
    ensures
        Limits::defaults(Platform::Native).budget_bytes == 128 * 1024 * 1024,
        Limits::defaults(Platform::WebAssembly).budget_bytes == 32 * 1024 * 1024,
        Limits::defaults(Platform::Native).grace_frames == 2,
        Limits::defaults(Platform::WebAssembly).grace_frames == 2,
{
}

} // verus!
