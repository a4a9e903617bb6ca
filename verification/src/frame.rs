//! What one draw does to the pool, the retained outputs and the diagnostics.

use crate::content::{CacheRequest, Stamp};
use crate::context::{capture_grid, CaptureGrid, CompositePositioning, Context, SizeBits};
use crate::diagnostics::Diagnostics;
use crate::effect::{
    collected, stack_translation_invariant, stages_gave, total_passes, EffectStack, Stage,
};
use crate::effect_plan::{is_plan, plan_effect_passes, EffectPassPlan};
use crate::evidence::{Evidence, LayerInputEvidence};
use crate::float_bits::RectangleBits;
use crate::format::{texture_bytes, TextureFormat};
use crate::free_pool::{
    moving_a_backing_moves_its_bytes, newest_at, total_bytes, Backing, Key, Role,
};
use crate::geometry::{Rectangle, Size};
use crate::output_key::{AbsoluteGeometry, OutputKey, RasterDescriptor, Signature};
use crate::pool::{
    checked_out, completed, size_class_contains_the_request, Checkout, Pool, SizeClass, Target,
    TargetStorage,
};
use crate::recording::{LeasedOutput, PreparedEffectPass, PreparedIsolatedLayer};
use crate::request::Layer;
use crate::retained::{
    leasing, lookup_of, LeaseStep, OutputLease, OutputMiss, OutputTarget, Outputs,
};
use crate::retention_laws::{leases_are_coherent, leasing_conserves_bytes, sizes};
use crate::state::State;
use vstd::prelude::*;

verus! {

/// Prepared layers so far, by the kind of their primitives.
#[derive(Debug, Clone, Copy, PartialEq, Eq, Structural)]
pub struct Counters {
    pub quads: usize,
    pub triangles: usize,
    pub images: usize,
    pub texts: usize,
}

/// Everything that a draw changes, besides the recorded drawing.
pub struct Frame<G, V> {
    pub state: State<G, V>,
    pub counters: Counters,
    /// Surfaces whose missing content evidence is to be reported.
    pub reports: Vec<u64>,
    /// The format of every target.
    pub format: TextureFormat,
    /// The device's two-dimensional texture limit.
    pub maximum_dimension: u32,
    /// Distinguishes devices, so that no output outlives the device that rendered it.
    pub device_epoch: u64,
}

/// What a draw changes.
#[verifier::ext_equal]
pub ghost struct Books<G, V> {
    pub pool: Seq<Backing<Target<G, V>>>,
    pub outputs: Outputs<Target<G, V>>,
    pub diagnostics: Diagnostics,
    pub missing: Set<u64>,
    pub counters: Counters,
    pub reports: Seq<u64>,
}

/// What a draw does not change.
pub ghost struct Device {
    pub frame: u64,
    pub missing_before: Set<u64>,
    pub format: TextureFormat,
    pub maximum_dimension: u32,
    pub epoch: u64,
}

impl<G, V> Frame<G, V> {
    /// What this draw has changed so far.
    pub open spec fn books(self) -> Books<G, V> {
        Books {
            pool: self.state.pool@,
            outputs: self.state.registry@,
            diagnostics: self.state.diagnostics,
            missing: self.state.missing_content.now(),
            counters: self.counters,
            reports: self.reports@,
        }
    }

    /// What this draw does not change.
    pub open spec fn device(self) -> Device {
        Device {
            frame: self.state.frame,
            missing_before: self.state.missing_content.before(),
            format: self.format,
            maximum_dimension: self.maximum_dimension,
            epoch: self.device_epoch,
        }
    }

    /// Whether two moments of a draw agree on everything that it does not change.
    pub open spec fn same_draw(self, other: Self) -> bool {
        &&& self.device() == other.device()
        &&& self.state.limits == other.state.limits
        &&& self.state.pending_keep_alives == other.state.pending_keep_alives
        &&& self.state.frame_keep_alives == other.state.frame_keep_alives
    }
}

impl<G, V> Frame<G, V> {
    /// Bytes that the pool and the registry hold together.
    pub open spec fn worth(self) -> nat {
        total_bytes(self.state.pool@) + self.state.registry@.total()
    }

    /// Whether, since `before`, exactly the bytes that were newly allocated and those that
    /// left the pool and the registry are the `bytes` that were handed out. This can be told
    /// as long as the allocated bytes can be held.
    pub open spec fn handed_out(self, before: Self, bytes: nat) -> bool {
        let allocated = self.state.diagnostics.allocated_bytes;
        let allocated_before = before.state.diagnostics.allocated_bytes;
        &&& allocated_before <= allocated
        &&& allocated < u64::MAX ==> self.worth() + bytes == before.worth() + allocated
            - allocated_before
    }
}

/// Whether leasing a layer target may turn `before` into `after` and give `target`.
pub open spec fn target_leased<G, V, C: Fn(Size) -> G>(
    device: Device,
    before: Books<G, V>,
    after: Books<G, V>,
    requested: Size,
    create: C,
    target: Target<G, V>,
) -> bool {
    exists|checkout: Checkout<G, V>| #[trigger]
        layer_allocated(device, before.pool, after.pool, requested, checkout, create, target)
            && after == (Books {
            pool: after.pool,
            diagnostics: before.diagnostics.with_allocation(
                texture_bytes(device.format, checkout.extent),
                checkout.reused is Some,
            ),
            ..before
        })
}

/// Whether a layer target of the requested size may come from this checkout of the pool.
pub open spec fn layer_allocated<G, V, C: Fn(Size) -> G>(
    device: Device,
    before: Seq<Backing<Target<G, V>>>,
    after: Seq<Backing<Target<G, V>>>,
    requested: Size,
    checkout: Checkout<G, V>,
    create: C,
    target: Target<G, V>,
) -> bool {
    &&& SizeClass::of(requested, device.maximum_dimension) matches Some(class) && checkout.extent
        == class.pixels()
    &&& checked_out(
        before,
        after,
        Key {
            width: checkout.extent.width,
            height: checkout.extent.height,
            format: device.format,
        },
        Role::Layer,
        checkout.reused,
    )
    &&& completed(checkout, device.format, Role::Layer, create, target)
}

impl<G, V> Frame<G, V> {
    /// Leases a target of the requested size, from the pool or else created by `create`.
    pub fn lease_target<C: Fn(Size) -> G>(&mut self, requested: Size, create: &C) -> (target:
        Target<G, V>)
        requires
            old(self).state.wf(),
            SizeClass::of(requested, old(self).maximum_dimension) is Some,
            forall|extent: Size| call_requires(*create, (extent,)),
        ensures
            final(self).state.wf(),
            final(self).same_draw(*old(self)),
            target_leased(
                old(self).device(),
                old(self).books(),
                final(self).books(),
                requested,
                *create,
                target,
            ),
            target.owned().extent == SizeClass::of(
                requested,
                old(self).maximum_dimension,
            )->0.pixels(),
            target.owned().format == old(self).format,
            final(self).handed_out(*old(self), target.size() as nat),
    {
        let ghost before = self.books();
        let ghost device = self.device();
        let ghost pool = self.state.pool@;
        let checkout = self.state.pool.lease_layer(
            self.format,
            requested,
            self.maximum_dimension,
        );
        let ghost taken = checkout;
        let extent = checkout.extent;
        let format = self.format;
        let (target, reused) = match checkout.reused {
            Some(target) => (target, true),
            None => {
                let resources = create(extent);
                assert(call_ensures(*create, (extent,), resources));
                (
                    crate::pool::Lease::new(
                        TargetStorage::new(resources, format, extent, Role::Layer),
                    ),
                    false,
                )
            },
        };
        proof {
            let key = Key { width: extent.width, height: extent.height, format };
            if let Some(found) = taken.reused {
                let i = choose|i: int| #[trigger]
                    newest_at(pool, key, i) && self.state.pool@ == pool.remove(i) && found.owned()
                        == (TargetStorage { last_role: Role::Layer, ..pool[i].target.owned() });
                old(self).state.pool.filed_under_own_key(i);
                assert(pool[i].key == key);
                moving_a_backing_moves_its_bytes(pool, pool[i], i);
            }
            assert(target.owned().key() == key);
        }
        self.state.diagnostics.record_allocation(target.get().byte_size(), reused);
        proof {
            let after = self.books();
            assert(layer_allocated(
                device,
                before.pool,
                after.pool,
                requested,
                taken,
                *create,
                target,
            ));
            assert(after == (Books {
                pool: after.pool,
                diagnostics: before.diagnostics.with_allocation(
                    texture_bytes(device.format, taken.extent),
                    taken.reused is Some,
                ),
                ..before
            }));
            assert(target_leased(device, before, after, requested, *create, target));
        }
        target
    }
}

/// What a request for a retained output found.
pub struct Retained<G, V> {
    /// The retained target, if its pixels are those that were asked for.
    pub target: Option<Target<G, V>>,
    /// Whether there is such a target.
    pub valid: bool,
    /// The access under which the output may be retained.
    pub lease: Option<LeasedOutput>,
}

/// Whether `refreshed` asks for the same slot, from what its content is now.
pub open spec fn refreshes(request: CacheRequest, refreshed: CacheRequest) -> bool {
    &&& refreshed.wf()
    &&& refreshed.slot() == request.slot()
    &&& refreshed.residency() == request.residency()
    &&& refreshed.watched() == request.watched()
    &&& request.has_observed(refreshed.evidence())
}

/// The signature of an output.
pub open spec fn signature_of(
    device: Device,
    content: Stamp,
    evidence: Evidence,
    context: Context,
    content_bounds: RectangleBits,
    position_sensitive: bool,
) -> Signature {
    Signature {
        content,
        raster: RasterDescriptor::of(context, device.epoch),
        geometry: if position_sensitive {
            Some(AbsoluteGeometry::of(context, content_bounds))
        } else {
            None
        },
        evidence,
    }
}

/// The books after a miss was considered for a report.
pub open spec fn miss_reported<G, V>(
    device: Device,
    before: Books<G, V>,
    identity: u64,
    miss: Option<OutputMiss>,
) -> Books<G, V> {
    if miss == Some(OutputMiss::MissingContentEvidence) {
        Books {
            missing: before.missing.insert(identity),
            reports: if before.missing.contains(identity) || device.missing_before.contains(
                identity,
            ) {
                before.reports
            } else {
                before.reports.push(identity)
            },
            ..before
        }
    } else {
        before
    }
}

/// Whether `retained` is what a lease entitles to.
pub open spec fn retained_by<G, V>(
    lease: OutputLease<Target<G, V>>,
    refreshed: CacheRequest,
    key: Signature,
    retained: Retained<G, V>,
) -> bool {
    if lease.cacheable {
        &&& retained.target == lease.target
        &&& retained.valid == lease.valid
        &&& retained.lease matches Some(access) && access.request == refreshed && access.key@
            == key && lease.ticket == Some(access.ticket)
    } else {
        retained.target is None && !retained.valid && retained.lease is None
    }
}

/// Whether a request that was refreshed to `refreshed`, and whose content was then observed
/// as `current`, may turn `before` into `after` and find `retained`.
pub open spec fn output_found<G, V>(
    device: Device,
    before: Books<G, V>,
    after: Books<G, V>,
    refreshed: CacheRequest,
    current: Stamp,
    key: Signature,
    retained: Retained<G, V>,
) -> bool {
    let step = leasing(before.outputs, lookup_of(refreshed, key, device.frame, current));
    &&& refreshed.has_observed(current)
    &&& after == miss_reported(
        device,
        Books { outputs: step.outputs, ..before },
        refreshed.slot(),
        step.lease.miss,
    )
    &&& retained_by(step.lease, refreshed, key, retained)
}

/// Whether asking for a retained output may turn `before` into `after` and find `retained`.
pub open spec fn output_leased<G, V>(
    device: Device,
    before: Books<G, V>,
    after: Books<G, V>,
    request: CacheRequest,
    evidence: Evidence,
    context: Context,
    content_bounds: RectangleBits,
    position_sensitive: bool,
    retained: Retained<G, V>,
) -> bool {
    exists|refreshed: CacheRequest, current: Stamp| #[trigger]
        output_found(
            device,
            before,
            after,
            refreshed,
            current,
            signature_of(
                device,
                refreshed.evidence(),
                evidence,
                context,
                content_bounds,
                position_sensitive,
            ),
            retained,
        ) && refreshes(request, refreshed)
}

impl<G, V> Frame<G, V> {
    /// Asks for a retained output.
    ///
    /// Drawing has been recorded by now. Observing the content again lets a custom child
    /// mark its shared handle while it records this frame.
    pub fn lease_output(
        &mut self,
        request: &CacheRequest,
        evidence: LayerInputEvidence,
        context: &Context,
        content_bounds: RectangleBits,
        position_sensitive: bool,
    ) -> (retained: Retained<G, V>)
        requires
            old(self).state.wf(),
            request.wf(),
        ensures
            final(self).state.wf(),
            final(self).same_draw(*old(self)),
            output_leased(
                old(self).device(),
                old(self).books(),
                final(self).books(),
                *request,
                evidence@,
                *context,
                content_bounds,
                position_sensitive,
                retained,
            ),
            retained.valid == retained.target is Some,
            retained.valid ==> retained.lease is Some,
            retained.lease matches Some(access) ==> access.request.wf(),
            final(self).handed_out(
                *old(self),
                match retained.target {
                    Some(target) => target.size() as nat,
                    None => 0,
                },
            ),
    {
        let ghost before = self.books();
        let ghost device = self.device();
        let refreshed = request.resnapshot();
        let key = OutputKey::new(
            &refreshed,
            evidence,
            context,
            content_bounds,
            position_sensitive,
            self.device_epoch,
        );
        let ghost signature = signature_of(
            device,
            refreshed.evidence(),
            evidence@,
            *context,
            content_bounds,
            position_sensitive,
        );
        let lease = self.state.registry.lease_output(&refreshed, key.clone(), self.state.frame);
        let ghost current = choose|current: Stamp| #[trigger]
            refreshed.has_observed(current) && (LeaseStep {
                outputs: self.state.registry@,
                lease,
            }) == leasing(before.outputs, lookup_of(refreshed, signature, device.frame, current));
        proof {
            leases_are_coherent(
                before.outputs,
                lookup_of(refreshed, signature, device.frame, current),
            );
            leasing_conserves_bytes(
                before.outputs,
                lookup_of(refreshed, signature, device.frame, current),
            );
        }
        let identity: u64 = refreshed.identity();
        if let Some(miss) = lease.miss {
            if self.state.should_report_missing_content(identity, miss) {
                self.reports.push(identity);
            }
        }
        let ghost given = lease;
        let retained = if lease.cacheable {
            Retained {
                target: lease.target,
                valid: lease.valid,
                lease: Some(LeasedOutput { request: refreshed, key, ticket: lease.ticket.unwrap() }),
            }
        } else {
            Retained { target: None, valid: false, lease: None }
        };
        proof {
            let after = self.books();
            assert(after =~= miss_reported(
                device,
                Books { outputs: self.state.registry@, ..before },
                identity,
                given.miss,
            ));
            assert(output_found(device, before, after, refreshed, current, signature, retained));
        }
        retained
    }
}

/// Where an isolated layer is captured.
#[derive(Debug, Clone, Copy)]
pub struct Located {
    /// The context of the capture, without a backing extent.
    pub context: Context,
    /// The unexpanded content relative to the bounds that the capture represents.
    pub content: RectangleBits,
    /// The part of the parent that may receive the result.
    pub clip: Option<Rectangle>,
}

/// The grid that a request is captured on.
pub open spec fn grid_of(layer: Layer) -> CaptureGrid {
    if layer.output_cache_request is Some || layer.composite.place()
        == CompositePositioning::Subpixel {
        CaptureGrid::LayerAligned
    } else {
        CaptureGrid::ParentAligned
    }
}

/// The context of a capture that can be backed by a texture, and nothing otherwise.
pub open spec fn backed_context(
    device: Device,
    located: Option<Located>,
    logical_surface_size: SizeBits,
) -> Option<Context> {
    match located {
        Some(located) => match SizeClass::of(
            located.context.viewport(),
            device.maximum_dimension,
        ) {
            Some(class) => Some(
                Context {
                    backing_extent: class.pixels(),
                    logical_surface_size_bits: SizeBits {
                        width: crate::float_bits::canonical(logical_surface_size.width),
                        height: crate::float_bits::canonical(logical_surface_size.height),
                    },
                    source_content_relative_bits: RectangleBits {
                        x: crate::float_bits::canonical(located.content.x),
                        y: crate::float_bits::canonical(located.content.y),
                        width: crate::float_bits::canonical(located.content.width),
                        height: crate::float_bits::canonical(located.content.height),
                    },
                    ..located.context
                },
            ),
            None => None,
        },
        None => None,
    }
}

/// Whether leasing these targets, one after the other, may turn `before` into `after`.
pub open spec fn targets_leased<G, V, C: Fn(Size) -> G>(
    device: Device,
    before: Books<G, V>,
    after: Books<G, V>,
    requested: Size,
    create: C,
    targets: Seq<Target<G, V>>,
) -> bool
    decreases targets.len(),
{
    if targets.len() == 0 {
        after == before
    } else {
        exists|middle: Books<G, V>|
            targets_leased(device, before, middle, requested, create, targets.drop_last())
                && #[trigger] target_leased(
                device,
                middle,
                after,
                requested,
                create,
                targets.last(),
            )
    }
}

/// Whether pixels of an output may depend on where it stands.
pub open spec fn is_position_sensitive(layer: Layer, stages: Seq<Stage>) -> bool {
    layer.content_depends_on_translation || !stack_translation_invariant(stages)
}

/// Whether looking for a retained output may turn `before` into `after` and find `retained`.
///
/// An output that samples its backdrop is never retained.
pub open spec fn output_sought<G, V>(
    device: Device,
    before: Books<G, V>,
    after: Books<G, V>,
    layer: Layer,
    stages: Seq<Stage>,
    readings: Seq<Seq<u64>>,
    context: Context,
    retained: Retained<G, V>,
) -> bool {
    match layer.output_cache_request {
        Some(request) => if crate::effect::stack_reads_backdrop(stages) {
            after == before && retained.target is None && !retained.valid && retained.lease is None
        } else {
            stages_gave(stages, readings) && output_leased(
                device,
                before,
                after,
                request,
                collected(stages, readings),
                context,
                layer.content_bounds,
                is_position_sensitive(layer, stages),
                retained,
            )
        },
        None => after == before && retained.target is None && !retained.valid && retained.lease
            is None,
    }
}

/// Whether the targets, passes and output of a prepared layer follow a plan.
pub open spec fn follows_plan<G, V>(
    plan: EffectPassPlan,
    prepared: PreparedIsolatedLayer<G, V>,
) -> bool {
    &&& prepared.targets@.len() == plan.target_count
    &&& prepared.backdrop == plan.backdrop
    &&& prepared.output == plan.output
    &&& prepared.passes@.len() == plan.passes@.len()
    &&& forall|i: int|
        0 <= i < plan.passes@.len() ==> (#[trigger] prepared.passes@[i]).planned
            == plan.passes@[i] && prepared.passes@[i].scratch@.len() == 0
}

/// Whether a prepared layer holds a retained output, or else what rendering it takes.
pub open spec fn layer_backed<G, V, C: Fn(Size) -> G>(
    device: Device,
    before: Books<G, V>,
    after: Books<G, V>,
    stages: Seq<Stage>,
    create: C,
    retained: Retained<G, V>,
    prepared: PreparedIsolatedLayer<G, V>,
) -> bool {
    if retained.valid {
        &&& after == before
        &&& retained.target == Some(prepared.targets@[0])
        &&& prepared.targets@.len() == 1
        &&& prepared.backdrop is None
        &&& prepared.output == 0
        &&& prepared.passes@.len() == 0
    } else {
        &&& targets_leased(
            device,
            before,
            after,
            prepared.context.viewport(),
            create,
            prepared.targets@,
        )
        &&& exists|plan: EffectPassPlan| #[trigger]
            is_plan(stages, plan) && follows_plan(plan, prepared)
    }
}

/// Whether preparing an isolated layer in a given context may turn `before` into `after` and
/// give `prepared`.
pub open spec fn layer_prepared<G, V, C: Fn(Size) -> G>(
    device: Device,
    before: Books<G, V>,
    after: Books<G, V>,
    layer: Layer,
    stages: Seq<Stage>,
    context: Context,
    clip: Option<Rectangle>,
    create: C,
    prepared: PreparedIsolatedLayer<G, V>,
) -> bool {
    &&& prepared.context == context
    &&& prepared.clip == clip
    &&& exists|
        sought: Books<G, V>,
        backed: Books<G, V>,
        readings: Seq<Seq<u64>>,
        retained: Retained<G, V>,
    |
        {
            &&& #[trigger] output_sought(
                device,
                before,
                sought,
                layer,
                stages,
                readings,
                context,
                retained,
            )
            &&& #[trigger] layer_backed(device, sought, backed, stages, create, retained, prepared)
            &&& prepared.output_valid == retained.valid
            &&& prepared.output_lease == retained.lease
            &&& after == (Books {
                diagnostics: backed.diagnostics.with_layer(
                    retained.valid,
                    retained.lease is Some,
                ),
                ..backed
            })
        }
}

/// What every prepared layer satisfies: its targets are all as large as its context says,
/// its output and every target that a pass uses are among them, and a valid output came
/// from a retained one.
pub open spec fn prepared_wf<G, V>(prepared: PreparedIsolatedLayer<G, V>) -> bool {
    &&& prepared.context.wf()
    &&& prepared.output < prepared.targets@.len()
    &&& prepared.backdrop matches Some(backdrop) ==> backdrop < prepared.targets@.len()
    &&& forall|i: int|
        0 <= i < prepared.passes@.len() ==> {
            let planned = (#[trigger] prepared.passes@[i]).planned;
            &&& planned.stage_input < prepared.targets@.len()
            &&& planned.previous < prepared.targets@.len()
            &&& planned.output < prepared.targets@.len()
            &&& planned.uses_backdrop ==> prepared.backdrop is Some
        }
    &&& prepared.output_valid ==> prepared.output_lease is Some && prepared.output == 0
        && prepared.targets@.len() == 1 && prepared.passes@.len() == 0 && prepared.backdrop is None
    &&& prepared.output_lease matches Some(access) ==> access.request.wf()
}

impl<G, V> Frame<G, V> {
    /// Prepares one isolated layer: finds its retained output, or else leases the targets
    /// that its content and passes need.
    ///
    /// `locate` gives, for the bounds, content bounds and clip of a request, the context of
    /// its parent and a capture grid, where it is captured. Nothing is prepared for a layer
    /// that has no place or exceeds the texture limit.
    pub fn prepare_layer<
        L: Fn(RectangleBits, RectangleBits, RectangleBits, Context, CaptureGrid) -> Option<Located>,
        C: Fn(Size) -> G,
    >(
        &mut self,
        layer: &Layer,
        logical_surface_size: SizeBits,
        effects: &EffectStack,
        parent: &Context,
        locate: &L,
        create: &C,
    ) -> (prepared: Option<PreparedIsolatedLayer<G, V>>)
        requires
            old(self).state.wf(),
            layer.wf(),
            total_passes(effects@) + 2 <= usize::MAX,
            call_requires(
                *locate,
                (layer.bounds, layer.content_bounds, layer.clip, *parent, grid_of(*layer)),
            ),
            forall|extent: Size| call_requires(*create, (extent,)),
        ensures
            final(self).state.wf(),
            final(self).same_draw(*old(self)),
            exists|located: Option<Located>| #[trigger]
                call_ensures(
                    *locate,
                    (layer.bounds, layer.content_bounds, layer.clip, *parent, grid_of(*layer)),
                    located,
                ) && match (
                    backed_context(old(self).device(), located, logical_surface_size),
                    prepared,
                ) {
                    (Some(context), Some(prepared)) => prepared_wf(prepared) && layer_prepared(
                        old(self).device(),
                        old(self).books(),
                        final(self).books(),
                        *layer,
                        effects@,
                        context,
                        located->0.clip,
                        *create,
                        prepared,
                    ),
                    (None, None) => final(self).books() == old(self).books(),
                    _ => false,
                },
            final(self).handed_out(
                *old(self),
                match prepared {
                    Some(prepared) => sizes(prepared.targets@),
                    None => 0,
                },
            ),
    {
        let ghost before = self.books();
        let ghost device = self.device();
        let ghost stages = effects@;
        let grid = capture_grid(
            layer.output_cache_request.is_some(),
            layer.composite.positioning(),
        );
        let found = locate(layer.bounds, layer.content_bounds, layer.clip, *parent, grid);
        let ghost answer = found;
        assert(call_ensures(
            *locate,
            (layer.bounds, layer.content_bounds, layer.clip, *parent, grid_of(*layer)),
            answer,
        ));
        let located = match found {
            Some(located) => located,
            None => return None,
        };
        let mut context = located.context;
        let viewport = context.physical_viewport();
        let extent = match Pool::<G, V>::backing_extent(viewport, self.maximum_dimension) {
            Some(extent) => extent,
            None => return None,
        };
        proof {
            size_class_contains_the_request(viewport, self.maximum_dimension);
        }
        context.set_backing_extent(extent);
        context.set_source_geometry(logical_surface_size, located.content);
        assert(backed_context(device, answer, logical_surface_size) == Some(context));

        let ghost mut readings: Seq<Seq<u64>> = Seq::empty();
        let evidence = if layer.output_cache_request.is_some() {
            let evidence = effects.input_evidence();
            proof {
                readings = choose|readings: Seq<Seq<u64>>| #[trigger]
                    stages_gave(stages, readings) && evidence@ == collected(stages, readings);
            }
            Some(evidence)
        } else {
            None
        };
        let plan = plan_effect_passes(effects);
        let position_sensitive = layer.content_depends_on_translation
            || !effects.is_translation_invariant();
        let retained = match (&layer.output_cache_request, evidence) {
            (Some(request), Some(evidence)) => if plan.backdrop.is_some() {
                Retained { target: None, valid: false, lease: None }
            } else {
                self.lease_output(
                    request,
                    evidence,
                    &context,
                    layer.content_bounds,
                    position_sensitive,
                )
            },
            _ => Retained { target: None, valid: false, lease: None },
        };
        let ghost sought = self.books();
        let ghost searched = *self;
        let ghost found_output = retained;
        assert(output_sought(
            device,
            before,
            sought,
            *layer,
            stages,
            readings,
            context,
            retained,
        ));

        let valid = retained.valid;
        let output_lease = retained.lease;
        let mut targets: Vec<Target<G, V>> = Vec::new();
        let mut passes: Vec<PreparedEffectPass<G, V>> = Vec::new();
        let mut backdrop: Option<usize> = None;
        let mut output: usize = 0;
        match retained.target {
            Some(target) => {
                targets.push(target);
                proof {
                    reveal_with_fuel(sizes, 2);
                    assert(targets@.drop_last() =~= Seq::<Target<G, V>>::empty());
                }
            },
            None => {
                backdrop = plan.backdrop;
                output = plan.output;
                while targets.len() < plan.target_count
                    invariant
                        self.state.wf(),
                        self.same_draw(*old(self)),
                        device == self.device(),
                        viewport == context.viewport(),
                        SizeClass::of(viewport, self.maximum_dimension) is Some,
                        forall|extent: Size| call_requires(*create, (extent,)),
                        targets@.len() <= plan.target_count,
                        targets_leased(
                            device,
                            sought,
                            self.books(),
                            viewport,
                            *create,
                            targets@,
                        ),
                        self.handed_out(searched, sizes(targets@)),
                    decreases plan.target_count - targets@.len(),
                {
                    let ghost middle = self.books();
                    let ghost earlier = targets@;
                    let target = self.lease_target(viewport, create);
                    targets.push(target);
                    proof {
                        assert(targets@.drop_last() =~= earlier);
                        assert(targets_leased(
                            device,
                            sought,
                            middle,
                            viewport,
                            *create,
                            targets@.drop_last(),
                        ));
                        assert(target_leased(
                            device,
                            middle,
                            self.books(),
                            viewport,
                            *create,
                            targets@.last(),
                        ));
                        assert(targets_leased(
                            device,
                            sought,
                            self.books(),
                            viewport,
                            *create,
                            targets@,
                        ));
                    }
                }
                let mut index: usize = 0;
                while index < plan.passes.len()
                    invariant
                        index <= plan.passes@.len(),
                        passes@.len() == index,
                        forall|i: int|
                            0 <= i < index ==> (#[trigger] passes@[i]).planned == plan.passes@[i]
                                && passes@[i].scratch@.len() == 0,
                    decreases plan.passes@.len() - index,
                {
                    passes.push(
                        PreparedEffectPass { planned: plan.passes[index], scratch: Vec::new() },
                    );
                    index = index + 1;
                }
            },
        }
        let ghost backed = self.books();
        self.state.diagnostics.record_layer(valid, output_lease.is_some());
        let prepared = PreparedIsolatedLayer {
            context,
            clip: located.clip,
            targets,
            backdrop,
            passes,
            output,
            output_lease,
            output_valid: valid,
        };
        proof {
            if !valid {
                assert(is_plan(stages, plan) && follows_plan(plan, prepared));
                lemma_plan_fits(stages, plan, prepared);
            }
            assert(layer_backed(device, sought, backed, stages, *create, found_output, prepared));
            assert(layer_prepared(
                device,
                before,
                self.books(),
                *layer,
                stages,
                context,
                located.clip,
                *create,
                prepared,
            ));
        }
        Some(prepared)
    }
}

proof fn lemma_plan_fits<G, V>(
    stages: Seq<Stage>,
    plan: EffectPassPlan,
    prepared: PreparedIsolatedLayer<G, V>,
)
    requires
        is_plan(stages, plan),
        follows_plan(plan, prepared),
    ensures
        prepared.output < prepared.targets@.len(),
        prepared.backdrop matches Some(backdrop) ==> backdrop < prepared.targets@.len(),
        forall|i: int|
            0 <= i < prepared.passes@.len() ==> {
                let planned = (#[trigger] prepared.passes@[i]).planned;
                &&& planned.stage_input < prepared.targets@.len()
                &&& planned.previous < prepared.targets@.len()
                &&& planned.output < prepared.targets@.len()
                &&& planned.uses_backdrop ==> prepared.backdrop is Some
            },
{
    crate::effect_plan::backdrop_is_planned_on_demand(stages, plan);
    assert forall|i: int| 0 <= i < prepared.passes@.len() implies {
        let planned = (#[trigger] prepared.passes@[i]).planned;
        &&& planned.stage_input < prepared.targets@.len()
        &&& planned.previous < prepared.targets@.len()
        &&& planned.output < prepared.targets@.len()
        &&& planned.uses_backdrop ==> prepared.backdrop is Some
    } by {
        crate::effect_plan::pass_outputs_never_alias(stages, plan, i);
        assert(prepared.passes@[i].planned == plan.passes@[i]);
    }
}

/// A leased target holds the requested size without wasting an increment, within the device
/// limit, and has the format of the draw. It either left the pool, or was newly created and its
/// bytes were counted as allocated.
pub proof fn leased_targets_hold_what_was_requested<G, V, C: Fn(Size) -> G>(
    device: Device,
    before: Books<G, V>,
    after: Books<G, V>,
    requested: Size,
    create: C,
    target: Target<G, V>,
)
    requires
        target_leased(device, before, after, requested, create, target),
        forall|j: int|
            0 <= j < before.pool.len() ==> #[trigger] before.pool[j] == crate::pool::filed(
                before.pool[j].target,
            ),
    ensures
        requested.width <= target.owned().extent.width < requested.width + 64,
        requested.height <= target.owned().extent.height < requested.height + 64,
        target.owned().extent.width <= device.maximum_dimension,
        target.owned().extent.height <= device.maximum_dimension,
        target.owned().extent.width % 64 == 0,
        target.owned().extent.height % 64 == 0,
        target.owned().format == device.format,
        target.owned().last_role == Role::Layer,
        after.outputs == before.outputs,
        after.missing == before.missing,
        after.counters == before.counters,
        after.reports == before.reports,
        after.diagnostics.layers() == before.diagnostics.layers(),
        after.pool.len() < before.pool.len() ==> after.diagnostics == before.diagnostics,
        after.pool.len() >= before.pool.len() ==> after.pool == before.pool && (
        before.diagnostics.allocated_bytes + target.owned().size() <= u64::MAX
            ==> after.diagnostics.allocated_bytes == before.diagnostics.allocated_bytes
            + target.owned().size()),
{
    let checkout = choose|checkout: Checkout<G, V>| #[trigger]
        layer_allocated(device, before.pool, after.pool, requested, checkout, create, target)
            && after == (Books {
            pool: after.pool,
            diagnostics: before.diagnostics.with_allocation(
                texture_bytes(device.format, checkout.extent),
                checkout.reused is Some,
            ),
            ..before
        });
    size_class_contains_the_request(requested, device.maximum_dimension);
    crate::pool::size_classes_are_whole_increments(
        SizeClass::of(requested, device.maximum_dimension)->0,
    );
    crate::pool::completed_checkouts_are_as_asked_for(
        before.pool,
        after.pool,
        checkout,
        device.format,
        Role::Layer,
        create,
        target,
    );
    crate::pool::checkouts_hand_out_matching_targets(
        before.pool,
        after.pool,
        Key {
            width: checkout.extent.width,
            height: checkout.extent.height,
            format: device.format,
        },
        Role::Layer,
        checkout.reused,
        0,
    );
}

/// A signature holds everything that an output is rendered from: its content, the inputs of its
/// effects, how it is rasterized and on which device, and where it stands if its pixels depend on
/// that.
pub proof fn signatures_hold_what_is_rendered(
    device: Device,
    content: Stamp,
    evidence: Evidence,
    context: Context,
    content_bounds: RectangleBits,
    position_sensitive: bool,
)
    ensures
        ({
            let signature = signature_of(
                device,
                content,
                evidence,
                context,
                content_bounds,
                position_sensitive,
            );
            &&& signature.content == content
            &&& signature.evidence == evidence
            &&& signature.raster.device_epoch == device.epoch
            &&& signature.raster.source_rect == context.source_rect
            &&& signature.raster == RasterDescriptor::of(context, device.epoch)
            &&& signature.geometry is Some <==> position_sensitive
            &&& position_sensitive ==> signature.geometry->0 == AbsoluteGeometry::of(
                context,
                content_bounds,
            )
        }),
{
}

/// Missing content evidence is reported when it is first met in a draw, unless the draw before
/// has met it too. Nothing else is reported, and nothing else changes.
pub proof fn missing_evidence_is_reported_once<G, V>(
    device: Device,
    before: Books<G, V>,
    identity: u64,
    miss: Option<OutputMiss>,
)
    ensures
        ({
            let after = miss_reported(device, before, identity, miss);
            let missing = miss == Some(OutputMiss::MissingContentEvidence);
            &&& missing ==> after.missing.contains(identity)
            &&& missing && !before.missing.contains(identity) && !device.missing_before.contains(
                identity,
            ) ==> after.reports == before.reports.push(identity)
            &&& !missing || before.missing.contains(identity) || device.missing_before.contains(
                identity,
            ) ==> after.reports == before.reports
            &&& forall|other: u64|
                #![trigger after.missing.contains(other)]
                other != identity || !missing ==> (after.missing.contains(other)
                    <==> before.missing.contains(other))
            &&& after.pool == before.pool && after.outputs == before.outputs && after.diagnostics
                == before.diagnostics && after.counters == before.counters
            &&& miss_reported(device, after, identity, miss).reports == after.reports
        }),
{
}

/// A found output was retained for the very content that is observed now, and rendered with the
/// same rasterization on the same device. Where nothing is found no target is handed out.
pub proof fn found_outputs_hold_the_requested_pixels<G, V>(
    device: Device,
    before: Books<G, V>,
    after: Books<G, V>,
    refreshed: CacheRequest,
    current: Stamp,
    key: Signature,
    retained: Retained<G, V>,
)
    requires
        output_found(device, before, after, refreshed, current, key, retained),
    ensures
        retained.valid ==> {
            &&& before.outputs.slots.contains_key(refreshed.slot())
            &&& before.outputs.slots[refreshed.slot()].committed matches Some(output)
                && retained.target == Some(output.target) && output.key.content == key.content
                && output.key.raster == key.raster && output.key.geometry == key.geometry
                && output.key.raster.device_epoch == key.raster.device_epoch
            &&& before.outputs.slots[refreshed.slot()].active is None
            &&& refreshed.evidence().revisions.len() > 0 && !refreshed.evidence().conflicted
            &&& current == refreshed.evidence()
            &&& retained.lease is Some
        },
        retained.target is Some <==> retained.valid,
        retained.lease matches Some(access) ==> access.request == refreshed && access.key@ == key
            && (after.outputs.slots[refreshed.slot()].active matches Some(active) && active.ticket
            == access.ticket && active.frame == device.frame),
        after.pool == before.pool,
        after.diagnostics == before.diagnostics,
        after.counters == before.counters,
{
    leases_are_coherent(before.outputs, lookup_of(refreshed, key, device.frame, current));
}

/// Layers whose output is retained, and those that are placed between pixels, are captured on
/// their own grid. All others share that of their parent.
pub proof fn retained_layers_have_their_own_grid(layer: Layer)
    ensures
        grid_of(layer) == CaptureGrid::LayerAligned <==> layer.output_cache_request is Some
            || layer.composite.place() == CompositePositioning::Subpixel,
        grid_of(layer) == CaptureGrid::ParentAligned <==> layer.output_cache_request is None
            && layer.composite.place() != CompositePositioning::Subpixel,
{
}

/// A capture is backed by a texture that holds its viewport without wasting an increment. It
/// keeps its place and all that it was located with, and learns the size of its surface and where
/// its content lies.
pub proof fn backed_captures_hold_their_viewport(
    device: Device,
    located: Option<Located>,
    logical_surface_size: SizeBits,
)
    ensures
        located is None ==> backed_context(device, located, logical_surface_size) is None,
        located matches Some(located) ==> (backed_context(device, Some(located), logical_surface_size)
            is Some <==> SizeClass::of(located.context.viewport(), device.maximum_dimension)
            is Some),
        backed_context(device, located, logical_surface_size) matches Some(context) ==> {
            let from = located->0.context;
            &&& context.viewport() == from.viewport()
            &&& from.viewport().width <= context.backing_extent.width < from.viewport().width + 64
            &&& from.viewport().height <= context.backing_extent.height < from.viewport().height
                + 64
            &&& context.backing_extent.width <= device.maximum_dimension
            &&& context.backing_extent.height <= device.maximum_dimension
            &&& context.backing_extent.width % 64 == 0
            &&& context.backing_extent.height % 64 == 0
            &&& context == (Context {
                backing_extent: context.backing_extent,
                logical_surface_size_bits: context.logical_surface_size_bits,
                source_content_relative_bits: context.source_content_relative_bits,
                ..from
            })
            &&& logical_surface_size.width % 0x8000_0000 > 0
                ==> context.logical_surface_size_bits.width == logical_surface_size.width
            &&& logical_surface_size.height % 0x8000_0000 > 0
                ==> context.logical_surface_size_bits.height == logical_surface_size.height
            &&& located->0.content.x % 0x8000_0000 > 0 ==> context.source_content_relative_bits.x
                == located->0.content.x
            &&& located->0.content.y % 0x8000_0000 > 0 ==> context.source_content_relative_bits.y
                == located->0.content.y
            &&& located->0.content.width % 0x8000_0000 > 0
                ==> context.source_content_relative_bits.width == located->0.content.width
            &&& located->0.content.height % 0x8000_0000 > 0
                ==> context.source_content_relative_bits.height == located->0.content.height
        },
{
    if backed_context(device, located, logical_surface_size) is Some {
        let viewport = located->0.context.viewport();
        size_class_contains_the_request(viewport, device.maximum_dimension);
        crate::pool::size_classes_are_whole_increments(
            SizeClass::of(viewport, device.maximum_dimension)->0,
        );
    }
}

/// Pixels depend on the place of a layer exactly if those of its content do or those of some
/// effect do.
pub proof fn outputs_depend_on_their_place_through_content_or_effects(
    layer: Layer,
    stages: Seq<Stage>,
)
    ensures
        is_position_sensitive(layer, stages) <==> layer.content_depends_on_translation || exists|
            i: int,
        |
            0 <= i < stages.len() && !(#[trigger] stages[i]).translation_invariant,
{
}

/// No output is looked for, and none will be retained, of a layer that does not ask for it, nor
/// of one with a pass that reads what lies behind the layer.
pub proof fn outputs_over_backdrops_are_not_retained<G, V>(
    device: Device,
    before: Books<G, V>,
    after: Books<G, V>,
    layer: Layer,
    stages: Seq<Stage>,
    readings: Seq<Seq<u64>>,
    context: Context,
    retained: Retained<G, V>,
    i: int,
    j: int,
)
    requires
        output_sought(device, before, after, layer, stages, readings, context, retained),
        layer.output_cache_request is None || (0 <= i < stages.len() && 0 <= j
            < stages[i].passes.len() && stages[i].passes[j].reads_backdrop()),
    ensures
        after == before,
        retained.target is None,
        !retained.valid,
        retained.lease is None,
{
    if layer.output_cache_request is Some {
        assert(crate::effect::any_reads_backdrop(stages[i].passes));
        assert(crate::effect::stack_reads_backdrop(stages));
    }
}

proof fn lemma_targets_leased<G, V, C: Fn(Size) -> G>(
    device: Device,
    before: Books<G, V>,
    after: Books<G, V>,
    requested: Size,
    create: C,
    targets: Seq<Target<G, V>>,
)
    requires
        targets_leased(device, before, after, requested, create, targets),
        forall|j: int|
            0 <= j < before.pool.len() ==> #[trigger] before.pool[j] == crate::pool::filed(
                before.pool[j].target,
            ),
    ensures
        after == (Books {
            pool: after.pool,
            diagnostics: Diagnostics {
                allocated_bytes: after.diagnostics.allocated_bytes,
                ..before.diagnostics
            },
            ..before
        }),
        forall|j: int|
            0 <= j < after.pool.len() ==> #[trigger] after.pool[j] == crate::pool::filed(
                after.pool[j].target,
            ),
        forall|i: int|
            0 <= i < targets.len() ==> {
                let held = (#[trigger] targets[i]).owned();
                &&& requested.width <= held.extent.width < requested.width + 64
                &&& requested.height <= held.extent.height < requested.height + 64
                &&& held.format == device.format
            },
    decreases targets.len(),
{
    if targets.len() > 0 {
        let middle = choose|middle: Books<G, V>|
            targets_leased(device, before, middle, requested, create, targets.drop_last())
                && #[trigger] target_leased(
                device,
                middle,
                after,
                requested,
                create,
                targets.last(),
            );
        let rest = targets.drop_last();
        lemma_targets_leased(device, before, middle, requested, create, rest);
        leased_targets_hold_what_was_requested(
            device,
            middle,
            after,
            requested,
            create,
            targets.last(),
        );
        assert forall|i: int| 0 <= i < targets.len() implies {
            let held = (#[trigger] targets[i]).owned();
            &&& requested.width <= held.extent.width < requested.width + 64
            &&& requested.height <= held.extent.height < requested.height + 64
            &&& held.format == device.format
        } by {
            if i < rest.len() {
                assert(targets[i] == rest[i]);
            }
        }
        let checkout = choose|checkout: Checkout<G, V>| #[trigger]
            layer_allocated(
                device,
                middle.pool,
                after.pool,
                requested,
                checkout,
                create,
                targets.last(),
            ) && after == (Books {
                pool: after.pool,
                diagnostics: middle.diagnostics.with_allocation(
                    texture_bytes(device.format, checkout.extent),
                    checkout.reused is Some,
                ),
                ..middle
            });
        if checkout.reused is Some {
            let key = Key {
                width: checkout.extent.width,
                height: checkout.extent.height,
                format: device.format,
            };
            let k = choose|k: int| #[trigger]
                newest_at(middle.pool, key, k) && after.pool == middle.pool.remove(k)
                    && checkout.reused->0.owned() == (TargetStorage {
                    last_role: Role::Layer,
                    ..middle.pool[k].target.owned()
                });
            assert forall|j: int| 0 <= j < after.pool.len() implies #[trigger] after.pool[j]
                == crate::pool::filed(after.pool[j].target) by {
                let from = if j < k {
                    j
                } else {
                    j + 1
                };
                assert(middle.pool[from] == crate::pool::filed(middle.pool[from].target));
            }
        }
    }
}

/// A prepared layer is counted once: as a hit if it holds a retained output, as a miss if its
/// output may be retained, and as uncached otherwise. A hit leases nothing and runs no pass; any
/// other layer has a target for its content and for each pass, with one more for its backdrop, all
/// of which hold its viewport, and follows the plan of its effects.
pub proof fn prepared_layers_are_reused_or_rendered<G, V, C: Fn(Size) -> G>(
    device: Device,
    before: Books<G, V>,
    after: Books<G, V>,
    layer: Layer,
    stages: Seq<Stage>,
    context: Context,
    clip: Option<Rectangle>,
    create: C,
    prepared: PreparedIsolatedLayer<G, V>,
)
    requires
        layer_prepared(device, before, after, layer, stages, context, clip, create, prepared),
        forall|j: int|
            0 <= j < before.pool.len() ==> #[trigger] before.pool[j] == crate::pool::filed(
                before.pool[j].target,
            ),
        before.diagnostics.output_cache_hits < usize::MAX,
        before.diagnostics.output_cache_misses < usize::MAX,
        before.diagnostics.uncached_renders < usize::MAX,
    ensures
        prepared.context == context,
        prepared.clip == clip,
        after.counters == before.counters,
        after.diagnostics.output_cache_hits == before.diagnostics.output_cache_hits + (
        if prepared.output_valid {
            1int
        } else {
            0
        }),
        after.diagnostics.output_cache_misses == before.diagnostics.output_cache_misses + (
        if !prepared.output_valid && prepared.output_lease is Some {
            1int
        } else {
            0
        }),
        after.diagnostics.uncached_renders == before.diagnostics.uncached_renders + (
        if !prepared.output_valid && prepared.output_lease is None {
            1int
        } else {
            0
        }),
        prepared.output_valid ==> {
            &&& prepared.passes@.len() == 0
            &&& prepared.targets@.len() == 1
            &&& prepared.output == 0
            &&& after.pool == before.pool
            &&& after.diagnostics.allocated_bytes == before.diagnostics.allocated_bytes
            &&& layer.output_cache_request matches Some(request)
                && before.outputs.slots.contains_key(request.slot()) && (
            before.outputs.slots[request.slot()].committed matches Some(output) && output.target
                == prepared.targets@[0])
        },
        !prepared.output_valid ==> {
            &&& prepared.passes@.len() == total_passes(stages)
            &&& prepared.targets@.len() == total_passes(stages) + (if prepared.backdrop is Some {
                2int
            } else {
                1
            })
            &&& prepared.backdrop is Some <==> crate::effect::stack_reads_backdrop(stages)
            &&& exists|plan: EffectPassPlan|
                {
                    &&& #[trigger] is_plan(stages, plan)
                    &&& prepared.output == plan.output
                    &&& prepared.backdrop == plan.backdrop
                    &&& forall|i: int|
                        0 <= i < plan.passes@.len() ==> (#[trigger] prepared.passes@[i]).planned
                            == plan.passes@[i]
                }
            &&& forall|i: int|
                0 <= i < prepared.targets@.len() ==> {
                    let held = (#[trigger] prepared.targets@[i]).owned();
                    &&& context.viewport().width <= held.extent.width
                    &&& context.viewport().height <= held.extent.height
                    &&& held.format == device.format
                }
        },
        prepared.output_lease is Some ==> layer.output_cache_request is Some
            && !crate::effect::stack_reads_backdrop(stages),
        layer.output_cache_request is None ==> after.outputs == before.outputs,
{
    let (sought, backed, readings, retained) = choose|
        sought: Books<G, V>,
        backed: Books<G, V>,
        readings: Seq<Seq<u64>>,
        retained: Retained<G, V>,
    |
        {
            &&& #[trigger] output_sought(
                device,
                before,
                sought,
                layer,
                stages,
                readings,
                context,
                retained,
            )
            &&& #[trigger] layer_backed(device, sought, backed, stages, create, retained, prepared)
            &&& prepared.output_valid == retained.valid
            &&& prepared.output_lease == retained.lease
            &&& after == (Books {
                diagnostics: backed.diagnostics.with_layer(
                    retained.valid,
                    retained.lease is Some,
                ),
                ..backed
            })
        };
    if layer.output_cache_request is Some && !crate::effect::stack_reads_backdrop(stages) {
        lemma_output_leased(
            device,
            before,
            sought,
            layer.output_cache_request->0,
            collected(stages, readings),
            context,
            layer.content_bounds,
            is_position_sensitive(layer, stages),
            retained,
        );
    }
    if !retained.valid {
        lemma_targets_leased(
            device,
            sought,
            backed,
            prepared.context.viewport(),
            create,
            prepared.targets@,
        );
        let plan = choose|plan: EffectPassPlan| #[trigger]
            is_plan(stages, plan) && follows_plan(plan, prepared);
        assert(is_plan(stages, plan));
        crate::effect_plan::plans_use_every_target(stages, plan);
    }
}

proof fn lemma_output_leased<G, V>(
    device: Device,
    before: Books<G, V>,
    after: Books<G, V>,
    request: CacheRequest,
    evidence: Evidence,
    context: Context,
    content_bounds: RectangleBits,
    position_sensitive: bool,
    retained: Retained<G, V>,
)
    requires
        output_leased(
            device,
            before,
            after,
            request,
            evidence,
            context,
            content_bounds,
            position_sensitive,
            retained,
        ),
    ensures
        after.pool == before.pool,
        after.diagnostics == before.diagnostics,
        after.counters == before.counters,
        retained.valid ==> retained.lease is Some && before.outputs.slots.contains_key(
            request.slot(),
        ) && (before.outputs.slots[request.slot()].committed matches Some(output)
            && retained.target == Some(output.target)),
{
    let (refreshed, current) = choose|refreshed: CacheRequest, current: Stamp| #[trigger]
        output_found(
            device,
            before,
            after,
            refreshed,
            current,
            signature_of(
                device,
                refreshed.evidence(),
                evidence,
                context,
                content_bounds,
                position_sensitive,
            ),
            retained,
        ) && refreshes(request, refreshed);
    found_outputs_hold_the_requested_pixels(
        device,
        before,
        after,
        refreshed,
        current,
        signature_of(
            device,
            refreshed.evidence(),
            evidence,
            context,
            content_bounds,
            position_sensitive,
        ),
        retained,
    );
}

/// A request is refreshed before its output is looked up: it keeps its slot, its priority and what
/// it watches, and carries what was read of that just now.
pub proof fn requests_are_refreshed<G, V>(
    device: Device,
    before: Books<G, V>,
    after: Books<G, V>,
    request: CacheRequest,
    evidence: Evidence,
    context: Context,
    content_bounds: RectangleBits,
    position_sensitive: bool,
    retained: Retained<G, V>,
    i: int,
)
    requires
        output_leased(
            device,
            before,
            after,
            request,
            evidence,
            context,
            content_bounds,
            position_sensitive,
            retained,
        ),
        retained.lease is Some,
        0 <= i < request.watched().len(),
    ensures
        retained.lease matches Some(access) && {
            &&& access.request.slot() == request.slot()
            &&& access.request.residency() == request.residency()
            &&& access.request.watched() == request.watched()
            &&& access.request.evidence().revisions[i].id() == request.watched()[i].id()
            &&& request.watched()[i].has_read(access.request.evidence().revisions[i].at())
            &&& access.key@.content == access.request.evidence()
            &&& access.key@.evidence == evidence
            &&& access.key@.raster.device_epoch == device.epoch
            &&& access.key@.geometry is Some <==> position_sensitive
        },
{
    let (refreshed, current) = choose|refreshed: CacheRequest, current: Stamp| #[trigger]
        output_found(
            device,
            before,
            after,
            refreshed,
            current,
            signature_of(
                device,
                refreshed.evidence(),
                evidence,
                context,
                content_bounds,
                position_sensitive,
            ),
            retained,
        ) && refreshes(request, refreshed);
    crate::content::observations_are_read_from_their_handles(request, refreshed.evidence(), i);
}

/// Two moments of one draw have the same frame number, device, limits and keep-alives.
pub proof fn draws_keep_their_device<G, V>(now: Frame<G, V>, before: Frame<G, V>)
    requires
        now.same_draw(before),
    ensures
        now.state.frame == before.state.frame,
        now.format == before.format,
        now.maximum_dimension == before.maximum_dimension,
        now.device_epoch == before.device_epoch,
        now.state.limits == before.state.limits,
        now.state.frame_keep_alives == before.state.frame_keep_alives,
        now.state.pending_keep_alives == before.state.pending_keep_alives,
        now.state.missing_content.before() == before.state.missing_content.before(),
{
}

/// What is rendered for a layer is backed by just the texture that its context says: the targets of
/// a layer that was given its context have the extent of its backing.
pub proof fn targets_are_as_large_as_their_context_says<G, V, C: Fn(Size) -> G>(
    device: Device,
    before: Books<G, V>,
    after: Books<G, V>,
    located: Located,
    logical_surface_size: SizeBits,
    create: C,
    target: Target<G, V>,
)
    requires
        backed_context(device, Some(located), logical_surface_size) is Some,
        target_leased(
            device,
            before,
            after,
            backed_context(device, Some(located), logical_surface_size)->0.viewport(),
            create,
            target,
        ),
        forall|j: int|
            0 <= j < before.pool.len() ==> #[trigger] before.pool[j] == crate::pool::filed(
                before.pool[j].target,
            ),
    ensures
        target.owned().extent == backed_context(
            device,
            Some(located),
            logical_surface_size,
        )->0.backing_extent,
{
    let context = backed_context(device, Some(located), logical_surface_size)->0;
    leased_targets_hold_what_was_requested(
        device,
        before,
        after,
        context.viewport(),
        create,
        target,
    );
    backed_captures_hold_their_viewport(device, Some(located), logical_surface_size);
    let (held, said) = (target.owned().extent, context.backing_extent);
    assert(held.width == said.width && held.height == said.height);
}

} // verus!
