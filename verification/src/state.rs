//! Renderer-local frame bookkeeping for isolated layers.

use crate::content::{CacheKeepAlive, CacheResidencyPriority};
use crate::diagnostics::{Diagnostics, Limits, Platform};
use crate::free_pool::{
    lemma_joined, total_bytes, trimmed, trimmed_meets_the_allowance, Backing,
};
use crate::ordered::{enumerates, keys_of, lemma_enumerable};
use crate::pool::{all_filed, Lease, Pool, Target, TargetStorage};
use crate::retained::{
    count, saturated, EvictedTarget, LeaseAudit, OutputMiss, OutputTarget, Outputs, Registry,
    StoreDisposition, StoreOutcome,
};
use crate::retention_laws::{eviction_meets_the_limit, sizes, sweeping_conserves_bytes};
use std::collections::{BTreeMap, HashSet};
use vstd::prelude::*;

verus! {

broadcast use vstd::laws_cmp::group_laws_cmp;

impl<G, V> OutputTarget for Lease<TargetStorage<G, V>> {
    open spec fn size(&self) -> u64 {
        self.owned().size()
    }

    fn output_byte_size(&self) -> (bytes: u64) {
        self.get().byte_size()
    }
}

/// A keep-alive waiting for the next frame.
#[derive(Debug, Clone, Copy)]
pub struct PendingKeepAlive {
    request: CacheKeepAlive,
}

/// The priority that two keep-alives of one identity agree on; disagreement is normal.
pub open spec fn merged(
    first: CacheResidencyPriority,
    second: CacheResidencyPriority,
) -> CacheResidencyPriority {
    if first == second {
        first
    } else {
        CacheResidencyPriority::Normal
    }
}

impl PendingKeepAlive {
    /// The output slot that is addressed.
    pub closed spec fn slot(self) -> u64 {
        self.request.slot()
    }

    /// The requested priority.
    pub closed spec fn residency(self) -> CacheResidencyPriority {
        self.request.residency()
    }

    /// Starts from one keep-alive.
    pub fn new(request: CacheKeepAlive) -> (pending: Self)
        ensures
            pending.slot() == request.slot(),
            pending.residency() == request.residency(),
    {
        PendingKeepAlive { request }
    }

    /// Adds another keep-alive of the same identity.
    pub fn merge(&mut self, incoming: CacheKeepAlive)
        requires
            incoming.slot() == old(self).slot(),
        ensures
            final(self).slot() == old(self).slot(),
            final(self).residency() == merged(old(self).residency(), incoming.residency()),
    {
        if self.request.priority() != incoming.priority() && incoming.priority()
            == CacheResidencyPriority::Normal {
            self.request = incoming;
        }
    }

    fn request(&self) -> (request: CacheKeepAlive)
        ensures
            request.slot() == self.slot(),
            request.residency() == self.residency(),
    {
        self.request
    }
}

spec fn priorities_of(pending: Map<u64, PendingKeepAlive>) -> Map<u64, CacheResidencyPriority> {
    Map::new(
        |identity: u64| pending.contains_key(identity),
        |identity: u64| pending[identity].residency(),
    )
}

spec fn filed_by_slot(pending: Map<u64, PendingKeepAlive>) -> bool {
    forall|identity: u64| #[trigger]
        pending.contains_key(identity) ==> pending[identity].slot() == identity
}

/// Identity-only keep-alives, one for each output slot.
pub struct KeepAlives {
    entries: BTreeMap<u64, PendingKeepAlive>,
}

impl View for KeepAlives {
    type V = Map<u64, CacheResidencyPriority>;

    closed spec fn view(&self) -> Map<u64, CacheResidencyPriority> {
        priorities_of(self.entries@)
    }
}

/// The keep-alives after one more of them was marked.
pub open spec fn with_keep_alive(
    pending: Map<u64, CacheResidencyPriority>,
    keep_alive: CacheKeepAlive,
) -> Map<u64, CacheResidencyPriority> {
    let identity = keep_alive.slot();
    let priority = if pending.contains_key(identity) {
        merged(pending[identity], keep_alive.residency())
    } else {
        keep_alive.residency()
    };
    pending.insert(identity, priority)
}

impl KeepAlives {
    /// Every entry is filed under the identity it addresses.
    pub closed spec fn wf(self) -> bool {
        filed_by_slot(self.entries@)
    }

    /// Creates an empty collection.
    pub fn new() -> (keep_alives: Self)
        ensures
            keep_alives.wf(),
            keep_alives@ == Map::<u64, CacheResidencyPriority>::empty(),
    {
        let keep_alives = KeepAlives { entries: BTreeMap::new() };
        assert(keep_alives@ =~= Map::<u64, CacheResidencyPriority>::empty());
        keep_alives
    }

    /// Returns the number of identities.
    pub fn len(&self) -> (count: usize)
        ensures
            count == self@.dom().len(),
    {
        assert(self@.dom() =~= self.entries@.dom());
        self.entries.len()
    }

    /// Returns the priority that is recorded for an identity.
    pub fn priority(&self, identity: u64) -> (priority: Option<CacheResidencyPriority>)
        ensures
            priority == (if self@.contains_key(identity) {
                Some(self@[identity])
            } else {
                None
            }),
    {
        match self.entries.get(&identity) {
            Some(pending) => Some(pending.request().priority()),
            None => None,
        }
    }

    /// Adds a keep-alive, merging it with an earlier one of the same identity.
    pub fn mark(&mut self, keep_alive: CacheKeepAlive)
        requires
            old(self).wf(),
        ensures
            final(self).wf(),
            final(self)@ == with_keep_alive(old(self)@, keep_alive),
    {
        let identity: u64 = keep_alive.identity();
        let observation = match self.entries.get(&identity) {
            Some(pending) => {
                let mut pending = *pending;
                pending.merge(keep_alive);
                pending
            },
            None => PendingKeepAlive::new(keep_alive),
        };
        let _ = self.entries.insert(identity, observation);
        assert(self@ =~= old(self)@.insert(identity, observation.residency()));
    }

    /// Marks every listed output that has a slot as used in `frame`.
    fn apply<T: OutputTarget>(&self, registry: &mut Registry<T>, frame: u64)
        requires
            self.wf(),
            old(registry)@.wf(),
        ensures
            final(registry)@.wf(),
            final(registry)@ == old(registry)@.marked_all(self@, frame),
    {
        let identities = keys_of(&self.entries);
        let ghost all = identities@;
        let ghost before = registry@;
        let mut index: usize = 0;
        while index < identities.len()
            invariant
                index <= identities@.len(),
                all == identities@,
                enumerates(all, self.entries@.dom()),
                self.wf(),
                registry@.wf(),
                registry@.next_ticket == before.next_ticket,
                registry@.slots.dom() == before.slots.dom(),
                forall|identity: u64| #[trigger]
                    before.slots.contains_key(identity) ==> registry@.slots[identity] == (
                    if all.take(index as int).contains(identity) {
                        before.slots[identity].marked(self@[identity], frame)
                    } else {
                        before.slots[identity]
                    }),
            decreases identities@.len() - index,
        {
            let identity: u64 = identities[index];
            let ghost shorter = all.take(index as int);
            let ghost longer = all.take(index + 1);
            proof {
                assert(all.contains(all[index as int]));
                assert(!shorter.contains(identity)) by {
                    if shorter.contains(identity) {
                        let i = choose|i: int| 0 <= i < shorter.len() && shorter[i] == identity;
                        assert(all[i] < all[index as int]);
                    }
                }
                assert forall|other: u64| longer.contains(other) <==> (shorter.contains(other)
                    || other == identity) by {
                    if shorter.contains(other) {
                        let i = choose|i: int| 0 <= i < shorter.len() && shorter[i] == other;
                        assert(longer[i] == other);
                    }
                    if other == identity {
                        assert(longer[index as int] == other);
                    }
                    if longer.contains(other) {
                        let i = choose|i: int| 0 <= i < longer.len() && longer[i] == other;
                        if i < index {
                            assert(shorter[i] == other);
                        }
                    }
                }
                assert(self.entries@.contains_key(identity));
            }
            match self.entries.get(&identity) {
                Some(pending) => {
                    let request = pending.request();
                    let _ = registry.keep_alive(&request, frame);
                },
                None => {},
            }
            proof {
                assert(registry@.slots.dom() =~= before.slots.dom());
            }
            index = index + 1;
        }
        proof {
            assert(all.take(all.len() as int) =~= all);
            assert(registry@.slots =~= before.marked_all(self@, frame).slots);
        }
    }
}

/// Surfaces that lacked content evidence, in this draw and in the one before.
pub struct MissingContent {
    current: HashSet<u64>,
    previous: HashSet<u64>,
}

impl MissingContent {
    /// Identities reported in this draw.
    pub closed spec fn now(self) -> Set<u64> {
        self.current@
    }

    /// Identities reported in the previous draw.
    pub closed spec fn before(self) -> Set<u64> {
        self.previous@
    }

    /// Starts with no reports.
    pub fn new() -> (reports: Self)
        ensures
            reports.now() == Set::<u64>::empty(),
            reports.before() == Set::<u64>::empty(),
    {
        MissingContent { current: HashSet::new(), previous: HashSet::new() }
    }

    /// Starts the next draw.
    pub fn advance(&mut self)
        ensures
            final(self).now() == Set::<u64>::empty(),
            final(self).before() == old(self).now(),
    {
        std::mem::swap(&mut self.current, &mut self.previous);
        self.current.clear();
    }

    /// Records a report, and returns whether neither this draw nor the previous one had it.
    pub fn report(&mut self, identity: u64) -> (first: bool)
        ensures
            final(self).now() == old(self).now().insert(identity),
            final(self).before() == old(self).before(),
            first == (!old(self).now().contains(identity) && !old(self).before().contains(
                identity,
            )),
    {
        let first = self.current.insert(identity);
        first && !self.previous.contains(&identity)
    }
}

/// Renderer-local state: the reuse pool, the retained outputs and this frame's records.
///
/// `G` stands for a texture and its view, `V` for a text viewport.
pub struct State<G, V> {
    pub pool: Pool<G, V>,
    pub registry: Registry<Target<G, V>>,
    pub diagnostics: Diagnostics,
    pub frame: u64,
    pub limits: Limits,
    /// Keep-alives collected since the last snapshot.
    pub pending_keep_alives: KeepAlives,
    /// Keep-alives that the next frame will apply.
    pub frame_keep_alives: KeepAlives,
    pub missing_content: MissingContent,
}

impl<T> Outputs<T> {
    /// The registry after each listed identity that has a slot was marked.
    pub open spec fn marked_all(
        self,
        kept: Map<u64, CacheResidencyPriority>,
        frame: u64,
    ) -> Outputs<T> {
        Outputs {
            slots: Map::new(
                |identity: u64| self.slots.contains_key(identity),
                |identity: u64|
                    if kept.contains_key(identity) {
                        self.slots[identity].marked(kept[identity], frame)
                    } else {
                        self.slots[identity]
                    },
            ),
            ..self
        }
    }
}

impl<T> Outputs<T> {
    /// Whether every lease was taken in `frame`.
    pub open spec fn no_abandoned_leases(self, frame: u64) -> bool {
        forall|identity: u64| #[trigger]
            self.slots.contains_key(identity) ==> !self.slots[identity].abandoned(frame)
    }
}

/// A frame starts without abandoned leases.
pub proof fn recovery_leaves_no_abandoned_leases<T>(
    outputs: Outputs<T>,
    kept: Map<u64, CacheResidencyPriority>,
    frame: u64,
)
    ensures
        outputs.recovered(frame).marked_all(kept, frame).no_abandoned_leases(frame),
{
}

proof fn lemma_same_targets<T: OutputTarget>(
    first: Outputs<T>,
    second: Outputs<T>,
    identities: Seq<u64>,
)
    requires
        forall|i: int|
            0 <= i < identities.len() ==> first.slots[#[trigger] identities[i]].committed
                == second.slots[identities[i]].committed,
    ensures
        first.priority_bytes(identities, CacheResidencyPriority::Normal) + first.priority_bytes(
            identities,
            CacheResidencyPriority::Protected,
        ) == second.priority_bytes(identities, CacheResidencyPriority::Normal)
            + second.priority_bytes(identities, CacheResidencyPriority::Protected),
    decreases identities.len(),
{
    if identities.len() > 0 {
        let rest = identities.drop_last();
        assert forall|i: int| 0 <= i < rest.len() implies first.slots[#[trigger] rest[i]].committed
            == second.slots[rest[i]].committed by {
            assert(rest[i] == identities[i]);
        }
        lemma_same_targets(first, second, rest);
        assert(identities[identities.len() - 1] == identities.last());
    }
}

/// Starting a frame neither makes nor loses retained bytes. Keep-alives may only move them
/// from one priority to the other.
pub proof fn starting_a_frame_conserves_bytes<T: OutputTarget>(
    outputs: Outputs<T>,
    kept: Map<u64, CacheResidencyPriority>,
    frame: u64,
)
    requires
        outputs.wf(),
    ensures
        outputs.recovered(frame).marked_all(kept, frame).total() == outputs.total(),
{
    let after = outputs.recovered(frame).marked_all(kept, frame);
    assert(after.slots.dom() =~= outputs.slots.dom());
    lemma_enumerable(outputs.slots.dom());
    let identities = outputs.identities();
    assert forall|i: int| 0 <= i < identities.len() implies after.slots[#[trigger] identities[i]].committed
        == outputs.slots[identities[i]].committed by {
        assert(identities.contains(identities[i]));
        assert(outputs.slots.contains_key(identities[i]));
    }
    lemma_same_targets(after, outputs, identities);
}

proof fn lemma_bytes_are_committed<T: OutputTarget>(
    outputs: Outputs<T>,
    identities: Seq<u64>,
) -> (identity: u64)
    requires
        outputs.priority_bytes(identities, CacheResidencyPriority::Normal)
            + outputs.priority_bytes(identities, CacheResidencyPriority::Protected) > 0,
    ensures
        identities.contains(identity),
        outputs.slots[identity].committed is Some,
    decreases identities.len(),
{
    let last = identities.last();
    let rest = identities.drop_last();
    assert(identities.len() > 0);
    if outputs.slots[last].committed is Some {
        last
    } else {
        let found = lemma_bytes_are_committed(outputs, rest);
        let i = choose|i: int| 0 <= i < rest.len() && rest[i] == found;
        assert(identities[i] == found);
        found
    }
}

proof fn lemma_counted(identities: Seq<u64>, holds: spec_fn(u64) -> bool, identity: u64)
    requires
        identities.contains(identity),
        holds(identity),
    ensures
        count(identities, holds) > 0,
    decreases identities.len(),
{
    let last = identities.last();
    if !holds(last) {
        let rest = identities.drop_last();
        let i = choose|i: int| 0 <= i < identities.len() && identities[i] == identity;
        assert(rest[i] == identity);
        lemma_counted(rest, holds, identity);
    }
}

/// What `budget` leaves after `bytes`.
pub open spec fn allowance(budget: u64, bytes: nat) -> u64 {
    if bytes >= budget {
        0
    } else {
        (budget - bytes) as u64
    }
}

/// Whether enforcing `budget` may turn the pool and the registry into these.
///
/// The free pool is trimmed first, to what retained outputs leave of the budget. Only when
/// both together still exceed it are retained outputs evicted.
pub open spec fn budget_enforced<G, V>(
    pool: Seq<Backing<Target<G, V>>>,
    outputs: Outputs<Target<G, V>>,
    budget: u64,
    frame: u64,
    pool_after: Seq<Backing<Target<G, V>>>,
    outputs_after: Outputs<Target<G, V>>,
) -> bool {
    let retained = saturated(outputs.total());
    let rest = allowance(budget, total_bytes(pool_after));
    &&& pool_after == trimmed(pool, allowance(budget, retained as nat), budget)
    &&& if retained <= rest {
        outputs_after == outputs
    } else {
        exists|evicted: Seq<EvictedTarget<Target<G, V>>>, remaining: u64, order: Seq<u64>| #[trigger]
            outputs.evicts(rest, frame, outputs_after, evicted, remaining, order)
    }
}

proof fn lemma_filed_sizes<G, V>(targets: Seq<Target<G, V>>)
    ensures
        total_bytes(all_filed(targets)) == sizes(targets),
    decreases targets.len(),
{
    if targets.len() > 0 {
        lemma_filed_sizes(targets.drop_last());
        assert(all_filed(targets).drop_last() =~= all_filed(targets.drop_last()));
    }
}

/// Enforcing a budget leaves at most that many bytes, unless no free backing is left and
/// every retained output is leased. Nothing new is owned.
pub proof fn enforced_budget_is_met<G, V>(
    pool: Seq<Backing<Target<G, V>>>,
    outputs: Outputs<Target<G, V>>,
    budget: u64,
    frame: u64,
    pool_after: Seq<Backing<Target<G, V>>>,
    outputs_after: Outputs<Target<G, V>>,
)
    requires
        outputs.wf(),
        outputs.total() <= u64::MAX,
        budget_enforced(pool, outputs, budget, frame, pool_after, outputs_after),
    ensures
        outputs_after.total() <= outputs.total(),
        outputs_after.slots.dom() == outputs.slots.dom(),
        total_bytes(pool_after) + outputs_after.total() <= budget || (total_bytes(pool_after) == 0
            && forall|identity: u64| #[trigger]
            outputs_after.slots.contains_key(identity)
                && outputs_after.slots[identity].committed is Some
                ==> outputs_after.slots[identity].active is Some),
{
    let retained = saturated(outputs.total());
    let rest = allowance(budget, total_bytes(pool_after));
    trimmed_meets_the_allowance(pool, allowance(budget, retained as nat), budget);
    if retained > rest {
        let (evicted, remaining, order) = choose|
            evicted: Seq<EvictedTarget<Target<G, V>>>,
            remaining: u64,
            order: Seq<u64>,
        | #[trigger]
            outputs.evicts(rest, frame, outputs_after, evicted, remaining, order);
        eviction_meets_the_limit(
            outputs,
            rest,
            frame,
            outputs_after,
            evicted,
            remaining,
            order,
        );
        assert(outputs_after.slots.dom() =~= outputs.slots.dom());
    }
}

impl<G, V> State<G, V> {
    /// Every part is well formed.
    pub open spec fn wf(self) -> bool {
        &&& self.pool.wf()
        &&& self.registry@.wf()
        &&& self.pending_keep_alives.wf()
        &&& self.frame_keep_alives.wf()
    }

    /// Everything that the renderer owns can be counted on this machine.
    pub open spec fn countable(self) -> bool {
        &&& total_bytes(self.pool@) + self.registry@.total() <= u64::MAX
        &&& self.pool@.len() + self.registry@.slots.dom().len() <= usize::MAX
    }

    /// This frame's diagnostics with the bytes that are owned now.
    pub open spec fn with_usage(self, diagnostics: Diagnostics) -> Diagnostics {
        Diagnostics {
            pool_bytes: total_bytes(self.pool@) as u64,
            normal_priority_bytes: saturated(
                self.registry@.resident(CacheResidencyPriority::Normal),
            ),
            protected_priority_bytes: saturated(
                self.registry@.resident(CacheResidencyPriority::Protected),
            ),
            ..diagnostics
        }
    }

    /// Whether ending a frame may turn this state into `after`, with `audit` of its leases.
    ///
    /// Outputs past their grace period go to the pool, the budget is enforced, and the bytes
    /// that are owned then are recorded.
    pub open spec fn finished(self, after: Self, audit: LeaseAudit) -> bool {
        let outputs = self.registry@;
        let grace = self.limits.grace_frames;
        &&& after == (State {
            pool: after.pool,
            registry: after.registry,
            diagnostics: after.diagnostics,
            ..self
        })
        &&& audit.output_leases == count(
            outputs.identities(),
            |identity: u64| outputs.slots[identity].leased_in(self.frame),
        )
        &&& budget_enforced(
            self.pool@ + all_filed(outputs.swept_targets(outputs.identities(), self.frame, grace)),
            outputs.swept(self.frame, grace),
            self.limits.budget_bytes,
            self.frame,
            after.pool@,
            after.registry@,
        )
        &&& after.diagnostics == after.with_usage(self.diagnostics)
    }

    /// Creates an empty state with the given limits.
    pub fn with_limits(limits: Limits) -> (state: Self)
        ensures
            state.wf(),
            state.limits == limits,
            state.frame == 0,
            state.diagnostics == Diagnostics::zero(),
            state.pool@ == Seq::<Backing<Target<G, V>>>::empty(),
            state.registry@ == (Outputs::<Target<G, V>> { slots: Map::empty(), next_ticket: 0 }),
            state.pending_keep_alives@ == Map::<u64, CacheResidencyPriority>::empty(),
            state.frame_keep_alives@ == Map::<u64, CacheResidencyPriority>::empty(),
            state.missing_content.now() == Set::<u64>::empty(),
            state.missing_content.before() == Set::<u64>::empty(),
    {
        State {
            pool: Pool::new(),
            registry: Registry::new(),
            diagnostics: Diagnostics::default(),
            frame: 0,
            limits,
            pending_keep_alives: KeepAlives::new(),
            frame_keep_alives: KeepAlives::new(),
            missing_content: MissingContent::new(),
        }
    }

    /// Creates an empty state with the default limits on a platform.
    pub fn default_on(platform: Platform) -> (state: Self)
        ensures
            state.wf(),
            state.limits == Limits::defaults(platform),
            state.frame == 0,
            state.diagnostics == Diagnostics::zero(),
            state.pool@ == Seq::<Backing<Target<G, V>>>::empty(),
            state.registry@ == (Outputs::<Target<G, V>> { slots: Map::empty(), next_ticket: 0 }),
            state.pending_keep_alives@ == Map::<u64, CacheResidencyPriority>::empty(),
            state.frame_keep_alives@ == Map::<u64, CacheResidencyPriority>::empty(),
            state.missing_content.now() == Set::<u64>::empty(),
            state.missing_content.before() == Set::<u64>::empty(),
    {
        State::with_limits(Limits::default_on(platform))
    }

    /// Returns the configured limits.
    pub fn limits(&self) -> (limits: Limits)
        ensures
            limits == self.limits,
    {
        self.limits
    }

    /// Replaces the configured limits.
    pub fn set_limits(&mut self, limits: Limits)
        ensures
            *final(self) == (State { limits, ..*old(self) }),
    {
        self.limits = limits;
    }

    /// Adds an identity-only keep-alive to the bounded pending sink.
    pub fn mark_cache_alive(&mut self, keep_alive: CacheKeepAlive)
        requires
            old(self).wf(),
        ensures
            final(self).wf(),
            *final(self) == (State {
                pending_keep_alives: final(self).pending_keep_alives,
                ..*old(self)
            }),
            final(self).pending_keep_alives@ == with_keep_alive(
                old(self).pending_keep_alives@,
                keep_alive,
            ),
    {
        self.pending_keep_alives.mark(keep_alive);
    }

    /// Replaces the next-frame snapshot with the keep-alives collected since the previous
    /// one.
    pub fn snapshot_pending_keep_alives(&mut self)
        requires
            old(self).wf(),
        ensures
            final(self).wf(),
            *final(self) == (State {
                pending_keep_alives: final(self).pending_keep_alives,
                frame_keep_alives: old(self).pending_keep_alives,
                ..*old(self)
            }),
            final(self).pending_keep_alives@ == Map::<u64, CacheResidencyPriority>::empty(),
    {
        let mut taken = KeepAlives::new();
        std::mem::swap(&mut taken, &mut self.pending_keep_alives);
        self.frame_keep_alives = taken;
    }

    /// Starts a frame: clears last frame's records and leases, and applies the snapshot of
    /// keep-alives once.
    pub fn begin_frame(&mut self)
        requires
            old(self).wf(),
        ensures
            final(self).wf(),
            final(self).frame == (if old(self).frame == u64::MAX {
                0
            } else {
                old(self).frame + 1
            }),
            final(self).diagnostics == Diagnostics::zero(),
            final(self).missing_content.now() == Set::<u64>::empty(),
            final(self).missing_content.before() == old(self).missing_content.now(),
            final(self).registry@ == old(self).registry@.recovered(final(self).frame).marked_all(
                old(self).frame_keep_alives@,
                final(self).frame,
            ),
            final(self).frame_keep_alives@ == Map::<u64, CacheResidencyPriority>::empty(),
            final(self).pending_keep_alives == old(self).pending_keep_alives,
            final(self).pool == old(self).pool,
            final(self).limits == old(self).limits,
    {
        self.frame = self.frame.wrapping_add(1);
        self.diagnostics = Diagnostics::default();
        self.missing_content.advance();
        let _ = self.registry.recover_abandoned(self.frame);

        let mut kept = KeepAlives::new();
        std::mem::swap(&mut kept, &mut self.frame_keep_alives);
        kept.apply(&mut self.registry, self.frame);
    }

    /// Returns targets to the pool.
    pub fn release_targets(&mut self, targets: Vec<Target<G, V>>)
        requires
            old(self).wf(),
            old(self).pool@.len() + targets@.len() <= usize::MAX,
            total_bytes(old(self).pool@) + total_bytes(all_filed(targets@)) <= u64::MAX,
        ensures
            final(self).wf(),
            *final(self) == (State { pool: final(self).pool, ..*old(self) }),
            final(self).pool@ == old(self).pool@ + all_filed(targets@),
    {
        self.pool.release_all(targets);
    }

    /// Returns the targets that a store released, and its disposition.
    pub fn record_store(&mut self, outcome: StoreOutcome<Target<G, V>>) -> (disposition:
        StoreDisposition)
        requires
            old(self).wf(),
            old(self).pool@.len() + outcome.released@.len() <= usize::MAX,
            total_bytes(old(self).pool@) + total_bytes(all_filed(outcome.released@)) <= u64::MAX,
        ensures
            final(self).wf(),
            *final(self) == (State { pool: final(self).pool, ..*old(self) }),
            final(self).pool@ == old(self).pool@ + all_filed(outcome.released@),
            disposition == outcome.disposition,
    {
        self.release_targets(outcome.released);
        outcome.disposition
    }

    /// Returns whether a miss is the first report of missing content evidence for this
    /// identity in this draw and the one before.
    pub fn should_report_missing_content(&mut self, identity: u64, miss: OutputMiss) -> (report:
        bool)
        ensures
            *final(self) == (State {
                missing_content: final(self).missing_content,
                ..*old(self)
            }),
            final(self).missing_content.now() == (if miss == OutputMiss::MissingContentEvidence {
                old(self).missing_content.now().insert(identity)
            } else {
                old(self).missing_content.now()
            }),
            final(self).missing_content.before() == old(self).missing_content.before(),
            report == (miss == OutputMiss::MissingContentEvidence && !old(
                self,
            ).missing_content.now().contains(identity) && !old(
                self,
            ).missing_content.before().contains(identity)),
    {
        miss == OutputMiss::MissingContentEvidence && self.missing_content.report(identity)
    }

    /// Trims free targets and evicts retained ones until the budget is met.
    fn enforce_budget(&mut self)
        requires
            old(self).wf(),
            old(self).pool@.len() <= usize::MAX,
        ensures
            final(self).wf(),
            *final(self) == (State {
                pool: final(self).pool,
                registry: final(self).registry,
                ..*old(self)
            }),
            final(self).pool@.len() <= old(self).pool@.len(),
            budget_enforced(
                old(self).pool@,
                old(self).registry@,
                old(self).limits.budget_bytes,
                old(self).frame,
                final(self).pool@,
                final(self).registry@,
            ),
    {
        let budget: u64 = self.limits.budget_bytes;
        let registry_bytes: u64 = self.registry.bytes();
        let maximum: u64 = budget.saturating_sub(registry_bytes);
        let _ = self.pool.trim_to_bytes(maximum, budget);

        let pool_bytes: u64 = self.pool.bytes();
        let rest: u64 = budget.saturating_sub(pool_bytes);
        if registry_bytes <= rest {
            return ;
        }
        let ghost before = self.registry@;
        let outcome = self.registry.evict_to_bytes(rest, self.frame);
        proof {
            let order = choose|order: Seq<u64>| #[trigger]
                before.evicts(
                    rest,
                    self.frame,
                    self.registry@,
                    outcome.evicted@,
                    outcome.remaining_bytes,
                    order,
                );
            assert(before.evicts(
                rest,
                self.frame,
                self.registry@,
                outcome.evicted@,
                outcome.remaining_bytes,
                order,
            ));
        }
    }

    /// Ends a frame: sweeps outputs past their grace period into the pool, enforces the
    /// budget and records what is left.
    ///
    /// Only outputs that are still leased can keep ownership above the budget, and then no
    /// free backing is left.
    pub fn finish_frame(&mut self) -> (audit: LeaseAudit)
        requires
            old(self).wf(),
            old(self).countable(),
        ensures
            final(self).wf(),
            final(self).countable(),
            old(self).finished(*final(self), audit),
            final(self).diagnostics.retained() <= old(self).limits.budget_bytes || (total_bytes(
                final(self).pool@,
            ) == 0 && forall|identity: u64| #[trigger]
                final(self).registry@.slots.contains_key(identity)
                    && final(self).registry@.slots[identity].committed is Some
                    ==> final(self).registry@.slots[identity].active is Some),
            old(self).registry@.no_abandoned_leases(old(self).frame) ==> (
            final(self).diagnostics.retained() <= old(self).limits.budget_bytes || (
            audit.output_leases > 0 && total_bytes(final(self).pool@) == 0)),
    {
        let ghost pool = self.pool@;
        let ghost outputs = self.registry@;
        let ghost frame = self.frame;
        let ghost budget = self.limits.budget_bytes;
        let audit = self.registry.finish_frame(self.frame);
        let swept = self.registry.sweep(self.frame, self.limits.grace_frames);
        proof {
            sweeping_conserves_bytes(outputs, frame, self.limits.grace_frames);
            lemma_filed_sizes(swept.released@);
            lemma_joined(pool, all_filed(swept.released@));
        }
        self.release_targets(swept.released);

        let ghost released = self.pool@;
        let ghost kept = self.registry@;
        self.enforce_budget();
        self.refresh_usage();
        proof {
            assert(self.registry@.slots.dom() =~= kept.slots.dom());
            enforced_budget_is_met(
                released,
                kept,
                budget,
                frame,
                self.pool@,
                self.registry@,
            );
            if outputs.no_abandoned_leases(frame) && self.diagnostics.retained() > budget {
                lemma_enumerable(self.registry@.slots.dom());
                let identity = lemma_bytes_are_committed(
                    self.registry@,
                    self.registry@.identities(),
                );
                assert(self.registry@.identities().contains(identity));
                assert(self.registry@.slots.contains_key(identity));
                assert(outputs.slots[identity].leased_in(frame));
                lemma_enumerable(outputs.slots.dom());
                assert(outputs.identities().contains(identity));
                lemma_counted(
                    outputs.identities(),
                    |identity: u64| outputs.slots[identity].leased_in(frame),
                    identity,
                );
            }
        }
        audit
    }

    fn refresh_usage(&mut self)
        requires
            old(self).wf(),
        ensures
            final(self).wf(),
            *final(self) == (State { diagnostics: final(self).diagnostics, ..*old(self) }),
            final(self).diagnostics == final(self).with_usage(old(self).diagnostics),
    {
        let resident = self.registry.resident_bytes();
        self.diagnostics.pool_bytes = self.pool.bytes();
        self.diagnostics.normal_priority_bytes = resident.normal;
        self.diagnostics.protected_priority_bytes = resident.protected;
    }
}

/// Keep-alives of one slot protect it only if all of them ask for that, in whatever order they
/// come.
pub proof fn keep_alives_protect_only_unanimously(
    first: CacheResidencyPriority,
    second: CacheResidencyPriority,
)
    ensures
        merged(first, second) == CacheResidencyPriority::Protected <==> first
            == CacheResidencyPriority::Protected && second == CacheResidencyPriority::Protected,
        merged(first, second) == merged(second, first),
{
}

/// A keep-alive is collected under the slot that it addresses, with its own priority unless an
/// earlier one disagrees, and leaves every other slot as it is.
pub proof fn keep_alives_are_collected_by_slot(
    pending: Map<u64, CacheResidencyPriority>,
    keep_alive: CacheKeepAlive,
    other: u64,
)
    ensures
        ({
            let after = with_keep_alive(pending, keep_alive);
            &&& after.contains_key(keep_alive.slot())
            &&& after[keep_alive.slot()] == CacheResidencyPriority::Protected
                <==> keep_alive.residency() == CacheResidencyPriority::Protected && (
            pending.contains_key(keep_alive.slot()) ==> pending[keep_alive.slot()]
                == CacheResidencyPriority::Protected)
            &&& other != keep_alive.slot() ==> (after.contains_key(other)
                <==> pending.contains_key(other)) && (pending.contains_key(other) ==> after[other]
                == pending[other])
        }),
{
}

/// Every retained output that is kept alive survives the frame, at the priority that was asked
/// for. The others stay as they are, and none is made up.
pub proof fn kept_outputs_survive_the_frame<T>(
    outputs: Outputs<T>,
    kept: Map<u64, CacheResidencyPriority>,
    frame: u64,
    grace: u64,
    identity: u64,
)
    ensures
        outputs.marked_all(kept, frame).slots.dom() == outputs.slots.dom(),
        outputs.slots.contains_key(identity) && !kept.contains_key(identity)
            ==> outputs.marked_all(kept, frame).slots[identity] == outputs.slots[identity],
        outputs.slots.contains_key(identity) && kept.contains_key(identity) ==> {
            let before = outputs.slots[identity];
            let after = outputs.marked_all(kept, frame).slots[identity];
            &&& outputs.marked_all(kept, frame).swept(frame, grace).slots.contains_key(identity)
            &&& after.committed == before.committed && after.active == before.active
            &&& before.priority_frame != frame ==> after.priority == kept[identity]
        },
{
    assert(outputs.marked_all(kept, frame).slots.dom() =~= outputs.slots.dom());
}

/// What a budget leaves and what it is spent on make up the budget, until it is overspent.
pub proof fn allowances_make_up_the_budget(budget: u64, bytes: nat)
    ensures
        bytes <= budget ==> allowance(budget, bytes) + bytes == budget,
        bytes > budget ==> allowance(budget, bytes) == 0,
{
}

/// Within its budget a renderer gives up nothing. Free backings go before retained outputs:
/// while the outputs alone are within the budget, they all stay.
pub proof fn outputs_within_the_budget_stay<G, V>(
    pool: Seq<Backing<Target<G, V>>>,
    outputs: Outputs<Target<G, V>>,
    budget: u64,
    frame: u64,
    pool_after: Seq<Backing<Target<G, V>>>,
    outputs_after: Outputs<Target<G, V>>,
)
    requires
        budget_enforced(pool, outputs, budget, frame, pool_after, outputs_after),
        outputs.total() <= budget,
    ensures
        outputs_after == outputs,
        total_bytes(pool) + outputs.total() <= budget ==> pool_after == pool,
        total_bytes(pool_after) + outputs.total() <= budget,
{
    trimmed_meets_the_allowance(pool, allowance(budget, outputs.total()), budget);
}

/// What a state reports as retained is what it owns: free backings and retained outputs of both
/// priorities. What the frame counted stays.
pub proof fn reported_usage_is_what_is_owned<G, V>(
    state: State<G, V>,
    diagnostics: Diagnostics,
)
    requires
        state.countable(),
    ensures
        ({
            let reported = state.with_usage(diagnostics);
            &&& reported.pool_bytes == total_bytes(state.pool@)
            &&& reported.normal_priority_bytes == state.registry@.resident(
                CacheResidencyPriority::Normal,
            )
            &&& reported.protected_priority_bytes == state.registry@.resident(
                CacheResidencyPriority::Protected,
            )
            &&& reported.retained() == total_bytes(state.pool@) + state.registry@.total()
            &&& reported.output_cache_hits == diagnostics.output_cache_hits
            &&& reported.output_cache_misses == diagnostics.output_cache_misses
            &&& reported.uncached_renders == diagnostics.uncached_renders
            &&& reported.allocated_bytes == diagnostics.allocated_bytes
        }),
{
}

/// At the end of a frame a renderer within its budget keeps every free backing and every output
/// that was marked within the grace period. The outputs that were not go, and their targets
/// become free.
pub proof fn finishing_a_frame_frees_unmarked_outputs<G, V>(
    before: State<G, V>,
    after: State<G, V>,
    audit: LeaseAudit,
    identity: u64,
    i: int,
)
    requires
        before.wf(),
        before.countable(),
        before.finished(after, audit),
        total_bytes(before.pool@) + before.registry@.total() <= before.limits.budget_bytes,
        before.registry@.slots.contains_key(identity),
        before.registry@.slots[identity].active is None,
        before.registry@.slots[identity].marked_frame <= before.frame,
    ensures
        0 <= i < before.pool@.len() ==> i < after.pool@.len() && after.pool@[i] == before.pool@[i],
        before.frame - before.registry@.slots[identity].marked_frame <= before.limits.grace_frames
            ==> after.registry@.slots.contains_key(identity) && after.registry@.slots[identity]
            == before.registry@.slots[identity],
        before.frame - before.registry@.slots[identity].marked_frame > before.limits.grace_frames
            ==> !after.registry@.slots.contains_key(identity),
        before.frame - before.registry@.slots[identity].marked_frame > before.limits.grace_frames
            && before.registry@.slots[identity].committed is Some ==> exists|j: int|
            0 <= j < after.pool@.len() && (#[trigger] after.pool@[j]).target
                == before.registry@.slots[identity].committed->0.target,
        after.frame == before.frame,
        after.limits == before.limits,
        after.missing_content == before.missing_content,
{
    let outputs = before.registry@;
    let grace = before.limits.grace_frames;
    let swept = outputs.swept_targets(outputs.identities(), before.frame, grace);
    let pool = before.pool@ + all_filed(swept);
    sweeping_conserves_bytes(outputs, before.frame, grace);
    lemma_filed_sizes(swept);
    lemma_joined(before.pool@, all_filed(swept));
    outputs_within_the_budget_stay(
        pool,
        outputs.swept(before.frame, grace),
        before.limits.budget_bytes,
        before.frame,
        after.pool@,
        after.registry@,
    );
    crate::retention_laws::sweeps_count_frames_since_the_mark(
        outputs,
        before.frame,
        grace,
        identity,
    );
    if before.frame - outputs.slots[identity].marked_frame > grace
        && outputs.slots[identity].committed is Some {
        crate::retention_laws::sweeps_hand_back_every_target(
            outputs,
            before.frame,
            grace,
            identity,
        );
        let target = outputs.slots[identity].committed->0.target;
        let k = choose|k: int| 0 <= k < swept.len() && swept[k] == target;
        assert(all_filed(swept)[k] == crate::pool::filed(target));
        assert(pool[before.pool@.len() + k].target == target);
    }
}

proof fn lemma_count_found(identities: Seq<u64>, holds: spec_fn(u64) -> bool) -> (identity: u64)
    requires
        count(identities, holds) > 0,
    ensures
        identities.contains(identity),
        holds(identity),
    decreases identities.len(),
{
    let last = identities.last();
    assert(identities.len() > 0);
    if holds(last) {
        last
    } else {
        let rest = identities.drop_last();
        let found = lemma_count_found(rest, holds);
        let i = choose|i: int| 0 <= i < rest.len() && rest[i] == found;
        assert(identities[i] == found);
        found
    }
}

/// The audit of a frame finds leases exactly if some output is still leased in that frame.
pub proof fn audits_find_open_leases<G, V>(
    before: State<G, V>,
    after: State<G, V>,
    audit: LeaseAudit,
)
    requires
        before.wf(),
        before.finished(after, audit),
    ensures
        audit.output_leases > 0 <==> exists|identity: u64| #[trigger]
            before.registry@.slots.contains_key(identity) && (
            before.registry@.slots[identity].active matches Some(active) && active.frame
                == before.frame),
{
    let outputs = before.registry@;
    let holds = |identity: u64| outputs.slots[identity].leased_in(before.frame);
    lemma_enumerable(outputs.slots.dom());
    if count(outputs.identities(), holds) > 0 {
        let identity = lemma_count_found(outputs.identities(), holds);
        assert(outputs.slots.contains_key(identity));
    }
    if exists|identity: u64| #[trigger]
        outputs.slots.contains_key(identity) && (outputs.slots[identity].active matches Some(active)
            && active.frame == before.frame) {
        let identity = choose|identity: u64| #[trigger]
            outputs.slots.contains_key(identity) && (outputs.slots[identity].active matches Some(
                active,
            ) && active.frame == before.frame);
        assert(outputs.identities().contains(identity));
        lemma_counted(outputs.identities(), holds, identity);
    }
}

/// A finished frame reports the bytes that are owned after it, and keeps what it counted.
pub proof fn finished_frames_report_what_is_owned<G, V>(
    before: State<G, V>,
    after: State<G, V>,
    audit: LeaseAudit,
)
    requires
        before.finished(after, audit),
        after.countable(),
    ensures
        after.diagnostics.pool_bytes == total_bytes(after.pool@),
        after.diagnostics.retained() == total_bytes(after.pool@) + after.registry@.total(),
        after.diagnostics.layers() == before.diagnostics.layers(),
        after.diagnostics.allocated_bytes == before.diagnostics.allocated_bytes,
{
    reported_usage_is_what_is_owned(after, before.diagnostics);
}

} // verus!
