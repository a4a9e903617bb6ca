//! Renderer-local retention of final, pre-composite isolated-layer outputs.
//!
//! A surface handle names exactly one output slot. The slot never contains source and
//! effect-result variants: replacing its key atomically replaces its sole committed
//! target.

use crate::content::{
    lemma_generation_of, CacheKeepAlive, CacheRequest, CacheResidencyPriority, ContentStamp,
    Revision, Stamp,
};
use crate::ordered::{enumerates, in_order, keys_of};
use crate::output_key::{KeyMismatch, OutputKey, Signature};
use std::collections::BTreeMap;
use vstd::prelude::*;

verus! {

broadcast use vstd::laws_cmp::group_laws_cmp;

/// Opaque ownership token for one in-flight output-slot access.
#[derive(Debug, Clone, Copy, PartialEq, Eq, Hash, Structural)]
pub struct LeaseTicket(pub u64);

/// Why a retained output was not reusable.
#[derive(Debug, Clone, Copy, PartialEq, Eq, Structural)]
pub enum OutputMiss {
    /// No registry metadata exists for the output identity.
    UnknownIdentity,
    /// Metadata exists, but its target is not resident.
    Targetless,
    /// The request supplied no caller-managed content evidence.
    MissingContentEvidence,
    /// Duplicate content observations disagreed on generation.
    ContentConflict,
    /// The request changed between construction and lookup.
    ContentChangedBeforeLookup,
    /// The observation is older than a generation already seen by this slot.
    StaleContent,
    /// The observation both advances and regresses previously seen inputs.
    IncomparableContent,
    /// The observed content signature changed.
    ContentChanged,
    /// A target rasterization fact changed.
    RasterChanged,
    /// Absolute geometry changed for a position-sensitive producer.
    GeometryChanged,
    /// Exact effect or stack input evidence changed.
    EffectInputsChanged,
    /// At least one effect declined retained-output reuse.
    VolatileInputs,
    /// More than one producer tried to write the same slot concurrently.
    CompetingWriter,
}

/// Result of leasing a retained output slot.
pub struct OutputLease<T> {
    /// A valid committed target on a hit; absent on a miss.
    pub target: Option<T>,
    /// The token required to return a hit or commit a rendered miss.
    pub ticket: Option<LeaseTicket>,
    /// Whether `target` contains pixels matching the requested key.
    pub valid: bool,
    /// Whether the caller may attempt to store its target using `ticket`.
    pub cacheable: bool,
    /// The miss reason, absent on a hit.
    pub miss: Option<OutputMiss>,
    /// Whether same-frame residency requests disagreed on priority.
    pub priority_conflict: bool,
}

/// Result of applying an identity-only keep-alive.
#[derive(Debug, Clone, Copy, PartialEq, Eq, Structural)]
pub struct KeepAliveOutcome {
    /// Whether registry metadata existed for the identity.
    pub found: bool,
    /// Whether same-frame observations disagreed on priority.
    pub priority_conflict: bool,
}

/// Why a rendered target was not committed to its output slot.
#[derive(Debug, Clone, Copy, PartialEq, Eq, Structural)]
pub enum StoreDisposition {
    /// The target and its complete key were committed together.
    Stored,
    /// The output metadata was swept before the store.
    UnknownEntry,
    /// The ticket does not own the slot's active lease.
    TicketMismatch,
    /// The lease belongs to a different rendered frame.
    FrameMismatch,
    /// Another producer contended for the slot while this lease was active.
    CompetingWriter,
    /// The cache request does not describe the leased output slot and stamp.
    RequestMismatch,
    /// Caller-managed content changed while the lease was active.
    ContentChanged,
    /// Rasterization facts changed while the lease was active.
    RasterChanged,
    /// Position-sensitive absolute geometry changed while the lease was active.
    GeometryChanged,
    /// Effect or stack inputs changed while the lease was active.
    EffectInputsChanged,
    /// Recollected effect evidence is volatile.
    VolatileInputs,
}

/// Result of returning or committing a leased target.
pub struct StoreOutcome<T> {
    /// Whether the target was stored and, otherwise, why it was rejected.
    pub disposition: StoreDisposition,
    /// Targets no longer owned by the registry.
    pub released: Vec<T>,
}

impl<T> StoreOutcome<T> {
    /// Returns whether the supplied target was committed.
    pub fn stored(&self) -> (stored: bool)
        ensures
            stored == (self.disposition == StoreDisposition::Stored),
    {
        self.disposition == StoreDisposition::Stored
    }
}

/// Abandoned leases cleared at a rendered-frame boundary.
#[derive(Debug, Clone, Copy, PartialEq, Eq, Structural)]
pub struct RecoveryOutcome {
    /// Number of output leases cleared.
    pub output_leases: usize,
}

/// Active leases found at the end of one rendered frame.
#[derive(Debug, Clone, Copy, PartialEq, Eq, Structural)]
pub struct LeaseAudit {
    /// Number of current-frame output leases still active.
    pub output_leases: usize,
}

/// Entries removed by a liveness sweep.
pub struct SweepOutcome<T> {
    /// Resident targets removed with their metadata.
    pub released: Vec<T>,
    /// Number of output-slot metadata entries removed.
    pub outputs: usize,
}

/// Memory-pressure eviction tier of a retained output.
#[derive(Debug, Clone, Copy, PartialEq, Eq, Structural)]
pub enum EvictionTier {
    /// Ordinary cached output.
    Normal,
    /// Output requested with protected residency priority.
    Protected,
}

/// One target evicted under the renderer-owned byte budget.
pub struct EvictedTarget<T> {
    /// Evicted target ownership.
    pub target: T,
    /// Residency tier used for eviction ordering and diagnostics.
    pub tier: EvictionTier,
}

/// Result of enforcing a retained-target byte limit.
pub struct EvictionOutcome<T> {
    /// Targets evicted in policy order.
    pub evicted: Vec<EvictedTarget<T>>,
    /// Resident bytes after eviction.
    pub remaining_bytes: u64,
}

/// Resident bytes split by priority.
#[derive(Debug, Clone, Copy, PartialEq, Eq, Structural)]
pub struct ResidentBytes {
    /// Normal-priority bytes.
    pub normal: u64,
    /// Protected-priority bytes.
    pub protected: u64,
}

impl ResidentBytes {
    /// Returns all bytes owned by committed retained targets.
    pub fn total(self) -> (bytes: u64)
        ensures
            bytes == saturated((self.normal + self.protected) as nat),
    {
        self.normal.saturating_add(self.protected)
    }
}

/// Bounded-cardinality registry metadata counts.
#[derive(Debug, Clone, Copy, PartialEq, Eq, Structural)]
pub struct MetadataCounts {
    /// Output-slot metadata entries.
    pub outputs: usize,
    /// Slots whose sole committed output is resident.
    pub resident_outputs: usize,
    /// Per-content-identity monotonic watermark records.
    pub watermark_records: usize,
}

/// A byte count, saturated at the largest number that it can hold.
pub open spec fn saturated(bytes: nat) -> u64 {
    if bytes > u64::MAX {
        u64::MAX
    } else {
        bytes as u64
    }
}

/// The byte-size operation needed by the registry.
pub trait OutputTarget {
    /// The target's renderer-owned allocation size.
    spec fn size(&self) -> u64;

    /// Returns the target's renderer-owned allocation size.
    fn output_byte_size(&self) -> (bytes: u64)
        ensures
            bytes == self.size(),
    ;
}

/// How a lease obtained its slot.
#[derive(Debug, Clone, Copy, PartialEq, Eq, Structural)]
pub enum LeaseKind {
    /// The committed target was handed out.
    Hit,
    /// The slot was reserved for a new target.
    Replacement,
}

/// How an incoming stamp relates to what a slot has seen.
#[derive(Debug, Clone, Copy, PartialEq, Eq, Structural)]
pub enum StampDisposition {
    Exact,
    Advanced,
    StructuralChange,
    Stale,
    Incomparable,
}

/// A committed output with its complete signature.
pub ghost struct Committed<T> {
    pub key: Signature,
    pub target: T,
}

/// An access to a slot that has not been returned.
pub ghost struct Active {
    pub ticket: LeaseTicket,
    pub frame: u64,
    pub expected: Signature,
    pub kind: LeaseKind,
    pub contended: bool,
}

/// One output slot.
#[verifier::ext_equal]
pub ghost struct Slot<T> {
    pub committed: Option<Committed<T>>,
    pub active: Option<Active>,
    pub latest_stamp: Stamp,
    pub watermarks: Map<u64, u64>,
    pub priority: CacheResidencyPriority,
    pub priority_frame: u64,
    pub priority_conflict_frame: Option<u64>,
    pub marked_frame: u64,
    pub last_used: u64,
}

/// The greater of two generations, either of which may be missing.
pub open spec fn newer(a: Option<u64>, b: Option<u64>) -> u64 {
    match (a, b) {
        (Some(a), Some(b)) => if a < b {
            b
        } else {
            a
        },
        (Some(a), None) => a,
        (None, Some(b)) => b,
        (None, None) => 0,
    }
}

/// Watermarks raised to the generations that a stamp lists.
pub open spec fn raised(watermarks: Map<u64, u64>, stamp: Stamp) -> Map<u64, u64> {
    Map::new(
        |identity: u64|
            watermarks.contains_key(identity) || stamp.generation_of(identity) is Some,
        |identity: u64|
            newer(
                if watermarks.contains_key(identity) {
                    Some(watermarks[identity])
                } else {
                    None
                },
                stamp.generation_of(identity),
            ),
    )
}

/// Whether `incoming` lists an identity below its watermark.
pub open spec fn regresses(watermarks: Map<u64, u64>, incoming: Stamp) -> bool {
    exists|i: int|
        0 <= i < incoming.revisions.len() && watermarks.contains_key(
            (#[trigger] incoming.revisions[i]).id(),
        ) && incoming.revisions[i].at() < watermarks[incoming.revisions[i].id()]
}

/// Whether `incoming` lists an identity that `latest` does not list or lists at an older
/// generation.
pub open spec fn advances(latest: Stamp, incoming: Stamp) -> bool {
    exists|i: int| 0 <= i < incoming.revisions.len() && is_advance(latest, #[trigger] incoming.revisions[i])
}

/// Whether one observation is missing from a stamp or newer than it.
pub open spec fn is_advance(latest: Stamp, revision: Revision) -> bool {
    match latest.generation_of(revision.id()) {
        Some(generation) => revision.at() > generation,
        None => true,
    }
}

/// How `incoming` relates to the latest accepted stamp and to every generation seen.
pub open spec fn classified(
    latest: Stamp,
    watermarks: Map<u64, u64>,
    incoming: Stamp,
) -> StampDisposition {
    let structural = latest.identities() != incoming.identities();
    let regressed = regresses(watermarks, incoming);
    let advanced = advances(latest, incoming);
    if latest == incoming {
        StampDisposition::Exact
    } else if regressed && (advanced || structural) {
        StampDisposition::Incomparable
    } else if regressed {
        StampDisposition::Stale
    } else if structural {
        StampDisposition::StructuralChange
    } else if advanced {
        StampDisposition::Advanced
    } else {
        StampDisposition::Incomparable
    }
}

impl<T> Slot<T> {
    /// The accepted stamp is usable evidence and lies within the watermarks.
    pub open spec fn wf(self) -> bool {
        &&& self.latest_stamp.normalized()
        &&& self.latest_stamp.usable()
        &&& within(self.latest_stamp, self.watermarks)
    }

    /// Raises the watermarks to the generations of a stamp.
    pub open spec fn observing(self, stamp: Stamp) -> Slot<T> {
        Slot { watermarks: raised(self.watermarks, stamp), ..self }
    }

    /// Accepts a stamp as the latest one.
    pub open spec fn accepting(self, stamp: Stamp) -> Slot<T> {
        Slot { latest_stamp: stamp, ..self.observing(stamp) }
    }

    /// Whether a residency request in this frame disagrees with an earlier one.
    pub open spec fn disagrees(self, priority: CacheResidencyPriority, frame: u64) -> bool {
        self.priority_frame == frame && (self.priority != priority
            || self.priority_conflict_frame == Some(frame))
    }

    /// Marks the slot alive and takes over the priority of this frame.
    ///
    /// The first request of a frame decides; disagreement resolves to normal priority.
    pub open spec fn marked(self, priority: CacheResidencyPriority, frame: u64) -> Slot<T> {
        if self.priority_frame != frame {
            Slot {
                marked_frame: frame,
                priority,
                priority_frame: frame,
                priority_conflict_frame: None,
                ..self
            }
        } else if self.disagrees(priority, frame) {
            Slot {
                marked_frame: frame,
                priority: CacheResidencyPriority::Normal,
                priority_conflict_frame: Some(frame),
                ..self
            }
        } else {
            Slot { marked_frame: frame, ..self }
        }
    }

    /// Hands the slot to one access.
    pub open spec fn leased(
        self,
        ticket: LeaseTicket,
        frame: u64,
        expected: Signature,
        kind: LeaseKind,
    ) -> Slot<T> {
        Slot { active: Some(Active { ticket, frame, expected, kind, contended: false }), ..self }
    }

    /// A new slot, reserved for its first target.
    pub open spec fn fresh(
        stamp: Stamp,
        priority: CacheResidencyPriority,
        key: Signature,
        ticket: LeaseTicket,
        frame: u64,
    ) -> Slot<T> {
        Slot {
            committed: None,
            active: Some(
                Active {
                    ticket,
                    frame,
                    expected: key,
                    kind: LeaseKind::Replacement,
                    contended: false,
                },
            ),
            latest_stamp: stamp,
            watermarks: raised(Map::empty(), stamp),
            priority,
            priority_frame: frame,
            priority_conflict_frame: None,
            marked_frame: frame,
            last_used: frame,
        }
    }
}

/// Whether every generation that a stamp lists lies within the watermarks.
pub open spec fn within(stamp: Stamp, watermarks: Map<u64, u64>) -> bool {
    forall|i: int|
        0 <= i < stamp.revisions.len() ==> watermarks.contains_key(
            (#[trigger] stamp.revisions[i]).id(),
        ) && stamp.revisions[i].at() <= watermarks[stamp.revisions[i].id()]
}

/// Raised watermarks contain the stamp that raised them and all that they contained.
pub proof fn raised_watermarks_contain(watermarks: Map<u64, u64>, stamp: Stamp, earlier: Stamp)
    requires
        stamp.normalized(),
        within(earlier, watermarks),
    ensures
        within(stamp, raised(watermarks, stamp)),
        within(earlier, raised(watermarks, stamp)),
{
    let after = raised(watermarks, stamp);
    assert forall|i: int| 0 <= i < stamp.revisions.len() implies after.contains_key(
        (#[trigger] stamp.revisions[i]).id(),
    ) && stamp.revisions[i].at() <= after[stamp.revisions[i].id()] by {
        lemma_generation_of(stamp, i);
    }
}

/// Watermarks never go down and never forget an identity.
pub proof fn watermarks_are_monotonic(watermarks: Map<u64, u64>, stamp: Stamp, identity: u64)
    requires
        watermarks.contains_key(identity),
    ensures
        raised(watermarks, stamp).contains_key(identity),
        watermarks[identity] <= raised(watermarks, stamp)[identity],
{
}

/// An unequal stamp with the same identities moves some generation: the fail-closed answer
/// for one that moves none is never needed.
pub proof fn unequal_stamps_move(latest: Stamp, watermarks: Map<u64, u64>, incoming: Stamp)
    requires
        latest.normalized(),
        incoming.normalized(),
        latest.conflicted == incoming.conflicted,
        within(latest, watermarks),
        latest != incoming,
        latest.identities() == incoming.identities(),
    ensures
        regresses(watermarks, incoming) || advances(latest, incoming),
        classified(latest, watermarks, incoming) == StampDisposition::Incomparable
            ==> regresses(watermarks, incoming) && advances(latest, incoming),
{
    let a = latest.identities();
    let b = incoming.identities();
    assert(latest.revisions.len() == a.len());
    assert(incoming.revisions.len() == b.len());
    assert(latest.revisions.len() == incoming.revisions.len());
    if forall|i: int| 0 <= i < latest.revisions.len() ==> latest.revisions[i] == incoming.revisions[i] {
        assert(latest.revisions =~= incoming.revisions);
        assert(latest =~= incoming);
    }
    let i = choose|i: int|
        0 <= i < latest.revisions.len() && latest.revisions[i] != incoming.revisions[i];
    let old_revision = latest.revisions[i];
    let new_revision = incoming.revisions[i];
    assert(a[i] == old_revision.id());
    assert(b[i] == new_revision.id());
    lemma_generation_of(latest, i);
    crate::content::revisions_are_determined(old_revision, new_revision);
    if new_revision.at() > old_revision.at() {
        assert(is_advance(latest, incoming.revisions[i]));
    } else {
        assert(watermarks.contains_key(latest.revisions[i].id()));
        assert(incoming.revisions[i].at() < watermarks[incoming.revisions[i].id()]);
    }
}

struct CommittedOutput<T> {
    key: OutputKey,
    target: T,
}

struct ActiveLease {
    ticket: LeaseTicket,
    frame: u64,
    expected: OutputKey,
    kind: LeaseKind,
    contended: bool,
}

struct Entry<T> {
    committed: Option<CommittedOutput<T>>,
    active: Option<ActiveLease>,
    latest_stamp: ContentStamp,
    watermarks: BTreeMap<u64, u64>,
    priority: CacheResidencyPriority,
    priority_frame: u64,
    priority_conflict_frame: Option<u64>,
    marked_frame: u64,
    last_used: u64,
}

impl<T> Entry<T> {
    spec fn slot(self) -> Slot<T> {
        Slot {
            committed: match self.committed {
                Some(output) => Some(Committed { key: output.key@, target: output.target }),
                None => None,
            },
            active: match self.active {
                Some(lease) => Some(
                    Active {
                        ticket: lease.ticket,
                        frame: lease.frame,
                        expected: lease.expected@,
                        kind: lease.kind,
                        contended: lease.contended,
                    },
                ),
                None => None,
            },
            latest_stamp: self.latest_stamp@,
            watermarks: self.watermarks@,
            priority: self.priority,
            priority_frame: self.priority_frame,
            priority_conflict_frame: self.priority_conflict_frame,
            marked_frame: self.marked_frame,
            last_used: self.last_used,
        }
    }

    fn new(request: &CacheRequest, key: OutputKey, ticket: LeaseTicket, frame: u64) -> (entry: Self)
        requires
            request.wf(),
        ensures
            entry.slot() == Slot::<T>::fresh(
                request.evidence(),
                request.residency(),
                key@,
                ticket,
                frame,
            ),
    {
        let mut entry = Entry {
            committed: None,
            active: Some(
                ActiveLease {
                    ticket,
                    frame,
                    expected: key,
                    kind: LeaseKind::Replacement,
                    contended: false,
                },
            ),
            latest_stamp: request.stamp().clone(),
            watermarks: BTreeMap::new(),
            priority: request.priority(),
            priority_frame: frame,
            priority_conflict_frame: None,
            marked_frame: frame,
            last_used: frame,
        };
        entry.observe_watermarks(request.stamp());
        entry
    }

    fn observe_watermarks(&mut self, stamp: &ContentStamp)
        requires
            stamp@.normalized(),
        ensures
            final(self).slot() == old(self).slot().observing(stamp@),
    {
        let revisions = stamp.revisions();
        let ghost before = self.watermarks@;
        let ghost none = prefix(stamp@, 0);
        assert(raised(before, none) =~= before);
        let mut index: usize = 0;
        while index < revisions.len()
            invariant
                index <= revisions@.len(),
                revisions@ == stamp@.revisions,
                stamp@.normalized(),
                self.watermarks@ == raised(before, prefix(stamp@, index as int)),
                self.slot() == (Slot { watermarks: self.watermarks@, ..old(self).slot() }),
            decreases revisions@.len() - index,
        {
            let identity: u64 = revisions[index].identity();
            let generation: u64 = revisions[index].generation();
            let known: Option<u64> = match self.watermarks.get(&identity) {
                Some(known) => Some(*known),
                None => None,
            };
            let newest: u64 = match known {
                Some(known) => if known < generation {
                    generation
                } else {
                    known
                },
                None => generation,
            };
            proof {
                lemma_prefix_generation(stamp@, index as int);
            }
            let _ = self.watermarks.insert(identity, newest);
            assert(self.watermarks@ =~= raised(before, prefix(stamp@, index + 1)));
            index = index + 1;
        }
        assert(prefix(stamp@, stamp@.revisions.len() as int) =~= stamp@);
    }

    fn accept_stamp(&mut self, stamp: &ContentStamp)
        requires
            stamp@.normalized(),
        ensures
            final(self).slot() == old(self).slot().accepting(stamp@),
    {
        self.observe_watermarks(stamp);
        self.latest_stamp = stamp.clone();
    }

    fn observe_priority(&mut self, priority: CacheResidencyPriority, frame: u64) -> (conflict: bool)
        ensures
            final(self).slot() == old(self).slot().marked(priority, frame),
            conflict == old(self).slot().disagrees(priority, frame),
    {
        self.marked_frame = frame;

        if self.priority_frame != frame {
            self.priority = priority;
            self.priority_frame = frame;
            self.priority_conflict_frame = None;
            return false;
        }
        let already = match self.priority_conflict_frame {
            Some(conflicted) => conflicted == frame,
            None => false,
        };
        if self.priority != priority || already {
            self.priority = CacheResidencyPriority::Normal;
            self.priority_conflict_frame = Some(frame);
            true
        } else {
            false
        }
    }
}

spec fn prefix(stamp: Stamp, length: int) -> Stamp {
    Stamp { revisions: stamp.revisions.take(length), conflicted: stamp.conflicted }
}

proof fn lemma_prefix_generation(stamp: Stamp, index: int)
    requires
        stamp.normalized(),
        0 <= index < stamp.revisions.len(),
    ensures
        forall|identity: u64| #[trigger]
            prefix(stamp, index + 1).generation_of(identity) == (if identity
                == stamp.revisions[index].id() {
                Some(stamp.revisions[index].at())
            } else {
                prefix(stamp, index).generation_of(identity)
            }),
        prefix(stamp, index).generation_of(stamp.revisions[index].id()) is None,
{
    let shorter = prefix(stamp, index);
    let longer = prefix(stamp, index + 1);
    let revision = stamp.revisions[index];
    assert(longer.normalized()) by {
        assert forall|i: int, j: int|
            #![trigger longer.revisions[i], longer.revisions[j]]
            0 <= i < j < longer.revisions.len() implies longer.revisions[i].id()
            < longer.revisions[j].id() by {
            assert(stamp.revisions[i].id() < stamp.revisions[j].id());
        }
    }
    assert(shorter.normalized()) by {
        assert forall|i: int, j: int|
            #![trigger shorter.revisions[i], shorter.revisions[j]]
            0 <= i < j < shorter.revisions.len() implies shorter.revisions[i].id()
            < shorter.revisions[j].id() by {
            assert(stamp.revisions[i].id() < stamp.revisions[j].id());
        }
    }
    assert(longer.revisions[index] == revision);
    lemma_generation_of(longer, index);
    assert forall|i: int| 0 <= i < shorter.revisions.len() implies (
    #[trigger] shorter.revisions[i]).id() != revision.id() by {
        assert(stamp.revisions[i].id() < stamp.revisions[index].id());
    }
    assert forall|identity: u64| #[trigger]
        longer.generation_of(identity) == (if identity == revision.id() {
            Some(revision.at())
        } else {
            shorter.generation_of(identity)
        }) by {
        if identity != revision.id() {
            if exists|i: int|
                0 <= i < longer.revisions.len() && (#[trigger] longer.revisions[i]).id()
                    == identity {
                let i = choose|i: int|
                    0 <= i < longer.revisions.len() && (#[trigger] longer.revisions[i]).id()
                        == identity;
                assert(i < index);
                assert(shorter.revisions[i] == longer.revisions[i]);
                lemma_generation_of(shorter, i);
                lemma_generation_of(longer, i);
            } else {
                assert forall|i: int| 0 <= i < shorter.revisions.len() implies (
                #[trigger] shorter.revisions[i]).id() != identity by {
                    assert(longer.revisions[i] == shorter.revisions[i]);
                }
            }
        }
    }
}

fn classify_stamp(
    latest: &ContentStamp,
    watermarks: &BTreeMap<u64, u64>,
    incoming: &ContentStamp,
) -> (disposition: StampDisposition)
    requires
        latest@.normalized(),
        incoming@.normalized(),
    ensures
        disposition == classified(latest@, watermarks@, incoming@),
{
    if *latest == *incoming {
        return StampDisposition::Exact;
    }
    let structural_change = !same_identities(latest, incoming);
    let mut advanced = false;
    let mut regressed = false;
    let revisions = incoming.revisions();
    let mut index: usize = 0;
    while index < revisions.len()
        invariant
            index <= revisions@.len(),
            revisions@ == incoming@.revisions,
            latest@.normalized(),
            regressed == exists|i: int|
                0 <= i < index && watermarks@.contains_key((#[trigger] revisions@[i]).id())
                    && revisions@[i].at() < watermarks@[revisions@[i].id()],
            advanced == exists|i: int|
                0 <= i < index && is_advance(latest@, #[trigger] revisions@[i]),
        decreases revisions@.len() - index,
    {
        let revision = revisions[index];
        match watermarks.get(&revision.identity()) {
            Some(generation) => if revision.generation() < *generation {
                regressed = true;
            },
            None => {},
        }
        match latest.generation_of(revision.identity()) {
            Some(generation) => if revision.generation() > generation {
                advanced = true;
            },
            None => {
                advanced = true;
            },
        }
        assert(revisions@[index as int] == revision);
        index = index + 1;
    }
    if regressed && (advanced || structural_change) {
        StampDisposition::Incomparable
    } else if regressed {
        StampDisposition::Stale
    } else if structural_change {
        StampDisposition::StructuralChange
    } else if advanced {
        StampDisposition::Advanced
    } else {
        // Unequal normalized stamps with equal identity sets and no generation movement
        // do not occur, but failing closed is safer.
        StampDisposition::Incomparable
    }
}

fn same_identities(a: &ContentStamp, b: &ContentStamp) -> (same: bool)
    ensures
        same == (a@.identities() == b@.identities()),
{
    let left = a.revisions();
    let right = b.revisions();
    let ghost v = a@.identities();
    let ghost w = b@.identities();
    if left.len() != right.len() {
        assert(v.len() != w.len());
        return false;
    }
    let mut index: usize = 0;
    while index < left.len()
        invariant
            index <= left@.len(),
            left@.len() == right@.len(),
            left@ == a@.revisions,
            right@ == b@.revisions,
            v == a@.identities(),
            w == b@.identities(),
            forall|i: int| 0 <= i < index ==> v[i] == w[i],
        decreases left@.len() - index,
    {
        if left[index].identity() != right[index].identity() {
            assert(v[index as int] != w[index as int]);
            return false;
        }
        index = index + 1;
    }
    assert(v =~= w);
    true
}

/// Why a committed signature does not serve an incoming one.
pub open spec fn miss_of(mismatch: Option<KeyMismatch>) -> OutputMiss {
    match mismatch {
        None => OutputMiss::Targetless,
        Some(KeyMismatch::Content) => OutputMiss::ContentChanged,
        Some(KeyMismatch::Raster) => OutputMiss::RasterChanged,
        Some(KeyMismatch::Geometry) => OutputMiss::GeometryChanged,
        Some(KeyMismatch::EffectInputs) => OutputMiss::EffectInputsChanged,
    }
}

fn miss_from_key(committed: &OutputKey, incoming: &OutputKey) -> (miss: OutputMiss)
    ensures
        miss == miss_of(committed@.mismatch(incoming@)),
{
    match committed.first_mismatch(incoming) {
        None => OutputMiss::Targetless,
        Some(KeyMismatch::Content) => OutputMiss::ContentChanged,
        Some(KeyMismatch::Raster) => OutputMiss::RasterChanged,
        Some(KeyMismatch::Geometry) => OutputMiss::GeometryChanged,
        Some(KeyMismatch::EffectInputs) => OutputMiss::EffectInputsChanged,
    }
}

/// A lease that grants nothing.
pub open spec fn refused<T>(miss: OutputMiss, priority_conflict: bool) -> OutputLease<T> {
    OutputLease {
        target: None,
        ticket: None,
        valid: false,
        cacheable: false,
        miss: Some(miss),
        priority_conflict,
    }
}

fn rejected_lease<T>(miss: OutputMiss, priority_conflict: bool) -> (lease: OutputLease<T>)
    ensures
        lease == refused::<T>(miss, priority_conflict),
{
    OutputLease {
        target: None,
        ticket: None,
        valid: false,
        cacheable: false,
        miss: Some(miss),
        priority_conflict,
    }
}

/// Everything that the registry holds.
#[verifier::ext_equal]
pub ghost struct Outputs<T> {
    pub slots: Map<u64, Slot<T>>,
    pub next_ticket: u64,
}

/// What a lookup brings to the registry.
pub ghost struct Lookup {
    pub identity: u64,
    pub priority: CacheResidencyPriority,
    pub evidence: Stamp,
    pub current: Stamp,
    pub key: Signature,
    pub frame: u64,
}

impl Lookup {
    /// Why the lookup is turned away before any slot is considered, and what it still
    /// teaches the slot about content.
    pub open spec fn refusal(self) -> Option<(OutputMiss, Option<Stamp>)> {
        if self.evidence.revisions.len() == 0 {
            Some((OutputMiss::MissingContentEvidence, None))
        } else if self.evidence.conflicted {
            Some((OutputMiss::ContentConflict, Some(self.evidence)))
        } else if self.key.evidence.volatile {
            Some((OutputMiss::VolatileInputs, None))
        } else if self.current != self.evidence {
            Some((OutputMiss::ContentChangedBeforeLookup, Some(self.current)))
        } else {
            None
        }
    }
}

/// The registry after a lookup, and the lease that it gave.
pub ghost struct LeaseStep<T> {
    pub outputs: Outputs<T>,
    pub lease: OutputLease<T>,
}

/// A lookup that is turned away marks an existing slot and creates none.
pub open spec fn turning_away<T>(
    outputs: Outputs<T>,
    identity: u64,
    priority: CacheResidencyPriority,
    frame: u64,
    miss: OutputMiss,
    watermark: Option<Stamp>,
) -> LeaseStep<T> {
    if outputs.slots.contains_key(identity) {
        let slot = outputs.slots[identity];
        let taught = match watermark {
            Some(stamp) => slot.observing(stamp),
            None => slot,
        };
        LeaseStep {
            outputs: Outputs {
                slots: outputs.slots.insert(identity, taught.marked(priority, frame)),
                ..outputs
            },
            lease: refused(miss, slot.disagrees(priority, frame)),
        }
    } else {
        LeaseStep { outputs, lease: refused(miss, false) }
    }
}

/// What becomes of an existing slot and what lease a current lookup gets from it.
pub open spec fn slot_leasing<T>(slot: Slot<T>, lookup: Lookup, ticket: LeaseTicket) -> (
    Slot<T>,
    OutputLease<T>,
) {
    let marked = slot.marked(lookup.priority, lookup.frame);
    let conflict = slot.disagrees(lookup.priority, lookup.frame);
    let disposition = classified(slot.latest_stamp, slot.watermarks, lookup.evidence);
    match slot.active {
        Some(active) => (
            Slot {
                active: Some(Active { contended: true, ..active }),
                ..marked.observing(lookup.evidence)
            },
            refused(OutputMiss::CompetingWriter, conflict),
        ),
        None => if disposition == StampDisposition::Stale {
            (marked, refused(OutputMiss::StaleContent, conflict))
        } else if disposition == StampDisposition::Incomparable {
            (
                marked.observing(lookup.evidence),
                refused(OutputMiss::IncomparableContent, conflict),
            )
        } else {
            let accepted = marked.accepting(lookup.evidence);
            match slot.committed {
                Some(output) => if output.key.matching(lookup.key) {
                    (
                        Slot {
                            committed: None,
                            last_used: lookup.frame,
                            ..accepted.leased(ticket, lookup.frame, lookup.key, LeaseKind::Hit)
                        },
                        OutputLease {
                            target: Some(output.target),
                            ticket: Some(ticket),
                            valid: true,
                            cacheable: true,
                            miss: None,
                            priority_conflict: conflict,
                        },
                    )
                } else {
                    (
                        accepted.leased(ticket, lookup.frame, lookup.key, LeaseKind::Replacement),
                        OutputLease {
                            target: None,
                            ticket: Some(ticket),
                            valid: false,
                            cacheable: true,
                            miss: Some(miss_of(output.key.mismatch(lookup.key))),
                            priority_conflict: conflict,
                        },
                    )
                },
                None => (
                    accepted.leased(ticket, lookup.frame, lookup.key, LeaseKind::Replacement),
                    OutputLease {
                        target: None,
                        ticket: Some(ticket),
                        valid: false,
                        cacheable: true,
                        miss: Some(OutputMiss::Targetless),
                        priority_conflict: conflict,
                    },
                ),
            }
        },
    }
}

/// The ticket after `last`; tickets wrap around.
pub open spec fn ticket_after(last: u64) -> LeaseTicket {
    LeaseTicket(if last == u64::MAX {
        0
    } else {
        (last + 1) as u64
    })
}

/// What a lookup does to the registry and what lease it gets.
pub open spec fn leasing<T>(outputs: Outputs<T>, lookup: Lookup) -> LeaseStep<T> {
    let ticket = ticket_after(outputs.next_ticket);
    match lookup.refusal() {
        Some((miss, watermark)) => turning_away(
            outputs,
            lookup.identity,
            lookup.priority,
            lookup.frame,
            miss,
            watermark,
        ),
        None => if outputs.slots.contains_key(lookup.identity) {
            let (slot, lease) = slot_leasing(outputs.slots[lookup.identity], lookup, ticket);
            LeaseStep {
                outputs: Outputs {
                    slots: outputs.slots.insert(lookup.identity, slot),
                    next_ticket: ticket.0,
                },
                lease,
            }
        } else {
            LeaseStep {
                outputs: Outputs {
                    slots: outputs.slots.insert(
                        lookup.identity,
                        Slot::fresh(
                            lookup.evidence,
                            lookup.priority,
                            lookup.key,
                            ticket,
                            lookup.frame,
                        ),
                    ),
                    next_ticket: ticket.0,
                },
                lease: OutputLease {
                    target: None,
                    ticket: Some(ticket),
                    valid: false,
                    cacheable: true,
                    miss: Some(OutputMiss::UnknownIdentity),
                    priority_conflict: false,
                },
            }
        },
    }
}

/// A renderer-local registry containing at most one committed output per surface identity.
pub struct Registry<T: OutputTarget> {
    entries: BTreeMap<u64, Entry<T>>,
    next_ticket: u64,
}

impl<T: OutputTarget> View for Registry<T> {
    type V = Outputs<T>;

    closed spec fn view(&self) -> Outputs<T> {
        Outputs {
            slots: Map::new(
                |identity: u64| self.entries@.contains_key(identity),
                |identity: u64| self.entries@[identity].slot(),
            ),
            next_ticket: self.next_ticket,
        }
    }
}

impl<T> Outputs<T> {
    /// Finitely many slots, each of them well formed.
    pub open spec fn wf(self) -> bool {
        &&& self.slots.dom().finite()
        &&& forall|identity: u64| #[trigger]
            self.slots.contains_key(identity) ==> self.slots[identity].wf()
    }
}

impl<T: OutputTarget> Default for Registry<T> {
    fn default() -> (registry: Self)
        ensures
            registry@ == (Outputs::<T> { slots: Map::empty(), next_ticket: 0 }),
            registry@.wf(),
    {
        Registry::new()
    }
}

impl<T: OutputTarget> Registry<T> {
    /// Creates an empty registry.
    pub fn new() -> (registry: Self)
        ensures
            registry@ == (Outputs::<T> { slots: Map::empty(), next_ticket: 0 }),
            registry@.wf(),
    {
        let registry = Registry { entries: BTreeMap::new(), next_ticket: 0 };
        assert(registry@.slots =~= Map::<u64, Slot<T>>::empty());
        registry
    }

    proof fn lemma_dom(self)
        ensures
            self@.slots.dom() == self.entries@.dom(),
            self@.slots.dom().finite(),
    {
        assert(self@.slots.dom() =~= self.entries@.dom());
    }

    fn take_entry(&mut self, identity: u64) -> (entry: Option<Entry<T>>)
        ensures
            final(self)@.next_ticket == old(self)@.next_ticket,
            match entry {
                Some(entry) => old(self)@.slots.contains_key(identity) && entry.slot() == old(
                    self,
                )@.slots[identity] && final(self)@.slots == old(self)@.slots.remove(identity),
                None => !old(self)@.slots.contains_key(identity) && final(self)@ == old(self)@,
            },
    {
        let entry = self.entries.remove(&identity);
        proof {
            match entry {
                Some(_) => {
                    assert(self@.slots =~= old(self)@.slots.remove(identity));
                },
                None => {
                    assert(self@.slots =~= old(self)@.slots);
                },
            }
        }
        entry
    }

    fn put_entry(&mut self, identity: u64, entry: Entry<T>)
        ensures
            final(self)@ == (Outputs {
                slots: old(self)@.slots.insert(identity, entry.slot()),
                next_ticket: old(self)@.next_ticket,
            }),
    {
        let _ = self.entries.insert(identity, entry);
        assert(self@.slots =~= old(self)@.slots.insert(identity, entry.slot()));
    }

    fn issue_ticket(&mut self) -> (ticket: LeaseTicket)
        ensures
            ticket == ticket_after(old(self)@.next_ticket),
            final(self)@ == (Outputs { next_ticket: ticket.0, ..old(self)@ }),
    {
        self.next_ticket = self.next_ticket.wrapping_add(1);
        assert(self@.slots =~= old(self)@.slots);
        LeaseTicket(self.next_ticket)
    }

    fn rejected_lookup(
        &mut self,
        identity: u64,
        priority: CacheResidencyPriority,
        frame: u64,
        miss: OutputMiss,
        watermark: Option<&ContentStamp>,
    ) -> (lease: OutputLease<T>)
        requires
            old(self)@.wf(),
            watermark matches Some(stamp) ==> stamp@.normalized(),
        ensures
            final(self)@.wf(),
            (LeaseStep { outputs: final(self)@, lease }) == turning_away(
                old(self)@,
                identity,
                priority,
                frame,
                miss,
                match watermark {
                    Some(stamp) => Some(stamp@),
                    None => None,
                },
            ),
    {
        let ghost before = self@;
        match self.take_entry(identity) {
            Some(mut entry) => {
                let ghost slot = entry.slot();
                if let Some(stamp) = watermark {
                    entry.observe_watermarks(stamp);
                    proof {
                        raised_watermarks_contain(
                            slot.watermarks,
                            stamp@,
                            slot.latest_stamp,
                        );
                    }
                }
                let priority_conflict = entry.observe_priority(priority, frame);
                self.put_entry(identity, entry);
                assert(self@.slots =~= before.slots.insert(identity, entry.slot()));
                rejected_lease(miss, priority_conflict)
            },
            None => rejected_lease(miss, false),
        }
    }

    /// Marks an existing output identity alive without changing its key.
    ///
    /// Keep-alives never create registry metadata and never provide validity evidence.
    /// Same-frame priority disagreement deterministically resolves to normal priority.
    pub fn keep_alive(&mut self, keep_alive: &CacheKeepAlive, frame: u64) -> (outcome:
        KeepAliveOutcome)
        requires
            old(self)@.wf(),
        ensures
            final(self)@.wf(),
            final(self)@ == kept_alive(old(self)@, *keep_alive, frame),
            outcome == (KeepAliveOutcome {
                found: old(self)@.slots.contains_key(keep_alive.slot()),
                priority_conflict: old(self)@.slots.contains_key(keep_alive.slot()) && old(
                    self,
                )@.slots[keep_alive.slot()].disagrees(keep_alive.residency(), frame),
            }),
    {
        let ghost before = self@;
        let identity: u64 = keep_alive.identity();
        match self.take_entry(identity) {
            Some(mut entry) => {
                let priority_conflict = entry.observe_priority(keep_alive.priority(), frame);
                self.put_entry(identity, entry);
                assert(self@.slots =~= before.slots.insert(identity, entry.slot()));
                KeepAliveOutcome { found: true, priority_conflict }
            },
            None => KeepAliveOutcome { found: false, priority_conflict: false },
        }
    }

    /// Leases the sole committed output or reserves the slot for replacement, given what
    /// was observed of the request's content.
    pub fn lease_observed(
        &mut self,
        request: &CacheRequest,
        key: OutputKey,
        frame: u64,
        current: &ContentStamp,
    ) -> (lease: OutputLease<T>)
        requires
            old(self)@.wf(),
            request.wf(),
            current@.normalized(),
        ensures
            final(self)@.wf(),
            (LeaseStep { outputs: final(self)@, lease }) == leasing(
                old(self)@,
                lookup_of(*request, key@, frame, current@),
            ),
    {
        let ghost before = self@;
        let ghost signature = key@;
        let identity: u64 = request.identity();

        if !request.has_content_evidence() {
            return self.rejected_lookup(
                identity,
                request.priority(),
                frame,
                OutputMiss::MissingContentEvidence,
                None,
            );
        }
        if request.is_conflicted() {
            return self.rejected_lookup(
                identity,
                request.priority(),
                frame,
                OutputMiss::ContentConflict,
                Some(request.stamp()),
            );
        }
        if key.is_volatile() {
            return self.rejected_lookup(
                identity,
                request.priority(),
                frame,
                OutputMiss::VolatileInputs,
                None,
            );
        }
        if !request.is_current_at(current) {
            return self.rejected_lookup(
                identity,
                request.priority(),
                frame,
                OutputMiss::ContentChangedBeforeLookup,
                Some(current),
            );
        }
        let ticket = self.issue_ticket();
        proof {
            assert(self@.slots == before.slots);
        }
        match self.take_entry(identity) {
            Some(mut entry) => {
                let ghost slot = entry.slot();
                proof {
                    raised_watermarks_contain(
                        slot.watermarks,
                        request.evidence(),
                        slot.latest_stamp,
                    );
                }
                let priority_conflict = entry.observe_priority(request.priority(), frame);
                let lease = match entry.active.take() {
                    Some(active) => {
                        entry.active = Some(ActiveLease { contended: true, ..active });
                        entry.observe_watermarks(request.stamp());
                        rejected_lease(OutputMiss::CompetingWriter, priority_conflict)
                    },
                    None => {
                        match classify_stamp(
                            &entry.latest_stamp,
                            &entry.watermarks,
                            request.stamp(),
                        ) {
                            StampDisposition::Stale => rejected_lease(
                                OutputMiss::StaleContent,
                                priority_conflict,
                            ),
                            StampDisposition::Incomparable => {
                                entry.observe_watermarks(request.stamp());
                                rejected_lease(OutputMiss::IncomparableContent, priority_conflict)
                            },
                            _ => {
                                entry.accept_stamp(request.stamp());
                                match entry.committed.take() {
                                    Some(committed) => {
                                        if committed.key.matches(&key) {
                                            entry.active = Some(
                                                ActiveLease {
                                                    ticket,
                                                    frame,
                                                    expected: key,
                                                    kind: LeaseKind::Hit,
                                                    contended: false,
                                                },
                                            );
                                            entry.last_used = frame;
                                            OutputLease {
                                                target: Some(committed.target),
                                                ticket: Some(ticket),
                                                valid: true,
                                                cacheable: true,
                                                miss: None,
                                                priority_conflict,
                                            }
                                        } else {
                                            let miss = miss_from_key(&committed.key, &key);
                                            entry.committed = Some(committed);
                                            entry.active = Some(
                                                ActiveLease {
                                                    ticket,
                                                    frame,
                                                    expected: key,
                                                    kind: LeaseKind::Replacement,
                                                    contended: false,
                                                },
                                            );
                                            OutputLease {
                                                target: None,
                                                ticket: Some(ticket),
                                                valid: false,
                                                cacheable: true,
                                                miss: Some(miss),
                                                priority_conflict,
                                            }
                                        }
                                    },
                                    None => {
                                        entry.active = Some(
                                            ActiveLease {
                                                ticket,
                                                frame,
                                                expected: key,
                                                kind: LeaseKind::Replacement,
                                                contended: false,
                                            },
                                        );
                                        OutputLease {
                                            target: None,
                                            ticket: Some(ticket),
                                            valid: false,
                                            cacheable: true,
                                            miss: Some(OutputMiss::Targetless),
                                            priority_conflict,
                                        }
                                    },
                                }
                            },
                        }
                    },
                };
                self.put_entry(identity, entry);
                proof {
                    let lookup = lookup_of(*request, signature, frame, current@);
                    assert(entry.slot() == slot_leasing(slot, lookup, ticket).0);
                    assert(lease == slot_leasing(slot, lookup, ticket).1);
                    assert(self@.slots =~= before.slots.insert(identity, entry.slot()));
                }
                lease
            },
            None => {
                let entry = Entry::new(request, key, ticket, frame);
                proof {
                    raised_watermarks_contain(
                        Map::empty(),
                        request.evidence(),
                        (Stamp { revisions: Seq::empty(), conflicted: false }),
                    );
                }
                self.put_entry(identity, entry);
                OutputLease {
                    target: None,
                    ticket: Some(ticket),
                    valid: false,
                    cacheable: true,
                    miss: Some(OutputMiss::UnknownIdentity),
                    priority_conflict: false,
                }
            },
        }
    }

    /// Leases the sole committed output or reserves the slot for replacement.
    pub fn lease_output(&mut self, request: &CacheRequest, key: OutputKey, frame: u64) -> (lease:
        OutputLease<T>)
        requires
            old(self)@.wf(),
            request.wf(),
        ensures
            final(self)@.wf(),
            exists|current: Stamp| #[trigger]
                request.has_observed(current) && (LeaseStep { outputs: final(self)@, lease })
                    == leasing(old(self)@, lookup_of(*request, key@, frame, current)),
    {
        let current = request.current_stamp();
        self.lease_observed(request, key, frame, &current)
    }
}

/// What a request and a key bring to the registry, given what was observed.
pub open spec fn lookup_of(
    request: CacheRequest,
    key: Signature,
    frame: u64,
    current: Stamp,
) -> Lookup {
    Lookup {
        identity: request.slot(),
        priority: request.residency(),
        evidence: request.evidence(),
        current,
        key,
        frame,
    }
}

/// The registry after a keep-alive.
pub open spec fn kept_alive<T>(
    outputs: Outputs<T>,
    keep_alive: CacheKeepAlive,
    frame: u64,
) -> Outputs<T> {
    if outputs.slots.contains_key(keep_alive.slot()) {
        Outputs {
            slots: outputs.slots.insert(
                keep_alive.slot(),
                outputs.slots[keep_alive.slot()].marked(keep_alive.residency(), frame),
            ),
            ..outputs
        }
    } else {
        outputs
    }
}

/// What a store brings to the registry.
pub ghost struct Submission<T> {
    pub ticket: LeaseTicket,
    pub identity: u64,
    pub evidence: Stamp,
    pub current: Stamp,
    pub fresh_key: Signature,
    pub frame: u64,
    pub target: T,
}

/// The registry after a store, what became of the target, and what was released.
pub ghost struct StoreStep<T> {
    pub outputs: Outputs<T>,
    pub disposition: StoreDisposition,
    pub released: Seq<T>,
}

/// Why a mismatch between the leased and the rendered signature turns a target away.
pub open spec fn disposition_of(mismatch: Option<KeyMismatch>) -> StoreDisposition {
    match mismatch {
        None => StoreDisposition::Stored,
        Some(KeyMismatch::Content) => StoreDisposition::ContentChanged,
        Some(KeyMismatch::Raster) => StoreDisposition::RasterChanged,
        Some(KeyMismatch::Geometry) => StoreDisposition::GeometryChanged,
        Some(KeyMismatch::EffectInputs) => StoreDisposition::EffectInputsChanged,
    }
}

/// What becomes of a target whose ticket owns the slot.
pub open spec fn judged<T>(active: Active, submission: Submission<T>) -> StoreDisposition {
    let evidence = submission.evidence;
    if active.contended {
        StoreDisposition::CompetingWriter
    } else if active.frame != submission.frame {
        StoreDisposition::FrameMismatch
    } else if !evidence.usable() || active.expected.content != evidence
        || submission.fresh_key.content != evidence {
        StoreDisposition::RequestMismatch
    } else if submission.current != evidence {
        StoreDisposition::ContentChanged
    } else if submission.fresh_key.evidence.volatile {
        StoreDisposition::VolatileInputs
    } else {
        disposition_of(active.expected.mismatch(submission.fresh_key))
    }
}

/// Whether the store noticed that the content itself had moved on.
pub open spec fn content_moved<T>(active: Active, submission: Submission<T>) -> bool {
    judged(active, submission) == StoreDisposition::ContentChanged && submission.current
        != submission.evidence
}

/// The slot after a store by the owner of its active lease, and what is released.
///
/// A committed target displaces the old one. A target that is turned away leaves the old
/// one in place; one that had been handed out on a hit goes back under its own key.
pub open spec fn slot_storing<T>(slot: Slot<T>, active: Active, submission: Submission<T>) -> (
    Slot<T>,
    Seq<T>,
) {
    let open = Slot { active: None, ..slot };
    if judged(active, submission) == StoreDisposition::Stored {
        (
            Slot {
                committed: Some(
                    Committed { key: submission.fresh_key, target: submission.target },
                ),
                last_used: submission.frame,
                ..open.accepting(submission.evidence)
            },
            match slot.committed {
                Some(replaced) => seq![replaced.target],
                None => Seq::empty(),
            },
        )
    } else {
        let taught = if content_moved(active, submission) {
            open.observing(submission.current)
        } else {
            open
        };
        if active.kind == LeaseKind::Hit && slot.committed is None {
            (
                Slot {
                    committed: Some(
                        Committed { key: active.expected, target: submission.target },
                    ),
                    ..taught
                },
                Seq::empty(),
            )
        } else {
            (taught, seq![submission.target])
        }
    }
}

/// What a store does to the registry.
pub open spec fn storing<T>(outputs: Outputs<T>, submission: Submission<T>) -> StoreStep<T> {
    if !outputs.slots.contains_key(submission.identity) {
        StoreStep {
            outputs,
            disposition: StoreDisposition::UnknownEntry,
            released: seq![submission.target],
        }
    } else {
        let slot = outputs.slots[submission.identity];
        match slot.active {
            Some(active) => if active.ticket == submission.ticket {
                let (after, released) = slot_storing(slot, active, submission);
                StoreStep {
                    outputs: Outputs {
                        slots: outputs.slots.insert(submission.identity, after),
                        ..outputs
                    },
                    disposition: judged(active, submission),
                    released,
                }
            } else {
                StoreStep {
                    outputs,
                    disposition: StoreDisposition::TicketMismatch,
                    released: seq![submission.target],
                }
            },
            None => StoreStep {
                outputs,
                disposition: StoreDisposition::TicketMismatch,
                released: seq![submission.target],
            },
        }
    }
}

fn rejected_store<T>(disposition: StoreDisposition, target: T) -> (outcome: StoreOutcome<T>)
    ensures
        outcome.disposition == disposition,
        outcome.released@ == seq![target],
{
    let mut released: Vec<T> = Vec::new();
    released.push(target);
    assert(released@ =~= seq![target]);
    StoreOutcome { disposition, released }
}

/// What a ticket, a request, a recollected key and a target bring to the registry, given
/// what was observed.
pub open spec fn submission_of<T>(
    ticket: LeaseTicket,
    request: CacheRequest,
    fresh_key: Signature,
    frame: u64,
    target: T,
    current: Stamp,
) -> Submission<T> {
    Submission {
        ticket,
        identity: request.slot(),
        evidence: request.evidence(),
        current,
        fresh_key,
        frame,
        target,
    }
}

impl<T: OutputTarget> Registry<T> {
    /// Atomically commits a freshly validated output key and target, given what was
    /// observed of the request's content.
    ///
    /// `fresh_key` must be recollected after rendering. Both caller-managed content
    /// generations and exact effect evidence are checked again before a replacement can
    /// displace the old committed output.
    pub fn store_observed(
        &mut self,
        ticket: LeaseTicket,
        request: &CacheRequest,
        fresh_key: OutputKey,
        frame: u64,
        target: T,
        current: &ContentStamp,
    ) -> (outcome: StoreOutcome<T>)
        requires
            old(self)@.wf(),
            request.wf(),
            request.may_observe(current@),
        ensures
            final(self)@.wf(),
            (StoreStep {
                outputs: final(self)@,
                disposition: outcome.disposition,
                released: outcome.released@,
            }) == storing(
                old(self)@,
                submission_of(ticket, *request, fresh_key@, frame, target, current@),
            ),
    {
        let ghost before = self@;
        let ghost submission = submission_of(
            ticket,
            *request,
            fresh_key@,
            frame,
            target,
            current@,
        );
        let identity: u64 = request.identity();
        let mut entry = match self.take_entry(identity) {
            Some(entry) => entry,
            None => return rejected_store(StoreDisposition::UnknownEntry, target),
        };
        let ghost slot = entry.slot();
        let owned = match &entry.active {
            Some(active) => active.ticket == ticket,
            None => false,
        };
        if !owned {
            self.put_entry(identity, entry);
            assert(self@.slots =~= before.slots);
            return rejected_store(StoreDisposition::TicketMismatch, target);
        }
        let active = entry.active.take().unwrap();
        let ghost lease = slot.active->0;
        proof {
            raised_watermarks_contain(slot.watermarks, current@, slot.latest_stamp);
            raised_watermarks_contain(slot.watermarks, request.evidence(), slot.latest_stamp);
            lemma_same_identities_same_length(request.evidence(), current@);
        }
        let disposition = if active.contended {
            StoreDisposition::CompetingWriter
        } else if active.frame != frame {
            StoreDisposition::FrameMismatch
        } else if !request.has_content_evidence() || request.is_conflicted()
            || *active.expected.content() != *request.stamp() || *fresh_key.content()
            != *request.stamp() {
            StoreDisposition::RequestMismatch
        } else if *current != *request.stamp() || current.is_conflicted() || current.is_empty() {
            entry.observe_watermarks(current);
            StoreDisposition::ContentChanged
        } else if fresh_key.is_volatile() {
            StoreDisposition::VolatileInputs
        } else {
            match active.expected.first_mismatch(&fresh_key) {
                None => StoreDisposition::Stored,
                Some(KeyMismatch::Content) => StoreDisposition::ContentChanged,
                Some(KeyMismatch::Raster) => StoreDisposition::RasterChanged,
                Some(KeyMismatch::Geometry) => StoreDisposition::GeometryChanged,
                Some(KeyMismatch::EffectInputs) => StoreDisposition::EffectInputsChanged,
            }
        };
        assert(disposition == judged(lease, submission));
        let mut released: Vec<T> = Vec::new();
        if disposition == StoreDisposition::Stored {
            entry.accept_stamp(request.stamp());
            entry.last_used = frame;
            match entry.committed.take() {
                Some(replaced) => {
                    released.push(replaced.target);
                },
                None => {},
            }
            entry.committed = Some(CommittedOutput { key: fresh_key, target });
        } else if active.kind == LeaseKind::Hit && entry.committed.is_none() {
            entry.committed = Some(CommittedOutput { key: active.expected, target });
        } else {
            released.push(target);
        }
        self.put_entry(identity, entry);
        proof {
            assert(entry.slot() == slot_storing(slot, lease, submission).0);
            assert(released@ =~= slot_storing(slot, lease, submission).1);
            assert(self@.slots =~= before.slots.insert(identity, entry.slot()));
        }
        StoreOutcome { disposition, released }
    }

    /// Atomically commits a freshly validated output key and target.
    pub fn store_output(
        &mut self,
        ticket: LeaseTicket,
        request: &CacheRequest,
        fresh_key: OutputKey,
        frame: u64,
        target: T,
    ) -> (outcome: StoreOutcome<T>)
        requires
            old(self)@.wf(),
            request.wf(),
        ensures
            final(self)@.wf(),
            exists|current: Stamp| #[trigger]
                request.has_observed(current) && (StoreStep {
                    outputs: final(self)@,
                    disposition: outcome.disposition,
                    released: outcome.released@,
                }) == storing(
                    old(self)@,
                    submission_of(ticket, *request, fresh_key@, frame, target, current),
                ),
    {
        let current = request.current_stamp();
        self.store_observed(ticket, request, fresh_key, frame, target, &current)
    }
}

proof fn lemma_same_identities_same_length(a: Stamp, b: Stamp)
    requires
        a.identities() == b.identities(),
    ensures
        a.revisions.len() == b.revisions.len(),
{
    assert(a.identities().len() == a.revisions.len());
    assert(b.identities().len() == b.revisions.len());
}

/// How many of the listed identities have a property.
pub open spec fn count(identities: Seq<u64>, has: spec_fn(u64) -> bool) -> nat
    decreases identities.len(),
{
    if identities.len() == 0 {
        0
    } else if has(identities.last()) {
        count(identities.drop_last(), has) + 1
    } else {
        count(identities.drop_last(), has)
    }
}

proof fn lemma_count_bound(identities: Seq<u64>, has: spec_fn(u64) -> bool)
    ensures
        count(identities, has) <= identities.len(),
    decreases identities.len(),
{
    if identities.len() > 0 {
        lemma_count_bound(identities.drop_last(), has);
    }
}

proof fn lemma_take_next(identities: Seq<u64>, i: int)
    requires
        0 <= i < identities.len(),
    ensures
        identities.take(i + 1).drop_last() == identities.take(i),
        identities.take(i + 1).last() == identities[i],
{
    assert(identities.take(i + 1).drop_last() =~= identities.take(i));
}

/// Frames that have passed since `since`; frame numbers wrap around.
pub open spec fn elapsed(frame: u64, since: u64) -> int {
    if frame >= since {
        frame - since
    } else {
        frame - since + 0x1_0000_0000_0000_0000
    }
}

impl<T> Slot<T> {
    /// Whether the slot is leased in a frame other than `frame`.
    pub open spec fn abandoned(self, frame: u64) -> bool {
        self.active matches Some(active) && active.frame != frame
    }

    /// Whether the slot is leased in `frame`.
    pub open spec fn leased_in(self, frame: u64) -> bool {
        self.active matches Some(active) && active.frame == frame
    }

    /// The slot without an abandoned lease.
    pub open spec fn recovered(self, frame: u64) -> Slot<T> {
        if self.abandoned(frame) {
            Slot { active: None, ..self }
        } else {
            self
        }
    }

    /// Whether the slot is free and has not been marked within the grace period.
    pub open spec fn expired(self, frame: u64, grace: u64) -> bool {
        self.active is None && elapsed(frame, self.marked_frame) > grace
    }
}

impl<T> Outputs<T> {
    /// The identities that have a slot, in increasing order.
    pub open spec fn identities(self) -> Seq<u64> {
        in_order(self.slots.dom())
    }

    /// The registry without abandoned leases.
    pub open spec fn recovered(self, frame: u64) -> Outputs<T> {
        Outputs {
            slots: Map::new(
                |identity: u64| self.slots.contains_key(identity),
                |identity: u64| self.slots[identity].recovered(frame),
            ),
            ..self
        }
    }

    /// The registry without expired slots.
    pub open spec fn swept(self, frame: u64, grace: u64) -> Outputs<T> {
        Outputs {
            slots: Map::new(
                |identity: u64|
                    self.slots.contains_key(identity) && !self.slots[identity].expired(
                        frame,
                        grace,
                    ),
                |identity: u64| self.slots[identity],
            ),
            ..self
        }
    }

    /// The targets of expired slots among the listed ones, in order.
    pub open spec fn swept_targets(self, identities: Seq<u64>, frame: u64, grace: u64) -> Seq<T>
        decreases identities.len(),
    {
        if identities.len() == 0 {
            Seq::empty()
        } else {
            let before = self.swept_targets(identities.drop_last(), frame, grace);
            let slot = self.slots[identities.last()];
            match slot.committed {
                Some(output) => if slot.expired(frame, grace) {
                    before.push(output.target)
                } else {
                    before
                },
                None => before,
            }
        }
    }
}

impl<T: OutputTarget> Outputs<T> {
    /// Bytes of the committed target of one slot, if it has the priority.
    pub open spec fn slot_bytes(self, identity: u64, priority: CacheResidencyPriority) -> nat {
        match self.slots[identity].committed {
            Some(output) => if self.slots[identity].priority == priority {
                output.target.size() as nat
            } else {
                0
            },
            None => 0,
        }
    }

    /// Bytes of the committed targets of the listed slots with one priority.
    pub open spec fn priority_bytes(
        self,
        identities: Seq<u64>,
        priority: CacheResidencyPriority,
    ) -> nat
        decreases identities.len(),
    {
        if identities.len() == 0 {
            0
        } else {
            self.priority_bytes(identities.drop_last(), priority) + self.slot_bytes(
                identities.last(),
                priority,
            )
        }
    }

    /// Bytes of the committed targets with one priority.
    pub open spec fn resident(self, priority: CacheResidencyPriority) -> nat {
        self.priority_bytes(self.identities(), priority)
    }

    /// Bytes of all committed targets.
    pub open spec fn total(self) -> nat {
        self.resident(CacheResidencyPriority::Normal) + self.resident(
            CacheResidencyPriority::Protected,
        )
    }

    /// Watermark records of the listed slots.
    pub open spec fn watermark_records(self, identities: Seq<u64>) -> nat
        decreases identities.len(),
    {
        if identities.len() == 0 {
            0
        } else {
            self.watermark_records(identities.drop_last())
                + self.slots[identities.last()].watermarks.len()
        }
    }
}

impl<T: OutputTarget> Registry<T> {
    fn identities(&self) -> (identities: Vec<u64>)
        ensures
            identities@ == self@.identities(),
            enumerates(identities@, self@.slots.dom()),
            identities@.len() == self@.slots.dom().len(),
    {
        proof {
            self.lemma_dom();
        }
        keys_of(&self.entries)
    }

    /// Clears leases left active by an earlier rendered frame.
    pub fn recover_abandoned(&mut self, frame: u64) -> (outcome: RecoveryOutcome)
        requires
            old(self)@.wf(),
        ensures
            final(self)@.wf(),
            final(self)@ == old(self)@.recovered(frame),
            outcome.output_leases == count(
                old(self)@.identities(),
                |identity: u64| old(self)@.slots[identity].abandoned(frame),
            ),
    {
        let identities = self.identities();
        let ghost before = self@;
        let ghost all = identities@;
        let ghost has = |identity: u64| before.slots[identity].abandoned(frame);
        let mut output_leases: usize = 0;
        let mut index: usize = 0;
        while index < identities.len()
            invariant
                index <= identities@.len(),
                all == identities@,
                before == old(self)@,
                enumerates(all, before.slots.dom()),
                has == (|identity: u64| before.slots[identity].abandoned(frame)),
                self@.next_ticket == before.next_ticket,
                self@.slots.dom() == before.slots.dom(),
                forall|i: int|
                    0 <= i < index ==> self@.slots[#[trigger] all[i]]
                        == before.slots[all[i]].recovered(frame),
                forall|i: int|
                    index <= i < all.len() ==> self@.slots[#[trigger] all[i]]
                        == before.slots[all[i]],
                output_leases == count(all.take(index as int), has),
                output_leases <= index,
            decreases identities@.len() - index,
        {
            let identity: u64 = identities[index];
            proof {
                assert(all.contains(all[index as int]));
                lemma_take_next(all, index as int);
            }
            let mut entry = self.take_entry(identity).unwrap();
            let abandoned = match &entry.active {
                Some(active) => active.frame != frame,
                None => false,
            };
            if abandoned {
                entry.active = None;
                output_leases = output_leases + 1;
            }
            self.put_entry(identity, entry);
            proof {
                assert(has(identity) == before.slots[identity].abandoned(frame));
                assert(self@.slots.dom() =~= before.slots.dom());
                assert forall|i: int| 0 <= i < all.len() && i != index implies
                    #[trigger] all[i] != identity by {
                    if i < index {
                        assert(all[i] < all[index as int]);
                    } else {
                        assert(all[index as int] < all[i]);
                    }
                }
            }
            index = index + 1;
        }
        proof {
            assert(all.take(all.len() as int) =~= all);
            assert forall|identity: u64| #[trigger] self@.slots.contains_key(identity) implies
                self@.slots[identity] == before.slots[identity].recovered(frame) by {
                assert(all.contains(identity));
                let i = choose|i: int| 0 <= i < all.len() && all[i] == identity;
                assert(self@.slots[all[i]] == before.slots[all[i]].recovered(frame));
            }
            assert(self@.slots =~= before.recovered(frame).slots);
            assert(has =~= (|identity: u64| old(self)@.slots[identity].abandoned(frame)));
        }
        RecoveryOutcome { output_leases }
    }

    /// Counts current-frame leases which were not returned.
    pub fn finish_frame(&self, frame: u64) -> (audit: LeaseAudit)
        requires
            self@.wf(),
        ensures
            audit.output_leases == count(
                self@.identities(),
                |identity: u64| self@.slots[identity].leased_in(frame),
            ),
    {
        let identities = self.identities();
        let ghost all = identities@;
        let ghost has = |identity: u64| self@.slots[identity].leased_in(frame);
        let mut output_leases: usize = 0;
        let mut index: usize = 0;
        while index < identities.len()
            invariant
                index <= identities@.len(),
                all == identities@,
                enumerates(all, self@.slots.dom()),
                has == (|identity: u64| self@.slots[identity].leased_in(frame)),
                output_leases == count(all.take(index as int), has),
                output_leases <= index,
            decreases identities@.len() - index,
        {
            let identity: u64 = identities[index];
            proof {
                assert(all.contains(all[index as int]));
                lemma_take_next(all, index as int);
                assert(has(identity) == self@.slots[identity].leased_in(frame));
            }
            match self.entries.get(&identity) {
                Some(entry) => {
                    match &entry.active {
                        Some(active) => if active.frame == frame {
                            output_leases = output_leases + 1;
                        },
                        None => {},
                    }
                },
                None => {},
            }
            index = index + 1;
        }
        assert(all.take(all.len() as int) =~= all);
        LeaseAudit { output_leases }
    }

    /// Removes identities not marked within the configured grace period.
    pub fn sweep(&mut self, frame: u64, grace: u64) -> (outcome: SweepOutcome<T>)
        requires
            old(self)@.wf(),
        ensures
            final(self)@.wf(),
            final(self)@ == old(self)@.swept(frame, grace),
            outcome.released@ == old(self)@.swept_targets(
                old(self)@.identities(),
                frame,
                grace,
            ),
            outcome.outputs == count(
                old(self)@.identities(),
                |identity: u64| old(self)@.slots[identity].expired(frame, grace),
            ),
    {
        let identities = self.identities();
        let ghost before = self@;
        let ghost all = identities@;
        let ghost has = |identity: u64| before.slots[identity].expired(frame, grace);
        let mut released: Vec<T> = Vec::new();
        let mut outputs: usize = 0;
        let mut index: usize = 0;
        assert forall|i: int| 0 <= i < all.len() implies before.slots.contains_key(
            #[trigger] all[i],
        ) by {
            assert(all.contains(all[i]));
        }
        while index < identities.len()
            invariant
                index <= identities@.len(),
                all == identities@,
                before == old(self)@,
                enumerates(all, before.slots.dom()),
                has == (|identity: u64| before.slots[identity].expired(frame, grace)),
                self@.next_ticket == before.next_ticket,
                forall|i: int|
                    0 <= i < index ==> (self@.slots.contains_key(#[trigger] all[i])
                        <==> !before.slots[all[i]].expired(frame, grace)),
                forall|i: int|
                    index <= i < all.len() ==> self@.slots.contains_key(#[trigger] all[i]),
                forall|identity: u64| #[trigger]
                    self@.slots.contains_key(identity) ==> before.slots.contains_key(identity)
                        && self@.slots[identity] == before.slots[identity],
                released@ == before.swept_targets(all.take(index as int), frame, grace),
                outputs == count(all.take(index as int), has),
                outputs <= index,
            decreases identities@.len() - index,
        {
            let identity: u64 = identities[index];
            let ghost held = self@.slots;
            proof {
                assert(all.contains(all[index as int]));
                lemma_take_next(all, index as int);
                assert(has(identity) == before.slots[identity].expired(frame, grace));
                assert forall|i: int| 0 <= i < all.len() && i != index implies
                    #[trigger] all[i] != identity by {
                    if i < index {
                        assert(all[i] < all[index as int]);
                    } else {
                        assert(all[index as int] < all[i]);
                    }
                }
                assert(held.contains_key(all[index as int]));
            }
            let entry = self.take_entry(identity).unwrap();
            let remove = entry.active.is_none() && frame.wrapping_sub(entry.marked_frame) > grace;
            if remove {
                outputs = outputs + 1;
                match entry.committed {
                    Some(committed) => {
                        released.push(committed.target);
                    },
                    None => {},
                }
                assert(self@.slots == held.remove(identity));
            } else {
                self.put_entry(identity, entry);
                assert(self@.slots =~= held);
            }
            index = index + 1;
        }
        proof {
            assert(all.take(all.len() as int) =~= all);
            assert forall|identity: u64| #[trigger] self@.slots.contains_key(identity) <==> before.swept(
                frame,
                grace,
            ).slots.contains_key(identity) by {
                if before.slots.contains_key(identity) {
                    assert(all.contains(identity));
                    let i = choose|i: int| 0 <= i < all.len() && all[i] == identity;
                    assert(self@.slots.contains_key(all[i]) <==> !before.slots[all[i]].expired(
                        frame,
                        grace,
                    ));
                }
            }
            assert(self@.slots =~= before.swept(frame, grace).slots);
            self.lemma_dom();
        }
        SweepOutcome { released, outputs }
    }

    /// Returns resident bytes split by current output priority.
    pub fn resident_bytes(&self) -> (bytes: ResidentBytes)
        requires
            self@.wf(),
        ensures
            bytes.normal == saturated(self@.resident(CacheResidencyPriority::Normal)),
            bytes.protected == saturated(self@.resident(CacheResidencyPriority::Protected)),
    {
        let identities = self.identities();
        let ghost all = identities@;
        let mut bytes = ResidentBytes { normal: 0, protected: 0 };
        let mut index: usize = 0;
        while index < identities.len()
            invariant
                index <= identities@.len(),
                all == identities@,
                enumerates(all, self@.slots.dom()),
                bytes.normal == saturated(
                    self@.priority_bytes(
                        all.take(index as int),
                        CacheResidencyPriority::Normal,
                    ),
                ),
                bytes.protected == saturated(
                    self@.priority_bytes(
                        all.take(index as int),
                        CacheResidencyPriority::Protected,
                    ),
                ),
            decreases identities@.len() - index,
        {
            let identity: u64 = identities[index];
            proof {
                assert(all.contains(all[index as int]));
                lemma_take_next(all, index as int);
            }
            match self.entries.get(&identity) {
                Some(entry) => {
                    match &entry.committed {
                        Some(committed) => {
                            let target_bytes: u64 = committed.target.output_byte_size();
                            match entry.priority {
                                CacheResidencyPriority::Normal => {
                                    bytes.normal = bytes.normal.saturating_add(target_bytes);
                                },
                                CacheResidencyPriority::Protected => {
                                    bytes.protected = bytes.protected.saturating_add(target_bytes);
                                },
                            }
                        },
                        None => {},
                    }
                },
                None => {},
            }
            index = index + 1;
        }
        assert(all.take(all.len() as int) =~= all);
        bytes
    }

    /// Returns all resident target bytes.
    pub fn bytes(&self) -> (bytes: u64)
        requires
            self@.wf(),
        ensures
            bytes == saturated(self@.total()),
    {
        self.resident_bytes().total()
    }

    /// Returns output-slot and content-watermark metadata counts.
    pub fn metadata_counts(&self) -> (counts: MetadataCounts)
        requires
            self@.wf(),
            self@.watermark_records(self@.identities()) <= usize::MAX,
        ensures
            counts.outputs == self@.slots.dom().len(),
            counts.resident_outputs == count(
                self@.identities(),
                |identity: u64| self@.slots[identity].committed is Some,
            ),
            counts.watermark_records == self@.watermark_records(self@.identities()),
    {
        let identities = self.identities();
        let ghost all = identities@;
        let ghost has = |identity: u64| self@.slots[identity].committed is Some;
        let mut resident_outputs: usize = 0;
        let mut watermark_records: usize = 0;
        let mut index: usize = 0;
        while index < identities.len()
            invariant
                index <= identities@.len(),
                all == identities@,
                enumerates(all, self@.slots.dom()),
                has == (|identity: u64| self@.slots[identity].committed is Some),
                resident_outputs == count(all.take(index as int), has),
                resident_outputs <= index,
                watermark_records == self@.watermark_records(all.take(index as int)),
                self@.watermark_records(all) <= usize::MAX,
            decreases identities@.len() - index,
        {
            let identity: u64 = identities[index];
            proof {
                assert(all.contains(all[index as int]));
                lemma_take_next(all, index as int);
                assert(has(identity) == self@.slots[identity].committed is Some);
                self@.lemma_records_grow(all, index + 1);
            }
            match self.entries.get(&identity) {
                Some(entry) => {
                    if entry.committed.is_some() {
                        resident_outputs = resident_outputs + 1;
                    }
                    watermark_records = watermark_records + entry.watermarks.len();
                },
                None => {},
            }
            index = index + 1;
        }
        assert(all.take(all.len() as int) =~= all);
        MetadataCounts { outputs: identities.len(), resident_outputs, watermark_records }
    }
}

impl<T: OutputTarget> Outputs<T> {
    proof fn lemma_records_grow(self, identities: Seq<u64>, i: int)
        requires
            0 <= i <= identities.len(),
        ensures
            self.watermark_records(identities.take(i)) <= self.watermark_records(identities),
        decreases identities.len(),
    {
        if i == identities.len() {
            assert(identities.take(i) =~= identities);
        } else {
            self.lemma_records_grow(identities.drop_last(), i);
            assert(identities.drop_last().take(i) =~= identities.take(i));
        }
    }
}

/// The tier of an output with the given priority.
pub open spec fn tier_of(priority: CacheResidencyPriority) -> EvictionTier {
    match priority {
        CacheResidencyPriority::Normal => EvictionTier::Normal,
        CacheResidencyPriority::Protected => EvictionTier::Protected,
    }
}

fn eviction_tier(priority: CacheResidencyPriority) -> (tier: EvictionTier)
    ensures
        tier == tier_of(priority),
{
    match priority {
        CacheResidencyPriority::Normal => EvictionTier::Normal,
        CacheResidencyPriority::Protected => EvictionTier::Protected,
    }
}

/// A resident output that may be evicted.
#[derive(Clone, Copy)]
struct Candidate {
    identity: u64,
    tier: EvictionTier,
    age: u64,
}

impl Candidate {
    spec fn precedes(self, other: Self) -> bool {
        if self.tier != other.tier {
            self.tier == EvictionTier::Normal
        } else if self.age != other.age {
            self.age > other.age
        } else {
            self.identity < other.identity
        }
    }

    fn goes_before(&self, other: &Self) -> (before: bool)
        ensures
            before == self.precedes(*other),
    {
        if self.tier != other.tier {
            self.tier == EvictionTier::Normal
        } else if self.age != other.age {
            self.age > other.age
        } else {
            self.identity < other.identity
        }
    }
}

impl<T> Slot<T> {
    /// Whether the slot holds a target that no access is using or replacing.
    pub open spec fn evictable(self) -> bool {
        self.active is None && self.committed is Some
    }

    /// The slot without its target.
    pub open spec fn emptied(self) -> Slot<T> {
        Slot { committed: None, ..self }
    }
}

impl<T> Outputs<T> {
    /// Whether `a` is evicted before `b`: normal outputs before protected ones, then the
    /// longest unused first, then the smaller identity.
    pub open spec fn evicted_before(self, a: u64, b: u64, frame: u64) -> bool {
        let tier_a = tier_of(self.slots[a].priority);
        let tier_b = tier_of(self.slots[b].priority);
        let age_a = elapsed(frame, self.slots[a].last_used);
        let age_b = elapsed(frame, self.slots[b].last_used);
        if tier_a != tier_b {
            tier_a == EvictionTier::Normal
        } else if age_a != age_b {
            age_a > age_b
        } else {
            a < b
        }
    }

    /// Whether `order` lists exactly the evictable outputs, in eviction order.
    pub open spec fn is_eviction_order(self, order: Seq<u64>, frame: u64) -> bool {
        &&& forall|i: int, j: int|
            #![trigger order[i], order[j]]
            0 <= i < j < order.len() ==> self.evicted_before(order[i], order[j], frame)
        &&& forall|identity: u64| #[trigger]
            order.contains(identity) <==> self.slots.contains_key(identity)
                && self.slots[identity].evictable()
    }

    /// The registry without the targets of the listed slots.
    pub open spec fn without_targets(self, identities: Seq<u64>) -> Outputs<T> {
        Outputs {
            slots: Map::new(
                |identity: u64| self.slots.contains_key(identity),
                |identity: u64|
                    if identities.contains(identity) {
                        self.slots[identity].emptied()
                    } else {
                        self.slots[identity]
                    },
            ),
            ..self
        }
    }
}

impl<T: OutputTarget> Outputs<T> {
    /// Bytes left of `bytes` once the first `evictions` outputs of `order` have gone.
    pub open spec fn bytes_after(self, bytes: u64, order: Seq<u64>, evictions: int) -> u64
        decreases evictions,
    {
        if evictions <= 0 {
            bytes
        } else {
            let before = self.bytes_after(bytes, order, evictions - 1);
            let size = self.slots[order[evictions - 1]].committed->0.target.size();
            if before < size {
                0
            } else {
                (before - size) as u64
            }
        }
    }

    /// Whether exactly the first `evictions` outputs of `order` have to go: each of them
    /// while the bytes exceed `maximum`, and no more than that.
    pub open spec fn is_eviction_count(
        self,
        bytes: u64,
        order: Seq<u64>,
        evictions: int,
        maximum: u64,
    ) -> bool {
        &&& 0 <= evictions <= order.len()
        &&& forall|n: int|
            0 <= n < evictions ==> #[trigger] self.bytes_after(bytes, order, n) > maximum
        &&& evictions < order.len() ==> self.bytes_after(bytes, order, evictions) <= maximum
    }

    /// Whether an eviction to `maximum` bytes may leave `after` and have this outcome.
    pub open spec fn evicts(
        self,
        maximum: u64,
        frame: u64,
        after: Outputs<T>,
        evicted: Seq<EvictedTarget<T>>,
        remaining: u64,
        order: Seq<u64>,
    ) -> bool {
        let bytes = saturated(self.total());
        let evictions = evicted.len() as int;
        &&& self.is_eviction_order(order, frame)
        &&& self.is_eviction_count(bytes, order, evictions, maximum)
        &&& after == self.without_targets(order.take(evictions))
        &&& remaining == self.bytes_after(bytes, order, evictions)
        &&& forall|i: int|
            0 <= i < evictions ==> (#[trigger] evicted[i]).target
                == self.slots[order[i]].committed->0.target && evicted[i].tier == tier_of(
                self.slots[order[i]].priority,
            )
    }
}

spec fn ordered(candidates: Seq<Candidate>) -> bool {
    forall|i: int, j: int|
        #![trigger candidates[i], candidates[j]]
        0 <= i < j < candidates.len() ==> candidates[i].precedes(candidates[j])
}

spec fn identities_of(candidates: Seq<Candidate>) -> Seq<u64> {
    candidates.map_values(|candidate: Candidate| candidate.identity)
}

impl<T: OutputTarget> Registry<T> {
    spec fn describes(self, candidate: Candidate, frame: u64) -> bool {
        let slot = self@.slots[candidate.identity];
        &&& self@.slots.contains_key(candidate.identity)
        &&& slot.evictable()
        &&& candidate.tier == tier_of(slot.priority)
        &&& candidate.age == elapsed(frame, slot.last_used)
    }

    fn eviction_candidates(&self, frame: u64) -> (candidates: Vec<Candidate>)
        requires
            self@.wf(),
        ensures
            forall|i: int|
                0 <= i < candidates@.len() ==> self.describes(#[trigger] candidates@[i], frame),
            ordered(candidates@),
            self@.is_eviction_order(identities_of(candidates@), frame),
    {
        let identities = self.identities();
        let ghost all = identities@;
        let mut candidates: Vec<Candidate> = Vec::new();
        let mut index: usize = 0;
        while index < identities.len()
            invariant
                index <= identities@.len(),
                all == identities@,
                enumerates(all, self@.slots.dom()),
                ordered(candidates@),
                forall|i: int|
                    0 <= i < candidates@.len() ==> self.describes(
                        #[trigger] candidates@[i],
                        frame,
                    ),
                forall|i: int|
                    0 <= i < candidates@.len() ==> all.take(index as int).contains(
                        (#[trigger] candidates@[i]).identity,
                    ),
                forall|n: int|
                    0 <= n < index && self@.slots[#[trigger] all[n]].evictable()
                        ==> identities_of(candidates@).contains(all[n]),
            decreases identities@.len() - index,
        {
            let identity: u64 = identities[index];
            let ghost before = candidates@;
            proof {
                assert(all.contains(all[index as int]));
                lemma_take_next(all, index as int);
                assert forall|i: int| 0 <= i < before.len() implies (
                #[trigger] before[i]).identity != identity by {
                    let seen = all.take(index as int);
                    assert(seen.contains(before[i].identity));
                    let n = choose|n: int| 0 <= n < seen.len() && seen[n] == before[i].identity;
                    assert(all[n] < all[index as int]);
                }
            }
            let mut at: usize = 0;
            match self.entries.get(&identity) {
                Some(entry) => {
                    if entry.active.is_none() && entry.committed.is_some() {
                        let candidate = Candidate {
                            identity,
                            tier: eviction_tier(entry.priority),
                            age: frame.wrapping_sub(entry.last_used),
                        };
                        while at < candidates.len() && candidates[at].goes_before(&candidate)
                            invariant
                                at <= candidates@.len(),
                                candidates@ == before,
                                forall|i: int|
                                    0 <= i < at ==> (#[trigger] before[i]).precedes(candidate),
                            decreases candidates@.len() - at,
                        {
                            at = at + 1;
                        }
                        candidates.insert(at, candidate);
                        proof {
                            lemma_insert_ordered(before, candidate, at as int);
                        }
                    }
                },
                None => {},
            }
            proof {
                let now = candidates@;
                assert forall|i: int| 0 <= i < now.len() implies all.take(index + 1).contains(
                    (#[trigger] now[i]).identity,
                ) by {
                    let longer = all.take(index + 1);
                    if now[i].identity == identity {
                        assert(longer[index as int] == identity);
                    } else {
                        let from = if now.len() > before.len() && i > at {
                            i - 1
                        } else {
                            i
                        };
                        assert(now[i] == before[from]);
                        let seen = all.take(index as int);
                        assert(seen.contains(before[from].identity));
                        let n = choose|n: int|
                            0 <= n < seen.len() && seen[n] == before[from].identity;
                        assert(longer[n] == now[i].identity);
                    }
                }
                assert forall|n: int|
                    0 <= n < index + 1 && self@.slots[#[trigger] all[n]].evictable() implies
                    identities_of(now).contains(all[n]) by {
                    if n < index {
                        let had = identities_of(before);
                        assert(had.contains(all[n]));
                        let k = choose|k: int| 0 <= k < had.len() && had[k] == all[n];
                        let to = if now.len() > before.len() && k >= at {
                            k + 1
                        } else {
                            k
                        };
                        assert(identities_of(now)[to] == all[n]);
                    } else {
                        assert(identities_of(now)[at as int] == all[n]);
                    }
                }
            }
            index = index + 1;
        }
        proof {
            let order = identities_of(candidates@);
            assert forall|i: int, j: int|
                #![trigger order[i], order[j]]
                0 <= i < j < order.len() implies self@.evicted_before(
                order[i],
                order[j],
                frame,
            ) by {
                assert(candidates@[i].precedes(candidates@[j]));
                assert(self.describes(candidates@[i], frame));
                assert(self.describes(candidates@[j], frame));
            }
            assert forall|identity: u64| #[trigger]
                order.contains(identity) <==> self@.slots.contains_key(identity)
                    && self@.slots[identity].evictable() by {
                if order.contains(identity) {
                    let i = choose|i: int| 0 <= i < order.len() && order[i] == identity;
                    assert(self.describes(candidates@[i], frame));
                }
                if self@.slots.contains_key(identity) && self@.slots[identity].evictable() {
                    assert(all.contains(identity));
                    let n = choose|n: int| 0 <= n < all.len() && all[n] == identity;
                    assert(self@.slots[all[n]].evictable());
                }
            }
        }
        candidates
    }

    /// Evicts least-recently-used normal targets before protected targets.
    ///
    /// Active slots are skipped. Their targets are either in use by the caller or are the
    /// old committed value protected during replacement.
    pub fn evict_to_bytes(&mut self, maximum: u64, frame: u64) -> (outcome: EvictionOutcome<T>)
        requires
            old(self)@.wf(),
        ensures
            final(self)@.wf(),
            exists|order: Seq<u64>| #[trigger]
                old(self)@.evicts(
                    maximum,
                    frame,
                    final(self)@,
                    outcome.evicted@,
                    outcome.remaining_bytes,
                    order,
                ),
    {
        let bytes: u64 = self.bytes();
        let mut remaining_bytes: u64 = bytes;
        let candidates = self.eviction_candidates(frame);
        let ghost before = self@;
        let ghost order = identities_of(candidates@);
        let mut evicted: Vec<EvictedTarget<T>> = Vec::new();
        let mut index: usize = 0;
        proof {
            assert(before.without_targets(order.take(0)).slots =~= before.slots);
            assert forall|i: int, j: int|
                0 <= i < j < order.len() implies #[trigger] order[i] != #[trigger] order[j] by {
                assert(before.evicted_before(order[i], order[j], frame));
            }
            assert forall|i: int| 0 <= i < order.len() implies before.slots.contains_key(
                #[trigger] order[i],
            ) && before.slots[order[i]].evictable() by {
                assert(order.contains(order[i]));
            }
        }
        while index < candidates.len() && remaining_bytes > maximum
            invariant
                index <= candidates@.len(),
                order == identities_of(candidates@),
                before == old(self)@,
                before.wf(),
                before.is_eviction_order(order, frame),
                forall|i: int, j: int|
                    0 <= i < j < order.len() ==> #[trigger] order[i] != #[trigger] order[j],
                forall|i: int|
                    0 <= i < order.len() ==> before.slots.contains_key(#[trigger] order[i])
                        && before.slots[order[i]].evictable(),
                forall|i: int|
                    0 <= i < candidates@.len() ==> (#[trigger] candidates@[i]).tier == tier_of(
                        before.slots[candidates@[i].identity].priority,
                    ),
                self@ == before.without_targets(order.take(index as int)),
                remaining_bytes == before.bytes_after(bytes, order, index as int),
                forall|n: int|
                    0 <= n < index ==> #[trigger] before.bytes_after(bytes, order, n) > maximum,
                evicted@.len() == index,
                forall|i: int|
                    0 <= i < index ==> (#[trigger] evicted@[i]).target
                        == before.slots[order[i]].committed->0.target && evicted@[i].tier
                        == tier_of(before.slots[order[i]].priority),
            decreases candidates@.len() - index,
        {
            let candidate = candidates[index];
            let ghost held = self@;
            let ghost shorter = order.take(index as int);
            let ghost longer = order.take(index + 1);
            proof {
                assert(order[index as int] == candidate.identity);
                assert(longer =~= shorter.push(candidate.identity));
                assert(!shorter.contains(candidate.identity)) by {
                    if shorter.contains(candidate.identity) {
                        let i = choose|i: int|
                            0 <= i < shorter.len() && shorter[i] == candidate.identity;
                        assert(order[i] != order[index as int]);
                    }
                }
                assert(candidates@[index as int].tier == tier_of(
                    before.slots[candidate.identity].priority,
                ));
            }
            let mut entry = self.take_entry(candidate.identity).unwrap();
            let committed = entry.committed.take().unwrap();
            remaining_bytes = remaining_bytes.saturating_sub(committed.target.output_byte_size());
            evicted.push(EvictedTarget { target: committed.target, tier: candidate.tier });
            self.put_entry(candidate.identity, entry);
            proof {
                assert forall|identity: u64| longer.contains(identity) <==> (shorter.contains(
                    identity,
                ) || identity == candidate.identity) by {
                    if shorter.contains(identity) {
                        let i = choose|i: int| 0 <= i < shorter.len() && shorter[i] == identity;
                        assert(longer[i] == identity);
                    }
                    if identity == candidate.identity {
                        assert(longer[index as int] == identity);
                    }
                    if longer.contains(identity) {
                        let i = choose|i: int| 0 <= i < longer.len() && longer[i] == identity;
                        if i < index {
                            assert(shorter[i] == identity);
                        }
                    }
                }
                assert(self@.slots =~= before.without_targets(longer).slots);
            }
            index = index + 1;
        }
        let outcome = EvictionOutcome { evicted, remaining_bytes };
        proof {
            self.lemma_dom();
            assert(old(self)@.evicts(
                maximum,
                frame,
                self@,
                outcome.evicted@,
                outcome.remaining_bytes,
                order,
            ));
        }
        outcome
    }
}

proof fn lemma_insert_ordered(candidates: Seq<Candidate>, candidate: Candidate, at: int)
    requires
        ordered(candidates),
        0 <= at <= candidates.len(),
        forall|i: int| 0 <= i < at ==> (#[trigger] candidates[i]).precedes(candidate),
        at < candidates.len() ==> !candidates[at].precedes(candidate),
        forall|i: int|
            0 <= i < candidates.len() ==> (#[trigger] candidates[i]).identity
                != candidate.identity,
    ensures
        ordered(candidates.insert(at, candidate)),
{
    let longer = candidates.insert(at, candidate);
    assert forall|i: int, j: int|
        #![trigger longer[i], longer[j]]
        0 <= i < j < longer.len() implies longer[i].precedes(longer[j]) by {
        if at < candidates.len() {
            assert(candidates[at].identity != candidate.identity);
            assert(candidate.precedes(candidates[at]));
        }
        if j < at {
            assert(candidates[i].precedes(candidates[j]));
        } else if j == at {
            assert(candidates[i].precedes(candidate));
        } else if i < at {
            assert(candidates[i].precedes(candidates[j - 1]));
        } else if i == at {
            if at < j - 1 {
                assert(candidates[at].precedes(candidates[j - 1]));
            }
        } else {
            assert(candidates[i - 1].precedes(candidates[j - 1]));
        }
    }
}

} // verus!
