//! Identities, content-change evidence and output-cache requests.

use std::sync::atomic::AtomicU64;
use std::sync::atomic::Ordering;
use std::sync::Arc;
use vstd::prelude::*;
use vstd::std_specs::cmp::PartialEqSpec;

verus! {

/// A source of identities that are never handed out twice.
pub struct IdentitySource {
    next: u64,
}

impl View for IdentitySource {
    type V = u64;

    closed spec fn view(&self) -> u64 {
        self.next
    }
}

impl IdentitySource {
    /// Creates a source whose first identity is one.
    pub fn new() -> (source: Self)
        ensures
            source@ == 1,
    {
        IdentitySource { next: 1 }
    }

    /// Returns whether every identity has been handed out.
    pub fn is_exhausted(&self) -> (exhausted: bool)
        ensures
            exhausted == (self@ == u64::MAX),
    {
        self.next == u64::MAX
    }

    /// Hands out the next identity.
    ///
    /// Identities are never reused because reuse could alias retained state, so an
    /// exhausted source has none left to give.
    pub fn next_identity(&mut self) -> (identity: u64)
        requires
            old(self)@ < u64::MAX,
        ensures
            identity == old(self)@,
            final(self)@ == old(self)@ + 1,
    {
        let identity: u64 = self.next;
        self.next = identity + 1;
        identity
    }
}

/// Eviction priority requested for a cached isolated-layer output.
#[derive(Debug, Clone, Copy, PartialEq, Eq, Hash, Structural)]
pub enum CacheResidencyPriority {
    /// Is evicted before protected cached values under memory pressure.
    Normal,
    /// Is evicted after normal-priority cached values under memory pressure.
    ///
    /// Protected priority is not a residency guarantee.
    Protected,
}

/// A stable content-input identity paired with an observed generation.
#[derive(Debug, Clone, Copy, PartialEq, Eq, Hash, Structural)]
pub struct Revision {
    identity: u64,
    generation: u64,
}

impl Revision {
    /// The content-input identity.
    pub closed spec fn id(self) -> u64 {
        self.identity
    }

    /// The observed generation.
    pub closed spec fn at(self) -> u64 {
        self.generation
    }

    /// Pairs an identity with a generation.
    pub fn new(identity: u64, generation: u64) -> (revision: Self)
        ensures
            revision.id() == identity,
            revision.at() == generation,
    {
        Revision { identity, generation }
    }

    /// Returns the stable content-input identity.
    pub fn identity(self) -> (identity: u64)
        ensures
            identity == self.id(),
    {
        self.identity
    }

    /// Returns the observed content generation.
    pub fn generation(self) -> (generation: u64)
        ensures
            generation == self.at(),
    {
        self.generation
    }
}

/// A revision is nothing but its identity and its generation.
pub proof fn revisions_are_determined(a: Revision, b: Revision)
    ensures
        a == b <==> a.id() == b.id() && a.at() == b.at(),
{
}

/// The generation that follows `value`, if there is one.
pub fn next_generation(value: u64) -> (next: Option<u64>)
    ensures
        next == (if value < u64::MAX { Some((value + 1) as u64) } else { None::<u64> }),
{
    value.checked_add(1)
}

/// `AtomicU64::fetch_update` with [`next_generation`] as its update.
///
/// The value it returns is the one it replaced, or the one for which the update gave
/// nothing. Which value the cell holds depends on every thread that shares it, so no
/// more than the two bounds is claimed.
#[verifier::external_body]
fn advance_generation(cell: &AtomicU64) -> (previous: Result<u64, u64>)
    ensures
        previous matches Ok(value) ==> value < u64::MAX,
        previous matches Err(value) ==> value == u64::MAX,
{
    cell.fetch_update(Ordering::AcqRel, Ordering::Acquire, |value| next_generation(value))
}

/// Whether advancing a cell may have come back with `previous`.
pub closed spec fn advanced(cell: AtomicU64, previous: Result<u64, u64>) -> bool {
    call_ensures(advance_generation, (&cell,), previous)
}

/// The generation that an update published over the one it replaced.
pub open spec fn published(previous: Result<u64, u64>) -> Option<u64> {
    match previous {
        Ok(previous) => if previous < u64::MAX {
            Some((previous + 1) as u64)
        } else {
            None
        },
        Err(_) => None,
    }
}

/// Returns the generation that an update published over the one it replaced.
///
/// An update that found the last generation published nothing.
pub fn published_generation(previous: Result<u64, u64>) -> (generation: Option<u64>)
    ensures
        generation == published(previous),
{
    match previous {
        Ok(previous) => next_generation(previous),
        Err(_) => None,
    }
}

/// No generation is published twice: an update that replaces what an earlier one published, or
/// anything newer, publishes a newer generation still.
pub proof fn generations_never_repeat(
    earlier: Result<u64, u64>,
    later: Result<u64, u64>,
    first: u64,
    second: u64,
)
    requires
        published(earlier) == Some(first),
        published(later) == Some(second),
        later matches Ok(replaced) && first <= replaced,
    ensures
        first < second,
{
}

/// A revision is a snapshot: once its content was marked changed, over the generation that the
/// revision carries or a newer one, no revision that carries what the mark published or
/// anything newer equals it.
pub proof fn marked_content_has_another_revision(
    before: Revision,
    after: Revision,
    replaced: u64,
    generation: u64,
)
    requires
        before.at() <= replaced,
        published(Ok(replaced)) == Some(generation),
        generation <= after.at(),
    ensures
        before != after,
{
}

/// Caller-managed evidence that one source of captured content may have changed.
///
/// Clones share a stable identity and one atomic monotonic generation.
#[derive(Debug)]
pub struct ContentChangeHandle {
    identity: u64,
    generation: Arc<AtomicU64>,
}

impl ContentChangeHandle {
    /// The content-input identity.
    pub closed spec fn id(self) -> u64 {
        self.identity
    }

    /// The cell that holds the generation, shared by every clone.
    pub closed spec fn cell(self) -> AtomicU64 {
        *self.generation
    }

    /// Whether reading the cell of this handle may have returned `generation`.
    pub open spec fn has_read(self, generation: u64) -> bool {
        call_ensures(AtomicU64::load, (&self.cell(), Ordering::Acquire), generation)
    }

    /// Whether advancing the cell of this handle may have published `generation`: the one
    /// after the generation that it replaced, or none if it found the last one.
    pub open spec fn has_marked(self, generation: Option<u64>) -> bool {
        exists|previous: Result<u64, u64>| #[trigger]
            advanced(self.cell(), previous) && generation == published(previous)
    }

    /// Creates a new content-input identity at generation zero.
    pub fn new(identities: &mut IdentitySource) -> (handle: Self)
        requires
            old(identities)@ < u64::MAX,
        ensures
            handle.id() == old(identities)@,
            call_ensures(AtomicU64::new, (0,), handle.cell()),
            final(identities)@ == old(identities)@ + 1,
    {
        ContentChangeHandle {
            identity: identities.next_identity(),
            generation: Arc::new(AtomicU64::new(0)),
        }
    }

    /// Returns the stable content-input identity.
    pub fn identity(&self) -> (identity: u64)
        ensures
            identity == self.id(),
    {
        self.identity
    }

    /// Returns the currently published content generation.
    ///
    /// Whoever holds a clone may publish another one at any time, so which number the shared
    /// cell gives is not said.
    pub fn generation(&self) -> (generation: u64)
        ensures
            self.has_read(generation),
    {
        self.generation.load(Ordering::Acquire)
    }

    /// Marks the observed content as potentially changed and returns its new generation.
    ///
    /// Generations are never reused because reuse could accept obsolete pixels: once they
    /// are exhausted there is no new generation to return. Which generation the shared cell
    /// held before depends on every holder of a clone.
    pub fn mark_changed(&self) -> (generation: Option<u64>)
        ensures
            self.has_marked(generation),
            generation matches Some(generation) ==> generation >= 1,
    {
        let previous = advance_generation(&self.generation);
        assert(advanced(self.cell(), previous));
        published_generation(previous)
    }

    /// Returns the current content-input identity and generation.
    pub fn revision(&self) -> (revision: Revision)
        ensures
            revision.id() == self.id(),
            self.has_read(revision.at()),
    {
        Revision { identity: self.identity, generation: self.generation() }
    }
}

impl Clone for ContentChangeHandle {
    fn clone(&self) -> (handle: Self)
        ensures
            handle == *self,
    {
        ContentChangeHandle { identity: self.identity, generation: self.generation.clone() }
    }
}

impl PartialEq for ContentChangeHandle {
    fn eq(&self, other: &Self) -> (equal: bool) {
        self.identity == other.identity
    }
}

impl vstd::std_specs::cmp::PartialEqSpecImpl for ContentChangeHandle {
    open spec fn obeys_eq_spec() -> bool {
        true
    }

    open spec fn eq_spec(&self, other: &Self) -> bool {
        self.id() == other.id()
    }
}

impl Eq for ContentChangeHandle {}

/// `u64::hash` of the standard library, which feeds a number to a hasher. What a hasher does
/// with it is its own affair, so nothing is claimed.
pub assume_specification<H: std::hash::Hasher>[ <u64 as std::hash::Hash>::hash::<H> ](
    number: &u64,
    state: &mut H,
);

impl std::hash::Hash for ContentChangeHandle {
    fn hash<H: std::hash::Hasher>(&self, state: &mut H) {
        self.identity.hash(state);
    }
}

/// The content of a stamp: revisions in identity order, and whether observations disagreed.
#[verifier::ext_equal]
pub ghost struct Stamp {
    pub revisions: Seq<Revision>,
    pub conflicted: bool,
}

/// Revisions in strictly increasing order of identity.
pub open spec fn increasing_identities(revisions: Seq<Revision>) -> bool {
    forall|i: int, j: int|
        #![trigger revisions[i], revisions[j]]
        0 <= i < j < revisions.len() ==> revisions[i].id() < revisions[j].id()
}

/// Whether `stamp` lists the newest observation of every identity in `observations`, in
/// identity order, and records whether two observations of one identity disagreed.
pub open spec fn is_stamp_of(observations: Seq<Revision>, stamp: Stamp) -> bool {
    &&& increasing_identities(stamp.revisions)
    &&& forall|i: int|
        0 <= i < stamp.revisions.len() ==> #[trigger] observations.contains(stamp.revisions[i])
    &&& forall|j: int|
        0 <= j < observations.len() ==> #[trigger] covers(stamp.revisions, observations[j])
    &&& stamp.conflicted == observations_disagree(observations)
}

/// Whether `revisions` lists the identity of `observation` at its generation or a newer one.
pub open spec fn covers(revisions: Seq<Revision>, observation: Revision) -> bool {
    exists|i: int|
        0 <= i < revisions.len() && (#[trigger] revisions[i]).id() == observation.id()
            && observation.at() <= revisions[i].at()
}

/// Whether two observations of one identity carry different generations.
pub open spec fn observations_disagree(observations: Seq<Revision>) -> bool {
    exists|i: int, j: int|
        #![trigger observations[i], observations[j]]
        0 <= i < observations.len() && 0 <= j < observations.len() && observations[i].id()
            == observations[j].id() && observations[i].at() != observations[j].at()
}

impl Stamp {
    /// The identities that the stamp lists, in order.
    pub open spec fn identities(self) -> Seq<u64> {
        self.revisions.map_values(|revision: Revision| revision.id())
    }

    /// Sorted, without duplicates.
    pub open spec fn normalized(self) -> bool {
        increasing_identities(self.revisions)
    }

    /// Whether the stamp is evidence that a renderer may rely on.
    pub open spec fn usable(self) -> bool {
        self.revisions.len() > 0 && !self.conflicted
    }

    /// The generation at which the stamp lists `identity`.
    pub open spec fn generation_of(self, identity: u64) -> Option<u64> {
        if exists|i: int| 0 <= i < self.revisions.len() && (#[trigger] self.revisions[i]).id() == identity {
            let i = choose|i: int|
                0 <= i < self.revisions.len() && (#[trigger] self.revisions[i]).id() == identity;
            Some(self.revisions[i].at())
        } else {
            None
        }
    }
}

/// Two stamps of the same observations are equal.
pub proof fn stamp_is_determined(observations: Seq<Revision>, first: Stamp, second: Stamp)
    requires
        is_stamp_of(observations, first),
        is_stamp_of(observations, second),
    ensures
        first == second,
{
    stamps_of_same_observations(observations, observations, first, second);
}

/// Normalizing what is normalized already changes nothing.
pub proof fn normalizing_is_idempotent(observations: Seq<Revision>, stamp: Stamp)
    requires
        is_stamp_of(observations, stamp),
    ensures
        is_stamp_of(stamp.revisions, (Stamp { conflicted: false, ..stamp })),
{
    assert forall|i: int| 0 <= i < stamp.revisions.len() implies #[trigger] stamp.revisions.contains(
        stamp.revisions[i],
    ) && covers(stamp.revisions, stamp.revisions[i]) by {
        assert(stamp.revisions[i].id() == stamp.revisions[i].id());
    }
}

/// Normalizing depends neither on the order of the observations nor on how often each one
/// occurs.
pub proof fn stamps_of_same_observations(
    left: Seq<Revision>,
    right: Seq<Revision>,
    first: Stamp,
    second: Stamp,
)
    requires
        forall|revision: Revision| left.contains(revision) <==> right.contains(revision),
        is_stamp_of(left, first),
        is_stamp_of(right, second),
    ensures
        first == second,
{
    lemma_stamp_entries(left, right, first, second);
    lemma_stamp_entries(right, left, second, first);
    lemma_increasing_same_elements(first.revisions, second.revisions);
    assert(observations_disagree(left) ==> observations_disagree(right)) by {
        if observations_disagree(left) {
            lemma_disagreement_carries(left, right);
        }
    }
    assert(observations_disagree(right) ==> observations_disagree(left)) by {
        if observations_disagree(right) {
            lemma_disagreement_carries(right, left);
        }
    }
}

proof fn lemma_disagreement_carries(left: Seq<Revision>, right: Seq<Revision>)
    requires
        forall|revision: Revision| left.contains(revision) ==> right.contains(revision),
        observations_disagree(left),
    ensures
        observations_disagree(right),
{
    let (i, j) = choose|i: int, j: int|
        #![trigger left[i], left[j]]
        0 <= i < left.len() && 0 <= j < left.len() && left[i].id() == left[j].id()
            && left[i].at() != left[j].at();
    assert(left.contains(left[i]));
    assert(left.contains(left[j]));
    assert(right.contains(left[i]));
    assert(right.contains(left[j]));
    let a = choose|a: int| 0 <= a < right.len() && right[a] == left[i];
    let b = choose|b: int| 0 <= b < right.len() && right[b] == left[j];
    assert(right[a].id() == right[b].id() && right[a].at() != right[b].at());
}

proof fn lemma_stamp_entries(
    left: Seq<Revision>,
    right: Seq<Revision>,
    first: Stamp,
    second: Stamp,
)
    requires
        forall|revision: Revision| left.contains(revision) <==> right.contains(revision),
        is_stamp_of(left, first),
        is_stamp_of(right, second),
    ensures
        forall|i: int|
            0 <= i < first.revisions.len() ==> #[trigger] second.revisions.contains(
                first.revisions[i],
            ),
{
    assert forall|i: int| 0 <= i < first.revisions.len() implies #[trigger] second.revisions.contains(
        first.revisions[i],
    ) by {
        let revision = first.revisions[i];
        assert(left.contains(revision));
        assert(right.contains(revision));
        let r = choose|r: int| 0 <= r < right.len() && right[r] == revision;
        assert(covers(second.revisions, right[r]));
        let k = choose|k: int|
            0 <= k < second.revisions.len() && (#[trigger] second.revisions[k]).id()
                == revision.id() && revision.at() <= second.revisions[k].at();
        let newest = second.revisions[k];
        assert(right.contains(newest));
        assert(left.contains(newest));
        let l = choose|l: int| 0 <= l < left.len() && left[l] == newest;
        assert(covers(first.revisions, left[l]));
        let m = choose|m: int|
            0 <= m < first.revisions.len() && (#[trigger] first.revisions[m]).id()
                == newest.id() && newest.at() <= first.revisions[m].at();
        assert(m == i) by {
            if m < i {
                assert(first.revisions[m].id() < first.revisions[i].id());
            } else if i < m {
                assert(first.revisions[i].id() < first.revisions[m].id());
            }
        }
        assert(newest == revision);
    }
}

proof fn lemma_increasing_same_elements(first: Seq<Revision>, second: Seq<Revision>)
    requires
        increasing_identities(first),
        increasing_identities(second),
        forall|i: int| 0 <= i < first.len() ==> #[trigger] second.contains(first[i]),
        forall|i: int| 0 <= i < second.len() ==> #[trigger] first.contains(second[i]),
    ensures
        first == second,
    decreases first.len(),
{
    if first.len() == 0 {
        if second.len() > 0 {
            assert(first.contains(second[0]));
        }
        assert(first =~= second);
    } else {
        let last = first.last();
        assert(second.contains(first[first.len() - 1]));
        let k = choose|k: int| 0 <= k < second.len() && second[k] == last;
        assert(second.last() == last) by {
            if k < second.len() - 1 {
                let top = second[second.len() - 1];
                assert(second[k].id() < second[second.len() - 1].id());
                assert(first.contains(second[second.len() - 1]));
                let m = choose|m: int| 0 <= m < first.len() && first[m] == top;
                if m < first.len() - 1 {
                    assert(first[m].id() < first[first.len() - 1].id());
                }
            }
        }
        let a = first.drop_last();
        let b = second.drop_last();
        assert forall|i: int| 0 <= i < a.len() implies #[trigger] b.contains(a[i]) by {
            assert(second.contains(first[i]));
            let m = choose|m: int| 0 <= m < second.len() && second[m] == first[i];
            assert(first[i].id() < first[first.len() - 1].id());
            assert(m < second.len() - 1);
            assert(b[m] == a[i]);
        }
        assert forall|i: int| 0 <= i < b.len() implies #[trigger] a.contains(b[i]) by {
            assert(first.contains(second[i]));
            let m = choose|m: int| 0 <= m < first.len() && first[m] == second[i];
            assert(second[i].id() < second[second.len() - 1].id());
            assert(m < first.len() - 1);
            assert(a[m] == b[i]);
        }
        lemma_increasing_same_elements(a, b);
        assert(first =~= a.push(last));
        assert(second =~= b.push(last));
    }
}

/// The first position in `revisions` whose identity is not below `identity`.
fn position(revisions: &Vec<Revision>, identity: u64) -> (at: usize)
    requires
        increasing_identities(revisions@),
    ensures
        at <= revisions@.len(),
        forall|i: int| 0 <= i < at ==> (#[trigger] revisions@[i]).id() < identity,
        forall|i: int| at <= i < revisions@.len() ==> (#[trigger] revisions@[i]).id() >= identity,
{
    let mut low: usize = 0;
    let mut high: usize = revisions.len();
    while low < high
        invariant
            low <= high <= revisions@.len(),
            increasing_identities(revisions@),
            forall|i: int| 0 <= i < low ==> (#[trigger] revisions@[i]).id() < identity,
            forall|i: int|
                high <= i < revisions@.len() ==> (#[trigger] revisions@[i]).id() >= identity,
        decreases high - low,
    {
        let middle: usize = low + (high - low) / 2;
        if revisions[middle].identity < identity {
            low = middle + 1;
        } else {
            high = middle;
        }
    }
    low
}

/// Sorts revisions by identity and keeps the newest generation of each; also returns
/// whether two observations of one identity disagreed.
pub fn normalize_revisions(revisions: Vec<Revision>) -> (normalized: (Vec<Revision>, bool))
    ensures
        is_stamp_of(
            revisions@,
            (Stamp { revisions: normalized.0@, conflicted: normalized.1 }),
        ),
{
    let mut normalized: Vec<Revision> = Vec::with_capacity(revisions.len());
    let mut conflicted = false;
    let mut index: usize = 0;
    assert(revisions@.take(0) =~= Seq::<Revision>::empty());
    while index < revisions.len()
        invariant
            index <= revisions@.len(),
            is_stamp_of(
                revisions@.take(index as int),
                (Stamp { revisions: normalized@, conflicted }),
            ),
        decreases revisions@.len() - index,
    {
        let revision = revisions[index];
        let ghost before = normalized@;
        let ghost seen = revisions@.take(index as int);
        let ghost was = conflicted;
        let at = position(&normalized, revision.identity);
        if at < normalized.len() && normalized[at].identity == revision.identity {
            if normalized[at].generation != revision.generation {
                conflicted = true;
                if normalized[at].generation < revision.generation {
                    normalized[at] = revision;
                }
            }
        } else {
            normalized.insert(at, revision);
        }
        proof {
            let next = revisions@.take(index + 1);
            assert(next =~= seen.push(revision));
            lemma_observe(seen, revision, at as int, before, was);
            assert(normalized@ =~= observed(before, revision, at as int));
        }
        index = index + 1;
    }
    assert(revisions@.take(revisions@.len() as int) =~= revisions@);
    (normalized, conflicted)
}

spec fn present(revisions: Seq<Revision>, revision: Revision, at: int) -> bool {
    at < revisions.len() && revisions[at].id() == revision.id()
}

spec fn observed(revisions: Seq<Revision>, revision: Revision, at: int) -> Seq<Revision> {
    if present(revisions, revision, at) {
        if revisions[at].at() < revision.at() {
            revisions.update(at, revision)
        } else {
            revisions
        }
    } else {
        revisions.insert(at, revision)
    }
}

/// Whether `at` is where a revision belongs.
spec fn belongs(revisions: Seq<Revision>, revision: Revision, at: int) -> bool {
    &&& 0 <= at <= revisions.len()
    &&& forall|i: int| 0 <= i < at ==> (#[trigger] revisions[i]).id() < revision.id()
    &&& forall|i: int| at <= i < revisions.len() ==> (#[trigger] revisions[i]).id() >= revision.id()
}

proof fn lemma_observed_in_order(before: Seq<Revision>, revision: Revision, at: int)
    requires
        increasing_identities(before),
        belongs(before, revision, at),
    ensures
        increasing_identities(observed(before, revision, at)),
{
    let after = observed(before, revision, at);
    assert forall|i: int, j: int|
        #![trigger after[i], after[j]]
        0 <= i < j < after.len() implies after[i].id() < after[j].id() by {
        if present(before, revision, at) {
            assert(after[i].id() == before[i].id());
            assert(after[j].id() == before[j].id());
            assert(before[i].id() < before[j].id());
        } else {
            if at < before.len() {
                assert(before[at].id() > revision.id());
            }
            if i < at && j < at {
                assert(before[i].id() < before[j].id());
            } else if i < at && j == at {
                assert(before[i].id() < revision.id());
            } else if i < at {
                assert(before[i].id() < before[j - 1].id());
            } else if i == at {
                assert(before[j - 1].id() >= revision.id());
                if at < j - 1 {
                    assert(before[at].id() < before[j - 1].id());
                }
            } else {
                assert(before[i - 1].id() < before[j - 1].id());
            }
        }
    }
}

proof fn lemma_observed_sources(
    seen: Seq<Revision>,
    before: Seq<Revision>,
    revision: Revision,
    at: int,
    i: int,
)
    requires
        forall|k: int| 0 <= k < before.len() ==> #[trigger] seen.contains(before[k]),
        belongs(before, revision, at),
        0 <= i < observed(before, revision, at).len(),
    ensures
        seen.push(revision).contains(observed(before, revision, at)[i]),
{
    let next = seen.push(revision);
    let found = observed(before, revision, at)[i];
    let source = if present(before, revision, at) || i < at {
        i
    } else {
        i - 1
    };
    if found == revision {
        assert(next[seen.len() as int] == found);
    } else {
        assert(found == before[source]);
        assert(seen.contains(before[source]));
        let k = choose|k: int| 0 <= k < seen.len() && seen[k] == before[source];
        assert(next[k] == found);
    }
}

proof fn lemma_observed_covers(
    before: Seq<Revision>,
    revision: Revision,
    at: int,
    observation: Revision,
)
    requires
        belongs(before, revision, at),
        observation == revision || covers(before, observation),
    ensures
        covers(observed(before, revision, at), observation),
{
    let after = observed(before, revision, at);
    if observation == revision {
        assert(after[at].id() == revision.id() && revision.at() <= after[at].at());
    } else {
        let k = choose|k: int|
            0 <= k < before.len() && (#[trigger] before[k]).id() == observation.id()
                && observation.at() <= before[k].at();
        if present(before, revision, at) || k < at {
            assert(after[k].id() == before[k].id() && after[k].at() >= before[k].at());
        } else {
            assert(after[k + 1] == before[k]);
        }
    }
}

proof fn lemma_observed_conflict(
    seen: Seq<Revision>,
    before: Seq<Revision>,
    revision: Revision,
    at: int,
)
    requires
        increasing_identities(before),
        forall|k: int| 0 <= k < before.len() ==> #[trigger] seen.contains(before[k]),
        forall|k: int| 0 <= k < seen.len() ==> #[trigger] covers(before, seen[k]),
        belongs(before, revision, at),
    ensures
        observations_disagree(seen.push(revision)) == (observations_disagree(seen) || (present(
            before,
            revision,
            at,
        ) && before[at].at() != revision.at())),
{
    let next = seen.push(revision);
    let last = seen.len() as int;
    if observations_disagree(seen) {
        lemma_disagreement_carries_push(seen, revision);
    } else if present(before, revision, at) && before[at].at() != revision.at() {
        assert(seen.contains(before[at]));
        let k = choose|k: int| 0 <= k < seen.len() && seen[k] == before[at];
        assert(next[k].id() == next[last].id() && next[k].at() != next[last].at());
    } else if observations_disagree(next) {
        let (i, j) = choose|i: int, j: int|
            #![trigger next[i], next[j]]
            0 <= i < next.len() && 0 <= j < next.len() && next[i].id() == next[j].id()
                && next[i].at() != next[j].at();
        if i < last && j < last {
            assert(seen[i].id() == seen[j].id() && seen[i].at() != seen[j].at());
        } else {
            let other = if i == last {
                j
            } else {
                i
            };
            lemma_no_other_generation(seen, before, revision, at, other);
        }
    }
}

proof fn lemma_no_other_generation(
    seen: Seq<Revision>,
    before: Seq<Revision>,
    revision: Revision,
    at: int,
    other: int,
)
    requires
        increasing_identities(before),
        forall|k: int| 0 <= k < before.len() ==> #[trigger] seen.contains(before[k]),
        forall|k: int| 0 <= k < seen.len() ==> #[trigger] covers(before, seen[k]),
        belongs(before, revision, at),
        !observations_disagree(seen),
        0 <= other < seen.len(),
        seen[other].id() == revision.id(),
    ensures
        present(before, revision, at),
        before[at].at() == seen[other].at(),
{
    assert(covers(before, seen[other]));
    let k = choose|k: int|
        0 <= k < before.len() && (#[trigger] before[k]).id() == seen[other].id()
            && seen[other].at() <= before[k].at();
    if k < at {
        assert(before[k].id() < revision.id());
    } else if at < k {
        assert(before[at].id() < before[k].id());
        assert(before[at].id() >= revision.id());
    }
    assert(k == at);
    assert(seen.contains(before[at]));
    let m = choose|m: int| 0 <= m < seen.len() && seen[m] == before[at];
    assert(seen[m].id() == seen[other].id());
}

proof fn lemma_observe(
    seen: Seq<Revision>,
    revision: Revision,
    at: int,
    before: Seq<Revision>,
    conflicted: bool,
)
    requires
        is_stamp_of(seen, (Stamp { revisions: before, conflicted })),
        belongs(before, revision, at),
    ensures
        is_stamp_of(
            seen.push(revision),
            (Stamp {
                revisions: observed(before, revision, at),
                conflicted: conflicted || (present(before, revision, at) && before[at].at()
                    != revision.at()),
            }),
        ),
{
    let next = seen.push(revision);
    let after = observed(before, revision, at);
    lemma_observed_in_order(before, revision, at);
    assert forall|i: int| 0 <= i < after.len() implies #[trigger] next.contains(after[i]) by {
        lemma_observed_sources(seen, before, revision, at, i);
    }
    assert forall|j: int| 0 <= j < next.len() implies #[trigger] covers(after, next[j]) by {
        if j < seen.len() {
            assert(next[j] == seen[j]);
            assert(covers(before, seen[j]));
        }
        lemma_observed_covers(before, revision, at, next[j]);
    }
    lemma_observed_conflict(seen, before, revision, at);
}

proof fn lemma_disagreement_carries_push(seen: Seq<Revision>, revision: Revision)
    requires
        observations_disagree(seen),
    ensures
        observations_disagree(seen.push(revision)),
{
    let next = seen.push(revision);
    let (i, j) = choose|i: int, j: int|
        #![trigger seen[i], seen[j]]
        0 <= i < seen.len() && 0 <= j < seen.len() && seen[i].id() == seen[j].id()
            && seen[i].at() != seen[j].at();
    assert(next[i] == seen[i] && next[j] == seen[j]);
}

/// A deterministic snapshot of the content inputs observed by a retained-output producer.
///
/// Revisions are sorted by identity and deduplicated. If duplicate observations of one
/// identity disagree on generation the stamp is conflicted, and it lists the greatest
/// observed generation.
#[derive(Debug, Hash)]
pub struct ContentStamp {
    revisions: Vec<Revision>,
    conflicted: bool,
}

impl View for ContentStamp {
    type V = Stamp;

    closed spec fn view(&self) -> Stamp {
        Stamp { revisions: self.revisions@, conflicted: self.conflicted }
    }
}

impl ContentStamp {
    /// Returns the normalized content-input revisions.
    pub fn revisions(&self) -> (revisions: &[Revision])
        ensures
            revisions@ == self@.revisions,
    {
        self.revisions.as_slice()
    }

    /// Returns whether no content-change evidence was supplied.
    pub fn is_empty(&self) -> (empty: bool)
        ensures
            empty == (self@.revisions.len() == 0),
    {
        self.revisions.len() == 0
    }

    /// Returns whether duplicate observations disagreed on a generation.
    pub fn is_conflicted(&self) -> (conflicted: bool)
        ensures
            conflicted == self@.conflicted,
    {
        self.conflicted
    }

    /// Returns the generation at which a normalized stamp lists `identity`.
    pub fn generation_of(&self, identity: u64) -> (generation: Option<u64>)
        requires
            self@.normalized(),
        ensures
            generation == self@.generation_of(identity),
    {
        let at = position(&self.revisions, identity);
        if at < self.revisions.len() && self.revisions[at].identity == identity {
            proof {
                lemma_generation_of(self@, at as int);
            }
            Some(self.revisions[at].generation)
        } else {
            None
        }
    }
}

/// A normalized stamp lists each of its identities at one generation.
pub proof fn lemma_generation_of(stamp: Stamp, i: int)
    requires
        stamp.normalized(),
        0 <= i < stamp.revisions.len(),
    ensures
        stamp.generation_of(stamp.revisions[i].id()) == Some(stamp.revisions[i].at()),
{
    let identity = stamp.revisions[i].id();
    let k = choose|k: int|
        0 <= k < stamp.revisions.len() && (#[trigger] stamp.revisions[k]).id() == identity;
    if k < i {
        assert(stamp.revisions[k].id() < stamp.revisions[i].id());
    } else if i < k {
        assert(stamp.revisions[i].id() < stamp.revisions[k].id());
    }
}

impl Clone for ContentStamp {
    fn clone(&self) -> (stamp: Self)
        ensures
            stamp@ == self@,
    {
        let revisions = self.revisions.clone();
        assert(revisions@ =~= self.revisions@);
        ContentStamp { revisions, conflicted: self.conflicted }
    }
}

impl PartialEq for ContentStamp {
    fn eq(&self, other: &Self) -> (equal: bool) {
        if self.conflicted != other.conflicted || self.revisions.len() != other.revisions.len() {
            return false;
        }
        let mut index: usize = 0;
        while index < self.revisions.len()
            invariant
                index <= self.revisions@.len(),
                self.revisions@.len() == other.revisions@.len(),
                self.conflicted == other.conflicted,
                forall|i: int| 0 <= i < index ==> self.revisions@[i] == other.revisions@[i],
            decreases self.revisions@.len() - index,
        {
            if self.revisions[index] != other.revisions[index] {
                return false;
            }
            index = index + 1;
        }
        assert(self.revisions@ =~= other.revisions@);
        true
    }
}

impl vstd::std_specs::cmp::PartialEqSpecImpl for ContentStamp {
    open spec fn obeys_eq_spec() -> bool {
        true
    }

    open spec fn eq_spec(&self, other: &Self) -> bool {
        self@ == other@
    }
}

impl Eq for ContentStamp {}

/// Builds the normalized stamp of a list of observations.
pub fn content_stamp_from_revisions(revisions: Vec<Revision>) -> (stamp: ContentStamp)
    ensures
        is_stamp_of(revisions@, stamp@),
{
    let (revisions, conflicted) = normalize_revisions(revisions);

    ContentStamp { revisions, conflicted }
}

/// The identities of a list of handles, in order.
pub open spec fn handle_identities(handles: Seq<ContentChangeHandle>) -> Seq<u64> {
    handles.map_values(|handle: ContentChangeHandle| handle.id())
}

/// Strictly increasing numbers.
pub open spec fn increasing(values: Seq<u64>) -> bool {
    forall|i: int, j: int|
        #![trigger values[i], values[j]]
        0 <= i < j < values.len() ==> values[i] < values[j]
}

/// Whether `revisions` lists one observation of the content of each handle, in order.
pub open spec fn observes(handles: Seq<ContentChangeHandle>, revisions: Seq<Revision>) -> bool {
    &&& revisions.len() == handles.len()
    &&& forall|i: int|
        0 <= i < handles.len() ==> (#[trigger] revisions[i]).id() == handles[i].id()
}

/// Whether `revisions` lists what each handle's cell gave when it was read, in order.
pub open spec fn reads(handles: Seq<ContentChangeHandle>, revisions: Seq<Revision>) -> bool {
    &&& observes(handles, revisions)
    &&& forall|i: int|
        0 <= i < handles.len() ==> handles[i].has_read((#[trigger] revisions[i]).at())
}

pub proof fn lemma_increasing_is_determined(first: Seq<u64>, second: Seq<u64>)
    requires
        increasing(first),
        increasing(second),
        forall|i: int| 0 <= i < first.len() ==> #[trigger] second.contains(first[i]),
        forall|i: int| 0 <= i < second.len() ==> #[trigger] first.contains(second[i]),
    ensures
        first == second,
    decreases first.len(),
{
    if first.len() == 0 {
        if second.len() > 0 {
            assert(first.contains(second[0]));
        }
        assert(first =~= second);
    } else {
        let last = first.last();
        assert(second.contains(first[first.len() - 1]));
        let k = choose|k: int| 0 <= k < second.len() && second[k] == last;
        let top = second[second.len() - 1];
        assert(first.contains(second[second.len() - 1]));
        let m = choose|m: int| 0 <= m < first.len() && first[m] == top;
        assert(top == last) by {
            if k < second.len() - 1 {
                assert(second[k] < second[second.len() - 1]);
            }
            if m < first.len() - 1 {
                assert(first[m] < first[first.len() - 1]);
            }
        }
        let a = first.drop_last();
        let b = second.drop_last();
        assert forall|i: int| 0 <= i < a.len() implies #[trigger] b.contains(a[i]) by {
            assert(second.contains(first[i]));
            let n = choose|n: int| 0 <= n < second.len() && second[n] == first[i];
            assert(first[i] < first[first.len() - 1]);
            assert(b[n] == a[i]);
        }
        assert forall|i: int| 0 <= i < b.len() implies #[trigger] a.contains(b[i]) by {
            assert(first.contains(second[i]));
            let n = choose|n: int| 0 <= n < first.len() && first[n] == second[i];
            assert(second[i] < second[second.len() - 1]);
            assert(a[n] == b[i]);
        }
        lemma_increasing_is_determined(a, b);
        assert(first =~= a.push(last));
        assert(second =~= b.push(last));
    }
}

/// Whether `normalized` holds one of the handles of each identity, in order of identity.
pub open spec fn watches(
    handles: Seq<ContentChangeHandle>,
    normalized: Seq<ContentChangeHandle>,
) -> bool {
    &&& increasing(handle_identities(normalized))
    &&& forall|i: int| 0 <= i < normalized.len() ==> #[trigger] handles.contains(normalized[i])
    &&& forall|j: int|
        0 <= j < handles.len() ==> #[trigger] handle_identities(normalized).contains(
            handles[j].id(),
        )
}

/// Sorts handles by identity and keeps one handle of each identity.
pub fn normalize_content_handles(handles: Vec<ContentChangeHandle>) -> (normalized: Vec<
    ContentChangeHandle,
>)
    ensures
        watches(handles@, normalized@),
{
    let mut normalized: Vec<ContentChangeHandle> = Vec::with_capacity(handles.len());
    let mut index: usize = 0;
    while index < handles.len()
        invariant
            index <= handles@.len(),
            increasing(handle_identities(normalized@)),
            forall|i: int|
                0 <= i < normalized@.len() ==> #[trigger] handles@.contains(normalized@[i]),
            forall|j: int|
                0 <= j < index ==> #[trigger] handle_identities(normalized@).contains(
                    handles@[j].id(),
                ),
        decreases handles@.len() - index,
    {
        let identity: u64 = handles[index].identity;
        let ghost before = normalized@;
        let ghost known = handle_identities(before);
        let mut at: usize = 0;
        while at < normalized.len() && normalized[at].identity < identity
            invariant
                at <= normalized@.len(),
                normalized@ == before,
                known == handle_identities(before),
                forall|i: int| 0 <= i < at ==> #[trigger] known[i] < identity,
            decreases normalized@.len() - at,
        {
            at = at + 1;
        }
        if at < normalized.len() && normalized[at].identity == identity {
            assert(known[at as int] == identity);
        } else {
            normalized.insert(at, handles[index].clone());
            proof {
                let now = handle_identities(normalized@);
                assert(now =~= known.insert(at as int, identity));
                assert forall|i: int, j: int|
                    #![trigger now[i], now[j]]
                    0 <= i < j < now.len() implies now[i] < now[j] by {
                    if at < known.len() {
                        assert(known[at as int] > identity);
                    }
                    if j < at {
                        assert(known[i] < known[j]);
                    } else if j == at {
                        assert(known[i] < identity);
                    } else if i < at {
                        assert(known[i] < known[j - 1]);
                    } else if i == at {
                        if at < j - 1 {
                            assert(known[at as int] < known[j - 1]);
                        }
                    } else {
                        assert(known[i - 1] < known[j - 1]);
                    }
                }
                assert forall|i: int| 0 <= i < normalized@.len() implies
                    #[trigger] handles@.contains(normalized@[i]) by {
                    if i < at {
                        assert(handles@.contains(before[i]));
                    } else if i == at {
                        assert(handles@[index as int] == normalized@[i]);
                    } else {
                        assert(handles@.contains(before[i - 1]));
                    }
                }
                assert forall|j: int| 0 <= j < index implies #[trigger] now.contains(
                    handles@[j].id(),
                ) by {
                    assert(known.contains(handles@[j].id()));
                    let k = choose|k: int|
                        0 <= k < known.len() && known[k] == handles@[j].id();
                    if k < at {
                        assert(now[k] == known[k]);
                    } else {
                        assert(now[k + 1] == known[k]);
                    }
                }
                assert(now[at as int] == identity);
            }
        }
        index = index + 1;
    }
    normalized
}

/// Observes each handle once, in order.
fn read_revisions(handles: &[ContentChangeHandle]) -> (revisions: Vec<Revision>)
    ensures
        reads(handles@, revisions@),
{
    let mut revisions: Vec<Revision> = Vec::with_capacity(handles.len());
    let mut index: usize = 0;
    while index < handles.len()
        invariant
            index <= handles@.len(),
            reads(handles@.take(index as int), revisions@),
        decreases handles@.len() - index,
    {
        let revision = handles[index].revision();
        revisions.push(revision);
        index = index + 1;
    }
    assert(handles@.take(handles@.len() as int) =~= handles@);
    revisions
}

/// Observes a list of handles and returns the normalized stamp of what was observed.
pub fn content_stamp(content: &[ContentChangeHandle]) -> (stamp: ContentStamp)
    ensures
        exists|revisions: Seq<Revision>|
            #[trigger] reads(content@, revisions) && is_stamp_of(revisions, stamp@),
{
    content_stamp_from_revisions(read_revisions(content))
}

/// A stamp lists exactly the identities that were observed.
pub proof fn lemma_stamp_lists_observed_identities(
    handles: Seq<ContentChangeHandle>,
    revisions: Seq<Revision>,
    stamp: Stamp,
    normalized: Seq<u64>,
)
    requires
        observes(handles, revisions),
        is_stamp_of(revisions, stamp),
        increasing(normalized),
        forall|i: int|
            0 <= i < normalized.len() ==> #[trigger] handle_identities(handles).contains(
                normalized[i],
            ),
        forall|j: int| 0 <= j < handles.len() ==> #[trigger] normalized.contains(handles[j].id()),
    ensures
        stamp.identities() == normalized,
{
    let listed = stamp.identities();
    assert(increasing(listed)) by {
        assert forall|i: int, j: int|
            #![trigger listed[i], listed[j]]
            0 <= i < j < listed.len() implies listed[i] < listed[j] by {
            assert(stamp.revisions[i].id() < stamp.revisions[j].id());
        }
    }
    assert forall|i: int| 0 <= i < listed.len() implies #[trigger] normalized.contains(
        listed[i],
    ) by {
        assert(revisions.contains(stamp.revisions[i]));
        let k = choose|k: int| 0 <= k < revisions.len() && revisions[k] == stamp.revisions[i];
        assert(normalized.contains(handles[k].id()));
    }
    assert forall|i: int| 0 <= i < normalized.len() implies #[trigger] listed.contains(
        normalized[i],
    ) by {
        assert(handle_identities(handles).contains(normalized[i]));
        let k = choose|k: int|
            0 <= k < handles.len() && handle_identities(handles)[k] == normalized[i];
        assert(covers(stamp.revisions, revisions[k]));
        let m = choose|m: int|
            0 <= m < stamp.revisions.len() && (#[trigger] stamp.revisions[m]).id()
                == revisions[k].id() && revisions[k].at() <= stamp.revisions[m].at();
        assert(listed[m] == normalized[i]);
    }
    lemma_increasing_is_determined(listed, normalized);
}

/// Observations of handles in order of identity are listed as they are.
proof fn lemma_distinct_observations(
    handles: Seq<ContentChangeHandle>,
    revisions: Seq<Revision>,
    stamp: Stamp,
)
    requires
        observes(handles, revisions),
        increasing(handle_identities(handles)),
        is_stamp_of(revisions, stamp),
    ensures
        stamp.revisions == revisions,
{
    let identities = handle_identities(handles);
    assert(increasing_identities(revisions)) by {
        assert forall|i: int, j: int|
            #![trigger revisions[i], revisions[j]]
            0 <= i < j < revisions.len() implies revisions[i].id() < revisions[j].id() by {
            assert(identities[i] < identities[j]);
        }
    }
    assert forall|i: int| 0 <= i < revisions.len() implies #[trigger] stamp.revisions.contains(
        revisions[i],
    ) by {
        assert(covers(stamp.revisions, revisions[i]));
        let k = choose|k: int|
            0 <= k < stamp.revisions.len() && (#[trigger] stamp.revisions[k]).id()
                == revisions[i].id() && revisions[i].at() <= stamp.revisions[k].at();
        assert(revisions.contains(stamp.revisions[k]));
        let m = choose|m: int| 0 <= m < revisions.len() && revisions[m] == stamp.revisions[k];
        assert(m == i) by {
            if m < i {
                assert(revisions[m].id() < revisions[i].id());
            } else if i < m {
                assert(revisions[i].id() < revisions[m].id());
            }
        }
    }
    lemma_increasing_same_elements(stamp.revisions, revisions);
}

/// Whether `later` observes the same content as `earlier` and no generation went back.
pub open spec fn advances(earlier: Stamp, later: Stamp) -> bool {
    &&& later.identities() == earlier.identities()
    &&& forall|i: int|
        #![trigger earlier.revisions[i]]
        #![trigger later.revisions[i]]
        0 <= i < earlier.revisions.len() ==> earlier.revisions[i].at() <= later.revisions[i].at()
}

proof fn lemma_same_identities(a: Stamp, b: Stamp, i: int)
    requires
        a.identities() == b.identities(),
        0 <= i < a.revisions.len(),
    ensures
        a.revisions.len() == b.revisions.len(),
        a.revisions[i].id() == b.revisions[i].id(),
{
    let (left, right) = (a.identities(), b.identities());
    assert(left.len() == a.revisions.len() && right.len() == b.revisions.len());
    assert(left[i] == a.revisions[i].id());
    assert(right[i] == b.revisions[i].id());
}

/// Evidence is current exactly if it is usable and every observed handle still has the
/// generation that the evidence lists.
pub proof fn currency_compares_generations(request: CacheRequest, current: Stamp)
    requires
        request.wf(),
        request.may_observe(current),
    ensures
        request.evidence().usable() && current == request.evidence()
            <==> request.evidence().usable() && forall|i: int|
            #![trigger current.revisions[i]]
            0 <= i < current.revisions.len() ==> current.revisions[i].at()
                == request.evidence().revisions[i].at(),
{
    let evidence = request.evidence();
    if evidence.usable() && forall|i: int|
        #![trigger current.revisions[i]]
        0 <= i < current.revisions.len() ==> current.revisions[i].at()
            == evidence.revisions[i].at() {
        lemma_same_identities(evidence, current, 0);
        assert forall|i: int| 0 <= i < current.revisions.len() implies current.revisions[i]
            == evidence.revisions[i] by {
            lemma_same_identities(evidence, current, i);
        }
        assert(current.revisions =~= evidence.revisions);
    }
}

/// A mark is noticed: once the content of an observed handle was marked changed, over the
/// generation that the evidence lists or a newer one, the evidence is no longer current.
pub proof fn marked_content_is_not_current(
    request: CacheRequest,
    current: Stamp,
    i: int,
    replaced: u64,
    generation: u64,
)
    requires
        request.wf(),
        request.may_observe(current),
        0 <= i < request.watched().len(),
        request.evidence().revisions[i].at() <= replaced,
        published(Ok(replaced)) == Some(generation),
        generation <= current.revisions[i].at(),
    ensures
        current != request.evidence(),
{
    marked_content_has_another_revision(
        request.evidence().revisions[i],
        current.revisions[i],
        replaced,
        generation,
    );
}

/// Evidence that is no longer current never becomes so again, because generations never go
/// back.
pub proof fn stale_evidence_stays_stale(evidence: Stamp, earlier: Stamp, later: Stamp)
    requires
        !earlier.conflicted,
        advances(evidence, earlier),
        advances(earlier, later),
        !(evidence.usable() && earlier == evidence),
    ensures
        !(evidence.usable() && later == evidence),
{
    if evidence.usable() && later == evidence {
        lemma_same_identities(evidence, earlier, 0);
        assert forall|i: int| 0 <= i < evidence.revisions.len() implies earlier.revisions[i]
            == evidence.revisions[i] by {
            lemma_same_identities(evidence, earlier, i);
        }
        assert(earlier.revisions =~= evidence.revisions);
        assert(earlier =~= evidence);
    }
}

/// A request to keep one cached isolated-layer output slot resident for the current frame.
///
/// A keep-alive addresses only the output slot and its residency priority. It never
/// creates pixels, updates the slot's stored input signature, or grants permission to
/// reuse its output.
#[derive(Debug, Clone, Copy, PartialEq, Eq, Hash, Structural)]
pub struct CacheKeepAlive {
    identity: u64,
    priority: CacheResidencyPriority,
}

impl CacheKeepAlive {
    /// The output slot that is addressed.
    pub closed spec fn slot(self) -> u64 {
        self.identity
    }

    /// The requested residency priority.
    pub closed spec fn residency(self) -> CacheResidencyPriority {
        self.priority
    }

    /// Returns the stable output-slot identity.
    pub fn identity(&self) -> (identity: u64)
        ensures
            identity == self.slot(),
    {
        self.identity
    }

    /// Returns the requested eviction priority.
    pub fn priority(&self) -> (priority: CacheResidencyPriority)
        ensures
            priority == self.residency(),
    {
        self.priority
    }
}

/// A request to cache the final pre-composite output of an isolated layer.
///
/// The output slot is separate from the content revisions in the stamp. The retained
/// output is reusable only when the complete layer input signature matches; this request
/// supplies its content-change component.
#[derive(Debug)]
pub struct CacheRequest {
    identity: u64,
    stamp: ContentStamp,
    observed_content: Vec<ContentChangeHandle>,
    priority: CacheResidencyPriority,
}

impl CacheRequest {
    /// The output slot that is addressed.
    pub closed spec fn slot(self) -> u64 {
        self.identity
    }

    /// The requested residency priority.
    pub closed spec fn residency(self) -> CacheResidencyPriority {
        self.priority
    }

    /// What had been observed when the request was made.
    pub closed spec fn evidence(self) -> Stamp {
        self.stamp@
    }

    /// The handles whose content the request observes, in order of identity.
    pub closed spec fn watched(self) -> Seq<ContentChangeHandle> {
        self.observed_content@
    }

    /// The identities that the request observes, in order.
    pub open spec fn observed(self) -> Seq<u64> {
        handle_identities(self.watched())
    }

    /// The stamp is normalized and lists exactly the observed identities.
    pub open spec fn wf(self) -> bool {
        &&& self.evidence().normalized()
        &&& increasing(self.observed())
        &&& self.evidence().identities() == self.observed()
    }

    /// Whether `current` is an observation of the same content.
    pub open spec fn may_observe(self, current: Stamp) -> bool {
        &&& current.normalized()
        &&& !current.conflicted
        &&& current.identities() == self.observed()
    }

    /// Whether `current` is what reading the cell of each observed handle may have given.
    pub open spec fn has_observed(self, current: Stamp) -> bool {
        &&& self.may_observe(current)
        &&& reads(self.watched(), current.revisions)
    }

    /// Returns the stable output-slot identity.
    pub fn identity(&self) -> (identity: u64)
        ensures
            identity == self.slot(),
    {
        self.identity
    }

    /// Returns the requested eviction priority.
    pub fn priority(&self) -> (priority: CacheResidencyPriority)
        ensures
            priority == self.residency(),
    {
        self.priority
    }

    /// Returns the normalized content revisions observed when this request was created.
    pub fn revisions(&self) -> (revisions: &[Revision])
        ensures
            revisions@ == self.evidence().revisions,
    {
        self.stamp.revisions()
    }

    /// Returns the normalized content stamp observed when this request was created.
    pub fn stamp(&self) -> (stamp: &ContentStamp)
        ensures
            stamp@ == self.evidence(),
    {
        &self.stamp
    }

    /// Returns whether this request contains at least one content-change observation.
    pub fn has_content_evidence(&self) -> (has: bool)
        ensures
            has == (self.evidence().revisions.len() > 0),
    {
        !self.stamp.is_empty()
    }

    /// Returns whether duplicate observations disagreed on a generation.
    pub fn is_conflicted(&self) -> (conflicted: bool)
        ensures
            conflicted == self.evidence().conflicted,
    {
        self.stamp.is_conflicted()
    }

    /// Observes the current generations of the same normalized content handles.
    pub fn current_stamp(&self) -> (current: ContentStamp)
        requires
            self.wf(),
        ensures
            self.has_observed(current@),
    {
        let current = content_stamp(self.observed_content.as_slice());
        proof {
            let handles = self.observed_content@;
            let revisions = choose|revisions: Seq<Revision>|
                #[trigger] reads(handles, revisions) && is_stamp_of(revisions, current@);
            let identities = self.observed();
            assert forall|j: int| 0 <= j < handles.len() implies #[trigger] identities.contains(
                handles[j].id(),
            ) by {
                assert(identities[j] == handles[j].id());
            }
            lemma_stamp_lists_observed_identities(handles, revisions, current@, identities);
            if observations_disagree(revisions) {
                let (i, j) = choose|i: int, j: int|
                    #![trigger revisions[i], revisions[j]]
                    0 <= i < revisions.len() && 0 <= j < revisions.len() && revisions[i].id()
                        == revisions[j].id() && revisions[i].at() != revisions[j].at();
                assert(identities[i] == identities[j]);
                if i < j {
                    assert(identities[i] < identities[j]);
                } else if j < i {
                    assert(identities[j] < identities[i]);
                }
            }
            lemma_distinct_observations(handles, revisions, current@);
        }
        current
    }

    /// Returns whether `current` shows that this request still has sufficient, unconflicted,
    /// unchanged evidence.
    pub fn is_current_at(&self, current: &ContentStamp) -> (is_current: bool)
        ensures
            is_current == (self.evidence().usable() && current@ == self.evidence()),
    {
        self.has_content_evidence() && !self.stamp.is_conflicted() && *current == self.stamp
    }

    /// Returns whether this request still has sufficient, unconflicted, unchanged evidence.
    ///
    /// Empty evidence fails closed. A caller caching intentionally static content should
    /// observe a never-marked [`ContentChangeHandle`].
    pub fn is_current(&self) -> (is_current: bool)
        requires
            self.wf(),
        ensures
            exists|current: Stamp|
                #[trigger] self.has_observed(current) && is_current == (self.evidence().usable()
                    && current == self.evidence()),
    {
        let current = self.current_stamp();
        self.is_current_at(&current)
    }

    /// Creates a request for the same output slot from an observation of the same content.
    pub fn resnapshot_at(&self, current: ContentStamp) -> (request: Self)
        requires
            self.wf(),
            self.may_observe(current@),
        ensures
            request.wf(),
            request.evidence() == current@,
            request.slot() == self.slot(),
            request.residency() == self.residency(),
            request.watched() == self.watched(),
    {
        CacheRequest {
            identity: self.identity,
            stamp: current,
            observed_content: clone_handles(&self.observed_content),
            priority: self.priority,
        }
    }

    /// Creates a request for the same output slot from the currently observed generations.
    pub fn resnapshot(&self) -> (request: Self)
        requires
            self.wf(),
        ensures
            request.wf(),
            self.has_observed(request.evidence()),
            request.slot() == self.slot(),
            request.residency() == self.residency(),
            request.watched() == self.watched(),
    {
        self.resnapshot_at(self.current_stamp())
    }
}

fn clone_handles(handles: &Vec<ContentChangeHandle>) -> (cloned: Vec<ContentChangeHandle>)
    ensures
        cloned@ == handles@,
{
    let mut cloned: Vec<ContentChangeHandle> = Vec::with_capacity(handles.len());
    let mut index: usize = 0;
    while index < handles.len()
        invariant
            index <= handles@.len(),
            cloned@ == handles@.take(index as int),
        decreases handles@.len() - index,
    {
        cloned.push(handles[index].clone());
        index = index + 1;
    }
    cloned
}

impl Clone for CacheRequest {
    fn clone(&self) -> (request: Self)
        ensures
            request.slot() == self.slot(),
            request.residency() == self.residency(),
            request.evidence() == self.evidence(),
            request.watched() == self.watched(),
    {
        CacheRequest {
            identity: self.identity,
            stamp: self.stamp.clone(),
            observed_content: clone_handles(&self.observed_content),
            priority: self.priority,
        }
    }
}

fn same_handles(a: &Vec<ContentChangeHandle>, b: &Vec<ContentChangeHandle>) -> (same: bool)
    ensures
        same == (handle_identities(a@) == handle_identities(b@)),
{
    if a.len() != b.len() {
        assert(handle_identities(a@).len() != handle_identities(b@).len());
        return false;
    }
    let mut index: usize = 0;
    while index < a.len()
        invariant
            index <= a@.len(),
            a@.len() == b@.len(),
            forall|i: int| 0 <= i < index ==> (#[trigger] a@[i]).id() == b@[i].id(),
        decreases a@.len() - index,
    {
        if a[index] != b[index] {
            assert(handle_identities(a@)[index as int] != handle_identities(b@)[index as int]);
            return false;
        }
        index = index + 1;
    }
    assert(handle_identities(a@) =~= handle_identities(b@));
    true
}

impl PartialEq for CacheRequest {
    fn eq(&self, other: &Self) -> (equal: bool) {
        self.identity == other.identity && self.stamp == other.stamp && same_handles(
            &self.observed_content,
            &other.observed_content,
        ) && self.priority == other.priority
    }
}

impl vstd::std_specs::cmp::PartialEqSpecImpl for CacheRequest {
    open spec fn obeys_eq_spec() -> bool {
        true
    }

    open spec fn eq_spec(&self, other: &Self) -> bool {
        &&& self.slot() == other.slot()
        &&& self.evidence() == other.evidence()
        &&& self.observed() == other.observed()
        &&& self.residency() == other.residency()
    }
}

impl Eq for CacheRequest {}

/// Residency authority for one backend-agnostic retained layer-output slot.
///
/// Reuse a handle across rebuilds or moves of the same logical producer. Distinct
/// producers should use distinct handles. This identity says where an output may be
/// retained; it is not evidence that the pixels are unchanged.
#[derive(Debug, PartialEq, Eq, Hash, Structural)]
pub struct SurfaceHandle {
    identity: u64,
}

impl SurfaceHandle {
    /// The output slot that the handle names.
    pub closed spec fn slot(self) -> u64 {
        self.identity
    }

    /// Creates a new logical output-slot identity.
    pub fn new(identities: &mut IdentitySource) -> (handle: Self)
        requires
            old(identities)@ < u64::MAX,
        ensures
            handle.slot() == old(identities)@,
            final(identities)@ == old(identities)@ + 1,
    {
        SurfaceHandle { identity: identities.next_identity() }
    }

    /// Returns the stable output-slot identity.
    pub fn identity(&self) -> (identity: u64)
        ensures
            identity == self.slot(),
    {
        self.identity
    }

    /// Creates a normal-priority output-cache request from caller-managed content evidence.
    pub fn cache_request(&self, content: &[&ContentChangeHandle]) -> (request: CacheRequest)
        ensures
            self.requests(content@, CacheResidencyPriority::Normal, request),
    {
        self.cache_request_with(CacheResidencyPriority::Normal, content)
    }

    /// Whether `request` addresses this slot with one observation of each handle.
    pub open spec fn requests(
        self,
        content: Seq<&ContentChangeHandle>,
        priority: CacheResidencyPriority,
        request: CacheRequest,
    ) -> bool {
        let handles = content.map_values(|handle: &ContentChangeHandle| *handle);
        &&& request.wf()
        &&& request.slot() == self.slot()
        &&& request.residency() == priority
        &&& watches(handles, request.watched())
        &&& exists|revisions: Seq<Revision>|
            #[trigger] reads(handles, revisions) && is_stamp_of(revisions, request.evidence())
    }

    /// Creates an output-cache request with an explicit residency priority.
    pub fn cache_request_with(
        &self,
        priority: CacheResidencyPriority,
        content: &[&ContentChangeHandle],
    ) -> (request: CacheRequest)
        ensures
            self.requests(content@, priority, request),
    {
        let mut handles: Vec<ContentChangeHandle> = Vec::with_capacity(content.len());
        let mut revisions: Vec<Revision> = Vec::with_capacity(content.len());
        let mut index: usize = 0;
        let ghost all = content@.map_values(|handle: &ContentChangeHandle| *handle);
        while index < content.len()
            invariant
                index <= content@.len(),
                all == content@.map_values(|handle: &ContentChangeHandle| *handle),
                handles@ == all.take(index as int),
                reads(handles@, revisions@),
            decreases content@.len() - index,
        {
            let handle = content[index].clone();
            let revision = handle.revision();
            handles.push(handle);
            revisions.push(revision);
            index = index + 1;
        }
        assert(handles@ =~= all);
        self.cache_request_observed(priority, handles, revisions)
    }

    /// Creates an output-cache request from handles and one observation of each.
    pub fn cache_request_observed(
        &self,
        priority: CacheResidencyPriority,
        handles: Vec<ContentChangeHandle>,
        revisions: Vec<Revision>,
    ) -> (request: CacheRequest)
        requires
            observes(handles@, revisions@),
        ensures
            request.wf(),
            request.slot() == self.slot(),
            request.residency() == priority,
            watches(handles@, request.watched()),
            is_stamp_of(revisions@, request.evidence()),
    {
        let ghost all = handles@;
        let stamp = content_stamp_from_revisions(revisions);
        let observed_content = normalize_content_handles(handles);
        proof {
            let normalized = handle_identities(observed_content@);
            assert forall|i: int| 0 <= i < normalized.len() implies
                #[trigger] handle_identities(all).contains(normalized[i]) by {
                assert(all.contains(observed_content@[i]));
                let k = choose|k: int| 0 <= k < all.len() && all[k] == observed_content@[i];
                assert(handle_identities(all)[k] == normalized[i]);
            }
            lemma_stamp_lists_observed_identities(all, revisions@, stamp@, normalized);
        }
        CacheRequest { identity: self.identity, stamp, observed_content, priority }
    }

    /// Creates a normal-priority identity-only keep-alive request.
    pub fn cache_keep_alive(&self) -> (keep_alive: CacheKeepAlive)
        ensures
            keep_alive.slot() == self.slot(),
            keep_alive.residency() == CacheResidencyPriority::Normal,
    {
        self.cache_keep_alive_with(CacheResidencyPriority::Normal)
    }

    /// Creates an identity-only keep-alive request with an explicit residency priority.
    pub fn cache_keep_alive_with(&self, priority: CacheResidencyPriority) -> (keep_alive:
        CacheKeepAlive)
        ensures
            keep_alive.slot() == self.slot(),
            keep_alive.residency() == priority,
    {
        CacheKeepAlive { identity: self.identity, priority }
    }
}

impl Clone for SurfaceHandle {
    fn clone(&self) -> (handle: Self)
        ensures
            handle == *self,
    {
        SurfaceHandle { identity: self.identity }
    }
}

/// A stamp lists every observed identity at the newest generation that was observed of it, and
/// nothing that was not observed. Two generations of one identity make it conflicted and of no
/// use; a stamp is conflicted for no other reason.
pub proof fn stamps_list_the_newest_observations(
    observations: Seq<Revision>,
    stamp: Stamp,
    i: int,
    j: int,
)
    requires
        is_stamp_of(observations, stamp),
        0 <= j < observations.len(),
    ensures
        stamp.identities().contains(observations[j].id()),
        0 <= i < stamp.revisions.len() ==> observations.contains(stamp.revisions[i]),
        0 <= i < stamp.revisions.len() && stamp.revisions[i].id() == observations[j].id()
            ==> observations[j].at() <= stamp.revisions[i].at(),
        0 <= i < observations.len() && observations[i].id() == observations[j].id()
            && observations[i].at() != observations[j].at() ==> stamp.conflicted && !stamp.usable(),
        (forall|k: int, l: int|
            #![trigger observations[k], observations[l]]
            0 <= k < observations.len() && 0 <= l < observations.len() && observations[k].id()
                == observations[l].id() ==> observations[k].at() == observations[l].at())
            ==> !stamp.conflicted && stamp.usable(),
        0 <= i < stamp.revisions.len() - 1 ==> stamp.revisions[i].id() < stamp.revisions[i
            + 1].id(),
{
    assert(covers(stamp.revisions, observations[j]));
    let k = choose|k: int|
        0 <= k < stamp.revisions.len() && (#[trigger] stamp.revisions[k]).id()
            == observations[j].id() && observations[j].at() <= stamp.revisions[k].at();
    assert(stamp.identities()[k] == observations[j].id());
    if 0 <= i < stamp.revisions.len() && stamp.revisions[i].id() == observations[j].id() {
        if i < k {
            assert(stamp.revisions[i].id() < stamp.revisions[k].id());
        } else if k < i {
            assert(stamp.revisions[k].id() < stamp.revisions[i].id());
        }
    }
}

/// A mark publishes the generation right after the one that it replaces. Only the last
/// generation has none after it.
pub proof fn marks_publish_the_following_generation(replaced: u64)
    ensures
        replaced < u64::MAX ==> (published(Ok(replaced)) matches Some(generation) && generation
            == replaced + 1),
        published(Ok(u64::MAX)) is None,
        published(Err(replaced)) is None,
{
}

/// A request watches every handle that it was made of, one for each identity, and its evidence
/// lists the generations that were read from them.
pub proof fn requests_watch_all_their_content(
    surface: SurfaceHandle,
    content: Seq<&ContentChangeHandle>,
    priority: CacheResidencyPriority,
    request: CacheRequest,
    i: int,
    j: int,
)
    requires
        surface.requests(content, priority, request),
        0 <= j < content.len(),
    ensures
        request.slot() == surface.slot(),
        request.residency() == priority,
        request.observed().contains(content[j].id()),
        request.evidence().identities().contains(content[j].id()),
        0 <= i < request.watched().len() ==> exists|k: int|
            0 <= k < content.len() && *(#[trigger] content[k]) == request.watched()[i],
        0 <= i < request.evidence().revisions.len() ==> exists|k: int|
            0 <= k < content.len() && (#[trigger] content[k]).id()
                == request.evidence().revisions[i].id() && content[k].has_read(
                request.evidence().revisions[i].at(),
            ),
{
    let handles = content.map_values(|handle: &ContentChangeHandle| *handle);
    let revisions = choose|revisions: Seq<Revision>|
        #[trigger] reads(handles, revisions) && is_stamp_of(revisions, request.evidence());
    assert(handles[j] == *content[j]);
    assert(handle_identities(request.watched()).contains(handles[j].id()));
    if 0 <= i < request.watched().len() {
        assert(handles.contains(request.watched()[i]));
        let k = choose|k: int| 0 <= k < handles.len() && handles[k] == request.watched()[i];
        assert(*content[k] == request.watched()[i]);
    }
    if 0 <= i < request.evidence().revisions.len() {
        assert(revisions.contains(request.evidence().revisions[i]));
        let k = choose|k: int|
            0 <= k < revisions.len() && revisions[k] == request.evidence().revisions[i];
        assert(handles[k] == *content[k]);
        assert(revisions[k].id() == handles[k].id());
        assert(content[k].id() == request.evidence().revisions[i].id());
    }
}

/// Handles are equal exactly if they stand for the same content, stamps if they list the same
/// generations and agree on a conflict, and requests if slot, priority, observed content and
/// evidence are the same.
pub proof fn equality_tells_content_apart(
    handle: ContentChangeHandle,
    other_handle: ContentChangeHandle,
    stamp: ContentStamp,
    other_stamp: ContentStamp,
    request: CacheRequest,
    other_request: CacheRequest,
)
    ensures
        PartialEqSpec::eq_spec(&handle, &other_handle) <==> handle.id() == other_handle.id(),
        PartialEqSpec::eq_spec(&stamp, &other_stamp) <==> stamp@.revisions
            == other_stamp@.revisions && stamp@.conflicted == other_stamp@.conflicted,
        PartialEqSpec::eq_spec(&request, &other_request) <==> {
            &&& request.slot() == other_request.slot()
            &&& request.residency() == other_request.residency()
            &&& request.evidence() == other_request.evidence()
            &&& handle_identities(request.watched()) == handle_identities(other_request.watched())
        },
{
}

/// An observation lists every watched handle once and in order, at the generation that was read
/// from its cell, and has no conflict.
pub proof fn observations_are_read_from_their_handles(request: CacheRequest, current: Stamp, i: int)
    requires
        request.has_observed(current),
        0 <= i < request.watched().len(),
    ensures
        current.revisions.len() == request.watched().len(),
        current.revisions[i].id() == request.watched()[i].id(),
        request.watched()[i].has_read(current.revisions[i].at()),
        !current.conflicted,
        current.usable(),
{
}

/// Whoever marks content gets a generation above the first one.
pub proof fn marks_never_publish_the_first_generation(handle: ContentChangeHandle, generation: u64)
    requires
        handle.has_marked(Some(generation)),
    ensures
        generation >= 1,
{
}

/// Normalized handles are in order of identity, one of those that were given for each identity.
pub proof fn normalized_handles_are_sorted_and_complete(
    handles: Seq<ContentChangeHandle>,
    normalized: Seq<ContentChangeHandle>,
    i: int,
    j: int,
)
    requires
        watches(handles, normalized),
    ensures
        0 <= i < j < normalized.len() ==> normalized[i].id() < normalized[j].id(),
        0 <= i < normalized.len() ==> handles.contains(normalized[i]),
        0 <= j < handles.len() ==> exists|k: int|
            0 <= k < normalized.len() && (#[trigger] normalized[k]).id() == handles[j].id(),
{
    let identities = handle_identities(normalized);
    if 0 <= i < j < normalized.len() {
        assert(identities[i] < identities[j]);
    }
    if 0 <= j < handles.len() {
        assert(identities.contains(handles[j].id()));
        let k = choose|k: int| 0 <= k < identities.len() && identities[k] == handles[j].id();
        assert(normalized[k].id() == handles[j].id());
    }
}

} // verus!
