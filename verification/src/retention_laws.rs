//! What retention promises across operations.

use crate::content::{
    increasing, lemma_generation_of, lemma_increasing_is_determined, CacheKeepAlive, CacheRequest,
    CacheResidencyPriority, Stamp,
};
use crate::ordered::{enumerates, lemma_enumerable, lemma_in_order, lemma_listing_length};
use crate::output_key::Signature;
use crate::retained::{
    advances, classified, count, elapsed, is_advance, kept_alive, leasing, lookup_of, raised,
    regresses, saturated, slot_storing, storing, submission_of, unequal_stamps_move, within,
    EvictedTarget, EvictionTier, LeaseKind, LeaseTicket, Lookup, OutputMiss, OutputTarget, Outputs,
    Slot, StampDisposition, StoreDisposition, Submission,
};
use vstd::prelude::*;

verus! {

/// A hit hands out exactly the committed target whose complete signature matches, from
/// usable evidence that is still current.
pub proof fn hits_match_exactly<T>(outputs: Outputs<T>, lookup: Lookup)
    requires
        leasing(outputs, lookup).lease.valid,
    ensures
        outputs.slots.contains_key(lookup.identity),
        outputs.slots[lookup.identity].active is None,
        outputs.slots[lookup.identity].committed matches Some(output) && output.key.matching(
            lookup.key,
        ) && leasing(outputs, lookup).lease.target == Some(output.target),
        lookup.evidence.usable(),
        lookup.current == lookup.evidence,
        !lookup.key.evidence.volatile,
{
}

/// A lookup hands out a target exactly on a hit, gives a miss reason exactly when it is no
/// hit, and grants a ticket exactly when the result may be stored.
pub proof fn leases_are_coherent<T>(outputs: Outputs<T>, lookup: Lookup)
    ensures
        leasing(outputs, lookup).lease.valid == leasing(outputs, lookup).lease.target is Some,
        leasing(outputs, lookup).lease.valid == leasing(outputs, lookup).lease.miss is None,
        leasing(outputs, lookup).lease.cacheable == leasing(outputs, lookup).lease.ticket is Some,
        leasing(outputs, lookup).lease.valid ==> leasing(outputs, lookup).lease.cacheable,
{
}

/// Empty, conflicted, volatile or changed evidence never reaches a retained output and
/// creates no slot.
pub proof fn insufficient_evidence_fails_closed<T>(outputs: Outputs<T>, lookup: Lookup)
    requires
        !lookup.evidence.usable() || lookup.key.evidence.volatile || lookup.current
            != lookup.evidence,
    ensures
        !leasing(outputs, lookup).lease.valid,
        !leasing(outputs, lookup).lease.cacheable,
        leasing(outputs, lookup).outputs.slots.dom() == outputs.slots.dom(),
        outputs.slots.contains_key(lookup.identity) ==> leasing(
            outputs,
            lookup,
        ).outputs.slots[lookup.identity].committed == outputs.slots[lookup.identity].committed,
{
    assert(leasing(outputs, lookup).outputs.slots.dom() =~= outputs.slots.dom());
}

/// A request without any content evidence is told so.
pub proof fn missing_evidence_is_reported<T>(outputs: Outputs<T>, lookup: Lookup)
    requires
        lookup.evidence.revisions.len() == 0,
    ensures
        leasing(outputs, lookup).lease.miss == Some(OutputMiss::MissingContentEvidence),
{
}

/// A lookup touches no slot but its own.
pub proof fn lookups_are_local<T>(outputs: Outputs<T>, lookup: Lookup, other: u64)
    requires
        other != lookup.identity,
    ensures
        leasing(outputs, lookup).outputs.slots.contains_key(other) == outputs.slots.contains_key(
            other,
        ),
        outputs.slots.contains_key(other) ==> leasing(outputs, lookup).outputs.slots[other]
            == outputs.slots[other],
{
}

/// A store touches no slot but its own.
pub proof fn stores_are_local<T>(outputs: Outputs<T>, submission: Submission<T>, other: u64)
    requires
        other != submission.identity,
    ensures
        storing(outputs, submission).outputs.slots.contains_key(other)
            == outputs.slots.contains_key(other),
        outputs.slots.contains_key(other) ==> storing(outputs, submission).outputs.slots[other]
            == outputs.slots[other],
{
}

/// What was stored is what the next matching lookup finds.
pub proof fn stored_output_is_found_again<T>(
    outputs: Outputs<T>,
    submission: Submission<T>,
    lookup: Lookup,
)
    requires
        outputs.wf(),
        storing(outputs, submission).disposition == StoreDisposition::Stored,
        lookup.identity == submission.identity,
        lookup.evidence == submission.evidence,
        lookup.current == submission.evidence,
        !lookup.key.evidence.volatile,
        submission.fresh_key.matching(lookup.key),
    ensures
        leasing(storing(outputs, submission).outputs, lookup).lease.valid,
        leasing(storing(outputs, submission).outputs, lookup).lease.target == Some(
            submission.target,
        ),
{
}

/// Replacing an output releases exactly the output that it replaces: a slot keeps no
/// history.
pub proof fn storing_replaces_the_sole_output<T>(outputs: Outputs<T>, submission: Submission<T>)
    requires
        storing(outputs, submission).disposition == StoreDisposition::Stored,
    ensures
        storing(outputs, submission).outputs.slots[submission.identity].committed matches Some(
            output,
        ) && output.key == submission.fresh_key && output.target == submission.target,
        storing(outputs, submission).released == (match outputs.slots[submission.identity].committed {
            Some(replaced) => seq![replaced.target],
            None => Seq::empty(),
        }),
{
}

/// A store that is turned away leaves a committed output in place and hands the candidate
/// back.
pub proof fn rejected_stores_preserve_the_output<T>(
    outputs: Outputs<T>,
    submission: Submission<T>,
)
    requires
        storing(outputs, submission).disposition != StoreDisposition::Stored,
        outputs.slots.contains_key(submission.identity),
        outputs.slots[submission.identity].committed is Some,
    ensures
        storing(outputs, submission).outputs.slots[submission.identity].committed
            == outputs.slots[submission.identity].committed,
        storing(outputs, submission).released == seq![submission.target],
{
}

/// A target handed out on a hit and returned late or unfit goes back under the key it was
/// leased with, so a later matching lookup still finds it.
pub proof fn returned_hits_stay_resident<T>(outputs: Outputs<T>, submission: Submission<T>)
    requires
        outputs.slots.contains_key(submission.identity),
        outputs.slots[submission.identity].committed is None,
        outputs.slots[submission.identity].active matches Some(active) && active.kind
            == LeaseKind::Hit && active.ticket == submission.ticket,
    ensures
        storing(outputs, submission).released.len() == 0,
        storing(outputs, submission).outputs.slots[submission.identity].committed matches Some(
            output,
        ) && output.target == submission.target,
{
}

/// Two producers that want one slot in turn spoil the first lease: its store is turned
/// away, and the old output stays.
pub proof fn competing_writers_invalidate_the_first_lease<T>(
    outputs: Outputs<T>,
    lookup: Lookup,
    submission: Submission<T>,
)
    requires
        lookup.refusal() is None,
        outputs.slots.contains_key(lookup.identity),
        outputs.slots[lookup.identity].active matches Some(active) && active.ticket
            == submission.ticket,
        submission.identity == lookup.identity,
    ensures
        leasing(outputs, lookup).lease.miss == Some(OutputMiss::CompetingWriter),
        !leasing(outputs, lookup).lease.cacheable,
        leasing(outputs, lookup).outputs.slots[lookup.identity].committed
            == outputs.slots[lookup.identity].committed,
        storing(leasing(outputs, lookup).outputs, submission).disposition
            == StoreDisposition::CompetingWriter,
{
}

/// Content that moved on while a lease was active keeps the rendered target out.
pub proof fn changed_content_is_never_stored<T>(outputs: Outputs<T>, submission: Submission<T>)
    requires
        submission.current != submission.evidence,
    ensures
        storing(outputs, submission).disposition != StoreDisposition::Stored,
{
}

/// A keep-alive creates no slot and changes no signature, target, lease or content record.
pub proof fn keep_alives_only_mark<T>(
    outputs: Outputs<T>,
    keep_alive: CacheKeepAlive,
    frame: u64,
    identity: u64,
)
    ensures
        kept_alive(outputs, keep_alive, frame).slots.contains_key(identity)
            == outputs.slots.contains_key(identity),
        outputs.slots.contains_key(identity) ==> {
            let before = outputs.slots[identity];
            let after = kept_alive(outputs, keep_alive, frame).slots[identity];
            &&& after.committed == before.committed
            &&& after.active == before.active
            &&& after.latest_stamp == before.latest_stamp
            &&& after.watermarks == before.watermarks
            &&& after.last_used == before.last_used
        },
{
}

/// Residency requests of one frame that disagree resolve to normal priority, in whichever
/// order they come, and stay there for the rest of the frame.
pub proof fn priority_disagreement_resolves_to_normal<T>(
    slot: Slot<T>,
    first: CacheResidencyPriority,
    second: CacheResidencyPriority,
    third: CacheResidencyPriority,
    frame: u64,
)
    requires
        first != second,
    ensures
        slot.marked(first, frame).marked(second, frame).priority
            == CacheResidencyPriority::Normal,
        slot.marked(first, frame).disagrees(second, frame),
        slot.marked(first, frame).marked(second, frame).marked(third, frame).priority
            == CacheResidencyPriority::Normal,
        slot.marked(first, frame).marked(second, frame).disagrees(third, frame),
{
}

/// Stale or contradictory content reaches no output.
pub proof fn regressed_content_fails_closed<T>(outputs: Outputs<T>, lookup: Lookup)
    requires
        outputs.slots.contains_key(lookup.identity),
        classified(
            outputs.slots[lookup.identity].latest_stamp,
            outputs.slots[lookup.identity].watermarks,
            lookup.evidence,
        ) == StampDisposition::Stale || classified(
            outputs.slots[lookup.identity].latest_stamp,
            outputs.slots[lookup.identity].watermarks,
            lookup.evidence,
        ) == StampDisposition::Incomparable,
    ensures
        !leasing(outputs, lookup).lease.valid,
        !leasing(outputs, lookup).lease.cacheable,
{
}

/// Once leases of other frames are cleared, none is left, and nothing else changed.
pub proof fn recovery_clears_exactly_abandoned_leases<T>(
    outputs: Outputs<T>,
    frame: u64,
    identity: u64,
)
    requires
        outputs.slots.contains_key(identity),
    ensures
        outputs.recovered(frame).slots.contains_key(identity),
        !outputs.recovered(frame).slots[identity].abandoned(frame),
        outputs.recovered(frame).slots[identity] == (Slot {
            active: outputs.recovered(frame).slots[identity].active,
            ..outputs.slots[identity]
        }),
        outputs.slots[identity].leased_in(frame) ==> outputs.recovered(frame).slots[identity]
            == outputs.slots[identity],
{
}

/// A slot that is leased or was marked within the grace period survives a sweep unchanged.
pub proof fn marked_slots_survive_sweeps<T>(
    outputs: Outputs<T>,
    frame: u64,
    grace: u64,
    identity: u64,
)
    requires
        outputs.slots.contains_key(identity),
        outputs.slots[identity].active is Some || elapsed(
            frame,
            outputs.slots[identity].marked_frame,
        ) <= grace,
    ensures
        outputs.swept(frame, grace).slots.contains_key(identity),
        outputs.swept(frame, grace).slots[identity] == outputs.slots[identity],
{
}

/// Sweeping an unmarked free slot removes it with its target.
pub proof fn unmarked_slots_are_swept<T>(
    outputs: Outputs<T>,
    frame: u64,
    grace: u64,
    identity: u64,
)
    requires
        outputs.slots.contains_key(identity),
        outputs.slots[identity].active is None,
        elapsed(frame, outputs.slots[identity].marked_frame) > grace,
    ensures
        !outputs.swept(frame, grace).slots.contains_key(identity),
{
}

/// There is only one eviction order.
pub proof fn eviction_order_is_determined<T>(
    outputs: Outputs<T>,
    frame: u64,
    first: Seq<u64>,
    second: Seq<u64>,
)
    requires
        outputs.is_eviction_order(first, frame),
        outputs.is_eviction_order(second, frame),
    ensures
        first == second,
    decreases first.len(),
{
    lemma_same_order(outputs, frame, first, second);
}

spec fn sorted_for_eviction<T>(outputs: Outputs<T>, frame: u64, order: Seq<u64>) -> bool {
    forall|i: int, j: int|
        #![trigger order[i], order[j]]
        0 <= i < j < order.len() ==> outputs.evicted_before(order[i], order[j], frame)
}

proof fn lemma_same_order<T>(
    outputs: Outputs<T>,
    frame: u64,
    first: Seq<u64>,
    second: Seq<u64>,
)
    requires
        sorted_for_eviction(outputs, frame, first),
        sorted_for_eviction(outputs, frame, second),
        forall|identity: u64| #[trigger] first.contains(identity) <==> second.contains(identity),
    ensures
        first == second,
    decreases first.len(),
{
    if first.len() == 0 {
        if second.len() > 0 {
            assert(second.contains(second[0]));
            assert(first.contains(second[0]));
        }
        assert(first =~= second);
    } else {
        let a = first[first.len() - 1];
        assert(first.contains(a));
        assert(second.contains(a));
        let k = choose|k: int| 0 <= k < second.len() && second[k] == a;
        let b = second[second.len() - 1];
        assert(second.contains(b));
        assert(first.contains(b));
        let m = choose|m: int| 0 <= m < first.len() && first[m] == b;
        assert(a == b) by {
            if k < second.len() - 1 && m < first.len() - 1 {
                assert(outputs.evicted_before(second[k], second[second.len() - 1], frame));
                assert(outputs.evicted_before(first[m], first[first.len() - 1], frame));
            }
        }
        let p = first.drop_last();
        let q = second.drop_last();
        assert forall|identity: u64| #[trigger] p.contains(identity) <==> q.contains(identity) by {
            if p.contains(identity) {
                let i = choose|i: int| 0 <= i < p.len() && p[i] == identity;
                assert(first.contains(first[i]));
                assert(outputs.evicted_before(first[i], first[first.len() - 1], frame));
                assert(second.contains(identity));
                let j = choose|j: int| 0 <= j < second.len() && second[j] == identity;
                assert(q[j] == identity);
            }
            if q.contains(identity) {
                let i = choose|i: int| 0 <= i < q.len() && q[i] == identity;
                assert(second.contains(second[i]));
                assert(outputs.evicted_before(second[i], second[second.len() - 1], frame));
                assert(first.contains(identity));
                let j = choose|j: int| 0 <= j < first.len() && first[j] == identity;
                assert(p[j] == identity);
            }
        }
        lemma_same_order(outputs, frame, p, q);
        assert(first =~= p.push(a));
        assert(second =~= q.push(b));
    }
}

/// A protected output is evicted only after every evictable normal output has gone.
pub proof fn normal_outputs_go_first<T: OutputTarget>(
    outputs: Outputs<T>,
    maximum: u64,
    frame: u64,
    after: Outputs<T>,
    evicted: Seq<EvictedTarget<T>>,
    remaining: u64,
    order: Seq<u64>,
    protected: u64,
    normal: u64,
)
    requires
        outputs.evicts(maximum, frame, after, evicted, remaining, order),
        order.take(evicted.len() as int).contains(protected),
        outputs.slots[protected].priority == CacheResidencyPriority::Protected,
        outputs.slots.contains_key(normal),
        outputs.slots[normal].evictable(),
        outputs.slots[normal].priority == CacheResidencyPriority::Normal,
    ensures
        order.take(evicted.len() as int).contains(normal),
        after.slots[normal].committed is None,
{
    let gone = order.take(evicted.len() as int);
    let p = choose|p: int| 0 <= p < gone.len() && gone[p] == protected;
    assert(order[p] == protected);
    assert(order.contains(normal));
    let n = choose|n: int| 0 <= n < order.len() && order[n] == normal;
    if n >= p {
        if p < n {
            assert(outputs.evicted_before(order[p], order[n], frame));
        }
    }
    assert(gone[n] == normal);
}

/// Of two evictable outputs of one tier, the one that was used longer ago goes first.
pub proof fn oldest_outputs_go_first<T: OutputTarget>(
    outputs: Outputs<T>,
    maximum: u64,
    frame: u64,
    after: Outputs<T>,
    evicted: Seq<EvictedTarget<T>>,
    remaining: u64,
    order: Seq<u64>,
    younger: u64,
    older: u64,
)
    requires
        outputs.evicts(maximum, frame, after, evicted, remaining, order),
        order.take(evicted.len() as int).contains(younger),
        outputs.slots.contains_key(older),
        outputs.slots[older].evictable(),
        outputs.slots[older].priority == outputs.slots[younger].priority,
        elapsed(frame, outputs.slots[older].last_used) > elapsed(
            frame,
            outputs.slots[younger].last_used,
        ),
    ensures
        order.take(evicted.len() as int).contains(older),
{
    let gone = order.take(evicted.len() as int);
    let p = choose|p: int| 0 <= p < gone.len() && gone[p] == younger;
    assert(order[p] == younger);
    assert(order.contains(older));
    let n = choose|n: int| 0 <= n < order.len() && order[n] == older;
    if n >= p {
        if p < n {
            assert(outputs.evicted_before(order[p], order[n], frame));
        }
    }
    assert(gone[n] == older);
}

/// Eviction never touches a slot that is leased.
pub proof fn leased_slots_are_not_evicted<T: OutputTarget>(
    outputs: Outputs<T>,
    maximum: u64,
    frame: u64,
    after: Outputs<T>,
    evicted: Seq<EvictedTarget<T>>,
    remaining: u64,
    order: Seq<u64>,
    leased: u64,
)
    requires
        outputs.evicts(maximum, frame, after, evicted, remaining, order),
        outputs.slots.contains_key(leased),
        outputs.slots[leased].active is Some,
    ensures
        after.slots[leased] == outputs.slots[leased],
{
    let gone = order.take(evicted.len() as int);
    if gone.contains(leased) {
        let p = choose|p: int| 0 <= p < gone.len() && gone[p] == leased;
        assert(order[p] == leased);
        assert(order.contains(leased));
    }
}

/// Emptying one listed slot lowers the bytes of the list by the bytes of its target.
proof fn lemma_emptied_bytes<T: OutputTarget>(
    outputs: Outputs<T>,
    identities: Seq<u64>,
    gone: Seq<u64>,
    next: u64,
    priority: CacheResidencyPriority,
)
    requires
        increasing(identities),
        forall|i: int| 0 <= i < identities.len() ==> outputs.slots.contains_key(#[trigger] identities[i]),
        !gone.contains(next),
        outputs.slots.contains_key(next),
    ensures
        outputs.without_targets(gone).priority_bytes(identities, priority)
            == outputs.without_targets(gone.push(next)).priority_bytes(identities, priority) + (
        if identities.contains(next) {
            outputs.slot_bytes(next, priority)
        } else {
            0
        }),
    decreases identities.len(),
{
    if identities.len() > 0 {
        let rest = identities.drop_last();
        let last = identities.last();
        assert forall|i: int, j: int|
            #![trigger rest[i], rest[j]]
            0 <= i < j < rest.len() implies rest[i] < rest[j] by {
            assert(identities[i] < identities[j]);
        }
        assert forall|i: int| 0 <= i < rest.len() implies outputs.slots.contains_key(
            #[trigger] rest[i],
        ) by {
            assert(outputs.slots.contains_key(identities[i]));
        }
        lemma_emptied_bytes(outputs, rest, gone, next, priority);
        assert(outputs.slots.contains_key(identities[identities.len() - 1]));
        let more = gone.push(next);
        assert(more[gone.len() as int] == next);
        assert(more.contains(next));
        if last == next {
            assert(!rest.contains(next)) by {
                if rest.contains(next) {
                    let i = choose|i: int| 0 <= i < rest.len() && rest[i] == next;
                    assert(identities[i] < identities[identities.len() - 1]);
                }
            }
            assert(identities[identities.len() - 1] == next);
            assert(identities.contains(next));
        } else {
            assert(more.contains(last) == gone.contains(last)) by {
                if gone.contains(last) {
                    let i = choose|i: int| 0 <= i < gone.len() && gone[i] == last;
                    assert(more[i] == last);
                }
                if more.contains(last) {
                    let i = choose|i: int| 0 <= i < more.len() && more[i] == last;
                    assert(gone[i] == last);
                }
            }
            assert(identities.contains(next) == rest.contains(next)) by {
                if rest.contains(next) {
                    let i = choose|i: int| 0 <= i < rest.len() && rest[i] == next;
                    assert(identities[i] == next);
                }
                if identities.contains(next) {
                    let i = choose|i: int| 0 <= i < identities.len() && identities[i] == next;
                    assert(rest[i] == next);
                }
            }
        }
    }
}

/// While no sum saturates, the bytes left after evictions are the bytes of what is left.
pub proof fn remaining_bytes_are_exact<T: OutputTarget>(
    outputs: Outputs<T>,
    order: Seq<u64>,
    frame: u64,
    evictions: int,
)
    requires
        outputs.wf(),
        outputs.is_eviction_order(order, frame),
        0 <= evictions <= order.len(),
        outputs.total() <= u64::MAX,
    ensures
        outputs.bytes_after(saturated(outputs.total()), order, evictions)
            == outputs.without_targets(order.take(evictions)).total(),
        outputs.without_targets(order.take(evictions)).slots.dom() == outputs.slots.dom(),
    decreases evictions,
{
    let gone = order.take(evictions);
    let left = outputs.without_targets(gone);
    assert(left.slots.dom() =~= outputs.slots.dom());
    if evictions == 0 {
        assert(left.slots =~= outputs.slots);
    } else {
        let shorter = order.take(evictions - 1);
        let next = order[evictions - 1];
        remaining_bytes_are_exact(outputs, order, frame, evictions - 1);
        assert(gone =~= shorter.push(next));
        assert(order.contains(order[evictions - 1]));
        assert(!shorter.contains(next)) by {
            if shorter.contains(next) {
                let i = choose|i: int| 0 <= i < shorter.len() && shorter[i] == next;
                assert(outputs.evicted_before(order[i], order[evictions - 1], frame));
            }
        }
        lemma_enumerable(outputs.slots.dom());
        let identities = outputs.identities();
        assert forall|i: int| 0 <= i < identities.len() implies outputs.slots.contains_key(
            #[trigger] identities[i],
        ) by {
            assert(identities.contains(identities[i]));
        }
        assert(identities.contains(next));
        lemma_emptied_bytes(outputs, identities, shorter, next, CacheResidencyPriority::Normal);
        lemma_emptied_bytes(outputs, identities, shorter, next, CacheResidencyPriority::Protected);
        let before = outputs.without_targets(shorter);
        assert(before.identities() == identities);
        assert(left.identities() == identities);
        assert(outputs.slots[next].committed is Some);
        assert(outputs.slot_bytes(next, CacheResidencyPriority::Normal) + outputs.slot_bytes(
            next,
            CacheResidencyPriority::Protected,
        ) == outputs.slots[next].committed->0.target.size());
    }
}

/// After an eviction the retained bytes meet the limit, unless every target that is left
/// belongs to a leased slot.
pub proof fn eviction_meets_the_limit<T: OutputTarget>(
    outputs: Outputs<T>,
    maximum: u64,
    frame: u64,
    after: Outputs<T>,
    evicted: Seq<EvictedTarget<T>>,
    remaining: u64,
    order: Seq<u64>,
)
    requires
        outputs.wf(),
        outputs.total() <= u64::MAX,
        outputs.evicts(maximum, frame, after, evicted, remaining, order),
    ensures
        remaining == after.total(),
        after.total() <= outputs.total(),
        after.total() <= maximum || forall|identity: u64| #[trigger]
            after.slots.contains_key(identity) && after.slots[identity].committed is Some
                ==> after.slots[identity].active is Some,
{
    let evictions = evicted.len() as int;
    remaining_bytes_are_exact(outputs, order, frame, evictions);
    lemma_bytes_shrink(outputs, saturated(outputs.total()), order, evictions);
    if after.total() > maximum {
        assert(evictions == order.len());
        assert(order.take(evictions) =~= order);
        assert forall|identity: u64| #[trigger]
            after.slots.contains_key(identity) && after.slots[identity].committed is Some implies
            after.slots[identity].active is Some by {
            if after.slots[identity].active is None {
                assert(outputs.slots[identity].evictable());
                assert(order.contains(identity));
            }
        }
    }
}

proof fn lemma_bytes_shrink<T: OutputTarget>(
    outputs: Outputs<T>,
    bytes: u64,
    order: Seq<u64>,
    evictions: int,
)
    ensures
        outputs.bytes_after(bytes, order, evictions) <= bytes,
    decreases evictions,
{
    if evictions > 0 {
        lemma_bytes_shrink(outputs, bytes, order, evictions - 1);
    }
}

/// Bytes of a list of targets.
pub open spec fn sizes<T: OutputTarget>(targets: Seq<T>) -> nat
    decreases targets.len(),
{
    if targets.len() == 0 {
        0
    } else {
        sizes(targets.drop_last()) + targets.last().size() as nat
    }
}

spec fn unexpired<T>(outputs: Outputs<T>, identities: Seq<u64>, frame: u64, grace: u64) -> Seq<u64>
    decreases identities.len(),
{
    if identities.len() == 0 {
        Seq::empty()
    } else {
        let before = unexpired(outputs, identities.drop_last(), frame, grace);
        if outputs.slots[identities.last()].expired(frame, grace) {
            before
        } else {
            before.push(identities.last())
        }
    }
}

proof fn lemma_unexpired<T: OutputTarget>(
    outputs: Outputs<T>,
    identities: Seq<u64>,
    frame: u64,
    grace: u64,
)
    requires
        increasing(identities),
        forall|i: int|
            0 <= i < identities.len() ==> #[trigger] outputs.slots.contains_key(identities[i]),
    ensures
        increasing(unexpired(outputs, identities, frame, grace)),
        forall|identity: u64| #[trigger]
            unexpired(outputs, identities, frame, grace).contains(identity) <==> (
            identities.contains(identity) && !outputs.slots[identity].expired(frame, grace)),
        unexpired(outputs, identities, frame, grace).len() + outputs.swept_targets(
            identities,
            frame,
            grace,
        ).len() <= identities.len(),
        outputs.priority_bytes(identities, CacheResidencyPriority::Normal)
            + outputs.priority_bytes(identities, CacheResidencyPriority::Protected)
            == outputs.swept(frame, grace).priority_bytes(
            unexpired(outputs, identities, frame, grace),
            CacheResidencyPriority::Normal,
        ) + outputs.swept(frame, grace).priority_bytes(
            unexpired(outputs, identities, frame, grace),
            CacheResidencyPriority::Protected,
        ) + sizes(outputs.swept_targets(identities, frame, grace)),
    decreases identities.len(),
{
    if identities.len() > 0 {
        let rest = identities.drop_last();
        let last = identities.last();
        let after = outputs.swept(frame, grace);
        let before = unexpired(outputs, rest, frame, grace);
        let kept = unexpired(outputs, identities, frame, grace);
        let gone = outputs.swept_targets(identities, frame, grace);
        assert forall|i: int| 0 <= i < rest.len() implies #[trigger] outputs.slots.contains_key(
            rest[i],
        ) by {
            assert(outputs.slots.contains_key(identities[i]));
        }
        lemma_unexpired(outputs, rest, frame, grace);
        assert(outputs.slots.contains_key(identities[identities.len() - 1]));
        assert(identities =~= rest.push(last));
        assert forall|identity: u64| identities.contains(identity) <==> (rest.contains(identity)
            || identity == last) by {
            if rest.contains(identity) {
                let i = choose|i: int| 0 <= i < rest.len() && rest[i] == identity;
                assert(identities[i] == identity);
            }
            if identity == last {
                assert(identities[identities.len() - 1] == identity);
            }
            if identities.contains(identity) {
                let i = choose|i: int| 0 <= i < identities.len() && identities[i] == identity;
                if i < rest.len() {
                    assert(rest[i] == identity);
                }
            }
        }
        if outputs.slots[last].expired(frame, grace) {
            assert(kept == before);
            if outputs.slots[last].committed is Some {
                assert(gone.drop_last() =~= outputs.swept_targets(rest, frame, grace));
            }
        } else {
            assert(kept.drop_last() =~= before);
            assert(after.slots[last] == outputs.slots[last]);
            assert forall|i: int, j: int|
                #![trigger kept[i], kept[j]]
                0 <= i < j < kept.len() implies kept[i] < kept[j] by {
                if j == before.len() {
                    assert(before.contains(before[i]));
                    let k = choose|k: int| 0 <= k < rest.len() && rest[k] == before[i];
                    assert(identities[k] < identities[identities.len() - 1]);
                } else {
                    assert(before[i] < before[j]);
                }
            }
            assert forall|identity: u64| #[trigger] kept.contains(identity) <==> (
            before.contains(identity) || identity == last) by {
                if before.contains(identity) {
                    let i = choose|i: int| 0 <= i < before.len() && before[i] == identity;
                    assert(kept[i] == identity);
                }
                if identity == last {
                    assert(kept[before.len() as int] == identity);
                }
                if kept.contains(identity) {
                    let i = choose|i: int| 0 <= i < kept.len() && kept[i] == identity;
                    if i < before.len() {
                        assert(before[i] == identity);
                    }
                }
            }
        }
    }
}

/// A sweep loses no bytes and no targets: what it releases and what it keeps make up what
/// was there.
pub proof fn sweeping_conserves_bytes<T: OutputTarget>(
    outputs: Outputs<T>,
    frame: u64,
    grace: u64,
)
    requires
        outputs.wf(),
    ensures
        outputs.total() == outputs.swept(frame, grace).total() + sizes(
            outputs.swept_targets(outputs.identities(), frame, grace),
        ),
        outputs.swept(frame, grace).slots.dom().len() + outputs.swept_targets(
            outputs.identities(),
            frame,
            grace,
        ).len() <= outputs.slots.dom().len(),
{
    let all = outputs.identities();
    let after = outputs.swept(frame, grace);
    let kept = unexpired(outputs, all, frame, grace);
    lemma_enumerable(outputs.slots.dom());
    assert forall|i: int| 0 <= i < all.len() implies #[trigger] outputs.slots.contains_key(
        all[i],
    ) by {
        assert(all.contains(all[i]));
    }
    lemma_unexpired(outputs, all, frame, grace);
    assert(enumerates(kept, after.slots.dom()));
    lemma_in_order(kept, after.slots.dom());
    lemma_listing_length(kept, after.slots.dom());
    lemma_listing_length(all, outputs.slots.dom());
}

/// Bytes of the committed target of a slot.
pub open spec fn committed_bytes<T: OutputTarget>(slot: Slot<T>) -> nat {
    match slot.committed {
        Some(output) => output.target.size() as nat,
        None => 0,
    }
}

proof fn lemma_changed_slot<T: OutputTarget>(
    outputs: Outputs<T>,
    identities: Seq<u64>,
    identity: u64,
    slot: Slot<T>,
)
    requires
        increasing(identities),
    ensures
        ({
            let after = Outputs { slots: outputs.slots.insert(identity, slot), ..outputs };
            let before_bytes = outputs.priority_bytes(identities, CacheResidencyPriority::Normal)
                + outputs.priority_bytes(identities, CacheResidencyPriority::Protected);
            let after_bytes = after.priority_bytes(identities, CacheResidencyPriority::Normal)
                + after.priority_bytes(identities, CacheResidencyPriority::Protected);
            if identities.contains(identity) {
                after_bytes + committed_bytes(outputs.slots[identity]) == before_bytes
                    + committed_bytes(slot)
            } else {
                after_bytes == before_bytes
            }
        }),
    decreases identities.len(),
{
    if identities.len() > 0 {
        let rest = identities.drop_last();
        let last = identities.last();
        lemma_changed_slot(outputs, rest, identity, slot);
        assert(identities[identities.len() - 1] == last);
        if rest.contains(identity) {
            let i = choose|i: int| 0 <= i < rest.len() && rest[i] == identity;
            assert(identities[i] == identity);
            assert(identities[i] < identities[identities.len() - 1]);
        } else if identities.contains(identity) {
            let i = choose|i: int| 0 <= i < identities.len() && identities[i] == identity;
            if i < rest.len() {
                assert(rest[i] == identity);
            }
        }
    }
}

/// Changing one slot changes the retained bytes by the difference of its targets.
pub proof fn changing_a_slot_moves_its_bytes<T: OutputTarget>(
    outputs: Outputs<T>,
    identity: u64,
    slot: Slot<T>,
)
    requires
        outputs.wf(),
    ensures
        ({
            let after = Outputs { slots: outputs.slots.insert(identity, slot), ..outputs };
            let held = if outputs.slots.contains_key(identity) {
                committed_bytes(outputs.slots[identity])
            } else {
                0
            };
            after.total() + held == outputs.total() + committed_bytes(slot)
        }),
{
    let after = Outputs { slots: outputs.slots.insert(identity, slot), ..outputs };
    lemma_enumerable(outputs.slots.dom());
    lemma_enumerable(after.slots.dom());
    let all = after.identities();
    assert(all.contains(identity));
    let listed = outputs.identities();
    if outputs.slots.contains_key(identity) {
        assert(after.slots.dom() =~= outputs.slots.dom());
        lemma_changed_slot(outputs, all, identity, slot);
    } else {
        let padded = Outputs {
            slots: outputs.slots.insert(identity, Slot { committed: None, ..slot }),
            ..outputs
        };
        assert(padded.slots.dom() =~= after.slots.dom());
        lemma_changed_slot(padded, all, identity, slot);
        assert(padded.slots.insert(identity, slot) =~= after.slots);
        lemma_unlisted_slot(outputs, padded, listed, all, identity);
    }
}

proof fn lemma_unlisted_slot<T: OutputTarget>(
    outputs: Outputs<T>,
    padded: Outputs<T>,
    listed: Seq<u64>,
    all: Seq<u64>,
    identity: u64,
)
    requires
        increasing(listed),
        increasing(all),
        !listed.contains(identity),
        all.contains(identity),
        forall|other: u64| #[trigger]
            all.contains(other) <==> (listed.contains(other) || other == identity),
        padded.slots[identity].committed is None,
        forall|other: u64|
            other != identity ==> #[trigger] padded.slots[other] == outputs.slots[other],
    ensures
        padded.priority_bytes(all, CacheResidencyPriority::Normal) == outputs.priority_bytes(
            listed,
            CacheResidencyPriority::Normal,
        ),
        padded.priority_bytes(all, CacheResidencyPriority::Protected) == outputs.priority_bytes(
            listed,
            CacheResidencyPriority::Protected,
        ),
    decreases all.len(),
{
    let last = all.last();
    let rest = all.drop_last();
    assert(all[all.len() - 1] == last);
    assert(all.contains(last));
    assert forall|other: u64| rest.contains(other) implies other < last by {
        let i = choose|i: int| 0 <= i < rest.len() && rest[i] == other;
        assert(all[i] < all[all.len() - 1]);
    }
    assert forall|other: u64| #[trigger] all.contains(other) implies rest.contains(other) || other
        == last by {
        let i = choose|i: int| 0 <= i < all.len() && all[i] == other;
        if i < rest.len() {
            assert(rest[i] == other);
        }
    }
    assert forall|other: u64| #[trigger] rest.contains(other) implies all.contains(other) by {
        let i = choose|i: int| 0 <= i < rest.len() && rest[i] == other;
        assert(all[i] == other);
    }
    if last == identity {
        assert forall|i: int| 0 <= i < listed.len() implies #[trigger] rest.contains(
            listed[i],
        ) by {
            assert(listed.contains(listed[i]));
            assert(all.contains(listed[i]));
        }
        assert forall|i: int| 0 <= i < rest.len() implies #[trigger] listed.contains(
            rest[i],
        ) by {
            assert(rest.contains(rest[i]));
            assert(all.contains(rest[i]));
        }
        lemma_increasing_is_determined(rest, listed);
        lemma_same_slots(outputs, padded, listed);
    } else {
        assert(listed.contains(last));
        let top = choose|i: int| 0 <= i < listed.len() && listed[i] == last;
        if top < listed.len() - 1 {
            let greatest = listed[listed.len() - 1];
            assert(listed.contains(greatest));
            assert(all.contains(greatest));
            assert(listed[top] < greatest);
        }
        let shorter = listed.drop_last();
        assert(listed.last() == last);
        assert forall|other: u64| #[trigger] shorter.contains(other) implies listed.contains(
            other,
        ) && other != last by {
            let i = choose|i: int| 0 <= i < shorter.len() && shorter[i] == other;
            assert(listed[i] == other);
            assert(listed[i] < listed[listed.len() - 1]);
        }
        assert forall|other: u64| #[trigger]
            rest.contains(other) <==> (shorter.contains(other) || other == identity) by {
            if rest.contains(other) && other != identity {
                assert(all.contains(other));
                let i = choose|i: int| 0 <= i < listed.len() && listed[i] == other;
                if i < shorter.len() {
                    assert(shorter[i] == other);
                }
            }
            if shorter.contains(other) {
                assert(all.contains(other));
            }
        }
        assert(rest.contains(identity));
        lemma_unlisted_slot(outputs, padded, shorter, rest, identity);
    }
}

proof fn lemma_same_slots<T: OutputTarget>(a: Outputs<T>, b: Outputs<T>, identities: Seq<u64>)
    requires
        forall|i: int|
            0 <= i < identities.len() ==> a.slots[#[trigger] identities[i]]
                == b.slots[identities[i]],
    ensures
        a.priority_bytes(identities, CacheResidencyPriority::Normal) == b.priority_bytes(
            identities,
            CacheResidencyPriority::Normal,
        ),
        a.priority_bytes(identities, CacheResidencyPriority::Protected) == b.priority_bytes(
            identities,
            CacheResidencyPriority::Protected,
        ),
    decreases identities.len(),
{
    if identities.len() > 0 {
        let rest = identities.drop_last();
        assert forall|i: int| 0 <= i < rest.len() implies a.slots[#[trigger] rest[i]]
            == b.slots[rest[i]] by {
            assert(rest[i] == identities[i]);
        }
        lemma_same_slots(a, b, rest);
        assert(identities[identities.len() - 1] == identities.last());
    }
}

/// A lookup neither makes nor loses bytes: what it hands out is no longer retained, and
/// everything else still is.
pub proof fn leasing_conserves_bytes<T: OutputTarget>(outputs: Outputs<T>, lookup: Lookup)
    requires
        outputs.wf(),
    ensures
        ({
            let step = leasing(outputs, lookup);
            let handed_out = match step.lease.target {
                Some(target) => target.size() as nat,
                None => 0,
            };
            step.outputs.total() + handed_out == outputs.total()
        }),
{
    let step = leasing(outputs, lookup);
    if step.outputs.slots != outputs.slots {
        changing_a_slot_moves_its_bytes(
            outputs,
            lookup.identity,
            step.outputs.slots[lookup.identity],
        );
        let after = Outputs {
            slots: outputs.slots.insert(
                lookup.identity,
                step.outputs.slots[lookup.identity],
            ),
            ..outputs
        };
        assert(step.outputs.slots =~= after.slots);
        assert(step.outputs.identities() == after.identities());
        lemma_enumerable(after.slots.dom());
        lemma_same_slots(step.outputs, after, after.identities());
    } else {
        lemma_same_slots(step.outputs, outputs, outputs.identities());
    }
}

/// A store neither makes nor loses bytes: what it releases and what is retained afterwards
/// make up what was retained before and what was submitted. It releases at most one target
/// and never creates a slot.
pub proof fn storing_conserves_bytes<T: OutputTarget>(
    outputs: Outputs<T>,
    submission: Submission<T>,
)
    requires
        outputs.wf(),
    ensures
        ({
            let step = storing(outputs, submission);
            &&& step.outputs.total() + sizes(step.released) == outputs.total()
                + submission.target.size()
            &&& step.released.len() <= 1
            &&& step.outputs.slots.dom() == outputs.slots.dom()
        }),
{
    let step = storing(outputs, submission);
    reveal_with_fuel(sizes, 2);
    if step.released.len() == 1 {
        assert(step.released.drop_last() =~= Seq::<T>::empty());
    }
    if outputs.slots.contains_key(submission.identity) {
        let slot = outputs.slots[submission.identity];
        if let Some(active) = slot.active {
            if active.ticket == submission.ticket {
                changing_a_slot_moves_its_bytes(
                    outputs,
                    submission.identity,
                    slot_storing(slot, active, submission).0,
                );
            }
        }
    }
    assert(step.outputs.slots.dom() =~= outputs.slots.dom());
}

/// A retained output is handed out only for the very pixels that it holds: rendered from the
/// same content, with the same rasterization in every fact, at the same place where that
/// matters, and from stable, equal effect inputs.
pub proof fn hits_agree_in_everything_that_makes_pixels<T>(outputs: Outputs<T>, lookup: Lookup)
    requires
        leasing(outputs, lookup).lease.valid,
    ensures
        outputs.slots[lookup.identity].committed matches Some(output) && {
            &&& leasing(outputs, lookup).lease.target == Some(output.target)
            &&& output.key.content == lookup.key.content
            &&& output.key.raster == lookup.key.raster
            &&& output.key.raster.source_rect == lookup.key.raster.source_rect
            &&& output.key.raster.physical_viewport == lookup.key.raster.physical_viewport
            &&& output.key.raster.device_epoch == lookup.key.raster.device_epoch
            &&& output.key.geometry == lookup.key.geometry
            &&& !output.key.evidence.volatile && !lookup.key.evidence.volatile
            &&& crate::evidence::same_atoms(output.key.evidence.atoms, lookup.key.evidence.atoms)
        },
        lookup.evidence.revisions.len() > 0,
        !lookup.evidence.conflicted,
        lookup.current == lookup.evidence,
{
}

/// A free output is handed out to whoever asks for its pixels with the content that its slot
/// has accepted last.
pub proof fn matching_outputs_are_handed_out<T>(outputs: Outputs<T>, lookup: Lookup)
    requires
        outputs.slots.contains_key(lookup.identity),
        outputs.slots[lookup.identity].active is None,
        outputs.slots[lookup.identity].latest_stamp == lookup.evidence,
        outputs.slots[lookup.identity].committed matches Some(output) && output.key.content
            == lookup.key.content && output.key.raster == lookup.key.raster && output.key.geometry
            == lookup.key.geometry && !output.key.evidence.volatile && crate::evidence::same_atoms(
            output.key.evidence.atoms,
            lookup.key.evidence.atoms,
        ),
        lookup.evidence.revisions.len() > 0,
        !lookup.evidence.conflicted,
        lookup.current == lookup.evidence,
        !lookup.key.evidence.volatile,
    ensures
        leasing(outputs, lookup).lease.valid,
        leasing(outputs, lookup).lease.miss is None,
        leasing(outputs, lookup).lease.target == Some(
            outputs.slots[lookup.identity].committed->0.target,
        ),
{
}

/// Who may store holds the only access to the slot: no one had it before, and it is held under
/// the ticket of the lease, in its frame and for the pixels that were asked for. The slot has
/// accepted the content, and no older one will be accepted again.
pub proof fn leases_are_exclusive<T>(outputs: Outputs<T>, lookup: Lookup)
    requires
        outputs.wf(),
        lookup.evidence.normalized(),
        leasing(outputs, lookup).lease.cacheable,
    ensures
        outputs.slots.contains_key(lookup.identity) ==> outputs.slots[lookup.identity].active
            is None,
        leasing(outputs, lookup).outputs.slots.contains_key(lookup.identity),
        ({
            let step = leasing(outputs, lookup);
            let slot = step.outputs.slots[lookup.identity];
            &&& slot.active matches Some(active) && step.lease.ticket == Some(active.ticket)
                && active.frame == lookup.frame && active.expected == lookup.key
                && !active.contended && (active.kind == LeaseKind::Hit <==> step.lease.valid)
            &&& slot.latest_stamp == lookup.evidence
            &&& within(lookup.evidence, slot.watermarks)
            &&& slot.marked_frame == lookup.frame
            &&& step.lease.valid ==> slot.committed is None && slot.last_used == lookup.frame
            &&& !step.lease.valid && outputs.slots.contains_key(lookup.identity) ==> slot.committed
                == outputs.slots[lookup.identity].committed && slot.last_used
                == outputs.slots[lookup.identity].last_used
        }),
{
    let watermarks = if outputs.slots.contains_key(lookup.identity) {
        outputs.slots[lookup.identity].watermarks
    } else {
        Map::empty()
    };
    lemma_raised_within(watermarks, lookup.evidence);
}

proof fn lemma_raised_within(watermarks: Map<u64, u64>, stamp: Stamp)
    requires
        stamp.normalized(),
    ensures
        within(stamp, raised(watermarks, stamp)),
{
    let after = raised(watermarks, stamp);
    assert forall|i: int| 0 <= i < stamp.revisions.len() implies after.contains_key(
        (#[trigger] stamp.revisions[i]).id(),
    ) && stamp.revisions[i].at() <= after[stamp.revisions[i].id()] by {
        lemma_generation_of(stamp, i);
    }
}

/// No two leases that follow one another get the same ticket.
pub proof fn tickets_change_with_every_lease<T>(outputs: Outputs<T>, first: Lookup, second: Lookup)
    ensures
        ({
            let one = leasing(outputs, first);
            let other = leasing(one.outputs, second);
            one.lease.ticket is Some && other.lease.ticket is Some ==> one.lease.ticket
                != other.lease.ticket
        }),
{
}

/// The reason for a miss is what kept the lookup from a hit.
pub proof fn misses_tell_their_reason<T>(outputs: Outputs<T>, lookup: Lookup)
    ensures
        ({
            let miss = leasing(outputs, lookup).lease.miss;
            let usable = lookup.evidence.revisions.len() > 0 && !lookup.evidence.conflicted
                && !lookup.key.evidence.volatile && lookup.current == lookup.evidence;
            let known = outputs.slots.contains_key(lookup.identity);
            let slot = outputs.slots[lookup.identity];
            &&& miss == Some(OutputMiss::MissingContentEvidence)
                <==> lookup.evidence.revisions.len() == 0
            &&& miss == Some(OutputMiss::ContentConflict) <==> lookup.evidence.revisions.len() > 0
                && lookup.evidence.conflicted
            &&& miss == Some(OutputMiss::VolatileInputs) <==> lookup.evidence.revisions.len() > 0
                && !lookup.evidence.conflicted && lookup.key.evidence.volatile
            &&& miss == Some(OutputMiss::ContentChangedBeforeLookup)
                <==> lookup.evidence.revisions.len() > 0 && !lookup.evidence.conflicted
                && !lookup.key.evidence.volatile && lookup.current != lookup.evidence
            &&& miss == Some(OutputMiss::UnknownIdentity) <==> usable && !known
            &&& miss == Some(OutputMiss::CompetingWriter) <==> usable && known && slot.active is Some
            &&& miss == Some(OutputMiss::Targetless) ==> usable && known && slot.committed is None
            &&& miss == Some(OutputMiss::ContentChanged) ==> usable && known && (slot.committed
                matches Some(output) && output.key.content != lookup.key.content)
            &&& miss == Some(OutputMiss::RasterChanged) ==> usable && known && (slot.committed
                matches Some(output) && output.key.raster != lookup.key.raster)
            &&& miss == Some(OutputMiss::GeometryChanged) ==> usable && known && (slot.committed
                matches Some(output) && output.key.geometry != lookup.key.geometry)
            &&& miss == Some(OutputMiss::EffectInputsChanged) ==> usable && known && (
            slot.committed matches Some(output) && output.key.content == lookup.key.content
                && output.key.raster == lookup.key.raster && output.key.geometry
                == lookup.key.geometry)
        }),
{
}

/// Content older than anything that a slot has seen is never accepted, not even in part. Content
/// that is nowhere older is accepted by a free slot.
pub proof fn only_older_content_is_refused<T>(outputs: Outputs<T>, lookup: Lookup)
    requires
        outputs.wf(),
        outputs.slots.contains_key(lookup.identity),
        outputs.slots[lookup.identity].active is None,
        lookup.evidence.normalized(),
        lookup.evidence.revisions.len() > 0,
        !lookup.evidence.conflicted,
        !lookup.key.evidence.volatile,
        lookup.current == lookup.evidence,
    ensures
        ({
            let slot = outputs.slots[lookup.identity];
            let older = exists|i: int|
                0 <= i < lookup.evidence.revisions.len() && slot.watermarks.contains_key(
                    (#[trigger] lookup.evidence.revisions[i]).id(),
                ) && lookup.evidence.revisions[i].at()
                    < slot.watermarks[lookup.evidence.revisions[i].id()];
            &&& older && lookup.evidence != slot.latest_stamp ==> !leasing(
                outputs,
                lookup,
            ).lease.cacheable && !leasing(outputs, lookup).lease.valid
            &&& !older ==> leasing(outputs, lookup).lease.cacheable
        }),
{
    let slot = outputs.slots[lookup.identity];
    if slot.latest_stamp != lookup.evidence && slot.latest_stamp.identities()
        == lookup.evidence.identities() {
        unequal_stamps_move(slot.latest_stamp, slot.watermarks, lookup.evidence);
    }
}

/// A slot remembers of each content exactly the newest generation that it has seen.
pub proof fn watermarks_are_the_newest_seen(watermarks: Map<u64, u64>, stamp: Stamp, i: int)
    requires
        stamp.normalized(),
        0 <= i < stamp.revisions.len(),
    ensures
        ({
            let revision = stamp.revisions[i];
            let after = raised(watermarks, stamp);
            &&& after.contains_key(revision.id())
            &&& !watermarks.contains_key(revision.id()) ==> after[revision.id()] == revision.at()
            &&& watermarks.contains_key(revision.id()) ==> after[revision.id()] == (
            if watermarks[revision.id()] < revision.at() {
                revision.at()
            } else {
                watermarks[revision.id()]
            })
        }),
{
    lemma_generation_of(stamp, i);
}

/// A target is stored exactly if its producer still holds the slot, in the same frame and
/// without a rival, if its content is usable and is what was leased and rendered and has not
/// changed since, and if it was rendered for the very pixels that the lease was for, from stable
/// inputs.
pub proof fn targets_are_stored_under_their_lease<T>(
    outputs: Outputs<T>,
    submission: Submission<T>,
)
    ensures
        storing(outputs, submission).disposition == StoreDisposition::Stored <==> {
            &&& outputs.slots.contains_key(submission.identity)
            &&& outputs.slots[submission.identity].active matches Some(active) && {
                &&& active.ticket == submission.ticket
                &&& !active.contended
                &&& active.frame == submission.frame
                &&& submission.evidence.revisions.len() > 0 && !submission.evidence.conflicted
                &&& active.expected.content == submission.evidence
                &&& submission.fresh_key.content == submission.evidence
                &&& submission.current == submission.evidence
                &&& active.expected.raster == submission.fresh_key.raster
                &&& active.expected.geometry == submission.fresh_key.geometry
                &&& !active.expected.evidence.volatile && !submission.fresh_key.evidence.volatile
                &&& crate::evidence::same_atoms(
                    active.expected.evidence.atoms,
                    submission.fresh_key.evidence.atoms,
                )
            }
        },
{
}

/// What keeps a target out is told, and it is true.
pub proof fn rejections_tell_their_reason<T>(outputs: Outputs<T>, submission: Submission<T>)
    ensures
        ({
            let told = storing(outputs, submission).disposition;
            let known = outputs.slots.contains_key(submission.identity);
            let slot = outputs.slots[submission.identity];
            let owned = known && (slot.active matches Some(active) && active.ticket
                == submission.ticket);
            &&& told == StoreDisposition::UnknownEntry <==> !known
            &&& told == StoreDisposition::TicketMismatch <==> known && !owned
            &&& told == StoreDisposition::CompetingWriter <==> owned && slot.active->0.contended
            &&& told == StoreDisposition::FrameMismatch <==> owned && !slot.active->0.contended
                && slot.active->0.frame != submission.frame
            &&& told == StoreDisposition::ContentChanged ==> owned && submission.current
                != submission.evidence
            &&& told == StoreDisposition::RasterChanged ==> owned
                && slot.active->0.expected.raster != submission.fresh_key.raster
            &&& told == StoreDisposition::GeometryChanged ==> owned
                && slot.active->0.expected.geometry != submission.fresh_key.geometry
            &&& told == StoreDisposition::VolatileInputs ==> owned
                && submission.fresh_key.evidence.volatile
        }),
{
}

/// Whoever returns a target under a ticket gives the access back, whatever becomes of the
/// target. Under a foreign ticket nothing changes.
pub proof fn returning_a_target_ends_the_lease<T>(outputs: Outputs<T>, submission: Submission<T>)
    requires
        outputs.slots.contains_key(submission.identity),
    ensures
        ({
            let before = outputs.slots[submission.identity];
            let after = storing(outputs, submission).outputs.slots[submission.identity];
            &&& (before.active matches Some(active) && active.ticket == submission.ticket)
                ==> after.active is None
            &&& !(before.active matches Some(active) && active.ticket == submission.ticket)
                ==> storing(outputs, submission).outputs == outputs && storing(
                outputs,
                submission,
            ).released == seq![submission.target]
            &&& storing(outputs, submission).disposition == StoreDisposition::Stored
                ==> after.last_used == submission.frame && after.latest_stamp
                == submission.evidence
            &&& after.marked_frame == before.marked_frame && after.priority == before.priority
        }),
{
    let before = outputs.slots[submission.identity];
    if !(before.active matches Some(active) && active.ticket == submission.ticket) {
        assert(storing(outputs, submission).outputs =~= outputs);
    }
}

/// A slot that is kept alive, or asked for, in a frame survives the sweep of that frame, however
/// short the grace period is.
pub proof fn touched_slots_survive_their_frame<T>(
    outputs: Outputs<T>,
    keep_alive: CacheKeepAlive,
    lookup: Lookup,
    frame: u64,
    grace: u64,
)
    requires
        lookup.frame == frame,
    ensures
        outputs.slots.contains_key(keep_alive.slot()) ==> kept_alive(
            outputs,
            keep_alive,
            frame,
        ).swept(frame, grace).slots.contains_key(keep_alive.slot()),
        outputs.slots.contains_key(lookup.identity) ==> leasing(outputs, lookup).outputs.swept(
            frame,
            grace,
        ).slots.contains_key(lookup.identity),
        outputs.slots.contains_key(lookup.identity) ==> leasing(
            outputs,
            lookup,
        ).outputs.slots[lookup.identity].marked_frame == frame,
{
}

/// The first residency request of a frame sets the priority, and further ones that agree leave
/// it. Later frames start anew.
pub proof fn residency_requests_set_the_priority<T>(
    slot: Slot<T>,
    priority: CacheResidencyPriority,
    frame: u64,
)
    requires
        slot.priority_frame != frame,
    ensures
        slot.marked(priority, frame).priority == priority,
        slot.marked(priority, frame).marked_frame == frame,
        !slot.disagrees(priority, frame),
        !slot.marked(priority, frame).disagrees(priority, frame),
        slot.marked(priority, frame).marked(priority, frame) == slot.marked(priority, frame),
{
}

/// A keep-alive takes the slot and the priority that it names, and no other slot.
pub proof fn keep_alives_mark_their_slot<T>(
    outputs: Outputs<T>,
    keep_alive: CacheKeepAlive,
    frame: u64,
    other: u64,
)
    ensures
        outputs.slots.contains_key(keep_alive.slot()) ==> {
            let before = outputs.slots[keep_alive.slot()];
            let after = kept_alive(outputs, keep_alive, frame).slots[keep_alive.slot()];
            &&& after.marked_frame == frame
            &&& before.priority_frame != frame ==> after.priority == keep_alive.residency()
        },
        other != keep_alive.slot() && outputs.slots.contains_key(other) ==> kept_alive(
            outputs,
            keep_alive,
            frame,
        ).slots[other] == outputs.slots[other],
{
}

/// A free slot is swept exactly if more frames than the grace period have passed since it was
/// marked.
pub proof fn sweeps_count_frames_since_the_mark<T>(
    outputs: Outputs<T>,
    frame: u64,
    grace: u64,
    identity: u64,
)
    requires
        outputs.slots.contains_key(identity),
        outputs.slots[identity].active is None,
        outputs.slots[identity].marked_frame <= frame,
    ensures
        outputs.swept(frame, grace).slots.contains_key(identity) <==> frame
            - outputs.slots[identity].marked_frame <= grace,
{
}

/// Frame numbers may wrap around: what counts is how many frames have passed.
pub proof fn frames_pass_around_the_end(since: u64, passed: u64)
    ensures
        elapsed(((since + passed) % 0x1_0000_0000_0000_0000) as u64, since) == passed,
{
}

proof fn lemma_swept_target<T>(
    outputs: Outputs<T>,
    identities: Seq<u64>,
    frame: u64,
    grace: u64,
    i: int,
)
    requires
        0 <= i < identities.len(),
        outputs.slots[identities[i]].committed is Some,
        outputs.slots[identities[i]].expired(frame, grace),
    ensures
        outputs.swept_targets(identities, frame, grace).contains(
            outputs.slots[identities[i]].committed->0.target,
        ),
    decreases identities.len(),
{
    let all = outputs.swept_targets(identities, frame, grace);
    let rest = identities.drop_last();
    let before = outputs.swept_targets(rest, frame, grace);
    let target = outputs.slots[identities[i]].committed->0.target;
    if i < rest.len() {
        lemma_swept_target(outputs, rest, frame, grace, i);
        let k = choose|k: int| 0 <= k < before.len() && before[k] == target;
        assert(all[k] == target);
    } else {
        assert(all[all.len() - 1] == target);
    }
}

/// Nothing that a sweep removes gets lost: the targets of removed slots are handed back.
pub proof fn sweeps_hand_back_every_target<T>(
    outputs: Outputs<T>,
    frame: u64,
    grace: u64,
    identity: u64,
)
    requires
        outputs.wf(),
        outputs.slots.contains_key(identity),
        outputs.slots[identity].committed is Some,
        !outputs.swept(frame, grace).slots.contains_key(identity),
    ensures
        outputs.swept_targets(outputs.identities(), frame, grace).contains(
            outputs.slots[identity].committed->0.target,
        ),
{
    let all = outputs.identities();
    lemma_enumerable(outputs.slots.dom());
    assert(all.contains(identity));
    let i = choose|i: int| 0 <= i < all.len() && all[i] == identity;
    lemma_swept_target(outputs, all, frame, grace, i);
}

/// Evictions stop as soon as the bytes meet the limit: without the last one they would not.
/// Below the limit nothing is evicted.
pub proof fn no_output_is_evicted_needlessly<T: OutputTarget>(
    outputs: Outputs<T>,
    maximum: u64,
    frame: u64,
    after: Outputs<T>,
    evicted: Seq<EvictedTarget<T>>,
    remaining: u64,
    order: Seq<u64>,
)
    requires
        outputs.wf(),
        outputs.total() <= u64::MAX,
        outputs.evicts(maximum, frame, after, evicted, remaining, order),
    ensures
        outputs.total() <= maximum ==> evicted.len() == 0 && after.slots == outputs.slots,
        evicted.len() > 0 ==> outputs.without_targets(order.take(evicted.len() - 1)).total()
            > maximum,
{
    let evictions = evicted.len() as int;
    if evictions > 0 {
        remaining_bytes_are_exact(outputs, order, frame, evictions - 1);
        assert(outputs.bytes_after(saturated(outputs.total()), order, evictions - 1) > maximum);
        assert(outputs.bytes_after(saturated(outputs.total()), order, 0) > maximum);
    } else {
        assert(order.take(0) =~= Seq::<u64>::empty());
        assert(after.slots =~= outputs.slots);
    }
}

/// An eviction takes the target out of its slot, records it with the tier that it was kept in,
/// and leaves the slot with what it knows of its content. Every other slot stays as it is.
pub proof fn evictions_only_take_targets<T: OutputTarget>(
    outputs: Outputs<T>,
    maximum: u64,
    frame: u64,
    after: Outputs<T>,
    evicted: Seq<EvictedTarget<T>>,
    remaining: u64,
    order: Seq<u64>,
    identity: u64,
)
    requires
        outputs.evicts(maximum, frame, after, evicted, remaining, order),
        outputs.slots.contains_key(identity),
    ensures
        after.slots.contains_key(identity),
        after.slots[identity] == outputs.slots[identity] || {
            &&& outputs.slots[identity].active is None
            &&& outputs.slots[identity].committed is Some
            &&& after.slots[identity].committed is None
            &&& after.slots[identity].watermarks == outputs.slots[identity].watermarks
            &&& after.slots[identity].latest_stamp == outputs.slots[identity].latest_stamp
            &&& after.slots[identity].marked_frame == outputs.slots[identity].marked_frame
            &&& exists|i: int|
                0 <= i < evicted.len() && (#[trigger] evicted[i]).target
                    == outputs.slots[identity].committed->0.target && (evicted[i].tier
                    == EvictionTier::Protected <==> outputs.slots[identity].priority
                    == CacheResidencyPriority::Protected)
        },
{
    let gone = order.take(evicted.len() as int);
    if gone.contains(identity) {
        let i = choose|i: int| 0 <= i < gone.len() && gone[i] == identity;
        assert(order[i] == identity);
        assert(order.contains(identity));
        assert(evicted[i].target == outputs.slots[order[i]].committed->0.target);
    }
}

/// A request is looked up, and its output stored, in the slot that it names, with the priority
/// that it asks for and the evidence that it carries.
pub proof fn requests_are_served_as_they_are<T>(
    request: CacheRequest,
    key: Signature,
    frame: u64,
    current: Stamp,
    ticket: LeaseTicket,
    target: T,
)
    ensures
        ({
            let lookup = lookup_of(request, key, frame, current);
            let submission = submission_of(ticket, request, key, frame, target, current);
            &&& lookup.identity == request.slot() && submission.identity == request.slot()
            &&& lookup.priority == request.residency()
            &&& lookup.evidence == request.evidence() && submission.evidence == request.evidence()
            &&& lookup.current == current && submission.current == current
            &&& lookup.key == key && submission.fresh_key == key
            &&& lookup.frame == frame && submission.frame == frame
            &&& submission.ticket == ticket && submission.target == target
        }),
{
}

/// Content that a free slot refuses is stale if it is of the same inputs and none of them is newer
/// than what was accepted last. Any other refused content cannot be compared.
pub proof fn refused_content_is_stale_or_incomparable<T>(outputs: Outputs<T>, lookup: Lookup, k: int)
    requires
        outputs.wf(),
        outputs.slots.contains_key(lookup.identity),
        outputs.slots[lookup.identity].active is None,
        lookup.evidence.normalized(),
        !lookup.evidence.conflicted,
        !lookup.key.evidence.volatile,
        lookup.current == lookup.evidence,
        lookup.evidence != outputs.slots[lookup.identity].latest_stamp,
        0 <= k < lookup.evidence.revisions.len(),
        outputs.slots[lookup.identity].watermarks.contains_key(lookup.evidence.revisions[k].id()),
        lookup.evidence.revisions[k].at()
            < outputs.slots[lookup.identity].watermarks[lookup.evidence.revisions[k].id()],
    ensures
        ({
            let latest = outputs.slots[lookup.identity].latest_stamp;
            let miss = leasing(outputs, lookup).lease.miss;
            let newer = exists|i: int, j: int|
                #![trigger lookup.evidence.revisions[i], latest.revisions[j]]
                0 <= i < lookup.evidence.revisions.len() && 0 <= j < latest.revisions.len()
                    && lookup.evidence.revisions[i].id() == latest.revisions[j].id()
                    && lookup.evidence.revisions[i].at() > latest.revisions[j].at();
            let same = latest.identities() == lookup.evidence.identities();
            &&& miss == Some(OutputMiss::StaleContent) <==> same && !newer
            &&& miss == Some(OutputMiss::IncomparableContent) <==> !same || newer
        }),
{
    let latest = outputs.slots[lookup.identity].latest_stamp;
    let evidence = lookup.evidence;
    assert(regresses(outputs.slots[lookup.identity].watermarks, evidence));
    if advances(latest, evidence) && latest.identities() == evidence.identities() {
        let i = choose|i: int|
            0 <= i < evidence.revisions.len() && is_advance(latest, #[trigger] evidence.revisions[i]);
        let (left, right) = (latest.identities(), evidence.identities());
        assert(left.len() == latest.revisions.len() && right.len() == evidence.revisions.len());
        assert(left[i] == latest.revisions[i].id() && right[i] == evidence.revisions[i].id());
        lemma_generation_of(latest, i);
        assert(latest.revisions[i].id() == evidence.revisions[i].id());
    }
    if exists|i: int, j: int|
        #![trigger evidence.revisions[i], latest.revisions[j]]
        0 <= i < evidence.revisions.len() && 0 <= j < latest.revisions.len()
            && evidence.revisions[i].id() == latest.revisions[j].id()
            && evidence.revisions[i].at() > latest.revisions[j].at() {
        let (i, j) = choose|i: int, j: int|
            #![trigger evidence.revisions[i], latest.revisions[j]]
            0 <= i < evidence.revisions.len() && 0 <= j < latest.revisions.len()
                && evidence.revisions[i].id() == latest.revisions[j].id()
                && evidence.revisions[i].at() > latest.revisions[j].at();
        lemma_generation_of(latest, j);
        assert(is_advance(latest, evidence.revisions[i]));
    }
}

/// What a store leaves behind: a stored target stands under the signature that it was rendered
/// with and releases the one that it displaces. A target that is turned away is released, unless
/// it had been handed out by a hit: then it goes back under the signature of the lease.
pub proof fn stores_commit_return_or_release<T>(outputs: Outputs<T>, submission: Submission<T>)
    requires
        outputs.slots.contains_key(submission.identity),
        outputs.slots[submission.identity].active matches Some(active) && active.ticket
            == submission.ticket,
    ensures
        ({
            let before = outputs.slots[submission.identity];
            let active = before.active->0;
            let step = storing(outputs, submission);
            let after = step.outputs.slots[submission.identity];
            let returned = active.kind == LeaseKind::Hit && before.committed is None;
            &&& step.disposition == StoreDisposition::Stored ==> (after.committed matches Some(
                output,
            ) && output.key == submission.fresh_key && output.target == submission.target)
            &&& step.disposition == StoreDisposition::Stored && before.committed is Some
                ==> step.released == seq![before.committed->0.target]
            &&& step.disposition == StoreDisposition::Stored && before.committed is None
                ==> step.released.len() == 0
            &&& step.disposition != StoreDisposition::Stored && returned ==> (
            after.committed matches Some(output) && output.key == active.expected && output.target
                == submission.target) && step.released.len() == 0
            &&& step.disposition != StoreDisposition::Stored && !returned ==> after.committed
                == before.committed && step.released == seq![submission.target]
            &&& step.outputs.next_ticket == outputs.next_ticket
            &&& forall|other: u64|
                #![trigger step.outputs.slots[other]]
                outputs.slots.contains_key(other) && other != submission.identity
                    ==> step.outputs.slots[other] == outputs.slots[other]
        }),
{
}

/// A target is turned away as not requested if its content is unusable, or not what was leased
/// and rendered; and for its effect inputs only if all else is as leased.
pub proof fn rejections_for_content_and_inputs_are_true<T>(
    outputs: Outputs<T>,
    submission: Submission<T>,
)
    requires
        outputs.slots.contains_key(submission.identity),
        outputs.slots[submission.identity].active matches Some(active) && active.ticket
            == submission.ticket && !active.contended && active.frame == submission.frame,
    ensures
        ({
            let active = outputs.slots[submission.identity].active->0;
            let told = storing(outputs, submission).disposition;
            let requested = submission.evidence.revisions.len() > 0
                && !submission.evidence.conflicted && active.expected.content
                == submission.evidence && submission.fresh_key.content == submission.evidence;
            &&& told == StoreDisposition::RequestMismatch <==> !requested
            &&& told == StoreDisposition::ContentChanged <==> requested && submission.current
                != submission.evidence
            &&& told == StoreDisposition::VolatileInputs <==> requested && submission.current
                == submission.evidence && submission.fresh_key.evidence.volatile
            &&& told == StoreDisposition::RasterChanged <==> requested && submission.current
                == submission.evidence && !submission.fresh_key.evidence.volatile
                && active.expected.raster != submission.fresh_key.raster
            &&& told == StoreDisposition::EffectInputsChanged ==> requested && submission.current
                == submission.evidence && active.expected.raster == submission.fresh_key.raster
                && active.expected.geometry == submission.fresh_key.geometry
        }),
{
}

/// A rival spoils a lease: asking for a slot that is leased gets nothing, and keeps its holder
/// from storing, who still holds it until the target is returned.
pub proof fn rivals_spoil_a_lease<T>(
    outputs: Outputs<T>,
    lookup: Lookup,
    submission: Submission<T>,
)
    requires
        outputs.slots.contains_key(lookup.identity),
        outputs.slots[lookup.identity].active is Some,
        lookup.evidence.revisions.len() > 0,
        !lookup.evidence.conflicted,
        !lookup.key.evidence.volatile,
        lookup.current == lookup.evidence,
        submission.identity == lookup.identity,
        submission.ticket == outputs.slots[lookup.identity].active->0.ticket,
    ensures
        ({
            let step = leasing(outputs, lookup);
            &&& step.lease.target is None && step.lease.ticket is None
            &&& !step.lease.valid && !step.lease.cacheable
            &&& step.outputs.slots[lookup.identity].committed
                == outputs.slots[lookup.identity].committed
            &&& storing(step.outputs, submission).disposition == StoreDisposition::CompetingWriter
        }),
{
}

/// A lookup that is refused without its content being looked at takes nothing: the slot keeps
/// its output and its lease, no ticket is used up, and no slot is made.
pub proof fn refused_lookups_take_nothing<T>(outputs: Outputs<T>, lookup: Lookup)
    requires
        lookup.evidence.revisions.len() == 0 || lookup.evidence.conflicted
            || lookup.key.evidence.volatile || lookup.current != lookup.evidence,
    ensures
        ({
            let step = leasing(outputs, lookup);
            &&& step.lease.target is None && step.lease.ticket is None
            &&& !step.lease.valid && !step.lease.cacheable
            &&& step.outputs.next_ticket == outputs.next_ticket
            &&& step.outputs.slots.dom() == outputs.slots.dom()
            &&& outputs.slots.contains_key(lookup.identity) ==> {
                let before = outputs.slots[lookup.identity];
                let after = step.outputs.slots[lookup.identity];
                &&& after.committed == before.committed && after.active == before.active
                &&& after.latest_stamp == before.latest_stamp
                &&& after.last_used == before.last_used
            }
        }),
{
    assert(leasing(outputs, lookup).outputs.slots.dom() =~= outputs.slots.dom());
}

/// A slot learns of every generation that it gets to see, also from a lookup that is refused: one
/// with a conflict, one whose content has changed since, one that meets a lease, and one that
/// cannot be compared. A stale lookup, one without evidence and one with volatile inputs teach it
/// nothing.
pub proof fn slots_learn_from_what_they_see<T>(outputs: Outputs<T>, lookup: Lookup)
    requires
        outputs.slots.contains_key(lookup.identity),
        lookup.evidence.normalized(),
        lookup.current.normalized(),
    ensures
        ({
            let step = leasing(outputs, lookup);
            let before = outputs.slots[lookup.identity].watermarks;
            let after = step.outputs.slots[lookup.identity].watermarks;
            let miss = step.lease.miss;
            &&& miss == Some(OutputMiss::ContentConflict) ==> within(lookup.evidence, after)
            &&& miss == Some(OutputMiss::ContentChangedBeforeLookup) ==> within(
                lookup.current,
                after,
            )
            &&& miss == Some(OutputMiss::CompetingWriter) ==> within(lookup.evidence, after)
            &&& miss == Some(OutputMiss::IncomparableContent) ==> within(lookup.evidence, after)
            &&& miss == Some(OutputMiss::StaleContent) ==> after == before
            &&& miss == Some(OutputMiss::MissingContentEvidence) ==> after == before
            &&& miss == Some(OutputMiss::VolatileInputs) ==> after == before
            &&& forall|identity: u64| #[trigger]
                before.contains_key(identity) ==> after.contains_key(identity) && before[identity]
                    <= after[identity]
        }),
{
    let slot = outputs.slots[lookup.identity];
    lemma_raised_within(slot.watermarks, lookup.evidence);
    lemma_raised_within(slot.watermarks, lookup.current);
}

/// A store that finds its content changed teaches the slot what it has changed to.
pub proof fn slots_learn_from_late_stores<T>(outputs: Outputs<T>, submission: Submission<T>)
    requires
        storing(outputs, submission).disposition == StoreDisposition::ContentChanged,
        outputs.slots[submission.identity].active->0.expected.content == submission.evidence,
        submission.current.normalized(),
        submission.current != submission.evidence,
    ensures
        within(
            submission.current,
            storing(outputs, submission).outputs.slots[submission.identity].watermarks,
        ),
{
    lemma_raised_within(outputs.slots[submission.identity].watermarks, submission.current);
}

/// Residency requests of one frame that disagree are told so, and leave the slot at normal
/// priority for the rest of the frame, whatever is asked for then.
pub proof fn disagreeing_priorities_are_normal<T>(
    slot: Slot<T>,
    first: CacheResidencyPriority,
    second: CacheResidencyPriority,
    third: CacheResidencyPriority,
    frame: u64,
)
    requires
        slot.priority_frame != frame,
        first != second,
    ensures
        slot.marked(first, frame).disagrees(second, frame),
        slot.marked(first, frame).marked(second, frame).priority == CacheResidencyPriority::Normal,
        slot.marked(first, frame).marked(second, frame).disagrees(third, frame),
        slot.marked(first, frame).marked(second, frame).marked(third, frame).priority
            == CacheResidencyPriority::Normal,
        slot.marked(first, frame).marked(second, frame).marked_frame == frame,
        slot.marked(first, frame).committed == slot.committed,
        slot.marked(first, frame).active == slot.active,
        slot.marked(first, frame).last_used == slot.last_used,
{
}

/// A lookup tells of a disagreement on the priority exactly if an earlier request of its frame
/// asked for another one, or had met a disagreement already.
pub proof fn lookups_tell_of_disagreements<T>(outputs: Outputs<T>, lookup: Lookup)
    ensures
        leasing(outputs, lookup).lease.priority_conflict <==> outputs.slots.contains_key(
            lookup.identity,
        ) && outputs.slots[lookup.identity].priority_frame == lookup.frame && (
        outputs.slots[lookup.identity].priority != lookup.priority
            || outputs.slots[lookup.identity].priority_conflict_frame == Some(lookup.frame)),
{
}

/// A slot that is new is reserved for the output that is going to be rendered, with the content
/// and at the priority that were asked for.
pub proof fn unknown_identities_get_a_slot<T>(outputs: Outputs<T>, lookup: Lookup)
    requires
        !outputs.slots.contains_key(lookup.identity),
        lookup.evidence.normalized(),
        lookup.evidence.revisions.len() > 0,
        !lookup.evidence.conflicted,
        !lookup.key.evidence.volatile,
        lookup.current == lookup.evidence,
    ensures
        ({
            let step = leasing(outputs, lookup);
            let slot = step.outputs.slots[lookup.identity];
            &&& step.outputs.slots.dom() == outputs.slots.dom().insert(lookup.identity)
            &&& step.lease.cacheable && !step.lease.valid && step.lease.target is None
            &&& slot.committed is None
            &&& slot.priority == lookup.priority
            &&& slot.marked_frame == lookup.frame && slot.priority_frame == lookup.frame
            &&& slot.last_used == lookup.frame
            &&& slot.latest_stamp == lookup.evidence
            &&& within(lookup.evidence, slot.watermarks)
            &&& slot.active matches Some(active) && active.expected == lookup.key && active.kind
                == LeaseKind::Replacement && step.lease.ticket == Some(active.ticket)
        }),
{
    lemma_raised_within(Map::empty(), lookup.evidence);
    assert(leasing(outputs, lookup).outputs.slots.dom() =~= outputs.slots.dom().insert(
        lookup.identity,
    ));
}

/// Of two evictable outputs of one tier that were last used in the same frame, the one with the
/// smaller identity goes first.
pub proof fn smaller_identities_go_first<T: OutputTarget>(
    outputs: Outputs<T>,
    maximum: u64,
    frame: u64,
    after: Outputs<T>,
    evicted: Seq<EvictedTarget<T>>,
    remaining: u64,
    order: Seq<u64>,
    smaller: u64,
    larger: u64,
)
    requires
        outputs.evicts(maximum, frame, after, evicted, remaining, order),
        order.take(evicted.len() as int).contains(larger),
        outputs.slots.contains_key(smaller),
        outputs.slots[smaller].active is None,
        outputs.slots[smaller].committed is Some,
        outputs.slots[smaller].priority == outputs.slots[larger].priority,
        outputs.slots[smaller].last_used == outputs.slots[larger].last_used,
        smaller < larger,
    ensures
        order.take(evicted.len() as int).contains(smaller),
        after.slots[smaller].committed is None,
{
    let gone = order.take(evicted.len() as int);
    let p = choose|p: int| 0 <= p < gone.len() && gone[p] == larger;
    assert(order[p] == larger);
    assert(order.contains(smaller));
    let n = choose|n: int| 0 <= n < order.len() && order[n] == smaller;
    if n >= p {
        if p < n {
            assert(outputs.evicted_before(order[p], order[n], frame));
        }
    }
    assert(gone[n] == smaller);
}

/// The bytes of a retained output count under its priority and no other; an empty slot takes none.
pub proof fn outputs_count_under_their_priority<T: OutputTarget>(outputs: Outputs<T>, identity: u64)
    ensures
        ({
            let slot = outputs.slots[identity];
            let normal = outputs.slot_bytes(identity, CacheResidencyPriority::Normal);
            let protected = outputs.slot_bytes(identity, CacheResidencyPriority::Protected);
            &&& slot.committed is None ==> normal == 0 && protected == 0
            &&& slot.committed matches Some(output) ==> normal + protected == output.target.size()
            &&& slot.priority == CacheResidencyPriority::Normal ==> protected == 0
            &&& slot.priority == CacheResidencyPriority::Protected ==> normal == 0
        }),
{
}

/// Bytes, records and leases are counted slot by slot.
pub proof fn counts_add_up_slot_by_slot<T: OutputTarget>(
    outputs: Outputs<T>,
    identities: Seq<u64>,
    identity: u64,
    priority: CacheResidencyPriority,
    holds: spec_fn(u64) -> bool,
)
    ensures
        outputs.priority_bytes(identities.push(identity), priority) == outputs.priority_bytes(
            identities,
            priority,
        ) + outputs.slot_bytes(identity, priority),
        outputs.watermark_records(identities.push(identity)) == outputs.watermark_records(
            identities,
        ) + outputs.slots[identity].watermarks.len(),
        count(identities.push(identity), holds) == count(identities, holds) + (if holds(identity) {
            1int
        } else {
            0
        }),
        outputs.priority_bytes(Seq::empty(), priority) == 0,
        outputs.watermark_records(Seq::empty()) == 0,
        count(Seq::empty(), holds) == 0,
{
    assert(identities.push(identity).drop_last() =~= identities);
}

} // verus!
