//! Reuse policy for free backing textures.

use crate::format::{texture_byte_size, texture_bytes, TextureFormat};
use crate::geometry::Size;
use rustc_hash::FxHashMap;
use std::collections::VecDeque;
use vstd::multiset::Multiset;
use vstd::prelude::*;

verus! {

/// Most recent lease purpose, used for diagnostics, never compatibility.
#[derive(Debug, Clone, Copy, PartialEq, Eq, Structural)]
pub enum Role {
    Layer,
    Scratch,
}

/// How many backings a trim gave up, and how many of them were last used as scratch.
#[derive(Debug, Clone, Copy, PartialEq, Eq, Structural)]
pub struct Trimmed {
    pub total: usize,
    pub scratch: usize,
}

/// Exact compatibility of two-dimensional, single-sample, single-mip targets.
///
/// Role is deliberately absent: scratch and layer captures share backings.
#[derive(Debug, Clone, Copy, PartialEq, Eq, Structural)]
pub struct Key {
    pub width: u32,
    pub height: u32,
    pub format: TextureFormat,
}

impl Key {
    /// The compatibility key of a format and an extent.
    pub fn new(format: TextureFormat, extent: Size) -> (key: Self)
        ensures
            key == (Key { width: extent.width, height: extent.height, format }),
    {
        Key { width: extent.width, height: extent.height, format }
    }

    /// Bytes of one backing with this key.
    pub open spec fn size(self) -> u64 {
        texture_bytes(self.format, (Size { width: self.width, height: self.height }))
    }

    /// Returns the bytes of one backing with this key.
    pub fn bytes(self) -> (bytes: u64)
        ensures
            bytes == self.size(),
    {
        texture_byte_size(self.format, Size { width: self.width, height: self.height })
    }

    /// The key as plain numbers.
    pub open spec fn index(self) -> (u32, u32, u32) {
        (self.width, self.height, self.format.code())
    }

    fn to_index(self) -> (index: (u32, u32, u32))
        ensures
            index == self.index(),
    {
        (self.width, self.height, self.format.to_code())
    }
}

/// Distinct keys have distinct numbers.
pub proof fn key_index_is_injective(a: Key, b: Key)
    requires
        a.index() == b.index(),
    ensures
        a == b,
{
}

/// A free backing, as the reuse policy sees it.
pub ghost struct Backing<T> {
    pub key: Key,
    pub role: Role,
    pub target: T,
}

/// Bytes of a list of backings.
pub open spec fn total_bytes<T>(backings: Seq<Backing<T>>) -> nat
    decreases backings.len(),
{
    if backings.len() == 0 {
        0
    } else {
        total_bytes(backings.drop_last()) + backings.last().key.size() as nat
    }
}

/// Bytes of those backings whose last role was scratch.
pub open spec fn scratch_bytes<T>(backings: Seq<Backing<T>>) -> nat
    decreases backings.len(),
{
    if backings.len() == 0 {
        0
    } else if backings.last().role == Role::Scratch {
        scratch_bytes(backings.drop_last()) + backings.last().key.size() as nat
    } else {
        scratch_bytes(backings.drop_last())
    }
}

/// How many backings were last used as scratch.
pub open spec fn scratch_count<T>(backings: Seq<Backing<T>>) -> nat
    decreases backings.len(),
{
    if backings.len() == 0 {
        0
    } else if backings.last().role == Role::Scratch {
        scratch_count(backings.drop_last()) + 1
    } else {
        scratch_count(backings.drop_last())
    }
}

/// The targets of a list of backings.
pub open spec fn targets<T>(backings: Seq<Backing<T>>) -> Multiset<T>
    decreases backings.len(),
{
    if backings.len() == 0 {
        Multiset::empty()
    } else {
        targets(backings.drop_last()).insert(backings.last().target)
    }
}

/// The most recently released backing with this key stands at `i`.
pub open spec fn newest_at<T>(backings: Seq<Backing<T>>, key: Key, i: int) -> bool {
    &&& 0 <= i < backings.len()
    &&& backings[i].key == key
    &&& forall|j: int| i < j < backings.len() ==> (#[trigger] backings[j]).key != key
}

/// Whether a backing fits into the whole budget on its own.
pub open spec fn fits<T>(backing: Backing<T>, budget: u64) -> bool {
    backing.key.size() <= budget
}

/// The backings that fit into the budget on their own, in order.
pub open spec fn fitting<T>(backings: Seq<Backing<T>>, budget: u64) -> Seq<Backing<T>>
    decreases backings.len(),
{
    if backings.len() == 0 {
        Seq::empty()
    } else if fits(backings.last(), budget) {
        fitting(backings.drop_last(), budget).push(backings.last())
    } else {
        fitting(backings.drop_last(), budget)
    }
}

/// What is left once the oldest backings have gone until the rest takes at most `maximum`
/// bytes.
pub open spec fn youngest<T>(backings: Seq<Backing<T>>, maximum: u64) -> Seq<Backing<T>>
    decreases backings.len(),
{
    if total_bytes(backings) <= maximum || backings.len() == 0 {
        backings
    } else {
        youngest(backings.drop_first(), maximum)
    }
}

/// What a frame-end trim keeps.
///
/// Nothing leaves while the allowance is met. Otherwise backings that could never fit go
/// first, so that they cannot flush smaller ones, and then the oldest go.
pub open spec fn trimmed<T>(backings: Seq<Backing<T>>, maximum: u64, budget: u64) -> Seq<
    Backing<T>,
> {
    if total_bytes(backings) <= maximum {
        backings
    } else {
        youngest(fitting(backings, budget), maximum)
    }
}

/// The targets of the backings with this key, oldest first.
pub open spec fn with_key<T>(backings: Seq<Backing<T>>, key: Key) -> Seq<T>
    decreases backings.len(),
{
    if backings.len() == 0 {
        Seq::empty()
    } else if backings.last().key == key {
        with_key(backings.drop_last(), key).push(backings.last().target)
    } else {
        with_key(backings.drop_last(), key)
    }
}

/// The targets of the backings with each of these keys, one key after the other.
pub open spec fn by_key<T>(backings: Seq<Backing<T>>, keys: Seq<Key>) -> Seq<T>
    decreases keys.len(),
{
    if keys.len() == 0 {
        Seq::empty()
    } else {
        by_key(backings, keys.drop_last()) + with_key(backings, keys.last())
    }
}

/// Whether `keys` lists every key whose backings could never fit, each once.
pub open spec fn lists_oversized<T>(
    backings: Seq<Backing<T>>,
    budget: u64,
    keys: Seq<Key>,
) -> bool {
    &&& keys.no_duplicates()
    &&& forall|i: int| 0 <= i < keys.len() ==> (#[trigger] keys[i]).size() > budget
    &&& forall|i: int|
        0 <= i < backings.len() && !fits(#[trigger] backings[i], budget) ==> keys.contains(
            backings[i].key,
        )
}

/// The targets that go, oldest first, until the rest takes at most `maximum` bytes.
pub open spec fn aged<T>(backings: Seq<Backing<T>>, maximum: u64) -> Seq<T>
    decreases backings.len(),
{
    if total_bytes(backings) <= maximum || backings.len() == 0 {
        Seq::empty()
    } else {
        seq![backings[0].target] + aged(backings.drop_first(), maximum)
    }
}

/// Whether a frame-end trim may give up these targets, in this order.
///
/// The oversized ones go first, key by key in any order of the keys and the oldest of each key
/// first; then the oldest of all go.
pub open spec fn gives_up<T>(
    backings: Seq<Backing<T>>,
    maximum: u64,
    budget: u64,
    given_up: Seq<T>,
) -> bool {
    if total_bytes(backings) <= maximum {
        given_up.len() == 0
    } else {
        exists|keys: Seq<Key>| #[trigger]
            lists_oversized(backings, budget, keys) && given_up == by_key(backings, keys) + aged(
                fitting(backings, budget),
                maximum,
            )
    }
}

/// `rustc_hash::FxBuildHasher`, which is carried along with a table and never looked into.
#[verifier::external_type_specification]
#[verifier::external_body]
pub struct ExFxBuildHasher(rustc_hash::FxBuildHasher);

fn new_table<V>() -> (table: FxHashMap<(u32, u32, u32), V>)
    ensures
        table@ == Map::<(u32, u32, u32), V>::empty(),
{
    FxHashMap::default()
}

/// `get_mut` of a `rustc_hash::FxHashMap`.
///
/// Hands out the value of a key that is present; writing through it changes that value
/// and nothing else.
#[verifier::external_body]
fn table_get_mut<'a, V>(
    table: &'a mut FxHashMap<(u32, u32, u32), V>,
    key: &(u32, u32, u32),
) -> (found: Option<&'a mut V>)
    ensures
        match found {
            Some(value) => old(table)@.contains_key(*key) && *value == old(table)@[*key]
                && final(table)@ == old(table)@.insert(*key, *final(value)),
            None => !old(table)@.contains_key(*key) && final(table)@ == old(table)@,
        },
{
    table.get_mut(key)
}

/// `get` of a `rustc_hash::FxHashMap`: the value of a key that is present.
#[verifier::external_body]
fn table_get<'a, V>(table: &'a FxHashMap<(u32, u32, u32), V>, key: &(u32, u32, u32)) -> (found:
    Option<&'a V>)
    ensures
        match found {
            Some(value) => table@.contains_key(*key) && *value == table@[*key],
            None => !table@.contains_key(*key),
        },
{
    table.get(key)
}

/// `insert` of a `rustc_hash::FxHashMap`: maps the key to the value and hands back what it
/// was mapped to.
#[verifier::external_body]
fn table_insert<V>(table: &mut FxHashMap<(u32, u32, u32), V>, key: (u32, u32, u32), value: V) -> (
previous: Option<V>)
    ensures
        final(table)@ == old(table)@.insert(key, value),
        previous == (if old(table)@.contains_key(key) {
            Some(old(table)@[key])
        } else {
            None
        }),
{
    table.insert(key, value)
}

/// `remove` of a `rustc_hash::FxHashMap`: unmaps the key and hands back what it was mapped
/// to.
#[verifier::external_body]
fn table_remove<V>(table: &mut FxHashMap<(u32, u32, u32), V>, key: &(u32, u32, u32)) -> (removed:
    Option<V>)
    ensures
        final(table)@ == old(table)@.remove(*key),
        removed == (if old(table)@.contains_key(*key) {
            Some(old(table)@[*key])
        } else {
            None
        }),
{
    table.remove(key)
}

/// `keys` of a `rustc_hash::FxHashMap`: every key once, in an order that is left open.
#[verifier::external_body]
fn table_keys<V>(table: &FxHashMap<(u32, u32, u32), V>) -> (keys: Vec<(u32, u32, u32)>)
    ensures
        keys@.no_duplicates(),
        forall|key: (u32, u32, u32)| #[trigger] keys@.contains(key) <==> table@.contains_key(key),
{
    table.keys().copied().collect()
}

struct Free<T> {
    target: T,
    role: Role,
    released_at: u64,
}

struct Bucket<T> {
    key: Key,
    bytes: u64,
    entries: VecDeque<Free<T>>,
}

ghost struct Item<T> {
    backing: Backing<T>,
    released_at: u64,
}

impl<T> Item<T> {
    spec fn free(self) -> Free<T> {
        Free {
            target: self.backing.target,
            role: self.backing.role,
            released_at: self.released_at,
        }
    }

    spec fn index(self) -> (u32, u32, u32) {
        self.backing.key.index()
    }
}

/// The entries of one bucket, in release order.
spec fn of_key<T>(order: Seq<Item<T>>, index: (u32, u32, u32)) -> Seq<Free<T>>
    decreases order.len(),
{
    if order.len() == 0 {
        Seq::empty()
    } else if order.last().index() == index {
        of_key(order.drop_last(), index).push(order.last().free())
    } else {
        of_key(order.drop_last(), index)
    }
}

spec fn backings<T>(order: Seq<Item<T>>) -> Seq<Backing<T>> {
    order.map_values(|item: Item<T>| item.backing)
}

/// The items whose bucket is not in `dropped`.
spec fn without<T>(order: Seq<Item<T>>, dropped: Set<(u32, u32, u32)>) -> Seq<Item<T>>
    decreases order.len(),
{
    if order.len() == 0 {
        Seq::empty()
    } else if dropped.contains(order.last().index()) {
        without(order.drop_last(), dropped)
    } else {
        without(order.drop_last(), dropped).push(order.last())
    }
}

spec fn stamped<T>(order: Seq<Item<T>>, next: u64) -> bool {
    &&& forall|i: int, j: int|
        #![trigger order[i], order[j]]
        0 <= i < j < order.len() ==> order[i].released_at < order[j].released_at
    &&& forall|i: int| 0 <= i < order.len() ==> (#[trigger] order[i]).released_at < next
}

/// The production reuse policy for free backings.
///
/// The backings stand in release order: a return goes to the end, and a checkout takes the
/// newest backing with the exact key.
pub struct FreePool<T> {
    buckets: FxHashMap<(u32, u32, u32), Bucket<T>>,
    bytes: u64,
    scratch_bytes: u64,
    next_release: u64,
    // Dense bucket heads, populated only under pressure. Capacity is reused.
    candidates: Vec<((u32, u32, u32), u64)>,
    order: Ghost<Seq<Item<T>>>,
}

impl<T> View for FreePool<T> {
    type V = Seq<Backing<T>>;

    closed spec fn view(&self) -> Seq<Backing<T>> {
        backings(self.order@)
    }
}

impl<T> FreePool<T> {
    spec fn shelved(self) -> bool {
        &&& stamped(self.order@, self.next_release)
        &&& forall|index: (u32, u32, u32)| #[trigger]
            self.buckets@.contains_key(index) ==> self.buckets@[index].entries@ == of_key(
                self.order@,
                index,
            ) && self.buckets@[index].key.index() == index && self.buckets@[index].bytes
                == self.buckets@[index].key.size()
        &&& forall|index: (u32, u32, u32)|
            !(#[trigger] self.buckets@.contains_key(index)) ==> of_key(self.order@, index).len()
                == 0
    }

    spec fn accounted(self) -> bool {
        &&& self.bytes == total_bytes(backings(self.order@))
        &&& self.scratch_bytes == scratch_bytes(backings(self.order@))
    }

    spec fn indexed(self) -> bool {
        &&& forall|i: int, j: int|
            #![trigger self.candidates@[i], self.candidates@[j]]
            0 <= i < j < self.candidates@.len() ==> self.candidates@[i].0 != self.candidates@[j].0
        &&& forall|i: int|
            0 <= i < self.candidates@.len() ==> heads(self.order@, #[trigger] self.candidates@[i])
        &&& forall|index: (u32, u32, u32)|
            (#[trigger] of_key(self.order@, index)).len() > 0 ==> listed(self.candidates@, index)
    }

    /// Every byte count agrees with the backings, and every bucket holds exactly its
    /// backings in release order.
    pub closed spec fn wf(self) -> bool {
        &&& self.shelved()
        &&& self.accounted()
        &&& self.candidates@.len() == 0
    }

    /// The indices of the keys that bookkeeping is kept for.
    pub closed spec fn kept_keys(self) -> Set<(u32, u32, u32)> {
        self.buckets@.dom()
    }

    /// Whether no bookkeeping is kept for a key under which nothing is free.
    pub open spec fn holds_no_empty_bucket(self) -> bool {
        forall|index: (u32, u32, u32)| #[trigger]
            self.kept_keys().contains(index) ==> exists|i: int|
                0 <= i < self@.len() && (#[trigger] self@[i]).key.index() == index
    }
}

/// The buckets that hold something.
spec fn filled<T>(buckets: Map<(u32, u32, u32), Bucket<T>>) -> Map<(u32, u32, u32), Bucket<T>> {
    Map::new(
        |index: (u32, u32, u32)|
            buckets.contains_key(index) && buckets[index].entries@.len() > 0,
        |index: (u32, u32, u32)| buckets[index],
    )
}

spec fn heads<T>(order: Seq<Item<T>>, candidate: ((u32, u32, u32), u64)) -> bool {
    &&& of_key(order, candidate.0).len() > 0
    &&& of_key(order, candidate.0)[0].released_at == candidate.1
}

spec fn listed(candidates: Seq<((u32, u32, u32), u64)>, index: (u32, u32, u32)) -> bool {
    exists|i: int| 0 <= i < candidates.len() && (#[trigger] candidates[i]).0 == index
}

// ---- lemmas on release order ----
proof fn lemma_of_key_members<T>(order: Seq<Item<T>>, index: (u32, u32, u32), p: int) -> (i: int)
    requires
        0 <= p < of_key(order, index).len(),
    ensures
        0 <= i < order.len(),
        order[i].index() == index,
        order[i].free() == of_key(order, index)[p],
    decreases order.len(),
{
    let rest = order.drop_last();
    if order.last().index() == index && p == of_key(rest, index).len() {
        order.len() - 1
    } else {
        let i = lemma_of_key_members(rest, index, p);
        assert(rest[i] == order[i]);
        i
    }
}

proof fn lemma_of_key_nonempty<T>(order: Seq<Item<T>>, i: int)
    requires
        0 <= i < order.len(),
    ensures
        of_key(order, order[i].index()).len() > 0,
    decreases order.len(),
{
    if i < order.len() - 1 {
        let rest = order.drop_last();
        assert(rest[i] == order[i]);
        lemma_of_key_nonempty(rest, i);
    }
}

proof fn lemma_drop_first<T>(order: Seq<Item<T>>, index: (u32, u32, u32))
    requires
        order.len() > 0,
    ensures
        order[0].index() == index ==> {
            &&& of_key(order, index).len() > 0
            &&& of_key(order, index)[0] == order[0].free()
            &&& of_key(order.drop_first(), index) == of_key(order, index).drop_first()
        },
        order[0].index() != index ==> of_key(order.drop_first(), index) == of_key(order, index),
    decreases order.len(),
{
    let tail = order.drop_first();
    if order.len() == 1 {
        assert(order.drop_last().len() == 0);
        assert(tail.len() == 0);
        assert(of_key(order.drop_last(), index) == Seq::<Free<T>>::empty());
        assert(of_key(tail, index) =~= Seq::<Free<T>>::empty());
        if order[0].index() == index {
            assert(of_key(order, index).drop_first() =~= Seq::<Free<T>>::empty());
        }
    } else {
        let rest = order.drop_last();
        lemma_drop_first(rest, index);
        assert(rest[0] == order[0]);
        assert(rest.drop_first() =~= tail.drop_last());
        assert(tail.last() == order.last());
        if order[0].index() == index {
            let shorter = of_key(rest, index);
            if order.last().index() == index {
                assert(shorter.push(order.last().free()).drop_first()
                    =~= shorter.drop_first().push(order.last().free()));
            }
        }
    }
}

spec fn last_of<T>(order: Seq<Item<T>>, index: (u32, u32, u32)) -> int
    decreases order.len(),
{
    if order.len() == 0 {
        -1
    } else if order.last().index() == index {
        order.len() - 1
    } else {
        last_of(order.drop_last(), index)
    }
}

proof fn lemma_last_of<T>(order: Seq<Item<T>>, index: (u32, u32, u32))
    ensures
        of_key(order, index).len() == 0 ==> forall|i: int|
            0 <= i < order.len() ==> (#[trigger] order[i]).index() != index,
        of_key(order, index).len() > 0 ==> {
            let i = last_of(order, index);
            &&& 0 <= i < order.len()
            &&& order[i].index() == index
            &&& of_key(order, index).last() == order[i].free()
            &&& forall|j: int| i < j < order.len() ==> (#[trigger] order[j]).index() != index
            &&& forall|k: (u32, u32, u32)| #[trigger]
                of_key(order.remove(i), k) == (if k == index {
                    of_key(order, k).drop_last()
                } else {
                    of_key(order, k)
                })
        },
    decreases order.len(),
{
    if order.len() > 0 {
        let rest = order.drop_last();
        lemma_last_of(rest, index);
        if order.last().index() == index {
            let i = order.len() - 1;
            assert(order.remove(i) =~= rest);
            assert forall|k: (u32, u32, u32)| #[trigger]
                of_key(order.remove(i), k) == (if k == index {
                    of_key(order, k).drop_last()
                } else {
                    of_key(order, k)
                }) by {
                if k == index {
                    assert(of_key(order, k).drop_last() =~= of_key(rest, k));
                }
            }
        } else {
            assert forall|i: int| 0 <= i < rest.len() implies #[trigger] order[i] == rest[i] by {}
            if of_key(order, index).len() > 0 {
                let i = last_of(order, index);
                assert(i == last_of(rest, index));
                let shorter = order.remove(i);
                assert(shorter.drop_last() =~= rest.remove(i));
                assert(shorter.last() == order.last());
                assert forall|k: (u32, u32, u32)| #[trigger]
                    of_key(order.remove(i), k) == (if k == index {
                        of_key(order, k).drop_last()
                    } else {
                        of_key(order, k)
                    }) by {
                    assert(of_key(rest.remove(i), k) == (if k == index {
                        of_key(rest, k).drop_last()
                    } else {
                        of_key(rest, k)
                    }));
                }
                assert forall|j: int| i < j < order.len() implies (#[trigger] order[j]).index()
                    != index by {
                    if j < order.len() - 1 {
                        assert(rest[j].index() != index);
                    }
                }
            }
            if of_key(order, index).len() == 0 {
                assert forall|i: int| 0 <= i < order.len() implies (#[trigger] order[i]).index()
                    != index by {
                    if i < order.len() - 1 {
                        assert(rest[i].index() != index);
                    }
                }
            }
        }
    }
}

/// Removing one backing removes its bytes from both sums.
proof fn lemma_remove_bytes<T>(list: Seq<Backing<T>>, i: int)
    requires
        0 <= i < list.len(),
    ensures
        total_bytes(list) == total_bytes(list.remove(i)) + list[i].key.size(),
        scratch_bytes(list) == scratch_bytes(list.remove(i)) + (if list[i].role == Role::Scratch {
            list[i].key.size() as int
        } else {
            0
        }),
        scratch_count(list) == scratch_count(list.remove(i)) + (if list[i].role == Role::Scratch {
            1int
        } else {
            0
        }),
        targets(list) == targets(list.remove(i)).insert(list[i].target),
    decreases list.len(),
{
    let rest = list.drop_last();
    if i == list.len() - 1 {
        assert(list.remove(i) =~= rest);
    } else {
        lemma_remove_bytes(rest, i);
        assert(list.remove(i).drop_last() =~= rest.remove(i));
        assert(list.remove(i).last() == list.last());
        assert(targets(rest.remove(i)).insert(list[i].target).insert(list.last().target)
            =~= targets(rest.remove(i)).insert(list.last().target).insert(list[i].target));
    }
}

proof fn lemma_without<T>(
    order: Seq<Item<T>>,
    dropped: Set<(u32, u32, u32)>,
    index: (u32, u32, u32),
)
    ensures
        of_key(without(order, dropped), index) == (if dropped.contains(index) {
            Seq::empty()
        } else {
            of_key(order, index)
        }),
    decreases order.len(),
{
    if order.len() > 0 {
        let rest = order.drop_last();
        lemma_without(rest, dropped, index);
        if !dropped.contains(order.last().index()) {
            let kept = without(order, dropped);
            assert(kept.drop_last() =~= without(rest, dropped));
            assert(kept.last() == order.last());
        }
    }
}

/// Every item that is kept comes from the order, in order.
proof fn lemma_without_stamped<T>(order: Seq<Item<T>>, dropped: Set<(u32, u32, u32)>, next: u64)
    requires
        stamped(order, next),
    ensures
        stamped(without(order, dropped), next),
        forall|i: int|
            0 <= i < without(order, dropped).len() ==> order.contains(
                #[trigger] without(order, dropped)[i],
            ),
        without(order, dropped).len() <= order.len(),
    decreases order.len(),
{
    if order.len() > 0 {
        let rest = order.drop_last();
        assert(stamped(rest, next)) by {
            assert forall|i: int, j: int|
                #![trigger rest[i], rest[j]]
                0 <= i < j < rest.len() implies rest[i].released_at < rest[j].released_at by {
                assert(order[i].released_at < order[j].released_at);
            }
            assert forall|i: int| 0 <= i < rest.len() implies (#[trigger] rest[i]).released_at
                < next by {
                assert(order[i].released_at < next);
            }
        }
        lemma_without_stamped(rest, dropped, next);
        let kept = without(order, dropped);
        let before = without(rest, dropped);
        assert forall|i: int| 0 <= i < kept.len() implies order.contains(#[trigger] kept[i]) by {
            if i < before.len() {
                assert(rest.contains(before[i]));
                let k = choose|k: int| 0 <= k < rest.len() && rest[k] == before[i];
                assert(order[k] == kept[i]);
            } else {
                assert(order[order.len() - 1] == kept[i]);
            }
        }
        if !dropped.contains(order.last().index()) {
            assert forall|i: int, j: int|
                #![trigger kept[i], kept[j]]
                0 <= i < j < kept.len() implies kept[i].released_at < kept[j].released_at by {
                if j < before.len() {
                    assert(before[i].released_at < before[j].released_at);
                } else {
                    assert(rest.contains(before[i]));
                    let k = choose|k: int| 0 <= k < rest.len() && rest[k] == before[i];
                    assert(order[k].released_at < order[order.len() - 1].released_at);
                }
            }
            assert forall|i: int| 0 <= i < kept.len() implies (#[trigger] kept[i]).released_at
                < next by {
                if i < before.len() {
                    assert(before[i].released_at < next);
                } else {
                    assert(order[order.len() - 1].released_at < next);
                }
            }
        }
    }
}

spec fn run_bytes<T>(entries: Seq<Free<T>>, size: u64) -> nat
    decreases entries.len(),
{
    if entries.len() == 0 {
        0
    } else {
        run_bytes(entries.drop_last(), size) + size as nat
    }
}

spec fn run_scratch<T>(entries: Seq<Free<T>>, size: u64) -> nat
    decreases entries.len(),
{
    if entries.len() == 0 {
        0
    } else if entries.last().role == Role::Scratch {
        run_scratch(entries.drop_last(), size) + size as nat
    } else {
        run_scratch(entries.drop_last(), size)
    }
}

spec fn run_count<T>(entries: Seq<Free<T>>) -> nat
    decreases entries.len(),
{
    if entries.len() == 0 {
        0
    } else if entries.last().role == Role::Scratch {
        run_count(entries.drop_last()) + 1
    } else {
        run_count(entries.drop_last())
    }
}

spec fn run_targets<T>(entries: Seq<Free<T>>) -> Multiset<T>
    decreases entries.len(),
{
    if entries.len() == 0 {
        Multiset::empty()
    } else {
        run_targets(entries.drop_last()).insert(entries.last().target)
    }
}

/// The oldest entry of a bucket counts like the newest.
proof fn lemma_run_front<T>(entries: Seq<Free<T>>, size: u64)
    requires
        entries.len() > 0,
    ensures
        run_bytes(entries, size) == run_bytes(entries.drop_first(), size) + size,
        run_scratch(entries, size) == run_scratch(entries.drop_first(), size) + (if entries[0].role
            == Role::Scratch {
            size as nat
        } else {
            0
        }),
        run_count(entries) == run_count(entries.drop_first()) + (if entries[0].role
            == Role::Scratch {
            1nat
        } else {
            0
        }),
        run_targets(entries) == run_targets(entries.drop_first()).insert(entries[0].target),
    decreases entries.len(),
{
    let tail = entries.drop_first();
    if entries.len() > 1 {
        let rest = entries.drop_last();
        lemma_run_front(rest, size);
        assert(tail.drop_last() =~= rest.drop_first());
        assert(tail.last() == entries.last());
        assert(run_targets(entries) =~= run_targets(tail).insert(entries[0].target));
    } else {
        assert(entries.drop_last() =~= tail);
        reveal_with_fuel(run_bytes, 2);
        reveal_with_fuel(run_scratch, 2);
        reveal_with_fuel(run_count, 2);
        reveal_with_fuel(run_targets, 2);
    }
}

/// The targets of a list of entries, in order.
spec fn entry_targets<T>(entries: Seq<Free<T>>) -> Seq<T> {
    entries.map_values(|entry: Free<T>| entry.target)
}

/// A bucket holds the targets with its key, oldest first.
proof fn lemma_bucket_targets<T>(order: Seq<Item<T>>, key: Key)
    ensures
        entry_targets(of_key(order, key.index())) == with_key(backings(order), key),
    decreases order.len(),
{
    let list = backings(order);
    if order.len() > 0 {
        lemma_bucket_targets(order.drop_last(), key);
        assert(list.drop_last() =~= backings(order.drop_last()));
        if order.last().index() == key.index() {
            key_index_is_injective(order.last().backing.key, key);
        }
    }
    assert(entry_targets(of_key(order, key.index())) =~= with_key(list, key));
}

/// Dropping one more bucket takes exactly its entries out of every sum.
proof fn lemma_without_insert<T>(
    order: Seq<Item<T>>,
    dropped: Set<(u32, u32, u32)>,
    index: (u32, u32, u32),
    size: u64,
)
    requires
        !dropped.contains(index),
        forall|i: int|
            0 <= i < order.len() && (#[trigger] order[i]).index() == index
                ==> order[i].backing.key.size() == size,
    ensures
        ({
            let before = backings(without(order, dropped));
            let after = backings(without(order, dropped.insert(index)));
            let entries = of_key(order, index);
            &&& total_bytes(before) == total_bytes(after) + run_bytes(entries, size)
            &&& scratch_bytes(before) == scratch_bytes(after) + run_scratch(entries, size)
            &&& scratch_count(before) == scratch_count(after) + run_count(entries)
            &&& before.len() == after.len() + entries.len()
            &&& targets(before) == targets(after).add(run_targets(entries))
        }),
    decreases order.len(),
{
    if order.len() == 0 {
        assert(targets(backings(without(order, dropped))) =~= targets(
            backings(without(order, dropped.insert(index))),
        ).add(run_targets(of_key(order, index))));
    }
    if order.len() > 0 {
        let rest = order.drop_last();
        assert forall|i: int|
            0 <= i < rest.len() && (#[trigger] rest[i]).index() == index implies
            rest[i].backing.key.size() == size by {
            assert(rest[i] == order[i]);
        }
        lemma_without_insert(rest, dropped, index, size);
        let more = dropped.insert(index);
        let last = order.last();
        assert(order[order.len() - 1] == last);
        if !dropped.contains(last.index()) {
            assert(backings(without(order, dropped)) =~= backings(without(rest, dropped)).push(
                last.backing,
            ));
            assert(backings(without(rest, dropped)).push(last.backing).drop_last() =~= backings(
                without(rest, dropped),
            ));
        }
        if !more.contains(last.index()) {
            assert(backings(without(order, more)) =~= backings(without(rest, more)).push(
                last.backing,
            ));
            assert(backings(without(rest, more)).push(last.backing).drop_last() =~= backings(
                without(rest, more),
            ));
        }
        let entries = of_key(order, index);
        if last.index() == index {
            assert(entries.drop_last() =~= of_key(rest, index));
        }
        assert(targets(backings(without(order, dropped))) =~= targets(
            backings(without(order, more)),
        ).add(run_targets(entries)));
    }
}

/// Dropping the buckets of all oversized backings leaves the fitting ones.
proof fn lemma_without_oversized<T>(
    order: Seq<Item<T>>,
    dropped: Set<(u32, u32, u32)>,
    budget: u64,
)
    requires
        forall|i: int|
            0 <= i < order.len() ==> (dropped.contains((#[trigger] order[i]).index()) <==> !fits(
                order[i].backing,
                budget,
            )),
    ensures
        backings(without(order, dropped)) == fitting(backings(order), budget),
    decreases order.len(),
{
    if order.len() > 0 {
        let rest = order.drop_last();
        assert forall|i: int| 0 <= i < rest.len() implies (dropped.contains(
            (#[trigger] rest[i]).index(),
        ) <==> !fits(rest[i].backing, budget)) by {
            assert(rest[i] == order[i]);
        }
        lemma_without_oversized(rest, dropped, budget);
        assert(backings(order).drop_last() =~= backings(rest));
        assert(order[order.len() - 1] == order.last());
        assert(backings(order).last() == order.last().backing);
        if !dropped.contains(order.last().index()) {
            assert(backings(without(order, dropped)) =~= backings(without(rest, dropped)).push(
                order.last().backing,
            ));
        }
    } else {
        assert(backings(without(order, dropped)) =~= fitting(backings(order), budget));
    }
}

impl<T> FreePool<T> {
    /// Creates an empty pool.
    pub fn new() -> (pool: Self)
        ensures
            pool.wf(),
            pool@ == Seq::<Backing<T>>::empty(),
            pool.stamp() == 0,
            pool.kept_keys() == Set::<(u32, u32, u32)>::empty(),
    {
        Self::stamped_from(0)
    }

    /// Returns for how many keys bookkeeping is kept.
    pub fn bucket_count(&self) -> (count: usize)
        requires
            self.wf(),
        ensures
            count == self.kept_keys().len(),
    {
        let keys = table_keys(&self.buckets);
        proof {
            keys@.unique_seq_to_set();
            assert(keys@.to_set() =~= self.kept_keys()) by {
                assert forall|index: (u32, u32, u32)|
                    keys@.to_set().contains(index) == #[trigger] self.kept_keys().contains(
                        index,
                    ) by {
                    assert(keys@.contains(index) <==> self.buckets@.contains_key(index));
                }
            }
        }
        keys.len()
    }

    /// The stamp that the next release gets.
    pub closed spec fn stamp(self) -> u64 {
        self.next_release
    }

    /// Returns the stamp that the next release gets.
    pub fn next_release(&self) -> (stamp: u64)
        ensures
            stamp == self.stamp(),
    {
        self.next_release
    }

    /// Creates an empty pool whose first release gets the given stamp.
    pub fn stamped_from(next_release: u64) -> (pool: Self)
        ensures
            pool.wf(),
            pool@ == Seq::<Backing<T>>::empty(),
            pool.stamp() == next_release,
            pool.kept_keys() == Set::<(u32, u32, u32)>::empty(),
    {
        let pool = FreePool {
            buckets: new_table(),
            bytes: 0,
            scratch_bytes: 0,
            next_release,
            candidates: Vec::new(),
            order: Ghost(Seq::empty()),
        };
        assert(pool@ =~= Seq::<Backing<T>>::empty());
        pool
    }

    /// Returns the bytes of all free backings.
    pub fn bytes(&self) -> (bytes: u64)
        requires
            self.wf(),
        ensures
            bytes == total_bytes(self@),
    {
        self.bytes
    }

    /// Returns the bytes of those free backings whose last role was scratch.
    pub fn scratch_bytes(&self) -> (bytes: u64)
        requires
            self.wf(),
        ensures
            bytes == scratch_bytes(self@),
    {
        self.scratch_bytes
    }

    /// Checks out the newest backing with exactly this key.
    pub fn take(&mut self, key: Key) -> (target: Option<T>)
        requires
            old(self).wf(),
        ensures
            final(self).wf(),
            match target {
                Some(target) => exists|i: int| #[trigger]
                    newest_at(old(self)@, key, i) && target == old(self)@[i].target
                        && final(self)@ == old(self)@.remove(i),
                None => final(self)@ == old(self)@ && forall|i: int|
                    0 <= i < old(self)@.len() ==> (#[trigger] old(self)@[i]).key != key,
            },
            final(self).kept_keys() == old(self).kept_keys(),
    {
        let index = key.to_index();
        let ghost order = self.order@;
        let ghost table = self.buckets@;
        proof {
            lemma_last_of(order, index);
        }
        let (entry, bytes) = match table_get_mut(&mut self.buckets, &index) {
            Some(bucket) => {
                let bytes: u64 = bucket.bytes;
                // Keep the empty deque for a return later in this frame.
                match bucket.entries.pop_back() {
                    Some(entry) => (entry, bytes),
                    None => {
                        proof {
                            assert forall|k: (u32, u32, u32)| #[trigger]
                                self.buckets@.contains_key(k) implies self.buckets@[k].entries@
                                == of_key(order, k) && self.buckets@[k].key.index() == k
                                && self.buckets@[k].bytes == self.buckets@[k].key.size() by {
                                assert(table.contains_key(k));
                            }
                            assert forall|k: (u32, u32, u32)|
                                !(#[trigger] self.buckets@.contains_key(k)) implies of_key(
                                order,
                                k,
                            ).len() == 0 by {
                                assert(!table.contains_key(k));
                            }
                            assert forall|i: int| 0 <= i < order.len() implies (
                            #[trigger] self@[i]).key != key by {
                                assert(order[i].index() != index);
                            }
                        }
                        return None;
                    },
                }
            },
            None => {
                proof {
                    assert forall|i: int| 0 <= i < order.len() implies (#[trigger] self@[i]).key
                        != key by {
                        assert(order[i].index() != index);
                    }
                }
                return None;
            },
        };
        let ghost i = last_of(order, index);
        proof {
            let list = backings(order);
            key_index_is_injective(order[i].backing.key, key);
            lemma_remove_bytes(list, i);
            assert(list.remove(i) =~= backings(order.remove(i)));
            assert(newest_at(list, key, i)) by {
                assert forall|j: int| i < j < list.len() implies (#[trigger] list[j]).key
                    != key by {
                    assert(order[j].index() != index);
                }
            }
            assert(list[i].key.size() == bytes);
        }
        self.remove_usage(bytes, entry.role);
        self.order = Ghost(order.remove(i));
        proof {
            lemma_remove_stamped(order, i, self.next_release);
            assert forall|k: (u32, u32, u32)| #[trigger]
                self.buckets@.contains_key(k) implies self.buckets@[k].entries@ == of_key(
                self.order@,
                k,
            ) && self.buckets@[k].key.index() == k && self.buckets@[k].bytes
                == self.buckets@[k].key.size() by {
                assert(table.contains_key(k));
                assert(of_key(order.remove(i), k) == (if k == index {
                    of_key(order, k).drop_last()
                } else {
                    of_key(order, k)
                }));
            }
            assert forall|k: (u32, u32, u32)|
                !(#[trigger] self.buckets@.contains_key(k)) implies of_key(self.order@, k).len()
                == 0 by {
                assert(!table.contains_key(k));
                assert(k != index);
                assert(of_key(order.remove(i), k) == of_key(order, k));
            }
        }
        Some(entry.target)
    }

    fn remove_usage(&mut self, bytes: u64, role: Role)
        requires
            bytes <= old(self).bytes,
            role == Role::Scratch ==> bytes <= old(self).scratch_bytes,
        ensures
            *final(self) == (FreePool {
                bytes: (old(self).bytes - bytes) as u64,
                scratch_bytes: if role == Role::Scratch {
                    (old(self).scratch_bytes - bytes) as u64
                } else {
                    old(self).scratch_bytes
                },
                ..*old(self)
            }),
    {
        self.bytes = self.bytes - bytes;
        if role == Role::Scratch {
            self.scratch_bytes = self.scratch_bytes - bytes;
        }
    }
}

proof fn lemma_remove_stamped<T>(order: Seq<Item<T>>, i: int, next: u64)
    requires
        stamped(order, next),
        0 <= i < order.len(),
    ensures
        stamped(order.remove(i), next),
{
    let shorter = order.remove(i);
    assert forall|a: int, b: int|
        #![trigger shorter[a], shorter[b]]
        0 <= a < b < shorter.len() implies shorter[a].released_at < shorter[b].released_at by {
        let x = if a < i {
            a
        } else {
            a + 1
        };
        let y = if b < i {
            b
        } else {
            b + 1
        };
        assert(order[x].released_at < order[y].released_at);
    }
    assert forall|a: int| 0 <= a < shorter.len() implies (#[trigger] shorter[a]).released_at
        < next by {
        let x = if a < i {
            a
        } else {
            a + 1
        };
        assert(order[x].released_at < next);
    }
}

impl<T> FreePool<T> {
    /// Appends a backing behind all others.
    fn shelve(&mut self, key: Key, role: Role, target: T)
        requires
            old(self).shelved(),
            old(self).accounted(),
            old(self).next_release < u64::MAX,
            old(self).bytes + key.size() <= u64::MAX,
        ensures
            final(self).shelved(),
            final(self).accounted(),
            final(self).candidates == old(self).candidates,
            final(self).next_release == old(self).next_release + 1,
            final(self)@ == old(self)@.push(Backing { key, role, target }),
            final(self).order@.len() == old(self).order@.len() + 1,
            final(self).kept_keys() == old(self).kept_keys().insert(key.index()),
    {
        let index = key.to_index();
        let ghost order = self.order@;
        let ghost table = self.buckets@;
        let ghost item = Item {
            backing: Backing { key, role, target },
            released_at: self.next_release,
        };
        let ghost longer = order.push(item);
        let entry = Free { target, role, released_at: self.next_release };
        let bytes: u64 = match table_get_mut(&mut self.buckets, &index) {
            Some(bucket) => {
                proof {
                    key_index_is_injective(bucket.key, key);
                }
                bucket.entries.push_back(entry);
                bucket.bytes
            },
            None => {
                let bytes: u64 = key.bytes();
                let mut entries: VecDeque<Free<T>> = VecDeque::new();
                entries.push_back(entry);
                let _ = table_insert(&mut self.buckets, index, Bucket { key, bytes, entries });
                bytes
            },
        };
        proof {
            assert(longer.drop_last() =~= order);
            assert(backings(longer) =~= backings(order).push(item.backing));
            assert(backings(longer).drop_last() =~= backings(order));
            lemma_scratch_within_total(backings(order));
        }
        self.bytes = self.bytes + bytes;
        if role == Role::Scratch {
            self.scratch_bytes = self.scratch_bytes + bytes;
        }
        self.next_release = self.next_release + 1;
        self.order = Ghost(longer);
        proof {
            assert(stamped(longer, self.next_release)) by {
                assert forall|i: int, j: int|
                    #![trigger longer[i], longer[j]]
                    0 <= i < j < longer.len() implies longer[i].released_at
                    < longer[j].released_at by {
                    if j < order.len() {
                        assert(order[i].released_at < order[j].released_at);
                    } else {
                        assert(order[i].released_at < old(self).next_release);
                    }
                }
                assert forall|i: int| 0 <= i < longer.len() implies (
                #[trigger] longer[i]).released_at < self.next_release by {
                    if i < order.len() {
                        assert(order[i].released_at < old(self).next_release);
                    }
                }
            }
            assert forall|k: (u32, u32, u32)| #[trigger]
                self.buckets@.contains_key(k) implies self.buckets@[k].entries@ == of_key(
                longer,
                k,
            ) && self.buckets@[k].key.index() == k && self.buckets@[k].bytes
                == self.buckets@[k].key.size() by {
                if k == index {
                    if table.contains_key(index) {
                        assert(self.buckets@[k].entries@ =~= of_key(longer, k));
                    } else {
                        assert(of_key(order, k) =~= Seq::<Free<T>>::empty());
                        assert(self.buckets@[k].entries@ =~= of_key(longer, k));
                    }
                } else {
                    assert(table.contains_key(k));
                    assert(of_key(longer, k) == of_key(order, k));
                }
            }
            assert forall|k: (u32, u32, u32)|
                !(#[trigger] self.buckets@.contains_key(k)) implies of_key(longer, k).len()
                == 0 by {
                assert(k != index);
                assert(!table.contains_key(k));
            }
        }
    }

    /// Lists the oldest backing of every bucket.
    fn index_heads(&mut self)
        requires
            old(self).shelved(),
            old(self).candidates@.len() == 0,
        ensures
            *final(self) == (FreePool { candidates: final(self).candidates, ..*old(self) }),
            final(self).indexed(),
    {
        let keys = table_keys(&self.buckets);
        let mut position: usize = 0;
        while position < keys.len()
            invariant
                position <= keys@.len(),
                keys@.no_duplicates(),
                forall|key: (u32, u32, u32)| #[trigger]
                    keys@.contains(key) <==> self.buckets@.contains_key(key),
                *self == (FreePool { candidates: self.candidates, ..*old(self) }),
                self.shelved(),
                forall|i: int, j: int|
                    #![trigger self.candidates@[i], self.candidates@[j]]
                    0 <= i < j < self.candidates@.len() ==> self.candidates@[i].0
                        != self.candidates@[j].0,
                forall|i: int|
                    0 <= i < self.candidates@.len() ==> heads(
                        self.order@,
                        #[trigger] self.candidates@[i],
                    ),
                forall|i: int|
                    0 <= i < self.candidates@.len() ==> keys@.take(position as int).contains(
                        (#[trigger] self.candidates@[i]).0,
                    ),
                forall|p: int|
                    0 <= p < position && of_key(self.order@, #[trigger] keys@[p]).len() > 0
                        ==> listed(self.candidates@, keys@[p]),
            decreases keys@.len() - position,
        {
            let key = keys[position];
            let ghost before = self.candidates@;
            proof {
                assert(keys@.contains(keys@[position as int]));
                assert(keys@.take(position + 1) =~= keys@.take(position as int).push(key));
                assert forall|i: int| 0 <= i < before.len() implies (#[trigger] before[i]).0
                    != key by {
                    let seen = keys@.take(position as int);
                    assert(seen.contains(before[i].0));
                    let q = choose|q: int| 0 <= q < seen.len() && seen[q] == before[i].0;
                    assert(keys@[q] != keys@[position as int]);
                }
            }
            match table_get(&self.buckets, &key) {
                Some(bucket) => {
                    if bucket.entries.len() > 0 {
                        let oldest: u64 = bucket.entries[0].released_at;
                        self.candidates.push((key, oldest));
                    }
                },
                None => {},
            }
            proof {
                let now = self.candidates@;
                assert forall|i: int| 0 <= i < now.len() implies keys@.take(
                    position + 1,
                ).contains((#[trigger] now[i]).0) by {
                    if i < before.len() {
                        assert(now[i] == before[i]);
                        let seen = keys@.take(position as int);
                        assert(seen.contains(before[i].0));
                        let q = choose|q: int| 0 <= q < seen.len() && seen[q] == before[i].0;
                        assert(keys@.take(position + 1)[q] == now[i].0);
                    } else {
                        assert(keys@.take(position + 1)[position as int] == now[i].0);
                    }
                }
                assert forall|p: int|
                    0 <= p < position + 1 && of_key(self.order@, #[trigger] keys@[p]).len()
                        > 0 implies listed(now, keys@[p]) by {
                    if p < position {
                        assert(listed(before, keys@[p]));
                        let i = choose|i: int|
                            0 <= i < before.len() && (#[trigger] before[i]).0 == keys@[p];
                        assert(now[i].0 == keys@[p]);
                    } else {
                        assert(now[now.len() - 1].0 == keys@[p]);
                    }
                }
            }
            position = position + 1;
        }
        proof {
            assert forall|index: (u32, u32, u32)|
                (#[trigger] of_key(self.order@, index)).len() > 0 implies listed(
                self.candidates@,
                index,
            ) by {
                assert(self.buckets@.contains_key(index));
                assert(keys@.contains(index));
                let p = choose|p: int| 0 <= p < keys@.len() && keys@[p] == index;
                assert(of_key(self.order@, keys@[p]).len() > 0);
            }
        }
    }

    /// Takes the globally oldest backing off its bucket.
    fn pop_oldest(&mut self) -> (oldest: (Key, u64, Free<T>))
        requires
            old(self).shelved(),
            old(self).indexed(),
            old(self).order@.len() > 0,
        ensures
            final(self).shelved(),
            final(self).indexed(),
            final(self).order@ == old(self).order@.drop_first(),
            final(self).bytes == old(self).bytes,
            final(self).scratch_bytes == old(self).scratch_bytes,
            final(self).next_release == old(self).next_release,
            final(self).kept_keys() == old(self).kept_keys(),
            oldest.0 == old(self).order@[0].backing.key,
            oldest.1 == oldest.0.size(),
            oldest.2 == old(self).order@[0].free(),
    {
        let ghost order = self.order@;
        let ghost table = self.buckets@;
        let ghost list = self.candidates@;
        let ghost first = order[0].index();
        proof {
            lemma_drop_first(order, first);
            assert(listed(list, first));
        }
        let mut best: usize = 0;
        let mut position: usize = 1;
        while position < self.candidates.len()
            invariant
                *self == *old(self),
                1 <= position <= self.candidates@.len(),
                best < position,
                forall|i: int|
                    0 <= i < position ==> self.candidates@[best as int].1 <= (
                    #[trigger] self.candidates@[i]).1,
            decreases self.candidates@.len() - position,
        {
            if self.candidates[position].1 < self.candidates[best].1 {
                best = position;
            }
            position = position + 1;
        }
        let index = self.candidates[best].0;
        proof {
            assert(heads(order, list[best as int]));
            let f = choose|f: int| 0 <= f < list.len() && (#[trigger] list[f]).0 == first;
            assert(heads(order, list[f]));
            assert(list[best as int].1 <= list[f].1);
            let i = lemma_of_key_members(order, index, 0);
            assert(order[i].released_at == list[best as int].1);
            if i > 0 {
                assert(order[0].released_at < order[i].released_at);
            }
            assert(index == first);
            assert forall|k: (u32, u32, u32)| #[trigger]
                of_key(order.drop_first(), k) == (if k == index {
                    of_key(order, k).drop_first()
                } else {
                    of_key(order, k)
                }) by {
                lemma_drop_first(order, k);
            }
            lemma_remove_stamped(order, 0, self.next_release);
            assert(order.remove(0) =~= order.drop_first());
            assert(self.buckets@.contains_key(index));
        }
        let bucket = table_get_mut(&mut self.buckets, &index).unwrap();
        proof {
            key_index_is_injective(bucket.key, order[0].backing.key);
        }
        let key = bucket.key;
        let bytes: u64 = bucket.bytes;
        let entry = bucket.entries.pop_front().unwrap();
        let next: Option<u64> = if bucket.entries.len() > 0 {
            Some(bucket.entries[0].released_at)
        } else {
            None
        };
        self.order = Ghost(order.drop_first());
        match next {
            Some(stamp) => {
                self.candidates[best] = (index, stamp);
            },
            None => {
                let _ = self.candidates.swap_remove(best);
            },
        }
        proof {
            let now = self.candidates@;
            let tail = order.drop_first();
            let b = best as int;
            assert forall|i: int| 0 <= i < now.len() implies heads(tail, #[trigger] now[i]) by {
                if next is Some && i == b {
                    assert(of_key(tail, index) == of_key(order, index).drop_first());
                } else {
                    let from = if i == b {
                        list.len() - 1
                    } else {
                        i
                    };
                    assert(now[i] == list[from]);
                    assert(heads(order, list[from]));
                    assert(list[from].0 != list[b].0);
                    assert(of_key(tail, list[from].0) == of_key(order, list[from].0));
                }
            }
            assert forall|i: int, j: int|
                #![trigger now[i], now[j]]
                0 <= i < j < now.len() implies now[i].0 != now[j].0 by {
                let from = |n: int|
                    if next is None && n == b {
                        list.len() - 1
                    } else {
                        n
                    };
                assert(now[i].0 == list[from(i)].0);
                assert(now[j].0 == list[from(j)].0);
            }
            assert forall|k: (u32, u32, u32)| (#[trigger] of_key(tail, k)).len() > 0 implies listed(
                now,
                k,
            ) by {
                assert(of_key(order, k).len() > 0);
                assert(listed(list, k));
                let i = choose|i: int| 0 <= i < list.len() && (#[trigger] list[i]).0 == k;
                if next is Some {
                    assert(now[i].0 == k);
                } else {
                    assert(k != index);
                    assert(i != b);
                    let to = if i == list.len() - 1 {
                        b
                    } else {
                        i
                    };
                    assert(now[to].0 == k);
                }
            }
        }
        assert(self.kept_keys() =~= table.dom());
        (key, bytes, entry)
    }
}

/// What is recorded of a backing that left its bucket.
spec fn unshelved<T>(taken: Seq<(Key, Role, T)>) -> Seq<Backing<T>> {
    taken.map_values(
        |entry: (Key, Role, T)| Backing { key: entry.0, role: entry.1, target: entry.2 },
    )
}

proof fn lemma_scratch_within_total<T>(list: Seq<Backing<T>>)
    ensures
        scratch_bytes(list) <= total_bytes(list),
        scratch_count(list) <= list.len(),
    decreases list.len(),
{
    if list.len() > 0 {
        lemma_scratch_within_total(list.drop_last());
    }
}

/// The bytes of two lists joined are the bytes of each.
pub proof fn lemma_joined<T>(first: Seq<Backing<T>>, second: Seq<Backing<T>>)
    ensures
        total_bytes(first + second) == total_bytes(first) + total_bytes(second),
    decreases second.len(),
{
    if second.len() == 0 {
        assert(first + second =~= first);
    } else {
        lemma_joined(first, second.drop_last());
        assert((first + second).drop_last() =~= first + second.drop_last());
    }
}

impl<T> FreePool<T> {
    /// Renumbers the release stamps from zero without reordering the backings.
    fn rebase(&mut self)
        requires
            old(self).wf(),
            old(self)@.len() < usize::MAX,
        ensures
            final(self).wf(),
            final(self)@ == old(self)@,
            final(self).next_release == old(self)@.len(),
            final(self).kept_keys() == old(self).kept_keys(),
    {
        let ghost whole = self@;
        let ghost kept = self.kept_keys();
        self.index_heads();
        let mut taken: VecDeque<(Key, Role, T)> = VecDeque::new();
        assert(unshelved(taken@) + backings(self.order@) =~= whole);
        while self.candidates.len() > 0
            invariant
                self.shelved(),
                self.indexed(),
                self.kept_keys() == kept,
                unshelved(taken@) + backings(self.order@) == whole,
                forall|i: int|
                    0 <= i < taken@.len() ==> kept.contains((#[trigger] taken@[i]).0.index()),
            decreases self.order@.len(),
        {
            let ghost order = self.order@;
            let ghost done = taken@;
            proof {
                assert(heads(order, self.candidates@[0]));
                let i = lemma_of_key_members(order, self.candidates@[0].0, 0);
                lemma_of_key_nonempty(order, 0);
                assert(self.buckets@.contains_key(order[0].index()));
            }
            let (key, _bytes, entry) = self.pop_oldest();
            taken.push_back((key, entry.role, entry.target));
            proof {
                assert(unshelved(taken@) + backings(self.order@) =~= unshelved(done) + backings(
                    order,
                ));
            }
        }
        proof {
            if self.order@.len() > 0 {
                lemma_of_key_nonempty(self.order@, 0);
                assert(listed(self.candidates@, self.order@[0].index()));
            }
            assert(unshelved(taken@) =~= whole);
        }
        self.bytes = 0;
        self.scratch_bytes = 0;
        self.next_release = 0;
        assert(self@ + unshelved(taken@) =~= whole);
        while taken.len() > 0
            invariant
                self.wf(),
                self.next_release == self@.len(),
                self.kept_keys() == kept,
                self@ + unshelved(taken@) == whole,
                forall|i: int|
                    0 <= i < taken@.len() ==> kept.contains((#[trigger] taken@[i]).0.index()),
                total_bytes(whole) <= u64::MAX,
                whole.len() < usize::MAX,
            decreases taken@.len(),
        {
            let ghost had = taken@;
            let ghost done = self@;
            proof {
                lemma_joined(done, unshelved(had));
                lemma_remove_bytes(unshelved(had), 0);
                assert(unshelved(had)[0].key == had[0].0);
            }
            let (key, role, target) = taken.pop_front().unwrap();
            self.shelve(key, role, target);
            proof {
                assert(kept.contains(had[0].0.index()));
                assert(self.kept_keys() =~= kept);
                assert(self@ + unshelved(taken@) =~= done + unshelved(had));
            }
        }
        assert(self@ =~= whole);
    }

    /// Returns a backing, which becomes the newest one.
    pub fn release(&mut self, key: Key, role: Role, target: T)
        requires
            old(self).wf(),
            old(self)@.len() < usize::MAX,
            total_bytes(old(self)@) + key.size() <= u64::MAX,
        ensures
            final(self).wf(),
            final(self)@ == old(self)@.push(Backing { key, role, target }),
            final(self).stamp() == (if old(self).stamp() == u64::MAX {
                old(self)@.len() as int + 1
            } else {
                old(self).stamp() + 1
            }),
            final(self).kept_keys() == old(self).kept_keys().insert(key.index()),
    {
        if self.next_release == u64::MAX {
            // Extremely rare: preserve global order instead of wrapping stamps.
            self.rebase();
        }
        self.shelve(key, role, target);
    }

    /// Drops the buckets of backings that could never fit into `budget`.
    fn drop_oversized(&mut self, budget: u64, discarded: &mut Vec<T>) -> (dropped: Trimmed)
        requires
            old(self).wf(),
            old(self)@.len() <= usize::MAX,
        ensures
            final(self).wf(),
            final(self)@ == fitting(old(self)@, budget),
            final(self)@.len() + dropped.total == old(self)@.len(),
            scratch_count(final(self)@) + dropped.scratch == scratch_count(old(self)@),
            final(discarded)@.to_multiset().add(targets(final(self)@)) == old(
                discarded,
            )@.to_multiset().add(targets(old(self)@)),
            exists|keys: Seq<Key>| #[trigger]
                lists_oversized(old(self)@, budget, keys) && final(discarded)@ == old(discarded)@
                    + by_key(old(self)@, keys),
    {
        let keys = table_keys(&self.buckets);
        let ghost mut drained: Seq<Key> = Seq::empty();
        let ghost order = self.order@;
        let ghost table = self.buckets@;
        let ghost mut gone: Set<(u32, u32, u32)> = Set::empty();
        let mut dropped = Trimmed { total: 0, scratch: 0 };
        let mut position: usize = 0;
        proof {
            lemma_without_none(order);
            assert(discarded@ =~= old(discarded)@ + by_key(backings(order), drained));
        }
        while position < keys.len()
            invariant
                position <= keys@.len(),
                keys@.no_duplicates(),
                forall|key: (u32, u32, u32)| #[trigger]
                    keys@.contains(key) <==> table.contains_key(key),
                order == old(self).order@,
                table == old(self).buckets@,
                old(self).shelved(),
                order.len() <= usize::MAX,
                self.wf(),
                self.next_release == old(self).next_release,
                self.order@ == without(order, gone),
                forall|key: (u32, u32, u32)| #[trigger]
                    gone.contains(key) ==> table.contains_key(key) && table[key].bytes > budget
                        && keys@.take(position as int).contains(key),
                forall|p: int|
                    0 <= p < position && table[#[trigger] keys@[p]].bytes > budget
                        ==> gone.contains(keys@[p]),
                forall|key: (u32, u32, u32)| #[trigger]
                    table.contains_key(key) && !gone.contains(key) ==> self.buckets@.contains_key(
                        key,
                    ) && self.buckets@[key] == table[key],
                backings(self.order@).len() + dropped.total == order.len(),
                scratch_count(backings(self.order@)) + dropped.scratch == scratch_count(
                    backings(order),
                ),
                discarded@.to_multiset().add(targets(backings(self.order@))) == old(
                    discarded,
                )@.to_multiset().add(targets(backings(order))),
                drained.no_duplicates(),
                forall|i: int|
                    0 <= i < drained.len() ==> gone.contains((#[trigger] drained[i]).index())
                        && drained[i].size() > budget,
                forall|key: Key| #[trigger] gone.contains(key.index()) ==> drained.contains(key),
                discarded@ == old(discarded)@ + by_key(backings(order), drained),
            decreases keys@.len() - position,
        {
            let index = keys[position];
            proof {
                assert(keys@.contains(keys@[position as int]));
                assert(!gone.contains(index)) by {
                    if gone.contains(index) {
                        let seen = keys@.take(position as int);
                        let q = choose|q: int| 0 <= q < seen.len() && seen[q] == index;
                        assert(keys@[q] != keys@[position as int]);
                    }
                }
                assert(keys@.take(position + 1) =~= keys@.take(position as int).push(index));
                assert forall|key: (u32, u32, u32)|
                    keys@.take(position as int).contains(key) implies #[trigger] keys@.take(
                    position + 1,
                ).contains(key) by {
                    let seen = keys@.take(position as int);
                    let q = choose|q: int| 0 <= q < seen.len() && seen[q] == key;
                    assert(keys@.take(position + 1)[q] == key);
                }
                assert(keys@.take(position + 1)[position as int] == index);
                assert(table.contains_key(index));
            }
            let oversized = match table_get(&self.buckets, &index) {
                Some(bucket) => bucket.bytes > budget,
                None => false,
            };
            if oversized {
                let mut bucket = table_remove(&mut self.buckets, &index).unwrap();
                let size: u64 = bucket.bytes;
                let ghost more = gone.insert(index);
                let ghost kept = backings(without(order, more));
                proof {
                    assert forall|i: int|
                        0 <= i < order.len() && (#[trigger] order[i]).index() == index implies
                        order[i].backing.key.size() == size by {
                        key_index_is_injective(order[i].backing.key, table[index].key);
                    }
                    lemma_without_insert(order, gone, index, size);
                    assert forall|k: (u32, u32, u32)| #[trigger]
                        of_key(without(order, more), k) == (if more.contains(k) {
                            Seq::empty()
                        } else {
                            of_key(order, k)
                        }) by {
                        lemma_without(order, more, k);
                    }
                    assert forall|k: (u32, u32, u32)| #[trigger]
                        of_key(without(order, gone), k) == (if gone.contains(k) {
                            Seq::empty()
                        } else {
                            of_key(order, k)
                        }) by {
                        lemma_without(order, gone, k);
                    }
                    lemma_without_stamped(order, more, self.next_release);
                    lemma_scratch_within_total(backings(order));
                }
                let ghost held = *self;
                let ghost listed_before = discarded@;
                let ghost shelf = bucket.entries@;
                let ghost oversize = bucket.key;
                assert(discarded@ + entry_targets(shelf) =~= listed_before + entry_targets(shelf));
                while bucket.entries.len() > 0
                    invariant
                        size == bucket.bytes,
                        discarded@ + entry_targets(bucket.entries@) == listed_before
                            + entry_targets(shelf),
                        self.bytes == total_bytes(kept) + run_bytes(bucket.entries@, size),
                        self.scratch_bytes == scratch_bytes(kept) + run_scratch(
                            bucket.entries@,
                            size,
                        ),
                        kept.len() + bucket.entries@.len() + dropped.total == order.len(),
                        scratch_count(kept) + run_count(bucket.entries@) + dropped.scratch
                            == scratch_count(backings(order)),
                        scratch_count(backings(order)) <= order.len() <= usize::MAX,
                        discarded@.to_multiset().add(
                            targets(kept).add(run_targets(bucket.entries@)),
                        ) == old(discarded)@.to_multiset().add(targets(backings(order))),
                        *self == (FreePool {
                            bytes: self.bytes,
                            scratch_bytes: self.scratch_bytes,
                            ..held
                        }),
                    decreases bucket.entries@.len(),
                {
                    let ghost entries = bucket.entries@;
                    let ghost had = discarded@;
                    let entry = bucket.entries.pop_front().unwrap();
                    proof {
                        assert(bucket.entries@ =~= entries.drop_first());
                        lemma_run_front(entries, size);
                    }
                    self.remove_usage(size, entry.role);
                    dropped.total = dropped.total + 1;
                    if entry.role == Role::Scratch {
                        dropped.scratch = dropped.scratch + 1;
                    }
                    discarded.push(entry.target);
                    proof {
                        vstd::seq_lib::to_multiset_build(had, entry.target);
                        assert(had.to_multiset().insert(entry.target).add(
                            targets(kept).add(run_targets(entries.drop_first())),
                        ) =~= had.to_multiset().add(targets(kept).add(run_targets(entries))));
                        assert(discarded@ + entry_targets(bucket.entries@) =~= had + entry_targets(
                            entries,
                        ));
                    }
                }
                proof {
                    let longer = drained.push(oversize);
                    assert(longer.drop_last() =~= drained);
                    lemma_bucket_targets(order, oversize);
                    assert(discarded@ =~= listed_before + entry_targets(shelf));
                    assert(discarded@ =~= old(discarded)@ + by_key(backings(order), longer));
                    assert(longer.no_duplicates()) by {
                        if drained.contains(oversize) {
                            let k = choose|k: int|
                                0 <= k < drained.len() && drained[k] == oversize;
                            assert(gone.contains(drained[k].index()));
                        }
                    }
                    assert forall|key: Key| #[trigger] more.contains(key.index()) implies
                        longer.contains(key) by {
                        if key.index() == index {
                            key_index_is_injective(key, oversize);
                            assert(longer[longer.len() - 1] == key);
                        } else {
                            assert(gone.contains(key.index()));
                            let k = choose|k: int| 0 <= k < drained.len() && drained[k] == key;
                            assert(longer[k] == key);
                        }
                    }
                    drained = longer;
                    gone = more;
                    assert(targets(kept).add(run_targets(bucket.entries@)) =~= targets(kept));
                }
                self.order = Ghost(without(order, more));
            }
            position = position + 1;
        }
        proof {
            assert forall|i: int| 0 <= i < order.len() implies (gone.contains(
                (#[trigger] order[i]).index(),
            ) <==> !fits(order[i].backing, budget)) by {
                let index = order[i].index();
                lemma_of_key_nonempty(order, i);
                assert(table.contains_key(index));
                key_index_is_injective(order[i].backing.key, table[index].key);
                assert(keys@.contains(index));
                let p = choose|p: int| 0 <= p < keys@.len() && keys@[p] == index;
                assert(table[keys@[p]].bytes > budget ==> gone.contains(keys@[p]));
            }
            lemma_without_oversized(order, gone, budget);
            assert forall|i: int|
                0 <= i < old(self)@.len() && !fits(#[trigger] old(self)@[i], budget) implies
                drained.contains(old(self)@[i].key) by {
                assert(gone.contains(order[i].index()));
                assert(order[i].index() == old(self)@[i].key.index());
            }
            assert(lists_oversized(old(self)@, budget, drained));
        }
        dropped
    }
}

proof fn lemma_without_none<T>(order: Seq<Item<T>>)
    ensures
        without(order, Set::empty()) == order,
    decreases order.len(),
{
    if order.len() > 0 {
        lemma_without_none(order.drop_last());
        assert(order =~= order.drop_last().push(order.last()));
    } else {
        assert(without(order, Set::empty()) =~= order);
    }
}

/// A list that takes any bytes at all is not empty.
proof fn lemma_bytes_need_backings<T>(list: Seq<Backing<T>>)
    requires
        total_bytes(list) > 0,
    ensures
        list.len() > 0,
{
}

impl<T> FreePool<T> {
    /// Drops the oldest backings until the rest takes at most `maximum` bytes.
    fn drop_oldest(&mut self, maximum: u64, discarded: &mut Vec<T>) -> (dropped: Trimmed)
        requires
            old(self).wf(),
            old(self)@.len() <= usize::MAX,
        ensures
            final(self).wf(),
            final(self)@ == youngest(old(self)@, maximum),
            final(self)@.len() + dropped.total == old(self)@.len(),
            scratch_count(final(self)@) + dropped.scratch == scratch_count(old(self)@),
            final(discarded)@.to_multiset().add(targets(final(self)@)) == old(
                discarded,
            )@.to_multiset().add(targets(old(self)@)),
            final(discarded)@ == old(discarded)@ + aged(old(self)@, maximum),
    {
        let mut dropped = Trimmed { total: 0, scratch: 0 };
        let ghost whole = self@;
        assert(discarded@ + aged(whole, maximum) =~= old(discarded)@ + aged(whole, maximum));
        proof {
            lemma_scratch_within_total(whole);
        }
        if self.bytes > maximum {
            self.index_heads();
            while self.bytes > maximum
                invariant
                    self.shelved(),
                    self.accounted(),
                    self.indexed(),
                    youngest(backings(self.order@), maximum) == youngest(whole, maximum),
                    discarded@ + aged(backings(self.order@), maximum) == old(discarded)@ + aged(
                        whole,
                        maximum,
                    ),
                    backings(self.order@).len() + dropped.total == whole.len(),
                    scratch_count(backings(self.order@)) + dropped.scratch == scratch_count(whole),
                    scratch_count(whole) <= whole.len() <= usize::MAX,
                    discarded@.to_multiset().add(targets(backings(self.order@))) == old(
                        discarded,
                    )@.to_multiset().add(targets(whole)),
                decreases self.order@.len(),
            {
                let ghost list = backings(self.order@);
                let ghost had = discarded@;
                proof {
                    lemma_bytes_need_backings(list);
                    lemma_remove_bytes(list, 0);
                    assert(list.remove(0) =~= list.drop_first());
                    assert(list.drop_first() =~= backings(self.order@.drop_first()));
                }
                let (_key, bytes, entry) = self.pop_oldest();
                self.remove_usage(bytes, entry.role);
                dropped.total = dropped.total + 1;
                if entry.role == Role::Scratch {
                    dropped.scratch = dropped.scratch + 1;
                }
                // Ownership moves to the caller: commands that were already encoded may
                // still reference the texture.
                discarded.push(entry.target);
                proof {
                    vstd::seq_lib::to_multiset_build(had, entry.target);
                    assert(had.to_multiset().insert(entry.target).add(targets(list.drop_first()))
                        =~= had.to_multiset().add(targets(list)));
                    assert(discarded@ + aged(list.drop_first(), maximum) =~= had + aged(
                        list,
                        maximum,
                    ));
                }
            }
            self.candidates.clear();
        }
        assert(discarded@ =~= discarded@ + aged(self@, maximum));
        dropped
    }

    /// Reclaims the buckets that hold nothing, and leaves everything else as it is.
    fn prune_empty_buckets(&mut self)
        requires
            old(self).wf(),
        ensures
            final(self).wf(),
            *final(self) == (FreePool { buckets: final(self).buckets, ..*old(self) }),
            final(self).buckets@ == filled(old(self).buckets@),
    {
        let keys = table_keys(&self.buckets);
        let ghost had = self.buckets@;
        let mut position: usize = 0;
        assert forall|i: int| 0 <= i < keys@.len() implies self.buckets@.contains_key(
            #[trigger] keys@[i],
        ) by {
            assert(keys@.contains(keys@[i]));
        }
        while position < keys.len()
            invariant
                position <= keys@.len(),
                self.wf(),
                *self == (FreePool { buckets: self.buckets, ..*old(self) }),
                keys@.no_duplicates(),
                forall|index: (u32, u32, u32)| #[trigger]
                    keys@.contains(index) <==> had.contains_key(index),
                forall|index: (u32, u32, u32)| #[trigger]
                    self.buckets@.contains_key(index) ==> had.contains_key(index)
                        && self.buckets@[index] == had[index],
                forall|i: int|
                    0 <= i < position ==> self.buckets@.contains_key(#[trigger] keys@[i]) == (
                    had[keys@[i]].entries@.len() > 0),
                forall|i: int|
                    position <= i < keys@.len() ==> self.buckets@.contains_key(
                        #[trigger] keys@[i],
                    ),
            decreases keys@.len() - position,
        {
            let index = keys[position];
            assert(keys@.contains(keys@[position as int]));
            let empty = match table_get(&self.buckets, &index) {
                Some(bucket) => bucket.entries.len() == 0,
                None => false,
            };
            if empty {
                let _ = table_remove(&mut self.buckets, &index);
            }
            position = position + 1;
        }
        proof {
            assert forall|index: (u32, u32, u32)| #[trigger]
                self.buckets@.contains_key(index) == filled(had).contains_key(index) && (
                self.buckets@.contains_key(index) ==> self.buckets@[index] == filled(
                    had,
                )[index]) by {
                if had.contains_key(index) {
                    assert(keys@.contains(index));
                    let i = choose|i: int| 0 <= i < keys@.len() && keys@[i] == index;
                    assert(self.buckets@.contains_key(keys@[i]) == (had[keys@[i]].entries@.len()
                        > 0));
                }
            }
            assert(self.buckets@ =~= filled(had));
        }
    }

    /// Frame-end pressure trim that hands the given-up targets to the caller.
    ///
    /// `maximum` is the free pool's allowance after retained ownership; `budget` is the
    /// entire renderer's configured budget. There is no idle expiry.
    pub fn trim_to_bytes_with(
        &mut self,
        maximum: u64,
        budget: u64,
        discarded: &mut Vec<T>,
    ) -> (given_up: Trimmed)
        requires
            old(self).wf(),
            maximum <= budget,
            old(self)@.len() <= usize::MAX,
        ensures
            final(self).wf(),
            final(self)@ == trimmed(old(self)@, maximum, budget),
            final(self)@.len() + given_up.total == old(self)@.len(),
            scratch_count(final(self)@) + given_up.scratch == scratch_count(old(self)@),
            final(discarded)@.to_multiset().add(targets(final(self)@)) == old(
                discarded,
            )@.to_multiset().add(targets(old(self)@)),
            exists|targets: Seq<T>| #[trigger]
                gives_up(old(self)@, maximum, budget, targets) && final(discarded)@ == old(
                    discarded,
                )@ + targets,
            final(self).holds_no_empty_bucket(),
    {
        let mut given_up = Trimmed { total: 0, scratch: 0 };
        let ghost mut gone: Seq<T> = Seq::empty();
        let ghost list = self@;
        assert(discarded@ =~= old(discarded)@ + gone);
        proof {
            lemma_scratch_within_total(self@);
        }
        if self.bytes > maximum {
            // These cannot fit even if all other ownership is discarded. Drop them first
            // so they cannot flush reusable smaller backings.
            let oversized = self.drop_oversized(budget, discarded);
            let ghost first = discarded@;
            let oldest = self.drop_oldest(maximum, discarded);
            proof {
                let keys = choose|keys: Seq<Key>| #[trigger]
                    lists_oversized(list, budget, keys) && first == old(discarded)@ + by_key(
                        list,
                        keys,
                    );
                gone = by_key(list, keys) + aged(fitting(list, budget), maximum);
                assert(lists_oversized(list, budget, keys));
                assert(discarded@ =~= old(discarded)@ + gone);
            }
            given_up = Trimmed {
                total: oversized.total + oldest.total,
                scratch: oversized.scratch + oldest.scratch,
            };
        }
        assert(gives_up(list, maximum, budget, gone));
        self.prune_empty_buckets();
        proof {
            assert forall|index: (u32, u32, u32)| #[trigger]
                self.kept_keys().contains(index) implies exists|i: int|
                0 <= i < self@.len() && (#[trigger] self@[i]).key.index() == index by {
                assert(self.buckets@.contains_key(index));
                let i = lemma_of_key_members(self.order@, index, 0);
                assert(self@[i].key.index() == index);
            }
        }
        given_up
    }

    /// Frame-end pressure trim that drops what it gives up.
    pub fn trim_to_bytes(&mut self, maximum: u64, budget: u64) -> (given_up: Trimmed)
        requires
            old(self).wf(),
            maximum <= budget,
            old(self)@.len() <= usize::MAX,
        ensures
            final(self).wf(),
            final(self)@ == trimmed(old(self)@, maximum, budget),
            final(self)@.len() + given_up.total == old(self)@.len(),
            scratch_count(final(self)@) + given_up.scratch == scratch_count(old(self)@),
            final(self).holds_no_empty_bucket(),
    {
        let mut discarded: Vec<T> = Vec::new();
        self.trim_to_bytes_with(maximum, budget, &mut discarded)
    }
}

impl<T> Default for FreePool<T> {
    fn default() -> (pool: Self)
        ensures
            pool.wf(),
            pool@ == Seq::<Backing<T>>::empty(),
            pool.stamp() == 0,
            pool.kept_keys() == Set::<(u32, u32, u32)>::empty(),
    {
        FreePool::new()
    }
}

/// A trimmed pool takes at most its allowance.
pub proof fn trimmed_meets_the_allowance<T>(list: Seq<Backing<T>>, maximum: u64, budget: u64)
    ensures
        total_bytes(trimmed(list, maximum, budget)) <= maximum,
{
    youngest_meets_the_allowance(fitting(list, budget), maximum);
}

proof fn youngest_meets_the_allowance<T>(list: Seq<Backing<T>>, maximum: u64)
    ensures
        total_bytes(youngest(list, maximum)) <= maximum,
    decreases list.len(),
{
    if list.len() > 0 && total_bytes(list) > maximum {
        youngest_meets_the_allowance(list.drop_first(), maximum);
    }
}

/// Backings whose bytes meet the allowance stay for ever, whatever the budget.
pub proof fn fitting_pools_are_left_alone<T>(list: Seq<Backing<T>>, maximum: u64, budget: u64)
    requires
        total_bytes(list) <= maximum,
    ensures
        trimmed(list, maximum, budget) == list,
{
}

/// What a trim keeps of the fitting backings is their newest part, in unchanged order.
pub proof fn trimming_keeps_the_newest<T>(list: Seq<Backing<T>>, maximum: u64) -> (cut: int)
    ensures
        0 <= cut <= list.len(),
        youngest(list, maximum) == list.skip(cut),
        forall|shorter: int|
            0 <= shorter < cut ==> total_bytes(#[trigger] list.skip(shorter)) > maximum,
    decreases list.len(),
{
    if total_bytes(list) <= maximum || list.len() == 0 {
        assert(list.skip(0) =~= list);
        0
    } else {
        let cut = trimming_keeps_the_newest(list.drop_first(), maximum) + 1;
        assert(list.drop_first().skip(cut - 1) =~= list.skip(cut));
        assert forall|shorter: int| 0 <= shorter < cut implies total_bytes(
            #[trigger] list.skip(shorter),
        ) > maximum by {
            if shorter == 0 {
                assert(list.skip(0) =~= list);
            } else {
                assert(list.drop_first().skip(shorter - 1) =~= list.skip(shorter));
            }
        }
        cut
    }
}

/// Oversized backings never push out one that fits: trimming gives the same result as if
/// they had not been there, unless everything met the allowance.
pub proof fn oversized_backings_do_not_flush_others<T>(
    list: Seq<Backing<T>>,
    maximum: u64,
    budget: u64,
)
    requires
        total_bytes(list) > maximum,
    ensures
        trimmed(list, maximum, budget) == youngest(fitting(list, budget), maximum),
        trimmed(list, maximum, budget) == trimmed(fitting(list, budget), maximum, budget),
{
    fitting_twice(list, budget);
}

proof fn fitting_twice<T>(list: Seq<Backing<T>>, budget: u64)
    ensures
        fitting(fitting(list, budget), budget) == fitting(list, budget),
    decreases list.len(),
{
    if list.len() > 0 {
        fitting_twice(list.drop_last(), budget);
        let kept = fitting(list, budget);
        if fits(list.last(), budget) {
            assert(kept.drop_last() =~= fitting(list.drop_last(), budget));
        }
    }
}

/// A zero allowance empties the pool of everything that takes memory.
pub proof fn zero_allowance_keeps_no_bytes<T>(list: Seq<Backing<T>>, budget: u64)
    ensures
        total_bytes(trimmed(list, 0, budget)) == 0,
{
    trimmed_meets_the_allowance(list, 0, budget);
}

/// Checking out right after a return hands back the very same target and restores the pool.
pub proof fn take_undoes_release<T>(
    before: Seq<Backing<T>>,
    released: Backing<T>,
    i: int,
)
    requires
        newest_at(before.push(released), released.key, i),
    ensures
        before.push(released)[i].target == released.target,
        before.push(released).remove(i) == before,
{
    let after = before.push(released);
    if i < before.len() {
        assert(after[before.len() as int].key != released.key);
    }
    assert(after.remove(i) =~= before);
}

/// Returns and checkouts account for exactly the bytes of the backing that moved.
pub proof fn moving_a_backing_moves_its_bytes<T>(list: Seq<Backing<T>>, moved: Backing<T>, i: int)
    requires
        0 <= i < list.len(),
    ensures
        total_bytes(list.push(moved)) == total_bytes(list) + moved.key.size(),
        scratch_bytes(list.push(moved)) == scratch_bytes(list) + (if moved.role == Role::Scratch {
            moved.key.size() as int
        } else {
            0
        }),
        total_bytes(list.remove(i)) == total_bytes(list) - list[i].key.size(),
        scratch_bytes(list.remove(i)) == scratch_bytes(list) - (if list[i].role == Role::Scratch {
            list[i].key.size() as int
        } else {
            0
        }),
{
    assert(list.push(moved).drop_last() =~= list);
    lemma_remove_bytes(list, i);
}

/// Whatever a trim keeps was there before.
pub proof fn lemma_trimmed_members<T>(list: Seq<Backing<T>>, maximum: u64, budget: u64)
    ensures
        forall|i: int|
            0 <= i < trimmed(list, maximum, budget).len() ==> #[trigger] list.contains(
                trimmed(list, maximum, budget)[i],
            ),
{
    let fit = fitting(list, budget);
    let kept = trimmed(list, maximum, budget);
    lemma_fitting_members(list, budget);
    let cut = trimming_keeps_the_newest(fit, maximum);
    assert forall|i: int| 0 <= i < kept.len() implies #[trigger] list.contains(kept[i]) by {
        if total_bytes(list) <= maximum {
            assert(list[i] == kept[i]);
        } else {
            assert(kept[i] == fit[i + cut]);
            assert(list.contains(fit[i + cut]));
        }
    }
}

proof fn lemma_fitting_members<T>(list: Seq<Backing<T>>, budget: u64)
    ensures
        forall|i: int|
            0 <= i < fitting(list, budget).len() ==> #[trigger] list.contains(
                fitting(list, budget)[i],
            ),
    decreases list.len(),
{
    if list.len() > 0 {
        let rest = list.drop_last();
        lemma_fitting_members(rest, budget);
        let kept = fitting(list, budget);
        let before = fitting(rest, budget);
        assert forall|i: int| 0 <= i < kept.len() implies #[trigger] list.contains(kept[i]) by {
            if i < before.len() {
                assert(rest.contains(before[i]));
                let k = choose|k: int| 0 <= k < rest.len() && rest[k] == before[i];
                assert(list[k] == kept[i]);
            } else {
                assert(list[list.len() - 1] == kept[i]);
            }
        }
    }
}

/// Dropping what cannot fit keeps exactly the backings whose bytes are within the budget, in
/// order.
pub proof fn fitting_backings_are_within_the_budget<T>(list: Seq<Backing<T>>, budget: u64)
    ensures
        fitting(list, budget) == list.filter(|backing: Backing<T>| backing.key.size() <= budget),
    decreases list.len(),
{
    reveal(Seq::filter);
    if list.len() > 0 {
        fitting_backings_are_within_the_budget(list.drop_last(), budget);
    }
}

/// The backings of a key are listed in order.
pub proof fn backings_are_found_by_their_key<T>(list: Seq<Backing<T>>, key: Key)
    ensures
        with_key(list, key) == list.filter(|backing: Backing<T>| backing.key == key).map_values(
            |backing: Backing<T>| backing.target,
        ),
    decreases list.len(),
{
    let of_key = |backing: Backing<T>| backing.key == key;
    let target = |backing: Backing<T>| backing.target;
    reveal(Seq::filter);
    if list.len() > 0 {
        backings_are_found_by_their_key(list.drop_last(), key);
    }
    assert(with_key(list, key) =~= list.filter(of_key).map_values(target));
}

/// What goes for its age and what stays make up the whole pool: the oldest go, and no more of
/// them than the allowance asks for.
pub proof fn the_oldest_backings_go_first<T>(list: Seq<Backing<T>>, maximum: u64)
    ensures
        aged(list, maximum).len() + youngest(list, maximum).len() == list.len(),
        youngest(list, maximum) == list.skip(aged(list, maximum).len() as int),
        forall|i: int|
            #![trigger aged(list, maximum)[i]]
            0 <= i < aged(list, maximum).len() ==> aged(list, maximum)[i] == list[i].target,
        forall|kept: int|
            0 <= kept < aged(list, maximum).len() ==> total_bytes(#[trigger] list.skip(kept))
                > maximum,
    decreases list.len(),
{
    if total_bytes(list) > maximum && list.len() > 0 {
        let rest = list.drop_first();
        the_oldest_backings_go_first(rest, maximum);
        let gone = aged(rest, maximum).len() as int;
        assert(list.skip(gone + 1) =~= rest.skip(gone));
        assert forall|kept: int| 0 <= kept < aged(list, maximum).len() implies total_bytes(
            #[trigger] list.skip(kept),
        ) > maximum by {
            if kept == 0 {
                assert(list.skip(0) =~= list);
            } else {
                assert(rest.skip(kept - 1) =~= list.skip(kept));
            }
        }
        assert forall|i: int| 0 <= i < aged(list, maximum).len() implies #[trigger] aged(
            list,
            maximum,
        )[i] == list[i].target by {
            if i > 0 {
                assert(aged(rest, maximum)[i - 1] == rest[i - 1].target);
            }
        }
    } else {
        assert(list.skip(0) =~= list);
    }
}

proof fn lemma_within_keys<T>(list: Seq<Backing<T>>, keys: Seq<Key>, i: int)
    requires
        0 <= i < list.len(),
        keys.contains(list[i].key),
    ensures
        by_key(list, keys).contains(list[i].target),
    decreases keys.len(),
{
    let rest = keys.drop_last();
    let before = by_key(list, rest);
    let all = by_key(list, keys);
    if keys.last() == list[i].key {
        let p = lemma_with_key(list, keys.last(), i);
        assert(all[before.len() + p] == list[i].target);
    } else {
        let k = choose|k: int| 0 <= k < keys.len() && keys[k] == list[i].key;
        assert(rest[k] == list[i].key);
        lemma_within_keys(list, rest, i);
        let p = choose|p: int| 0 <= p < before.len() && before[p] == list[i].target;
        assert(all[p] == list[i].target);
    }
}

proof fn lemma_with_key<T>(list: Seq<Backing<T>>, key: Key, i: int) -> (p: int)
    requires
        0 <= i < list.len(),
        list[i].key == key,
    ensures
        0 <= p < with_key(list, key).len(),
        with_key(list, key)[p] == list[i].target,
    decreases list.len(),
{
    if i == list.len() - 1 {
        with_key(list, key).len() - 1
    } else {
        lemma_with_key(list.drop_last(), key, i)
    }
}

/// A trim that gives something up gives up every backing that could never fit.
pub proof fn oversized_backings_are_given_up<T>(
    list: Seq<Backing<T>>,
    maximum: u64,
    budget: u64,
    given_up: Seq<T>,
    i: int,
)
    requires
        gives_up(list, maximum, budget, given_up),
        total_bytes(list) > maximum,
        0 <= i < list.len(),
        list[i].key.size() > budget,
    ensures
        given_up.contains(list[i].target),
{
    let keys = choose|keys: Seq<Key>| #[trigger]
        lists_oversized(list, budget, keys) && given_up == by_key(list, keys) + aged(
            fitting(list, budget),
            maximum,
        );
    assert(!fits(list[i], budget));
    lemma_within_keys(list, keys, i);
    let first = by_key(list, keys);
    let p = choose|p: int| 0 <= p < first.len() && first[p] == list[i].target;
    assert(given_up[p] == list[i].target);
}

/// Each backing is counted as scratch exactly if scratch was its last role, and its target is
/// held once.
pub proof fn backings_are_counted_once<T>(list: Seq<Backing<T>>, added: Backing<T>)
    ensures
        scratch_count(list.push(added)) == scratch_count(list) + (if added.role == Role::Scratch {
            1int
        } else {
            0
        }),
        targets(list.push(added)) == targets(list).insert(added.target),
        scratch_count(Seq::<Backing<T>>::empty()) == 0,
        total_bytes(Seq::<Backing<T>>::empty()) == 0,
{
    assert(list.push(added).drop_last() =~= list);
}

proof fn lemma_key_member<T>(list: Seq<Backing<T>>, key: Key, p: int) -> (k: int)
    requires
        0 <= p < with_key(list, key).len(),
    ensures
        0 <= k < list.len(),
        list[k].key == key,
        list[k].target == with_key(list, key)[p],
    decreases list.len(),
{
    let rest = list.drop_last();
    if list.last().key == key && p == with_key(list, key).len() - 1 {
        list.len() - 1
    } else {
        lemma_key_member(rest, key, p)
    }
}

proof fn lemma_keys_member<T>(list: Seq<Backing<T>>, keys: Seq<Key>, p: int) -> (k: int)
    requires
        0 <= p < by_key(list, keys).len(),
    ensures
        0 <= k < list.len(),
        keys.contains(list[k].key),
        list[k].target == by_key(list, keys)[p],
    decreases keys.len(),
{
    let rest = keys.drop_last();
    let before = by_key(list, rest);
    if p < before.len() {
        let k = lemma_keys_member(list, rest, p);
        let j = choose|j: int| 0 <= j < rest.len() && rest[j] == list[k].key;
        assert(keys[j] == list[k].key);
        k
    } else {
        let k = lemma_key_member(list, keys.last(), p - before.len());
        assert(keys[keys.len() - 1] == list[k].key);
        k
    }
}

/// A trim gives up the backings that could never fit before any other, and then the oldest of
/// those that could, oldest first: just those that it does not keep.
pub proof fn oversized_backings_go_before_old_ones<T>(
    list: Seq<Backing<T>>,
    maximum: u64,
    budget: u64,
    given_up: Seq<T>,
    p: int,
)
    requires
        gives_up(list, maximum, budget, given_up),
        total_bytes(list) > maximum,
        0 <= p < given_up.len(),
    ensures
        ({
            let fit = list.filter(|backing: Backing<T>| backing.key.size() <= budget);
            let aged = fit.len() - trimmed(list, maximum, budget).len();
            let oversized = given_up.len() - aged;
            &&& 0 <= aged <= fit.len() && 0 <= oversized
            &&& p < oversized ==> exists|k: int|
                0 <= k < list.len() && (#[trigger] list[k]).key.size() > budget && list[k].target
                    == given_up[p]
            &&& oversized <= p ==> given_up[p] == fit[p - oversized].target
        }),
{
    let keys = choose|keys: Seq<Key>| #[trigger]
        lists_oversized(list, budget, keys) && given_up == by_key(list, keys) + aged(
            fitting(list, budget),
            maximum,
        );
    fitting_backings_are_within_the_budget(list, budget);
    the_oldest_backings_go_first(fitting(list, budget), maximum);
    let first = by_key(list, keys);
    if p < first.len() {
        let k = lemma_keys_member(list, keys, p);
        let j = choose|j: int| 0 <= j < keys.len() && keys[j] == list[k].key;
        assert(keys[j].size() > budget);
        assert(list[k].key.size() > budget);
    } else {
        assert(given_up[p] == aged(fitting(list, budget), maximum)[p - first.len()]);
    }
}

} // verus!
