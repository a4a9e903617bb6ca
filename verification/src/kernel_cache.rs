//! A small cache of blur kernels, keyed by radius.

use crate::float_bits::{equal_numbers, is_valid_side, numerically_equal};
use vstd::prelude::*;

verus! {

/// How many kernels are kept. Bounds the growth under an animated radius.
pub const CACHED_KERNELS: usize = 8;

/// Kernels in the order of their last use, the most recent one last.
///
/// Kernels are immutable: giving one up never changes what prepared passes hold of it.
#[derive(Debug)]
pub struct KernelCache<K> {
    entries: Vec<(u32, K)>,
}

impl<K> View for KernelCache<K> {
    type V = Seq<(u32, K)>;

    closed spec fn view(&self) -> Seq<(u32, K)> {
        self.entries@
    }
}

/// Whether some entry has the given radius.
pub open spec fn is_cached<K>(entries: Seq<(u32, K)>, radius: u32) -> bool {
    exists|i: int| 0 <= i < entries.len() && numerically_equal((#[trigger] entries[i]).0, radius)
}

/// The entries with the one at `index` used again.
pub open spec fn renewed<K>(entries: Seq<(u32, K)>, index: int) -> Seq<(u32, K)> {
    entries.remove(index).push(entries[index])
}

/// The entries with a new one, for which the oldest makes room.
pub open spec fn extended<K>(entries: Seq<(u32, K)>, entry: (u32, K)) -> Seq<(u32, K)> {
    if entries.len() == CACHED_KERNELS {
        entries.remove(0).push(entry)
    } else {
        entries.push(entry)
    }
}

/// Whether radii are valid, are all different, and are not too many.
pub open spec fn cache_wf<K>(entries: Seq<(u32, K)>) -> bool {
    &&& entries.len() <= CACHED_KERNELS
    &&& forall|i: int| 0 <= i < entries.len() ==> is_valid_side((#[trigger] entries[i]).0)
    &&& forall|i: int, j: int|
        0 <= i < j < entries.len() ==> !numerically_equal(
            (#[trigger] entries[i]).0,
            (#[trigger] entries[j]).0,
        )
}

/// Whether using a radius turned `before` into `after`.
pub open spec fn used<K, F: FnOnce(u32) -> K>(
    before: Seq<(u32, K)>,
    radius: u32,
    create: F,
    after: Seq<(u32, K)>,
) -> bool {
    if is_cached(before, radius) {
        exists|i: int|
            0 <= i < before.len() && numerically_equal((#[trigger] before[i]).0, radius) && after
                == renewed(before, i)
    } else {
        exists|kernel: K| #[trigger]
            call_ensures(create, (radius,), kernel) && after == extended(before, (radius, kernel))
    }
}

impl<K> KernelCache<K> {
    /// Creates an empty cache.
    pub fn new() -> (cache: Self)
        ensures
            cache@ == Seq::<(u32, K)>::empty(),
            cache_wf(cache@),
    {
        KernelCache { entries: Vec::new() }
    }

    /// Returns the number of cached kernels.
    pub fn len(&self) -> (count: usize)
        ensures
            count == self@.len(),
    {
        self.entries.len()
    }

    fn position(&self, radius: u32) -> (index: Option<usize>)
        ensures
            match index {
                Some(index) => index < self@.len() && numerically_equal(
                    self@[index as int].0,
                    radius,
                ),
                None => !is_cached(self@, radius),
            },
    {
        let mut index: usize = 0;
        while index < self.entries.len()
            invariant
                index <= self.entries@.len(),
                forall|i: int|
                    0 <= i < index ==> !numerically_equal((#[trigger] self.entries@[i]).0, radius),
            decreases self.entries@.len() - index,
        {
            if equal_numbers(self.entries[index].0, radius) {
                return Some(index);
            }
            index = index + 1;
        }
        None
    }

    /// Returns the kernel of a radius, which becomes the most recently used one.
    ///
    /// A missing kernel is created, and the least recently used one is given up for it where
    /// the cache is full.
    pub fn kernel<F: FnOnce(u32) -> K>(&mut self, radius: u32, create: F) -> (kernel: &K)
        requires
            cache_wf(old(self)@),
            is_valid_side(radius),
            call_requires(create, (radius,)),
        ensures
            used(old(self)@, radius, create, final(self)@),
            cache_wf(final(self)@),
            final(self)@.len() > 0,
            *kernel == final(self)@.last().1,
            numerically_equal(final(self)@.last().0, radius),
    {
        let ghost before = self@;
        match self.position(radius) {
            Some(index) => {
                let entry = self.entries.remove(index);
                self.entries.push(entry);
                proof {
                    assert(self@ == renewed(before, index as int));
                    lemma_renewed(before, index as int);
                }
            },
            None => {
                let kernel = create(radius);
                if self.entries.len() == CACHED_KERNELS {
                    let _ = self.entries.remove(0);
                }
                self.entries.push((radius, kernel));
                proof {
                    assert(self@ == extended(before, (radius, kernel)));
                    lemma_extended(before, (radius, kernel));
                }
            },
        }
        &self.entries[self.entries.len() - 1].1
    }
}

impl<K> Default for KernelCache<K> {
    fn default() -> (cache: Self)
        ensures
            cache@ == Seq::<(u32, K)>::empty(),
            cache_wf(cache@),
    {
        KernelCache::new()
    }
}

proof fn lemma_renewed<K>(entries: Seq<(u32, K)>, index: int)
    requires
        cache_wf(entries),
        0 <= index < entries.len(),
    ensures
        cache_wf(renewed(entries, index)),
{
    let after = renewed(entries, index);
    assert forall|i: int, j: int| 0 <= i < j < after.len() implies !numerically_equal(
        (#[trigger] after[i]).0,
        (#[trigger] after[j]).0,
    ) by {
        let a = if i < index {
            i
        } else {
            i + 1
        };
        let b = if j == after.len() - 1 {
            index
        } else if j < index {
            j
        } else {
            j + 1
        };
        assert(after[i] == entries[a]);
        assert(after[j] == entries[b]);
        if a < b {
            assert(!numerically_equal(entries[a].0, entries[b].0));
        } else {
            assert(!numerically_equal(entries[b].0, entries[a].0));
        }
    }
    assert forall|i: int| 0 <= i < after.len() implies is_valid_side((#[trigger] after[i]).0) by {
        let a = if i == after.len() - 1 {
            index
        } else if i < index {
            i
        } else {
            i + 1
        };
        assert(after[i] == entries[a]);
    }
}

proof fn lemma_extended<K>(entries: Seq<(u32, K)>, entry: (u32, K))
    requires
        cache_wf(entries),
        is_valid_side(entry.0),
        !is_cached(entries, entry.0),
    ensures
        cache_wf(extended(entries, entry)),
{
    let after = extended(entries, entry);
    let skipped: int = if entries.len() == CACHED_KERNELS {
        1
    } else {
        0
    };
    assert forall|i: int| 0 <= i < after.len() - 1 implies #[trigger] after[i] == entries[i
        + skipped] by {}
    assert(after.last() == entry);
    assert forall|i: int, j: int| 0 <= i < j < after.len() implies !numerically_equal(
        (#[trigger] after[i]).0,
        (#[trigger] after[j]).0,
    ) by {
        assert(after[i] == entries[i + skipped]);
        if j < after.len() - 1 {
            assert(after[j] == entries[j + skipped]);
            assert(!numerically_equal(entries[i + skipped].0, entries[j + skipped].0));
        }
    }
}

/// The kernel of the radius that was used last is found again, and using it changes nothing.
pub proof fn repeated_use_changes_nothing<K>(entries: Seq<(u32, K)>)
    requires
        cache_wf(entries),
        entries.len() > 0,
    ensures
        is_cached(entries, entries.last().0),
        renewed(entries, entries.len() - 1) == entries,
{
    let last = entries.len() - 1;
    assert(numerically_equal(entries[last].0, entries.last().0));
    assert(renewed(entries, last) =~= entries);
}

/// A new kernel makes only the one leave that was used longest ago, and that one only from
/// a full cache.
pub proof fn only_the_oldest_is_given_up<K>(entries: Seq<(u32, K)>, entry: (u32, K), index: int)
    requires
        cache_wf(entries),
        0 <= index < entries.len(),
    ensures
        extended(entries, entry).contains(entries[index]) || (index == 0 && entries.len()
            == CACHED_KERNELS),
{
    let after = extended(entries, entry);
    if entries.len() == CACHED_KERNELS {
        if index > 0 {
            assert(after[index - 1] == entries[index]);
        }
    } else {
        assert(after[index] == entries[index]);
    }
}

/// Using a radius leaves its kernel as the one used last. A kernel that was there is the one
/// that is used, and nothing leaves; a new one is created for the radius that was asked for, and
/// only then, and only from a full cache, the one used longest ago leaves. All others stay in
/// the order of their last use.
pub proof fn kernels_are_created_once_and_kept_by_use<K, F: FnOnce(u32) -> K>(
    before: Seq<(u32, K)>,
    radius: u32,
    create: F,
    after: Seq<(u32, K)>,
)
    requires
        cache_wf(before),
        used(before, radius, create, after),
    ensures
        0 < after.len() <= 8,
        match (exists|i: int|
            0 <= i < before.len() && numerically_equal((#[trigger] before[i]).0, radius)) {
            true => {
                &&& numerically_equal(after.last().0, radius)
                &&& before.contains(after.last())
                &&& after.len() == before.len()
                &&& exists|i: int|
                    0 <= i < before.len() && #[trigger] before[i] == after.last()
                        && after.drop_last() == before.remove(i)
            },
            false => {
                &&& after.last().0 == radius
                &&& call_ensures(create, (radius,), after.last().1)
                &&& after.drop_last() == (if before.len() == 8 {
                    before.drop_first()
                } else {
                    before
                })
            },
        },
{
    if is_cached(before, radius) {
        let i = choose|i: int|
            0 <= i < before.len() && numerically_equal((#[trigger] before[i]).0, radius) && after
                == renewed(before, i);
        assert(after.last() == before[i]);
        assert(after.drop_last() =~= before.remove(i));
    } else {
        let kernel = choose|kernel: K| #[trigger]
            call_ensures(create, (radius,), kernel) && after == extended(before, (radius, kernel));
        assert(before.remove(0) =~= before.drop_first() || before.len() == 0);
        assert(after.drop_last() =~= (if before.len() == 8 {
            before.drop_first()
        } else {
            before
        }));
    }
}

} // verus!
