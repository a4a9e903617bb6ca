//! Free texture backings: exact reuse, recency and trimming.

use std::cell::Cell;
use std::rc::Rc;

use isolated_layer::diagnostics::Diagnostics;
use isolated_layer::format::TextureFormat;
use isolated_layer::free_pool::{FreePool, Key, Role, Trimmed};
use isolated_layer::geometry::Size;
use isolated_layer::pool::{Lease, Pool, TargetStorage};
use isolated_layer::scratch::{release, ScratchAllocator, ScratchError};

fn key(width: u32) -> Key {
    Key::new(TextureFormat::Rgba8Unorm, Size::new(width, 1))
}

const NOTHING: Trimmed = Trimmed {
    total: 0,
    scratch: 0,
};

/// A pool beside a plain record of what it holds.
struct Watched {
    pool: FreePool<usize>,
    held: Vec<(Key, Role, usize)>,
}

impl Watched {
    fn new(pool: FreePool<usize>) -> Self {
        Self {
            pool,
            held: Vec::new(),
        }
    }

    fn release(&mut self, key: Key, role: Role, id: usize) {
        self.pool.release(key, role, id);
        self.held.push((key, role, id));
    }

    fn take(&mut self, key: Key) -> Option<usize> {
        let id = self.pool.take(key);
        if let Some(id) = id {
            self.held.retain(|entry| entry.2 != id);
        }
        id
    }

    fn trim_to_bytes(&mut self, maximum: u64, budget: u64) -> Trimmed {
        let mut discarded = Vec::new();
        let trimmed = self
            .pool
            .trim_to_bytes_with(maximum, budget, &mut discarded);
        assert_eq!(trimmed.total, discarded.len());
        self.held.retain(|entry| !discarded.contains(&entry.2));
        trimmed
    }

    fn ids(&self) -> Vec<usize> {
        let mut ids: Vec<_> = self.held.iter().map(|entry| entry.2).collect();
        ids.sort_unstable();
        ids
    }

    fn assert_usage(&self) {
        let bytes: u64 = self.held.iter().map(|entry| entry.0.bytes()).sum();
        let scratch: u64 = self
            .held
            .iter()
            .filter(|entry| entry.1 == Role::Scratch)
            .map(|entry| entry.0.bytes())
            .sum();
        assert_eq!(
            (self.pool.bytes(), self.pool.scratch_bytes()),
            (bytes, scratch)
        );
    }
}

#[test]
fn lease_is_pointer_sized_and_ownership_drops_once() {
    struct Dropped(Rc<Cell<usize>>);
    impl Drop for Dropped {
        fn drop(&mut self) {
            self.0.set(self.0.get() + 1);
        }
    }

    assert_eq!(
        std::mem::size_of::<Lease<TargetStorage<[u8; 64], [u8; 64]>>>(),
        std::mem::size_of::<usize>()
    );
    let drops = Rc::new(Cell::new(0));
    let mut pool = FreePool::default();
    let key = Key::new(TextureFormat::Rgba8Unorm, Size::new(1, 1));
    let lease = Lease::new(Dropped(Rc::clone(&drops)));
    let address = format!("{:p}", lease.get());
    pool.release(key, Role::Layer, lease);
    let lease = pool.take(key).unwrap();
    assert_eq!(format!("{:p}", lease.get()), address);
    assert!(pool.take(key).is_none());
    assert_eq!(pool.trim_to_bytes(0, 0), NOTHING);
    assert_eq!(drops.get(), 0);
    pool.release(key, Role::Scratch, lease);
    assert_eq!(
        pool.trim_to_bytes(0, 0),
        Trimmed {
            total: 1,
            scratch: 1
        }
    );
    assert_eq!(drops.get(), 1);
    pool.release(key, Role::Layer, Lease::new(Dropped(Rc::clone(&drops))));
    let detached = pool.take(key).unwrap();
    drop(pool);
    assert_eq!(drops.get(), 1);
    drop(detached);
    assert_eq!(drops.get(), 2);
}

#[test]
fn newest_exact_match_is_reused_and_active_entries_are_excluded() {
    let mut pool = Watched::new(FreePool::default());
    pool.release(key(4), Role::Layer, 1);
    pool.release(key(4), Role::Scratch, 2);
    pool.release(key(8), Role::Scratch, 3);
    let float = Key {
        format: TextureFormat::Rgba16Float,
        ..key(4)
    };
    assert_eq!(pool.take(float), None);
    assert_eq!(pool.take(key(4)), Some(2));
    assert_eq!((pool.pool.bytes(), pool.pool.scratch_bytes()), (48, 32));
    assert_eq!(pool.take(key(4)), Some(1));
    assert_eq!(pool.take(key(4)), None);
    assert_eq!(pool.take(key(8)), Some(3));
    assert_eq!(pool.pool.bytes(), 0);
    // A role change on a new lease changes accounting only after return.
    pool.release(key(4), Role::Layer, 2);
    assert_eq!(pool.pool.scratch_bytes(), 0);
    pool.assert_usage();
}

#[test]
fn lru_is_per_backing_across_buckets_and_return_refreshes_recency() {
    let mut pool = Watched::new(FreePool::default());
    pool.release(key(4), Role::Scratch, 1);
    pool.release(key(8), Role::Layer, 2);
    pool.release(key(4), Role::Layer, 3);
    // Do not discard all of class 4 just because its front is the oldest.
    assert_eq!(
        pool.trim_to_bytes(48, 64),
        Trimmed {
            total: 1,
            scratch: 1
        }
    );
    assert_eq!(pool.ids(), [2, 3]);
    let target = pool.take(key(8)).unwrap();
    pool.release(key(8), Role::Scratch, target);
    assert_eq!(
        pool.trim_to_bytes(32, 64),
        Trimmed {
            total: 1,
            scratch: 0
        }
    );
    assert_eq!(pool.ids(), [2]);
    pool.assert_usage();
}

#[test]
fn oversized_backings_do_not_flush_older_small_backings() {
    let mut pool = Watched::new(FreePool::default());
    pool.release(key(4), Role::Layer, 1);
    pool.release(key(32), Role::Scratch, 2);
    pool.release(key(32), Role::Layer, 3);
    assert_eq!(
        pool.trim_to_bytes(64, 64),
        Trimmed {
            total: 2,
            scratch: 1
        }
    );
    assert_eq!(pool.ids(), [1]);
    // Oversized is relative to the entire budget, not the remaining allowance.
    pool.release(key(8), Role::Scratch, 4);
    assert_eq!(
        pool.trim_to_bytes(24, 64),
        Trimmed {
            total: 2,
            scratch: 1
        }
    );
    assert_eq!(pool.pool.bytes(), 0);
    pool.assert_usage();
}

#[test]
fn fitting_backings_never_expire_and_zero_budget_drops_all() {
    let mut pool = Watched::new(FreePool::default());
    pool.release(key(4), Role::Scratch, 1);
    for _ in 0..1000 {
        assert_eq!(pool.trim_to_bytes(16, 16), NOTHING);
    }
    assert_eq!(pool.ids(), [1]);
    assert_eq!(
        pool.trim_to_bytes(0, 0),
        Trimmed {
            total: 1,
            scratch: 1
        }
    );
    assert!(pool.ids().is_empty());
    assert_eq!(pool.pool.bucket_count(), 0);
    pool.assert_usage();
}

#[test]
fn given_up_backings_leave_oldest_first() {
    let mut pool = FreePool::default();
    for (id, width) in [4, 64, 4, 64, 8, 64].into_iter().enumerate() {
        pool.release(key(width), Role::Layer, id);
    }
    let mut discarded = vec![9];
    let trimmed = pool.trim_to_bytes_with(32, 64, &mut discarded);
    assert_eq!(trimmed.total, 5);
    assert_eq!(discarded, [9, 1, 3, 5, 0, 2]);
    assert_eq!(pool.take(key(8)), Some(4));
}

#[test]
fn rebasing_keeps_the_buckets_of_the_frame() {
    let mut pool = FreePool::stamped_from(u64::MAX - 2);
    pool.release(key(4), Role::Scratch, 1);
    pool.release(key(8), Role::Layer, 2);
    assert_eq!(pool.take(key(4)), Some(1));
    pool.release(key(16), Role::Layer, 3);
    assert_eq!(pool.next_release(), 2);
    assert_eq!(pool.bucket_count(), 3);
    assert_eq!(pool.trim_to_bytes(96, 96), NOTHING);
    assert_eq!(pool.bucket_count(), 2);
}

#[test]
fn release_sequence_rebases_without_reordering_live_entries() {
    let mut pool = Watched::new(FreePool::stamped_from(u64::MAX - 2));
    pool.release(key(4), Role::Scratch, 1);
    pool.release(key(8), Role::Layer, 2);
    pool.release(key(4), Role::Layer, 3);
    assert_eq!(pool.pool.next_release(), 3);
    assert_eq!(
        pool.trim_to_bytes(48, 64),
        Trimmed {
            total: 1,
            scratch: 1
        }
    );
    assert_eq!(pool.ids(), [2, 3]);
    assert_eq!(pool.take(key(4)), Some(3));
    pool.assert_usage();
}

#[test]
fn deterministic_churn_matches_a_simple_ordered_reference() {
    let mut pool = Watched::new(FreePool::default());
    let mut free: Vec<(Key, Role, usize)> = Vec::new();
    let mut active = Vec::new();
    let mut random = 0xfeed_beef_u64;
    for step in 0..10_000 {
        random ^= random << 13;
        random ^= random >> 7;
        random ^= random << 17;
        if random % 3 == 0 && !active.is_empty() {
            let index = random as usize % active.len();
            let (key, role, id) = active.swap_remove(index);
            pool.release(key, role, id);
            free.push((key, role, id));
        } else {
            let key = Key {
                format: if random & 8 == 0 {
                    TextureFormat::Rgba16Float
                } else {
                    TextureFormat::Rgba8Unorm
                },
                ..key(1 + (random % 12) as u32)
            };
            let actual = pool.take(key);
            let expected = free
                .iter()
                .rposition(|entry| entry.0 == key)
                .map(|index| free.remove(index).2);
            assert_eq!(actual, expected);
            let role = if random & 16 == 0 {
                Role::Scratch
            } else {
                Role::Layer
            };
            active.push((key, role, actual.unwrap_or(step)));
        }
        if step % 7 == 0 {
            let budget = (random >> 32) % 256;
            let allowance = budget.saturating_sub((random >> 16) % 128);
            let mut expected = NOTHING;
            let mut bytes: u64 = free.iter().map(|entry| entry.0.bytes()).sum();
            if bytes > allowance {
                free.retain(|(key, role, _)| {
                    if key.bytes() > budget {
                        bytes -= key.bytes();
                        expected.total += 1;
                        expected.scratch += usize::from(*role == Role::Scratch);
                        false
                    } else {
                        true
                    }
                });
                while bytes > allowance {
                    let (key, role, _) = free.remove(0);
                    bytes -= key.bytes();
                    expected.total += 1;
                    expected.scratch += usize::from(role == Role::Scratch);
                }
            }
            assert_eq!(pool.trim_to_bytes(allowance, budget), expected);
            let mut expected_ids: Vec<_> = free.iter().map(|entry| entry.2).collect();
            expected_ids.sort_unstable();
            assert_eq!(pool.ids(), expected_ids);
        }
        pool.assert_usage();
    }
}

#[test]
fn layers_lease_whole_size_classes_and_reuse_them_exactly() {
    let mut pool: Pool<u32, ()> = Pool::new();
    let requested = Size::new(70, 10);
    assert!(Pool::<u32, ()>::backing_extent(requested, 4096).is_some());
    let checkout = pool.lease_layer(TextureFormat::Rgba8Unorm, requested, 4096);
    assert!(checkout.reused.is_none());
    let (target, reused) = checkout.complete(TextureFormat::Rgba8Unorm, Role::Layer, |extent| {
        assert_eq!(extent, Size::new(128, 64));
        7
    });
    assert!(!reused);
    assert_eq!(target.get().byte_size(), 128 * 64 * 4);
    pool.release(target);
    assert_eq!(pool.bytes(), 128 * 64 * 4);
    assert_eq!(pool.scratch_bytes(), 0);

    let checkout = pool
        .lease_scratch(TextureFormat::Rgba8Unorm, Size::new(128, 64), 4096)
        .expect("scratch fits")
        .complete(TextureFormat::Rgba8Unorm, Role::Scratch, |_| 8);
    assert!(checkout.1);
    pool.release(checkout.0);
    assert_eq!(pool.scratch_bytes(), 128 * 64 * 4);
}

#[test]
fn scratch_textures_are_leased_checked_and_released_together() {
    let mut pool: Pool<u32, ()> = Pool::new();
    let mut diagnostics = Diagnostics::default();
    let mut allocator = ScratchAllocator::new(TextureFormat::Rgba8Unorm, 4096);

    assert!(matches!(
        allocator.allocate(&mut pool, &mut diagnostics, Size::new(0, 1), |_| 0),
        Err(ScratchError::Empty)
    ));
    assert!(matches!(
        allocator.allocate(&mut pool, &mut diagnostics, Size::new(1, 5000), |_| 0),
        Err(ScratchError::TooLarge)
    ));
    let first = allocator
        .allocate(&mut pool, &mut diagnostics, Size::new(7, 5), |_| 1)
        .expect("first lease");
    let second = allocator
        .allocate(&mut pool, &mut diagnostics, Size::new(7, 5), |_| 2)
        .expect("second lease");
    assert_eq!(first.physical_size(), Size::new(7, 5));
    assert_eq!(first.backing_extent(), Size::new(8, 8));
    let uv = first.valid_uv(&|a, b| (a as f32 / b as f32).to_bits());
    assert_eq!((f32::from_bits(uv.x), f32::from_bits(uv.y)), (0.875, 0.625));
    assert_eq!((*first.resources(), *second.resources()), (1, 2));
    let leases = allocator.finish();
    assert_eq!(diagnostics.allocated_bytes, 2 * 8 * 8 * 4);
    release(&mut pool, leases);
    assert_eq!(diagnostics.allocated_bytes, 2 * 8 * 8 * 4);
    let bytes = pool.bytes();

    let mut allocator = ScratchAllocator::new(TextureFormat::Rgba8Unorm, 4096);
    let reused = allocator
        .allocate(&mut pool, &mut diagnostics, Size::new(7, 5), |_| 3)
        .expect("reused lease");
    assert_eq!(*reused.resources(), 2);
    release(&mut pool, allocator.finish());
    assert_eq!(pool.bytes(), bytes);
    assert_eq!(diagnostics.allocated_bytes, 2 * 8 * 8 * 4);
    assert_eq!(pool.trim_to_bytes(bytes, bytes).total, 0);
    assert_eq!(pool.trim_to_bytes(0, bytes).total, 2);
    assert_eq!(pool.bytes(), 0);
}

#[test]
fn empty_bucket_capacity_is_reused_within_frame_and_pruned_at_frame_end() {
    let mut pool = FreePool::default();
    pool.release(key(4), Role::Layer, 1);
    assert_eq!(pool.take(key(4)), Some(1));
    assert_eq!(pool.bucket_count(), 1);
    pool.release(key(4), Role::Layer, 1);
    assert_eq!(pool.bucket_count(), 1);
    assert_eq!(pool.take(key(4)), Some(1));
    assert_eq!(pool.trim_to_bytes(16, 16), NOTHING);
    assert_eq!(pool.bucket_count(), 0);
}

#[test]
fn scratch_errors_say_what_is_wrong() {
    assert_ne!(
        ScratchError::Empty.message(),
        ScratchError::TooLarge.message()
    );
}

#[test]
fn text_viewports_are_created_on_demand() {
    let mut storage: TargetStorage<u32, u32> = TargetStorage::new(
        1,
        TextureFormat::Rgba8Unorm,
        Size::new(64, 64),
        Role::Layer,
    );
    assert_eq!(*storage.prepare_text_viewport(|| 5), 5);
    assert_eq!(*storage.prepare_text_viewport(|| 6), 5);
    assert_eq!(*storage.text_viewport(), 5);
}
