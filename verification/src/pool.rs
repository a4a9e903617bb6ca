//! Renderer-owned texture targets and their reuse pool.

use crate::format::{texture_byte_size, texture_bytes, TextureFormat};
use crate::free_pool::{
    lemma_joined, newest_at, scratch_bytes, scratch_count, total_bytes, trimmed, Backing, FreePool, Key, Role, Trimmed,
};
use crate::geometry::{div_ceil, groups, Size};
use crate::scratch::{self, dimension_error, is_scratch_dimension, ScratchError};
use vstd::prelude::*;

verus! {

/// Physical-pixel increment used to quantize each pooled backing-texture dimension.
pub const SIZE_INCREMENT: u32 = 64;

/// A normalized two-dimensional backing-texture size.
///
/// Dimensions are stored in units of [`SIZE_INCREMENT`]. This normalization is specific to
/// layer requests; shared pool entries use their exact pixel extent.
#[derive(Debug, Clone, Copy, PartialEq, Eq, Structural)]
pub struct SizeClass {
    pub width: u16,
    pub height: u16,
}

/// The units that a dimension takes, when it is positive and its units fit the limit.
pub open spec fn dimension_units(requested: u32, maximum: u32) -> Option<u16> {
    let units = groups(requested as int, SIZE_INCREMENT as int);
    if requested > 0 && units <= maximum / SIZE_INCREMENT && units <= u16::MAX {
        Some(units as u16)
    } else {
        None
    }
}

fn normalize_dimension(requested: u32, maximum: u32) -> (units: Option<u16>)
    ensures
        units == dimension_units(requested, maximum),
{
    if requested == 0 {
        return None;
    }
    let required: u32 = div_ceil(requested, SIZE_INCREMENT);
    let available: u32 = maximum / SIZE_INCREMENT;
    if required > available || required > 65_535 {
        return None;
    }
    Some(required as u16)
}

impl SizeClass {
    /// The class of a requested size, when both of its dimensions have one.
    pub open spec fn of(requested: Size, maximum: u32) -> Option<SizeClass> {
        match (
            dimension_units(requested.width, maximum),
            dimension_units(requested.height, maximum),
        ) {
            (Some(width), Some(height)) => Some(SizeClass { width, height }),
            _ => None,
        }
    }

    /// Rounds a requested size up to whole increments that stay within the device limit.
    pub fn new(requested: Size, maximum: u32) -> (class: Option<Self>)
        ensures
            class == SizeClass::of(requested, maximum),
    {
        let width: u16 = match normalize_dimension(requested.width, maximum) {
            Some(width) => width,
            None => return None,
        };
        let height: u16 = match normalize_dimension(requested.height, maximum) {
            Some(height) => height,
            None => return None,
        };
        Some(SizeClass { width, height })
    }

    /// The pixel extent of the class.
    pub open spec fn pixels(self) -> Size {
        Size {
            width: (self.width * SIZE_INCREMENT) as u32,
            height: (self.height * SIZE_INCREMENT) as u32,
        }
    }

    /// Returns the pixel extent of the class.
    pub fn extent(self) -> (extent: Size)
        ensures
            extent == self.pixels(),
            extent.width == 64 * self.width,
            extent.height == 64 * self.height,
    {
        Size {
            width: self.width as u32 * SIZE_INCREMENT,
            height: self.height as u32 * SIZE_INCREMENT,
        }
    }
}

/// A layer backing holds the requested size, wastes less than one increment along each
/// axis, and never crosses the device limit.
pub proof fn size_class_contains_the_request(requested: Size, maximum: u32)
    requires
        SizeClass::of(requested, maximum) is Some,
    ensures
        ({
            let extent = SizeClass::of(requested, maximum)->0.pixels();
            &&& requested.width <= extent.width < requested.width + SIZE_INCREMENT
            &&& requested.height <= extent.height < requested.height + SIZE_INCREMENT
            &&& extent.width <= maximum
            &&& extent.height <= maximum
        }),
{
}

/// Moves exclusive ownership without moving the backing's own storage.
///
/// A lease cannot also be in the free pool; dropping it drops what it owns.
pub struct Lease<T>(Box<T>);

impl<T> Lease<T> {
    /// What the lease owns.
    pub closed spec fn owned(self) -> T {
        *self.0
    }

    /// Takes ownership of `value`.
    pub fn new(value: T) -> (lease: Self)
        ensures
            lease.owned() == value,
    {
        Lease(Box::new(value))
    }

    /// Returns what the lease owns.
    pub fn get(&self) -> (value: &T)
        ensures
            *value == self.owned(),
    {
        &*self.0
    }

    /// Returns what the lease owns, for changing it in place.
    pub fn get_mut(&mut self) -> (value: &mut T)
        ensures
            *value == old(self).owned(),
            final(self).owned() == *final(value),
    {
        &mut *self.0
    }
}

/// Stable storage for a texture's resources and its lazily created text resources.
///
/// `G` stands for the texture and its view, `V` for the text viewport.
pub struct TargetStorage<G, V> {
    pub resources: G,
    pub extent: Size,
    pub format: TextureFormat,
    pub last_role: Role,
    pub text_viewport: Option<V>,
}

/// An exclusive lease to a renderer-owned texture target.
pub type Target<G, V> = Lease<TargetStorage<G, V>>;

impl<G, V> TargetStorage<G, V> {
    /// The compatibility key of the target.
    pub open spec fn key(self) -> Key {
        Key { width: self.extent.width, height: self.extent.height, format: self.format }
    }

    /// The memory that the target takes.
    pub open spec fn size(self) -> u64 {
        texture_bytes(self.format, self.extent)
    }

    /// Creates a target without text resources.
    pub fn new(resources: G, format: TextureFormat, extent: Size, role: Role) -> (storage: Self)
        ensures
            storage == (TargetStorage {
                resources,
                extent,
                format,
                last_role: role,
                text_viewport: None::<V>,
            }),
    {
        TargetStorage { resources, extent, format, last_role: role, text_viewport: None }
    }

    /// Returns the memory that the target takes.
    pub fn byte_size(&self) -> (bytes: u64)
        ensures
            bytes == self.size(),
    {
        texture_byte_size(self.format, self.extent)
    }

    /// Creates text resources on first use and returns them.
    ///
    /// Only targets that will render child content need them.
    pub fn prepare_text_viewport<F: FnOnce() -> V>(&mut self, create: F) -> (viewport: &mut V)
        requires
            call_requires(create, ()),
        ensures
            match old(self).text_viewport {
                Some(present) => *viewport == present,
                None => call_ensures(create, (), *viewport),
            },
            *final(self) == (TargetStorage {
                text_viewport: Some(*final(viewport)),
                ..*old(self)
            }),
    {
        if self.text_viewport.is_none() {
            self.text_viewport = Some(create());
        }
        match &mut self.text_viewport {
            Some(viewport) => viewport,
            None => vstd::pervasive::unreached(),
        }
    }

    /// Returns the text resources that were prepared.
    pub fn text_viewport(&self) -> (viewport: &V)
        requires
            self.text_viewport is Some,
        ensures
            *viewport == self.text_viewport->0,
    {
        self.text_viewport.as_ref().unwrap()
    }
}

/// How the pool files a target that is returned to it.
pub open spec fn filed<G, V>(target: Target<G, V>) -> Backing<Target<G, V>> {
    Backing { key: target.owned().key(), role: target.owned().last_role, target }
}

/// How the pool files a list of targets.
pub open spec fn all_filed<G, V>(targets: Seq<Target<G, V>>) -> Seq<Backing<Target<G, V>>> {
    targets.map_values(|target: Target<G, V>| filed(target))
}

/// The extent that a request calls for, and a compatible free target if there was one.
///
/// Without one the caller allocates a target of that extent.
pub struct Checkout<G, V> {
    pub extent: Size,
    pub reused: Option<Target<G, V>>,
}

/// Whether `target` is what completing a checkout may give.
pub open spec fn completed<G, V, F: FnOnce(Size) -> G>(
    checkout: Checkout<G, V>,
    format: TextureFormat,
    role: Role,
    create: F,
    target: Target<G, V>,
) -> bool {
    match checkout.reused {
        Some(reused) => target == reused,
        None => exists|resources: G| #[trigger]
            call_ensures(create, (checkout.extent,), resources) && target.owned() == (
            TargetStorage {
                resources,
                extent: checkout.extent,
                format,
                last_role: role,
                text_viewport: None::<V>,
            }),
    }
}

impl<G, V> Checkout<G, V> {
    /// Returns the reused target, or else a new one, and whether it was reused.
    pub fn complete<F: FnOnce(Size) -> G>(
        self,
        format: TextureFormat,
        role: Role,
        create: F,
    ) -> (leased: (Target<G, V>, bool))
        requires
            self.reused is None ==> call_requires(create, (self.extent,)),
        ensures
            completed(self, format, role, create, leased.0),
            leased.1 == self.reused is Some,
    {
        match self.reused {
            Some(target) => (target, true),
            None => {
                let storage = TargetStorage::new(create(self.extent), format, self.extent, role);
                (Lease::new(storage), false)
            },
        }
    }
}

/// The reuse pool for renderer-owned targets.
pub struct Pool<G, V> {
    free: FreePool<Target<G, V>>,
}

impl<G, V> View for Pool<G, V> {
    type V = Seq<Backing<Target<G, V>>>;

    closed spec fn view(&self) -> Seq<Backing<Target<G, V>>> {
        self.free@
    }
}

/// Whether a checkout of `key` for `role` may turn `before` into `after`, handing out
/// `reused`.
pub open spec fn checked_out<G, V>(
    before: Seq<Backing<Target<G, V>>>,
    after: Seq<Backing<Target<G, V>>>,
    key: Key,
    role: Role,
    reused: Option<Target<G, V>>,
) -> bool {
    match reused {
        Some(target) => exists|i: int| #[trigger]
            newest_at(before, key, i) && after == before.remove(i) && target.owned() == (
            TargetStorage { last_role: role, ..before[i].target.owned() }),
        None => after == before && forall|i: int|
            0 <= i < before.len() ==> (#[trigger] before[i]).key != key,
    }
}

impl<G, V> Pool<G, V> {
    /// The free list is consistent and every backing is filed under its own key and role.
    pub closed spec fn wf(self) -> bool {
        &&& self.free.wf()
        &&& forall|i: int| 0 <= i < self@.len() ==> #[trigger] self@[i] == filed(self@[i].target)
    }

    /// Every backing is filed under its own key and role.
    pub proof fn filed_under_own_key(self, i: int)
        requires
            self.wf(),
            0 <= i < self@.len(),
        ensures
            self@[i] == filed(self@[i].target),
    {
    }

    /// Creates an empty pool.
    pub fn new() -> (pool: Self)
        ensures
            pool.wf(),
            pool@ == Seq::<Backing<Target<G, V>>>::empty(),
    {
        Pool { free: FreePool::new() }
    }

    /// Returns a valid poolable backing extent for a requested layer size, if possible
    /// without exceeding the texture size limit.
    pub fn backing_extent(requested: Size, maximum_dimension: u32) -> (extent: Option<Size>)
        ensures
            match extent {
                Some(extent) => SizeClass::of(requested, maximum_dimension) matches Some(class)
                    && extent == class.pixels(),
                None => SizeClass::of(requested, maximum_dimension) is None,
            },
    {
        match SizeClass::new(requested, maximum_dimension) {
            Some(class) => Some(class.extent()),
            None => None,
        }
    }

    /// Checks out a target for a layer of the requested size.
    pub fn lease_layer(
        &mut self,
        format: TextureFormat,
        requested: Size,
        maximum_dimension: u32,
    ) -> (checkout: Checkout<G, V>)
        requires
            old(self).wf(),
            SizeClass::of(requested, maximum_dimension) is Some,
        ensures
            final(self).wf(),
            checkout.extent == SizeClass::of(requested, maximum_dimension)->0.pixels(),
            checked_out(
                old(self)@,
                final(self)@,
                (Key { width: checkout.extent.width, height: checkout.extent.height, format }),
                Role::Layer,
                checkout.reused,
            ),
    {
        let extent = Self::backing_extent(requested, maximum_dimension).unwrap();
        Checkout { extent, reused: self.lease(format, extent, Role::Layer) }
    }

    /// Checks out a target for a scratch texture of the requested size.
    pub fn lease_scratch(
        &mut self,
        format: TextureFormat,
        requested: Size,
        maximum_dimension: u32,
    ) -> (checkout: Result<Checkout<G, V>, ScratchError>)
        requires
            old(self).wf(),
        ensures
            final(self).wf(),
            match checkout {
                Ok(checkout) => {
                    &&& dimension_error(requested.width, maximum_dimension) is None
                    &&& dimension_error(requested.height, maximum_dimension) is None
                    &&& is_scratch_dimension(
                        requested.width,
                        maximum_dimension,
                        checkout.extent.width,
                    )
                    &&& is_scratch_dimension(
                        requested.height,
                        maximum_dimension,
                        checkout.extent.height,
                    )
                    &&& checked_out(
                        old(self)@,
                        final(self)@,
                        (Key {
                            width: checkout.extent.width,
                            height: checkout.extent.height,
                            format,
                        }),
                        Role::Scratch,
                        checkout.reused,
                    )
                },
                Err(error) => {
                    &&& final(self)@ == old(self)@
                    &&& if dimension_error(requested.width, maximum_dimension) is Some {
                        dimension_error(requested.width, maximum_dimension) == Some(error)
                    } else {
                        dimension_error(requested.height, maximum_dimension) == Some(error)
                    }
                },
            },
    {
        match scratch::backing_extent(requested, maximum_dimension) {
            Ok(extent) => Ok(
                Checkout { extent, reused: self.lease(format, extent, Role::Scratch) },
            ),
            Err(error) => Err(error),
        }
    }

    fn lease(&mut self, format: TextureFormat, extent: Size, role: Role) -> (reused: Option<
        Target<G, V>,
    >)
        requires
            old(self).wf(),
        ensures
            final(self).wf(),
            checked_out(
                old(self)@,
                final(self)@,
                (Key { width: extent.width, height: extent.height, format }),
                role,
                reused,
            ),
    {
        let ghost before = self@;
        let key = Key::new(format, extent);
        match self.free.take(key) {
            Some(mut target) => {
                proof {
                    let i = choose|i: int| #[trigger]
                        newest_at(before, key, i) && target == before[i].target && self@
                            == before.remove(i);
                    assert forall|j: int| 0 <= j < self@.len() implies #[trigger] self@[j]
                        == filed(self@[j].target) by {
                        let from = if j < i {
                            j
                        } else {
                            j + 1
                        };
                        assert(before[from] == filed(before[from].target));
                    }
                }
                target.get_mut().last_role = role;
                Some(target)
            },
            None => None,
        }
    }

    /// Returns a target to the pool, where it becomes the newest one.
    pub fn release(&mut self, target: Target<G, V>)
        requires
            old(self).wf(),
            old(self)@.len() < usize::MAX,
            total_bytes(old(self)@) + target.owned().size() <= u64::MAX,
        ensures
            final(self).wf(),
            final(self)@ == old(self)@.push(filed(target)),
    {
        let ghost before = self@;
        let key = Key::new(target.get().format, target.get().extent);
        let role = target.get().last_role;
        self.free.release(key, role, target);
        proof {
            assert forall|j: int| 0 <= j < self@.len() implies #[trigger] self@[j] == filed(
                self@[j].target,
            ) by {
                if j < before.len() {
                    assert(before[j] == filed(before[j].target));
                }
            }
        }
    }

    /// Returns a list of targets to the pool in order.
    pub fn release_all(&mut self, targets: Vec<Target<G, V>>)
        requires
            old(self).wf(),
            old(self)@.len() + targets@.len() <= usize::MAX,
            total_bytes(old(self)@) + total_bytes(all_filed(targets@)) <= u64::MAX,
        ensures
            final(self).wf(),
            final(self)@ == old(self)@ + all_filed(targets@),
    {
        let ghost all = targets@;
        proof {
            assert(old(self)@ + all_filed(all.take(0)) =~= old(self)@);
        }
        for target in iter: targets
            invariant
                iter.seq() == all,
                self.wf(),
                self@ == old(self)@ + all_filed(all.take(iter.index())),
                old(self)@.len() + all.len() <= usize::MAX,
                total_bytes(old(self)@) + total_bytes(all_filed(all)) <= u64::MAX,
        {
            proof {
                let i = iter.index();
                let done = all_filed(all.take(i));
                let rest = all_filed(all.skip(i + 1));
                lemma_joined(old(self)@, done);
                lemma_joined(done.push(filed(all[i])), rest);
                assert(done.push(filed(all[i])).drop_last() =~= done);
                assert(done.push(filed(all[i])) + rest =~= all_filed(all));
                assert(all_filed(all.take(i + 1)) =~= done.push(filed(all[i])));
                assert(old(self)@ + done.push(filed(all[i])) =~= (old(self)@ + done).push(
                    filed(all[i]),
                ));
            }
            self.release(target);
        }
        assert(all.take(all.len() as int) =~= all);
    }

    /// Returns the bytes of all free targets.
    pub fn bytes(&self) -> (bytes: u64)
        requires
            self.wf(),
        ensures
            bytes == total_bytes(self@),
    {
        self.free.bytes()
    }

    /// Returns the bytes of those free targets whose last role was scratch.
    pub fn scratch_bytes(&self) -> (bytes: u64)
        requires
            self.wf(),
        ensures
            bytes == scratch_bytes(self@),
    {
        self.free.scratch_bytes()
    }

    /// Frame-end pressure trim; what it gives up is dropped.
    pub fn trim_to_bytes(&mut self, maximum: u64, budget: u64) -> (given_up: Trimmed)
        requires
            old(self).wf(),
            maximum <= budget,
            old(self)@.len() <= usize::MAX,
        ensures
            final(self).wf(),
            final(self)@ == trimmed(old(self)@, maximum, budget),
            final(self)@.len() + given_up.total == old(self)@.len(),
            scratch_count(final(self)@) + given_up.scratch == scratch_count(old(self)@),
    {
        let ghost before = self@;
        let given_up = self.free.trim_to_bytes(maximum, budget);
        proof {
            crate::free_pool::lemma_trimmed_members(before, maximum, budget);
            assert forall|j: int| 0 <= j < self@.len() implies #[trigger] self@[j] == filed(
                self@[j].target,
            ) by {
                assert(before.contains(self@[j]));
                let i = choose|i: int| 0 <= i < before.len() && before[i] == self@[j];
                assert(before[i] == filed(before[i].target));
            }
        }
        given_up
    }
}

impl<G, V> Default for Pool<G, V> {
    fn default() -> (pool: Self)
        ensures
            pool.wf(),
            pool@ == Seq::<Backing<Target<G, V>>>::empty(),
    {
        Pool::new()
    }
}

/// Every size that some whole number of increments within the device limit can hold has a
/// class. An empty size has none.
pub proof fn sizes_that_can_be_held_have_a_class(
    requested: Size,
    maximum: u32,
    columns: int,
    rows: int,
)
    ensures
        0 < requested.width <= 64 * columns <= maximum && 0 < requested.height <= 64 * rows
            <= maximum && columns <= 65535 && rows <= 65535 ==> SizeClass::of(requested, maximum)
            is Some,
        requested.width == 0 || requested.height == 0 ==> SizeClass::of(requested, maximum) is None,
{
}

/// A checkout hands out a free target of exactly the extent and format that are asked for, in
/// its new role and otherwise as it was returned, and takes it from the pool. It hands out
/// nothing only if there is no such target.
pub proof fn checkouts_hand_out_matching_targets<G, V>(
    before: Seq<Backing<Target<G, V>>>,
    after: Seq<Backing<Target<G, V>>>,
    key: Key,
    role: Role,
    reused: Option<Target<G, V>>,
    i: int,
)
    requires
        checked_out(before, after, key, role, reused),
        forall|j: int| 0 <= j < before.len() ==> #[trigger] before[j] == filed(before[j].target),
    ensures
        reused matches Some(target) ==> {
            &&& target.owned().extent.width == key.width
            &&& target.owned().extent.height == key.height
            &&& target.owned().format == key.format
            &&& target.owned().last_role == role
            &&& after.len() == before.len() - 1
            &&& exists|j: int|
                0 <= j < before.len() && (#[trigger] before[j]).target.owned().resources
                    == target.owned().resources && before[j].target.owned().text_viewport
                    == target.owned().text_viewport && after == before.remove(j)
        },
        reused is None ==> after == before,
        reused is None && 0 <= i < before.len() ==> !(before[i].target.owned().extent.width
            == key.width && before[i].target.owned().extent.height == key.height
            && before[i].target.owned().format == key.format),
{
    if reused is Some {
        let target = reused->0;
        let j = choose|j: int| #[trigger]
            newest_at(before, key, j) && after == before.remove(j) && target.owned() == (
            TargetStorage { last_role: role, ..before[j].target.owned() });
        assert(before[j] == filed(before[j].target));
    } else if 0 <= i < before.len() {
        assert(before[i] == filed(before[i].target));
    }
}

/// A target that is returned is the next one to be handed out for its extent and format, and
/// the pool is then as it was.
pub proof fn returned_targets_are_handed_out_next<G, V>(
    before: Seq<Backing<Target<G, V>>>,
    returned: Target<G, V>,
    after: Seq<Backing<Target<G, V>>>,
    role: Role,
    reused: Option<Target<G, V>>,
)
    requires
        checked_out(
            before.push(filed(returned)),
            after,
            (Key {
                width: returned.owned().extent.width,
                height: returned.owned().extent.height,
                format: returned.owned().format,
            }),
            role,
            reused,
        ),
    ensures
        reused matches Some(target) && target.owned().resources == returned.owned().resources
            && target.owned().text_viewport == returned.owned().text_viewport
            && target.owned().last_role == role,
        after == before,
        before.push(filed(returned)).last().role == returned.owned().last_role,
{
    let whole = before.push(filed(returned));
    let key = returned.owned().key();
    assert(whole[before.len() as int].key == key);
    let j = choose|j: int| #[trigger]
        newest_at(whole, key, j) && after == whole.remove(j) && reused->0.owned() == (
        TargetStorage { last_role: role, ..whole[j].target.owned() });
    crate::free_pool::take_undoes_release(before, filed(returned), j);
}

/// A checkout is completed with a target of its extent, in the format and the role that were
/// asked for: the reused one, or one with newly created resources and no text resources.
pub proof fn completed_checkouts_are_as_asked_for<G, V, F: FnOnce(Size) -> G>(
    before: Seq<Backing<Target<G, V>>>,
    after: Seq<Backing<Target<G, V>>>,
    checkout: Checkout<G, V>,
    format: TextureFormat,
    role: Role,
    create: F,
    target: Target<G, V>,
)
    requires
        checked_out(
            before,
            after,
            (Key { width: checkout.extent.width, height: checkout.extent.height, format }),
            role,
            checkout.reused,
        ),
        forall|j: int| 0 <= j < before.len() ==> #[trigger] before[j] == filed(before[j].target),
        completed(checkout, format, role, create, target),
    ensures
        target.owned().extent == checkout.extent,
        target.owned().format == format,
        target.owned().last_role == role,
        checkout.reused matches Some(reused) ==> target == reused,
        checkout.reused is None ==> target.owned().text_viewport is None && call_ensures(
            create,
            (checkout.extent,),
            target.owned().resources,
        ),
{
    let key = Key { width: checkout.extent.width, height: checkout.extent.height, format };
    checkouts_hand_out_matching_targets(before, after, key, role, checkout.reused, 0);
}

/// The backing of a layer is made up of whole increments along each axis.
pub proof fn size_classes_are_whole_increments(class: SizeClass)
    ensures
        class.pixels().width % 64 == 0,
        class.pixels().height % 64 == 0,
        class.pixels().width == 64 * class.width,
        class.pixels().height == 64 * class.height,
{
}

} // verus!
