//! Application-scoped, renderer-pooled supplementary effect textures.

use crate::context::PointBits;
use crate::diagnostics::Diagnostics;
use crate::format::{texture_bytes, TextureFormat};
use crate::free_pool::{newest_at, total_bytes, Backing, Key, Role};
use crate::geometry::{div_ceil, groups, Size};
use crate::pool::{all_filed, checked_out, completed, Checkout, Pool, Target, TargetStorage};
use vstd::arithmetic::power2::pow2;
use vstd::prelude::*;

verus! {

/// An invalid scratch texture request.
#[derive(Debug, Clone, Copy, PartialEq, Eq, Structural)]
pub enum ScratchError {
    /// Both dimensions must be nonzero.
    Empty,
    /// The requested extent exceeds the device's two-dimensional texture limit.
    TooLarge,
}

impl ScratchError {
    /// Returns what is wrong with the request.
    pub fn message(&self) -> (message: &'static str)
        ensures
            message@ == (match *self {
                ScratchError::Empty => "scratch texture dimensions must be nonzero"@,
                ScratchError::TooLarge =>
                    "scratch texture exceeds the device's 2D texture limit"@,
            }),
    {
        match self {
            ScratchError::Empty => "scratch texture dimensions must be nonzero",
            ScratchError::TooLarge => "scratch texture exceeds the device's 2D texture limit",
        }
    }
}

/// The least power of two that is not below a positive value.
pub open spec fn is_next_power_of_two(value: u32, power: u32) -> bool {
    &&& exists|n: nat| power == #[trigger] pow2(n)
    &&& value <= power < 2 * value
}

/// Whether `rounded` is the scratch extent for one dimension of `value` pixels.
///
/// Small dimensions take the next power of two, larger ones the next multiple of 64, and
/// neither exceeds the limit.
pub open spec fn is_scratch_dimension(value: u32, maximum: u32, rounded: u32) -> bool {
    if value <= 64 {
        exists|power: u32| #[trigger]
            is_next_power_of_two(value, power) && rounded == at_most(power as int, maximum)
    } else {
        rounded == at_most(64 * groups(value as int, 64), maximum)
    }
}

/// The smaller of a value and a limit.
pub open spec fn at_most(value: int, limit: u32) -> int {
    if value < limit {
        value
    } else {
        limit as int
    }
}

/// What is wrong with one requested dimension.
pub open spec fn dimension_error(value: u32, maximum: u32) -> Option<ScratchError> {
    if value == 0 {
        Some(ScratchError::Empty)
    } else if value > maximum {
        Some(ScratchError::TooLarge)
    } else {
        None
    }
}

fn next_power_of_two(value: u32) -> (power: u32)
    requires
        1 <= value <= 64,
    ensures
        is_next_power_of_two(value, power),
{
    proof {
        vstd::arithmetic::power2::lemma2_to64();
        assert(pow2(0) == 1 && pow2(1) == 2 && pow2(2) == 4 && pow2(3) == 8);
        assert(pow2(4) == 16 && pow2(5) == 32 && pow2(6) == 64);
    }
    if value <= 1 {
        1
    } else if value <= 2 {
        2
    } else if value <= 4 {
        4
    } else if value <= 8 {
        8
    } else if value <= 16 {
        16
    } else if value <= 32 {
        32
    } else {
        64
    }
}

fn scratch_dimension(value: u32, maximum: u32) -> (rounded: Result<u32, ScratchError>)
    ensures
        match rounded {
            Ok(rounded) => dimension_error(value, maximum) is None && is_scratch_dimension(
                value,
                maximum,
                rounded,
            ),
            Err(error) => dimension_error(value, maximum) == Some(error),
        },
{
    if value == 0 {
        return Err(ScratchError::Empty);
    }
    if value > maximum {
        return Err(ScratchError::TooLarge);
    }
    let rounded: u32 = if value <= 64 {
        next_power_of_two(value)
    } else {
        match div_ceil(value, 64).checked_mul(64) {
            Some(rounded) => rounded,
            None => maximum,
        }
    };
    if rounded < maximum {
        Ok(rounded)
    } else {
        Ok(maximum)
    }
}

/// Returns the extent that backs a scratch texture of the requested size.
///
/// Dimensions are checked before rounding, the width before the height.
pub fn backing_extent(size: Size, maximum: u32) -> (extent: Result<Size, ScratchError>)
    ensures
        match extent {
            Ok(extent) => {
                &&& dimension_error(size.width, maximum) is None
                &&& dimension_error(size.height, maximum) is None
                &&& is_scratch_dimension(size.width, maximum, extent.width)
                &&& is_scratch_dimension(size.height, maximum, extent.height)
            },
            Err(error) => if dimension_error(size.width, maximum) is Some {
                dimension_error(size.width, maximum) == Some(error)
            } else {
                dimension_error(size.height, maximum) == Some(error)
            },
        },
{
    let width: u32 = match scratch_dimension(size.width, maximum) {
        Ok(width) => width,
        Err(error) => return Err(error),
    };
    let height: u32 = match scratch_dimension(size.height, maximum) {
        Ok(height) => height,
        Err(error) => return Err(error),
    };
    Ok(Size { width, height })
}

/// A supplementary texture valid for one prepared pass application.
///
/// Dropping it does not release the renderer's lease early. Its initial contents are
/// unspecified.
pub struct ScratchTexture<G> {
    resources: G,
    physical_size: Size,
    backing_extent: Size,
}

impl<G> ScratchTexture<G> {
    /// The shared texture resources.
    pub closed spec fn shares(self) -> G {
        self.resources
    }

    /// The requested valid size.
    pub closed spec fn valid(self) -> Size {
        self.physical_size
    }

    /// The full allocation.
    pub closed spec fn backing(self) -> Size {
        self.backing_extent
    }

    /// Returns the texture resources for sampling or rendering.
    pub fn resources(&self) -> (resources: &G)
        ensures
            *resources == self.shares(),
    {
        &self.resources
    }

    /// Returns the requested valid physical size.
    pub fn physical_size(&self) -> (size: Size)
        ensures
            size == self.valid(),
    {
        self.physical_size
    }

    /// Returns the full pooled allocation extent.
    pub fn backing_extent(&self) -> (extent: Size)
        ensures
            extent == self.backing(),
    {
        self.backing_extent
    }

    /// Returns the bits of the texture coordinates at which the valid pixels end, where `ratio`
    /// divides two whole numbers.
    pub fn valid_uv<D: Fn(u32, u32) -> u32>(&self, ratio: &D) -> (uv: PointBits)
        requires
            forall|a: u32, b: u32| call_requires(*ratio, (a, b)),
        ensures
            call_ensures(*ratio, (self.valid().width, self.backing().width), uv.x),
            call_ensures(*ratio, (self.valid().height, self.backing().height), uv.y),
    {
        PointBits {
            x: ratio(self.physical_size.width, self.backing_extent.width),
            y: ratio(self.physical_size.height, self.backing_extent.height),
        }
    }
}

/// Allocates supplementary textures for one pass application.
///
/// Leases remain exclusive until the application's prepared bindings are dropped after
/// encoding.
pub struct ScratchAllocator<G, V> {
    format: TextureFormat,
    maximum_dimension: u32,
    leases: Vec<Target<G, V>>,
}

/// What is wrong with a requested size.
pub open spec fn size_error(size: Size, maximum: u32) -> Option<ScratchError> {
    if dimension_error(size.width, maximum) is Some {
        dimension_error(size.width, maximum)
    } else {
        dimension_error(size.height, maximum)
    }
}

/// Whether `extent` is the scratch extent for a requested size.
pub open spec fn is_scratch_extent(size: Size, maximum: u32, extent: Size) -> bool {
    &&& is_scratch_dimension(size.width, maximum, extent.width)
    &&& is_scratch_dimension(size.height, maximum, extent.height)
}

/// Whether an allocation of `size` may take `target` from `before`, leaving `after`, and
/// whether it was reused.
pub open spec fn scratch_allocated<G, V, F: FnOnce(Size) -> G>(
    before: Seq<Backing<Target<G, V>>>,
    after: Seq<Backing<Target<G, V>>>,
    format: TextureFormat,
    checkout: Checkout<G, V>,
    create: F,
    target: Target<G, V>,
) -> bool {
    &&& checked_out(
        before,
        after,
        Key { width: checkout.extent.width, height: checkout.extent.height, format },
        Role::Scratch,
        checkout.reused,
    )
    &&& completed(checkout, format, Role::Scratch, create, target)
}

impl<G: Clone, V> ScratchAllocator<G, V> {
    /// The texture format.
    pub closed spec fn format(self) -> TextureFormat {
        self.format
    }

    /// The device's two-dimensional texture limit.
    pub closed spec fn limit(self) -> u32 {
        self.maximum_dimension
    }

    /// The textures that were leased, in order.
    pub closed spec fn leased(self) -> Seq<Target<G, V>> {
        self.leases@
    }

    /// Creates an allocator without leases.
    pub fn new(format: TextureFormat, maximum_dimension: u32) -> (allocator: Self)
        ensures
            allocator.format() == format,
            allocator.limit() == maximum_dimension,
            allocator.leased() == Seq::<Target<G, V>>::empty(),
    {
        ScratchAllocator { format, maximum_dimension, leases: Vec::new() }
    }

    /// Leases a texture of the requested valid size, from the pool or else created by
    /// `create`.
    ///
    /// This validates dimensions, not device loss or out-of-memory conditions.
    pub fn allocate<F: FnOnce(Size) -> G>(
        &mut self,
        pool: &mut Pool<G, V>,
        diagnostics: &mut Diagnostics,
        size: Size,
        create: F,
    ) -> (texture: Result<ScratchTexture<G>, ScratchError>)
        requires
            old(pool).wf(),
            forall|extent: Size| #[trigger]
                is_scratch_extent(size, old(self).limit(), extent) ==> call_requires(
                    create,
                    (extent,),
                ),
        ensures
            final(pool).wf(),
            final(self).format() == old(self).format(),
            final(self).limit() == old(self).limit(),
            match texture {
                Ok(texture) => {
                    &&& size_error(size, old(self).limit()) is None
                    &&& texture.valid() == size
                    &&& is_scratch_extent(size, old(self).limit(), texture.backing())
                    &&& final(self).leased().len() == old(self).leased().len() + 1
                    &&& final(self).leased().drop_last() == old(self).leased()
                    &&& cloned(final(self).leased().last().owned().resources, texture.shares())
                    &&& exists|checkout: Checkout<G, V>| #[trigger]
                        scratch_allocated(
                            old(pool)@,
                            final(pool)@,
                            old(self).format(),
                            checkout,
                            create,
                            final(self).leased().last(),
                        ) && checkout.extent == texture.backing() && *final(diagnostics) == old(
                            diagnostics,
                        ).with_allocation(
                            texture_bytes(old(self).format(), texture.backing()),
                            checkout.reused is Some,
                        )
                },
                Err(error) => {
                    &&& size_error(size, old(self).limit()) == Some(error)
                    &&& final(self).leased() == old(self).leased()
                    &&& final(pool)@ == old(pool)@
                    &&& *final(diagnostics) == *old(diagnostics)
                },
            },
    {
        let ghost before = pool@;
        let checkout = match pool.lease_scratch(self.format, size, self.maximum_dimension) {
            Ok(checkout) => checkout,
            Err(error) => return Err(error),
        };
        let ghost taken = checkout;
        assert(is_scratch_extent(size, self.maximum_dimension, checkout.extent));
        let extent = checkout.extent;
        let (target, reused) = checkout.complete(self.format, Role::Scratch, create);
        proof {
            if let Some(found) = taken.reused {
                let key = Key { width: extent.width, height: extent.height, format: self.format };
                let i = choose|i: int| #[trigger]
                    newest_at(before, key, i) && pool@ == before.remove(i) && found.owned() == (
                    TargetStorage { last_role: Role::Scratch, ..before[i].target.owned() });
                assert(before[i].key == key);
                old(pool).filed_under_own_key(i);
            }
            assert(target.owned().extent == extent);
        }
        diagnostics.record_allocation(target.get().byte_size(), reused);
        let texture = ScratchTexture {
            resources: target.get().resources.clone(),
            physical_size: size,
            backing_extent: target.get().extent,
        };
        self.leases.push(target);
        proof {
            assert(self.leased().drop_last() =~= old(self).leased());
            assert(scratch_allocated(
                before,
                pool@,
                old(self).format(),
                taken,
                create,
                self.leased().last(),
            ));
        }
        Ok(texture)
    }

    /// Hands the leases over to the prepared pass.
    pub fn finish(self) -> (leases: Vec<Target<G, V>>)
        ensures
            leases@ == self.leased(),
    {
        self.leases
    }
}

/// Returns renderer-owned scratch leases after their prepared bindings are dropped.
pub fn release<G, V>(pool: &mut Pool<G, V>, targets: Vec<Target<G, V>>)
    requires
        old(pool).wf(),
        old(pool)@.len() + targets@.len() <= usize::MAX,
        total_bytes(old(pool)@) + total_bytes(all_filed(targets@)) <= u64::MAX,
    ensures
        final(pool).wf(),
        final(pool)@ == old(pool)@ + all_filed(targets@),
{
    pool.release_all(targets);
}

/// A scratch backing holds what was asked for and respects the limit.
pub proof fn scratch_backing_contains_the_request(value: u32, maximum: u32, rounded: u32)
    requires
        dimension_error(value, maximum) is None,
        is_scratch_dimension(value, maximum, rounded),
    ensures
        value <= rounded <= maximum,
        rounded < 2 * value,
{
    if value <= 64 {
        let power = choose|power: u32| #[trigger]
            is_next_power_of_two(value, power) && rounded == at_most(power as int, maximum);
        assert(is_next_power_of_two(value, power));
    }
}

/// Only one power of two lies between a value and its double.
pub proof fn next_power_of_two_is_unique(value: u32, first: u32, second: u32)
    requires
        is_next_power_of_two(value, first),
        is_next_power_of_two(value, second),
    ensures
        first == second,
{
    let m = choose|n: nat| first == #[trigger] pow2(n);
    let n = choose|n: nat| second == #[trigger] pow2(n);
    if m < n {
        lemma_doubling(m, n);
    } else if n < m {
        lemma_doubling(n, m);
    }
}

proof fn lemma_doubling(m: nat, n: nat)
    requires
        m < n,
    ensures
        2 * pow2(m) <= pow2(n),
    decreases n,
{
    vstd::arithmetic::power2::lemma_pow2_unfold(n);
    vstd::arithmetic::power2::lemma_pow2_pos((n - 1) as nat);
    if m + 1 < n {
        lemma_doubling(m, (n - 1) as nat);
    }
}

/// A scratch dimension takes no more than it must: up to the first increment a power of two,
/// beyond it a multiple of the increment that wastes less than one, and the device limit if
/// that comes first.
pub proof fn scratch_dimensions_are_the_least(value: u32, maximum: u32, rounded: u32)
    requires
        1 <= value <= maximum,
        is_scratch_dimension(value, maximum, rounded),
    ensures
        value <= 64 ==> rounded <= 64 && (rounded == maximum || exists|n: nat|
            rounded == #[trigger] pow2(n)),
        value > 64 ==> rounded < value + 64 && (rounded == maximum || rounded % 64 == 0),
{
    if value <= 64 {
        let power = choose|power: u32| #[trigger]
            is_next_power_of_two(value, power) && rounded == at_most(power as int, maximum);
        assert(is_next_power_of_two(value, power));
        let n = choose|n: nat| power == #[trigger] pow2(n);
        vstd::arithmetic::power2::lemma2_to64();
        assert(pow2(6) == 64);
        if n > 6 {
            lemma_doubling(6, n);
        }
    }
}

/// A size can be scratch exactly if neither side is empty or beyond the device limit. An error
/// tells which of the two it was, and the width is looked at first.
pub proof fn scratch_sizes_are_checked_in_order(size: Size, maximum: u32)
    ensures
        size_error(size, maximum) is None <==> 1 <= size.width <= maximum && 1 <= size.height
            <= maximum,
        size_error(size, maximum) == Some(ScratchError::Empty) ==> size.width == 0 || size.height
            == 0,
        size_error(size, maximum) == Some(ScratchError::TooLarge) ==> size.width > maximum
            || size.height > maximum,
        size.width == 0 ==> size_error(size, maximum) == Some(ScratchError::Empty),
        size.width > maximum ==> size_error(size, maximum) == Some(ScratchError::TooLarge),
{
}

/// Both sides of a scratch extent hold their side of the request.
pub proof fn scratch_extents_hold_the_request(size: Size, maximum: u32, extent: Size)
    requires
        size_error(size, maximum) is None,
        is_scratch_extent(size, maximum, extent),
    ensures
        size.width <= extent.width <= maximum,
        size.height <= extent.height <= maximum,
{
    scratch_backing_contains_the_request(size.width, maximum, extent.width);
    scratch_backing_contains_the_request(size.height, maximum, extent.height);
}

/// A leased scratch texture has the extent of its checkout, the format that was asked for, and the
/// role of scratch.
pub proof fn leased_scratch_is_as_asked_for<G, V, F: FnOnce(Size) -> G>(
    before: Seq<Backing<Target<G, V>>>,
    after: Seq<Backing<Target<G, V>>>,
    format: TextureFormat,
    checkout: Checkout<G, V>,
    create: F,
    target: Target<G, V>,
)
    requires
        scratch_allocated(before, after, format, checkout, create, target),
        forall|j: int|
            0 <= j < before.len() ==> #[trigger] before[j] == crate::pool::filed(before[j].target),
    ensures
        target.owned().extent == checkout.extent,
        target.owned().format == format,
        target.owned().last_role == Role::Scratch,
        checkout.reused is None ==> after == before,
        checkout.reused is Some ==> after.len() == before.len() - 1,
{
    crate::pool::completed_checkouts_are_as_asked_for(
        before,
        after,
        checkout,
        format,
        Role::Scratch,
        create,
        target,
    );
    crate::pool::checkouts_hand_out_matching_targets(
        before,
        after,
        Key { width: checkout.extent.width, height: checkout.extent.height, format },
        Role::Scratch,
        checkout.reused,
        0,
    );
}

} // verus!
