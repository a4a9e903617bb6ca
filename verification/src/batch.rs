//! A layer that counts the primitives it was given.

use crate::drawing::{held_sum, DrawnLayer, LayerContents};
use crate::float_bits::{equal_rectangles, numerically_equal_rectangles, RectangleBits};
use crate::layer::Layer;
use vstd::prelude::*;

verus! {

/// The bits of positive infinity.
pub const INFINITE_BITS: u32 = 0x7f80_0000;

/// A layer of primitives by number. The primitives themselves stay with the renderer, in the
/// order in which they were counted.
///
/// Quads lie lowest, then meshes, custom primitives, images and texts. Meshes and texts are
/// grouped: a group is pending until it is flushed.
#[derive(Debug, Clone, Copy, PartialEq, Eq, Structural)]
pub struct Batch {
    pub bounds: RectangleBits,
    pub quads: usize,
    pub triangles: usize,
    pub primitives: usize,
    pub images: usize,
    pub texts: usize,
    pub pending_meshes: usize,
    pub pending_texts: usize,
}

/// A batch without any primitive.
pub open spec fn bare(bounds: RectangleBits) -> Batch {
    Batch {
        bounds,
        quads: 0,
        triangles: 0,
        primitives: 0,
        images: 0,
        texts: 0,
        pending_meshes: 0,
        pending_texts: 0,
    }
}

/// The bounds that leave nothing out.
pub open spec fn unbounded() -> RectangleBits {
    RectangleBits { x: 0, y: 0, width: INFINITE_BITS, height: INFINITE_BITS }
}

/// How many groups there are once a pending one is settled.
pub open spec fn grouped(groups: usize, pending: usize) -> usize {
    if pending > 0 {
        held_sum(groups, 1)
    } else {
        groups
    }
}

impl Batch {
    fn new(bounds: RectangleBits) -> (batch: Self)
        ensures
            batch == bare(bounds),
    {
        Batch {
            bounds,
            quads: 0,
            triangles: 0,
            primitives: 0,
            images: 0,
            texts: 0,
            pending_meshes: 0,
            pending_texts: 0,
        }
    }

    /// Counts a quad.
    pub fn draw_quad(&mut self)
        ensures
            *final(self) == (Batch { quads: held_sum(old(self).quads, 1), ..*old(self) }),
    {
        self.quads = self.quads.saturating_add(1);
    }

    /// Counts a mesh in the pending group.
    pub fn draw_mesh(&mut self)
        ensures
            *final(self) == (Batch {
                pending_meshes: held_sum(old(self).pending_meshes, 1),
                ..*old(self)
            }),
    {
        self.pending_meshes = self.pending_meshes.saturating_add(1);
    }

    /// Counts a custom primitive.
    pub fn draw_primitive(&mut self)
        ensures
            *final(self) == (Batch { primitives: held_sum(old(self).primitives, 1), ..*old(self) }),
    {
        self.primitives = self.primitives.saturating_add(1);
    }

    /// Counts an image.
    pub fn draw_image(&mut self)
        ensures
            *final(self) == (Batch { images: held_sum(old(self).images, 1), ..*old(self) }),
    {
        self.images = self.images.saturating_add(1);
    }

    /// Counts a text in the pending group.
    pub fn draw_text(&mut self)
        ensures
            *final(self) == (Batch {
                pending_texts: held_sum(old(self).pending_texts, 1),
                ..*old(self)
            }),
    {
        self.pending_texts = self.pending_texts.saturating_add(1);
    }
}

impl Layer for Batch {
    type Bounds = RectangleBits;

    type Model = Batch;

    open spec fn model(&self) -> Batch {
        *self
    }

    open spec fn blank() -> Batch {
        bare(unbounded())
    }

    open spec fn fresh(bounds: RectangleBits) -> Batch {
        bare(bounds)
    }

    open spec fn bounds_of(model: Batch) -> RectangleBits {
        model.bounds
    }

    open spec fn flushed(model: Batch) -> Batch {
        Batch {
            triangles: grouped(model.triangles, model.pending_meshes),
            texts: grouped(model.texts, model.pending_texts),
            pending_meshes: 0,
            pending_texts: 0,
            ..model
        }
    }

    open spec fn resized(model: Batch, bounds: RectangleBits) -> Batch {
        Batch { bounds, ..model }
    }

    open spec fn cleared(model: Batch) -> Batch {
        bare(unbounded())
    }

    open spec fn start_of(model: Batch) -> usize {
        if model.quads > 0 {
            1
        } else if model.triangles > 0 {
            2
        } else if model.primitives > 0 {
            3
        } else if model.images > 0 {
            4
        } else if model.texts > 0 {
            5
        } else {
            usize::MAX
        }
    }

    open spec fn end_of(model: Batch) -> usize {
        if model.texts > 0 {
            5
        } else if model.images > 0 {
            4
        } else if model.primitives > 0 {
            3
        } else if model.triangles > 0 {
            2
        } else if model.quads > 0 {
            1
        } else {
            0
        }
    }

    open spec fn merged(model: Batch, other: Batch) -> Batch {
        Batch {
            quads: held_sum(model.quads, other.quads),
            triangles: held_sum(model.triangles, other.triangles),
            primitives: held_sum(model.primitives, other.primitives),
            images: held_sum(model.images, other.images),
            texts: held_sum(model.texts, other.texts),
            ..model
        }
    }

    open spec fn drained(model: Batch, other: Batch) -> Batch {
        Batch {
            pending_meshes: other.pending_meshes,
            pending_texts: other.pending_texts,
            ..bare(other.bounds)
        }
    }

    open spec fn agree(a: RectangleBits, b: RectangleBits) -> bool {
        numerically_equal_rectangles(a, b)
    }

    proof fn new_layers_are_bare(bounds: RectangleBits) {
    }

    proof fn only_resizing_sets_bounds(model: Batch, bounds: RectangleBits) {
    }

    fn empty() -> (layer: Self) {
        Batch::new(RectangleBits { x: 0, y: 0, width: INFINITE_BITS, height: INFINITE_BITS })
    }

    fn with_bounds(bounds: RectangleBits) -> (layer: Self) {
        Batch::new(bounds)
    }

    fn bounds(&self) -> (bounds: RectangleBits) {
        self.bounds
    }

    fn flush(&mut self) {
        if self.pending_meshes > 0 {
            self.triangles = self.triangles.saturating_add(1);
            self.pending_meshes = 0;
        }
        if self.pending_texts > 0 {
            self.texts = self.texts.saturating_add(1);
            self.pending_texts = 0;
        }
    }

    fn resize(&mut self, bounds: RectangleBits) {
        self.bounds = bounds;
    }

    fn reset(&mut self) {
        *self =
        Batch::new(RectangleBits { x: 0, y: 0, width: INFINITE_BITS, height: INFINITE_BITS });
    }

    fn start(&self) -> (level: usize) {
        if self.quads > 0 {
            1
        } else if self.triangles > 0 {
            2
        } else if self.primitives > 0 {
            3
        } else if self.images > 0 {
            4
        } else if self.texts > 0 {
            5
        } else {
            usize::MAX
        }
    }

    fn end(&self) -> (level: usize) {
        if self.texts > 0 {
            5
        } else if self.images > 0 {
            4
        } else if self.primitives > 0 {
            3
        } else if self.triangles > 0 {
            2
        } else if self.quads > 0 {
            1
        } else {
            0
        }
    }

    fn merge(&mut self, layer: &mut Self) {
        self.quads = self.quads.saturating_add(layer.quads);
        self.triangles = self.triangles.saturating_add(layer.triangles);
        self.primitives = self.primitives.saturating_add(layer.primitives);
        self.images = self.images.saturating_add(layer.images);
        self.texts = self.texts.saturating_add(layer.texts);
        *layer =
        Batch {
            pending_meshes: layer.pending_meshes,
            pending_texts: layer.pending_texts,
            ..Batch::new(layer.bounds)
        };
    }

    fn same_bounds(a: RectangleBits, b: RectangleBits) -> (same: bool) {
        equal_rectangles(a, b)
    }
}

impl DrawnLayer for Batch {
    open spec fn contents_of(model: Batch) -> LayerContents {
        LayerContents {
            quads: model.quads > 0,
            triangles: model.triangles,
            primitives: model.primitives,
            images: model.images > 0,
            texts: model.texts,
        }
    }

    fn contents(&self) -> (contents: LayerContents) {
        LayerContents {
            quads: self.quads > 0,
            triangles: self.triangles,
            primitives: self.primitives,
            images: self.images > 0,
            texts: self.texts,
        }
    }
}

/// How many primitives or groups of one kind a batch holds, by their level: quads, meshes,
/// custom primitives, images and texts.
pub open spec fn held_at(batch: Batch, level: int) -> int {
    if level == 1 {
        batch.quads as int
    } else if level == 2 {
        batch.triangles as int
    } else if level == 3 {
        batch.primitives as int
    } else if level == 4 {
        batch.images as int
    } else if level == 5 {
        batch.texts as int
    } else {
        0
    }
}

/// A batch starts at the lowest level at which it holds anything and ends at the highest.
/// Without anything it ends at zero and starts beyond every level.
pub proof fn batches_span_what_they_hold(batch: Batch, level: int)
    ensures
        <Batch as Layer>::end_of(batch) == 0 <==> forall|i: int| #[trigger] held_at(batch, i) == 0,
        held_at(batch, level) > 0 ==> <Batch as Layer>::start_of(batch) <= level
            <= <Batch as Layer>::end_of(batch),
        <Batch as Layer>::end_of(batch) > 0 ==> held_at(
            batch,
            <Batch as Layer>::start_of(batch) as int,
        ) > 0 && held_at(batch, <Batch as Layer>::end_of(batch) as int) > 0,
        <Batch as Layer>::end_of(batch) == 0 ==> <Batch as Layer>::start_of(batch) == usize::MAX,
        <Batch as Layer>::end_of(batch) <= 5,
{
    assert(held_at(batch, 1) == batch.quads);
    assert(held_at(batch, 2) == batch.triangles);
    assert(held_at(batch, 3) == batch.primitives);
    assert(held_at(batch, 4) == batch.images);
    assert(held_at(batch, 5) == batch.texts);
}

/// Merging loses nothing: at every level the lower batch holds what both held, as far as it can
/// be counted, the upper one holds nothing but what is pending, and both keep their bounds.
pub proof fn merging_loses_no_primitive(lower: Batch, upper: Batch, level: int)
    ensures
        ({
            let merged = <Batch as Layer>::merged(lower, upper);
            let drained = <Batch as Layer>::drained(lower, upper);
            &&& held_at(lower, level) + held_at(upper, level) <= usize::MAX ==> held_at(
                merged,
                level,
            ) == held_at(lower, level) + held_at(upper, level)
            &&& held_at(lower, level) + held_at(upper, level) > usize::MAX ==> held_at(
                merged,
                level,
            ) == usize::MAX
            &&& held_at(drained, level) == 0
            &&& merged.bounds == lower.bounds && drained.bounds == upper.bounds
            &&& merged.pending_meshes == lower.pending_meshes && merged.pending_texts
                == lower.pending_texts
            &&& drained.pending_meshes == upper.pending_meshes && drained.pending_texts
                == upper.pending_texts
        }),
{
}

/// Flushing turns pending meshes into one more group of meshes and pending texts into one more
/// group of texts, and changes nothing else.
pub proof fn flushing_settles_pending_groups(batch: Batch)
    ensures
        ({
            let flushed = <Batch as Layer>::flushed(batch);
            &&& flushed.pending_meshes == 0 && flushed.pending_texts == 0
            &&& batch.triangles < usize::MAX ==> flushed.triangles - batch.triangles == (
            if batch.pending_meshes > 0 {
                1int
            } else {
                0
            })
            &&& batch.texts < usize::MAX ==> flushed.texts - batch.texts == (
            if batch.pending_texts > 0 {
                1int
            } else {
                0
            })
            &&& flushed.quads == batch.quads && flushed.primitives == batch.primitives
                && flushed.images == batch.images && flushed.bounds == batch.bounds
            &&& <Batch as Layer>::flushed(flushed) == flushed
        }),
{
}

/// What is drawn of a batch is what it holds.
pub proof fn drawn_contents_are_held(batch: Batch)
    ensures
        ({
            let contents = <Batch as DrawnLayer>::contents_of(batch);
            &&& contents.quads <==> batch.quads > 0
            &&& contents.images <==> batch.images > 0
            &&& contents.triangles == batch.triangles
            &&& contents.primitives == batch.primitives
            &&& contents.texts == batch.texts
        }),
{
}

/// Everything of one kind in a list of batches.
pub open spec fn held_by_all(batches: Seq<Batch>, level: int) -> int
    decreases batches.len(),
{
    if batches.len() == 0 {
        0
    } else {
        held_by_all(batches.drop_last(), level) + held_at(batches.last(), level)
    }
}

proof fn lemma_held_joined(first: Seq<Batch>, second: Seq<Batch>, level: int)
    ensures
        held_by_all(first + second, level) == held_by_all(first, level) + held_by_all(
            second,
            level,
        ),
    decreases second.len(),
{
    if second.len() == 0 {
        assert(first + second =~= first);
    } else {
        lemma_held_joined(first, second.drop_last(), level);
        assert((first + second).drop_last() =~= first + second.drop_last());
    }
}

proof fn lemma_held_at_most(batches: Seq<Batch>, i: int, level: int)
    requires
        0 <= i < batches.len(),
    ensures
        0 <= held_at(batches[i], level) <= held_by_all(batches, level),
        0 <= held_by_all(batches, level),
    decreases batches.len(),
{
    let rest = batches.drop_last();
    if i < rest.len() {
        lemma_held_at_most(rest, i, level);
        assert(rest[i] == batches[i]);
    } else if rest.len() > 0 {
        lemma_held_at_most(rest, 0, level);
    } else {
        assert(held_by_all(rest, level) == 0);
    }
}

proof fn lemma_held_updated(batches: Seq<Batch>, i: int, batch: Batch, level: int)
    requires
        0 <= i < batches.len(),
    ensures
        held_by_all(batches.update(i, batch), level) == held_by_all(batches, level) - held_at(
            batches[i],
            level,
        ) + held_at(batch, level),
    decreases batches.len(),
{
    let rest = batches.drop_last();
    if i < rest.len() {
        lemma_held_updated(rest, i, batch, level);
        assert(batches.update(i, batch).drop_last() =~= rest.update(i, batch));
    } else {
        assert(batches.update(i, batch).drop_last() =~= rest);
    }
}

proof fn lemma_absorbed_holds(layer: Batch, above: Seq<Batch>, count: int, level: int)
    requires
        0 <= count <= above.len(),
        held_at(layer, level) + held_by_all(above, level) <= usize::MAX,
    ensures
        ({
            let (taken, rest) = crate::layer::absorbed::<Batch>(layer, above, count);
            &&& rest.len() == above.len()
            &&& held_at(taken, level) + held_by_all(rest, level) == held_at(layer, level)
                + held_by_all(above, level)
        }),
    decreases count,
{
    if count > 0 {
        lemma_absorbed_holds(layer, above, count - 1, level);
        let (taken, rest) = crate::layer::absorbed::<Batch>(layer, above, count - 1);
        let next = rest[count - 1];
        lemma_held_at_most(rest, count - 1, level);
        merging_loses_no_primitive(taken, next, level);
        lemma_held_updated(rest, count - 1, <Batch as Layer>::drained(taken, next), level);
    }
}

/// Merging the layers of a stack loses nothing: at every level all of them together hold as
/// much as before.
pub proof fn merged_stacks_hold_every_primitive(layers: Seq<Batch>, left: int, level: int)
    requires
        left <= layers.len(),
        held_by_all(layers, level) <= usize::MAX,
    ensures
        held_by_all(crate::layer::combined::<Batch>(layers, left), level) == held_by_all(
            layers,
            level,
        ),
    decreases left,
{
    if left > 1 {
        let scan = crate::layer::scanned::<Batch>(layers, left - 1, left - 1);
        crate::layer::scans_descend::<Batch>(layers, left - 1, left - 1);
        let target = scan.target;
        let above = layers.skip(target + 1);
        let below = layers.take(target);
        let count = left - target - 1;
        assert(layers =~= below.push(layers[target]) + above);
        lemma_held_joined(below.push(layers[target]), above, level);
        assert(below.push(layers[target]).drop_last() =~= below);
        if below.len() > 0 {
            lemma_held_at_most(below, 0, level);
        } else {
            assert(held_by_all(below, level) == 0);
        }
        assert(held_by_all(below.push(layers[target]), level) == held_by_all(below, level)
            + held_at(layers[target], level));
        lemma_absorbed_holds(layers[target], above, count, level);
        let (taken, rest) = crate::layer::absorbed::<Batch>(layers[target], above, count);
        let collapsed = crate::layer::collapsed::<Batch>(layers, target, left);
        lemma_held_joined(below.push(taken), rest, level);
        assert(below.push(taken).drop_last() =~= below);
        merged_stacks_hold_every_primitive(collapsed, scan.stop, level);
    }
}

/// A layer without bounds of its own reaches from the origin without end, and holds nothing. One
/// with bounds keeps them, and holds nothing either.
pub proof fn new_layers_are_empty(bounds: RectangleBits)
    ensures
        Batch::blank().bounds.x == 0 && Batch::blank().bounds.y == 0,
        Batch::blank().bounds.width == 0x7f80_0000 && Batch::blank().bounds.height == 0x7f80_0000,
        Batch::fresh(bounds).bounds == bounds,
        forall|level: int| #[trigger] held_at(Batch::blank(), level) == 0,
        forall|level: int| #[trigger] held_at(Batch::fresh(bounds), level) == 0,
        Batch::fresh(bounds).pending_meshes == 0 && Batch::fresh(bounds).pending_texts == 0,
{
}

} // verus!
