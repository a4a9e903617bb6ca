//! Draw and stack layers of graphical primitives.

use vstd::prelude::*;

verus! {

/// A layer of graphical primitives.
///
/// Layers normally dictate a set of primitives that are rendered in a specific order.
pub trait Layer: Sized {
    /// The region that a layer draws to.
    type Bounds: Copy;

    /// What a layer holds.
    type Model;

    /// What this layer holds.
    spec fn model(&self) -> Self::Model;

    /// What a layer without bounds holds.
    spec fn blank() -> Self::Model;

    /// What a new layer with the given bounds holds.
    spec fn fresh(bounds: Self::Bounds) -> Self::Model;

    /// The bounds of a layer.
    spec fn bounds_of(model: Self::Model) -> Self::Bounds;

    /// A layer with nothing pending.
    spec fn flushed(model: Self::Model) -> Self::Model;

    /// A layer with other bounds.
    spec fn resized(model: Self::Model, bounds: Self::Bounds) -> Self::Model;

    /// A layer without contents.
    spec fn cleared(model: Self::Model) -> Self::Model;

    /// The lowest level of the primitives in a layer.
    spec fn start_of(model: Self::Model) -> usize;

    /// The highest level of the primitives in a layer; zero if it has none.
    spec fn end_of(model: Self::Model) -> usize;

    /// A layer after it has taken the primitives of another.
    spec fn merged(model: Self::Model, other: Self::Model) -> Self::Model;

    /// What is left of a layer whose primitives were taken by another.
    spec fn drained(model: Self::Model, other: Self::Model) -> Self::Model;

    /// Whether two regions are the same.
    spec fn agree(a: Self::Bounds, b: Self::Bounds) -> bool;

    /// A new layer has the bounds it was given, and holds no primitives, be they pending or
    /// not.
    proof fn new_layers_are_bare(bounds: Self::Bounds)
        ensures
            Self::bounds_of(Self::fresh(bounds)) == bounds,
            Self::end_of(Self::fresh(bounds)) == 0,
            Self::end_of(Self::flushed(Self::fresh(bounds))) == 0,
    ;

    /// Flushing keeps the bounds of a layer, and resizing sets them.
    proof fn only_resizing_sets_bounds(model: Self::Model, bounds: Self::Bounds)
        ensures
            Self::bounds_of(Self::flushed(model)) == Self::bounds_of(model),
            Self::bounds_of(Self::resized(model, bounds)) == bounds,
    ;

    /// Creates a layer without bounds.
    fn empty() -> (layer: Self)
        ensures
            layer.model() == Self::blank(),
    ;

    /// Creates a new layer with the given bounds.
    fn with_bounds(bounds: Self::Bounds) -> (layer: Self)
        ensures
            layer.model() == Self::fresh(bounds),
    ;

    /// Returns the current bounds of the layer.
    fn bounds(&self) -> (bounds: Self::Bounds)
        ensures
            bounds == Self::bounds_of(self.model()),
    ;

    /// Flushes and settles any pending group of primitives in the layer.
    fn flush(&mut self)
        ensures
            final(self).model() == Self::flushed(old(self).model()),
    ;

    /// Resizes the layer to the given bounds.
    fn resize(&mut self, bounds: Self::Bounds)
        ensures
            final(self).model() == Self::resized(old(self).model(), bounds),
    ;

    /// Clears all the layer's contents and resets its bounds.
    fn reset(&mut self)
        ensures
            final(self).model() == Self::cleared(old(self).model()),
    ;

    /// Returns the start level of the layer.
    ///
    /// A level is a "sublayer" index inside of a layer. Two layers can be merged if they
    /// have the same bounds, and the end level of the first is lower or equal than the start
    /// level of the second.
    fn start(&self) -> (level: usize)
        ensures
            level == Self::start_of(self.model()),
    ;

    /// Returns the end level of the layer.
    fn end(&self) -> (level: usize)
        ensures
            level == Self::end_of(self.model()),
    ;

    /// Merges a layer with the current one.
    fn merge(&mut self, layer: &mut Self)
        ensures
            final(self).model() == Self::merged(old(self).model(), old(layer).model()),
            final(layer).model() == Self::drained(old(self).model(), old(layer).model()),
    ;

    /// Returns whether two regions are the same.
    fn same_bounds(a: Self::Bounds, b: Self::Bounds) -> (same: bool)
        ensures
            same == Self::agree(a, b),
    ;
}

/// What a [`Stack`] holds: all layers, those in use first, the transformations, and the
/// open clipping path.
#[verifier::ext_equal]
pub ghost struct Drawing<L, X> {
    pub layers: Seq<L>,
    pub transformations: Seq<X>,
    pub previous: Seq<int>,
    pub current: int,
    pub active: int,
}

impl<L, X> Drawing<L, X> {
    /// The open clipping path: the layers that are still recorded into, outermost first.
    pub open spec fn path(self) -> Seq<int> {
        self.previous.push(self.current)
    }

    /// The layers in use.
    pub open spec fn drawn(self) -> Seq<L> {
        self.layers.take(self.active)
    }

    /// The current transformation.
    pub open spec fn transformation(self) -> X {
        self.transformations.last()
    }

    /// The path descends through layers in use, and there is a transformation.
    pub open spec fn wf(self) -> bool {
        &&& 0 <= self.current < self.active <= self.layers.len()
        &&& self.transformations.len() > 0
        &&& forall|i: int| 0 <= i < self.path().len() ==> 0 <= #[trigger] self.path()[i]
        &&& forall|i: int, j: int|
            0 <= i < j < self.path().len() ==> #[trigger] self.path()[i] < #[trigger] self.path()[j]
    }
}

/// A stack of layers used for drawing.
///
/// `X` is the type of transformations.
#[derive(Debug)]
pub struct Stack<T: Layer, X: Copy> {
    layers: Vec<T>,
    transformations: Vec<X>,
    previous: Vec<usize>,
    current: usize,
    active_count: usize,
}

/// What a list of layers holds.
pub open spec fn models<T: Layer>(layers: Seq<T>) -> Seq<T::Model> {
    layers.map_values(|layer: T| layer.model())
}

impl<T: Layer, X: Copy> View for Stack<T, X> {
    type V = Drawing<T::Model, X>;

    closed spec fn view(&self) -> Drawing<T::Model, X> {
        Drawing {
            layers: models(self.layers@),
            transformations: self.transformations@,
            previous: self.previous@.map_values(|index: usize| index as int),
            current: self.current as int,
            active: self.active_count as int,
        }
    }
}

/// The layers with those on the path flushed.
pub open spec fn settled<T: Layer>(layers: Seq<T::Model>, path: Seq<int>) -> Seq<T::Model> {
    Seq::new(
        layers.len(),
        |i: int|
            if path.contains(i) {
                T::flushed(layers[i])
            } else {
                layers[i]
            },
    )
}

impl<T: Layer, X: Copy> Stack<T, X> {
    /// Creates a new empty stack.
    pub fn new(identity: X) -> (stack: Self)
        ensures
            stack@.wf(),
            stack@ == (Drawing::<T::Model, X> {
                layers: seq![T::blank()],
                transformations: seq![identity],
                previous: Seq::empty(),
                current: 0,
                active: 1,
            }),
    {
        let mut layers: Vec<T> = Vec::new();
        layers.push(T::empty());
        let mut transformations: Vec<X> = Vec::new();
        transformations.push(identity);
        let stack = Stack {
            layers,
            transformations,
            previous: Vec::new(),
            current: 0,
            active_count: 1,
        };
        assert(stack@.layers =~= seq![T::blank()]);
        assert(stack@.transformations =~= seq![identity]);
        assert(stack@.previous =~= Seq::<int>::empty());
        stack
    }

    /// Returns a mutable reference to the current layer of the stack, together with the
    /// current transformation.
    pub fn current_mut(&mut self) -> ((layer, transformation): (&mut T, X))
        requires
            old(self)@.wf(),
        ensures
            layer.model() == old(self)@.layers[old(self)@.current],
            transformation == old(self)@.transformation(),
            final(self)@ == (Drawing {
                layers: old(self)@.layers.update(old(self)@.current, final(layer).model()),
                ..old(self)@
            }),
    {
        let transformation = self.transformation();
        let current: usize = self.current;
        (&mut self.layers[current], transformation)
    }

    /// Returns the current transformation of the stack.
    pub fn transformation(&self) -> (transformation: X)
        requires
            self@.wf(),
        ensures
            transformation == self@.transformation(),
    {
        self.transformations[self.transformations.len() - 1]
    }

    /// Pushes a new clipping region in the stack, creating a new layer in the process.
    ///
    /// `transform` applies the current transformation to the bounds.
    pub fn push_clip<F: Fn(T::Bounds, X) -> T::Bounds>(&mut self, bounds: T::Bounds, transform: &F)
        requires
            old(self)@.wf(),
            old(self)@.active < usize::MAX,
            call_requires(*transform, (bounds, old(self)@.transformation())),
        ensures
            final(self)@.wf(),
            exists|transformed: T::Bounds| #[trigger]
                call_ensures(*transform, (bounds, old(self)@.transformation()), transformed)
                    && final(self)@ == clipped::<T, X>(old(self)@, transformed),
    {
        let ghost before = self@;
        self.previous.push(self.current);
        self.current = self.active_count;
        self.active_count = self.active_count + 1;

        let transformation = self.transformations[self.transformations.len() - 1];
        let transformed = transform(bounds, transformation);
        let current: usize = self.current;
        if current == self.layers.len() {
            self.layers.push(T::with_bounds(transformed));
        } else {
            self.layers[current].resize(transformed);
        }
        proof {
            let after = clipped::<T, X>(before, transformed);
            assert(self@.layers =~= after.layers);
            assert(self@.previous =~= after.previous);
            assert forall|i: int, j: int| 0 <= i < j < self@.path().len() implies #[trigger]
                self@.path()[i] < #[trigger] self@.path()[j] by {
                assert(self@.path()[i] == before.path()[i]);
                assert(before.path()[i] <= before.current) by {
                    if i < before.path().len() - 1 {
                        assert(before.path()[i] < before.path()[before.path().len() - 1]);
                    }
                }
                if j < before.path().len() {
                    assert(self@.path()[j] == before.path()[j]);
                }
            }
            assert forall|i: int| 0 <= i < self@.path().len() implies 0
                <= #[trigger] self@.path()[i] by {
                if i < before.path().len() {
                    assert(self@.path()[i] == before.path()[i]);
                }
            }
            assert(call_ensures(*transform, (bounds, before.transformation()), transformed));
        }
    }

    /// Pops the current clipping region from the stack and restores the previous one.
    ///
    /// The current layer will be recorded for drawing.
    pub fn pop_clip(&mut self)
        requires
            old(self)@.wf(),
            old(self)@.previous.len() > 0,
        ensures
            final(self)@.wf(),
            final(self)@ == unclipped::<T, X>(old(self)@),
    {
        let ghost before = self@;
        self.flush_current();
        self.current = self.previous.pop().unwrap();
        proof {
            let after = unclipped::<T, X>(before);
            assert(self@.previous =~= after.previous);
            assert(before.path().drop_last() =~= before.previous);
            assert(self@.path() =~= before.previous);
            assert forall|i: int| 0 <= i < self@.path().len() implies #[trigger] self@.path()[i]
                == before.path()[i] by {
            }
            assert(before.path()[before.path().len() - 2] < before.path()[before.path().len()
                - 1]);
        }
    }

    /// Pushes a new transformation in the stack.
    ///
    /// Future drawing operations will be affected by it until it is popped. `compose` applies
    /// the current transformation to the new one.
    pub fn push_transformation<F: Fn(X, X) -> X>(&mut self, transformation: X, compose: &F)
        requires
            old(self)@.wf(),
            call_requires(*compose, (old(self)@.transformation(), transformation)),
        ensures
            final(self)@.wf(),
            exists|composed: X| #[trigger]
                call_ensures(*compose, (old(self)@.transformation(), transformation), composed)
                    && final(self)@ == (Drawing {
                    transformations: old(self)@.transformations.push(composed),
                    ..old(self)@
                }),
    {
        let composed = compose(self.transformation(), transformation);
        self.transformations.push(composed);
        assert(self@.path() =~= old(self)@.path());
        assert(call_ensures(*compose, (old(self)@.transformation(), transformation), composed));
    }

    /// Pops the current transformation in the stack.
    pub fn pop_transformation(&mut self)
        requires
            old(self)@.wf(),
            old(self)@.transformations.len() > 1,
        ensures
            final(self)@.wf(),
            final(self)@ == (Drawing {
                transformations: old(self)@.transformations.drop_last(),
                ..old(self)@
            }),
    {
        let _ = self.transformations.pop();
        assert(self@.path() =~= old(self)@.path());
    }

    /// Returns the slice of layers in the stack.
    pub fn as_slice(&self) -> (layers: &[T])
        requires
            self@.wf(),
        ensures
            models(layers@) == self@.drawn(),
    {
        let layers = vstd::slice::slice_subrange(self.layers.as_slice(), 0, self.active_count);
        assert(models(layers@) =~= self@.drawn());
        layers
    }

    /// Flushes and settles any primitives in every layer on the open clipping path.
    ///
    /// Layers that have already been popped are settled by [`Stack::pop_clip`].
    pub fn flush(&mut self)
        requires
            old(self)@.wf(),
        ensures
            final(self)@.wf(),
            final(self)@ == (Drawing {
                layers: settled::<T>(old(self)@.layers, old(self)@.path()),
                ..old(self)@
            }),
    {
        let ghost before = self@;
        let ghost path = before.path();
        let ghost held = *self;
        let mut index: usize = 0;
        assert(self@.layers =~= settled::<T>(before.layers, path.take(0)));
        while index < self.previous.len()
            invariant
                before.wf(),
                path == before.path(),
                index <= self.previous@.len(),
                self.previous == held.previous,
                self.transformations == held.transformations,
                self.current == held.current,
                self.active_count == held.active_count,
                self.layers@.len() == held.layers@.len(),
                before == held@,
                models(self.layers@) == settled::<T>(before.layers, path.take(index as int)),
            decreases self.previous@.len() - index,
        {
            let at: usize = self.previous[index];
            proof {
                assert(path[index as int] == before.previous[index as int]);
                assert(path[index as int] < path[path.len() - 1]);
                lemma_settle_next::<T>(before.layers, path, index as int);
            }
            let ghost earlier = self.layers@;
            self.layers[at].flush();
            assert(models(self.layers@) =~= models(earlier).update(
                at as int,
                T::flushed(models(earlier)[at as int]),
            ));
            index = index + 1;
        }
        proof {
            assert(path[path.len() - 1] == before.current);
            lemma_settle_next::<T>(before.layers, path, path.len() - 1);
            assert(path.take(path.len() as int) =~= path);
        }
        self.flush_current();
    }

    /// Flushes only the current layer when it is about to be closed.
    fn flush_current(&mut self)
        requires
            old(self)@.current < old(self)@.layers.len(),
        ensures
            final(self)@ == (Drawing {
                layers: old(self)@.layers.update(
                    old(self)@.current,
                    T::flushed(old(self)@.layers[old(self)@.current]),
                ),
                ..old(self)@
            }),
            final(self).previous == old(self).previous,
            final(self).transformations == old(self).transformations,
    {
        let current: usize = self.current;
        self.layers[current].flush();
        assert(self@.layers =~= old(self)@.layers.update(
            old(self)@.current,
            T::flushed(old(self)@.layers[old(self)@.current]),
        ));
    }

    /// Splits the recorded layers at an ordering barrier.
    ///
    /// The returned stack contains everything recorded before the split. The current stack
    /// is replaced with an empty one that preserves the active clipping and transformation
    /// state, so that matching pops remain valid after the barrier. All layers in the open
    /// clipping path are flushed before the recorded prefix is returned.
    pub fn split(&mut self) -> (recorded: Self)
        requires
            old(self)@.wf(),
        ensures
            recorded@.wf(),
            final(self)@.wf(),
            recorded@ == (Drawing {
                layers: settled::<T>(old(self)@.layers, old(self)@.path()),
                ..old(self)@
            }),
            final(self)@ == continued::<T, X>(recorded@),
    {
        self.flush();
        let ghost flushed = self@;
        let ghost path = flushed.path();

        proof {
            lemma_path_depth(path, path.len() - 1);
        }
        let open_depth: usize = self.previous.len();
        let mut layers: Vec<T> = Vec::new();
        let mut previous: Vec<usize> = Vec::new();
        let mut index: usize = 0;
        while index < open_depth
            invariant
                flushed == self@,
                flushed.wf(),
                path == flushed.path(),
                open_depth == self.previous@.len(),
                index <= open_depth,
                layers@.len() == index,
                previous@.len() == index,
                forall|i: int|
                    0 <= i < index ==> (#[trigger] layers@[i]).model() == T::fresh(
                        T::bounds_of(flushed.layers[path[i]]),
                    ),
                forall|i: int| 0 <= i < index ==> #[trigger] previous@[i] == i,
            decreases open_depth - index,
        {
            let at: usize = self.previous[index];
            assert(path[index as int] == at);
            assert(path[index as int] < path[path.len() - 1]);
            assert(flushed.layers[at as int] == self.layers@[at as int].model());
            let bounds = self.layers[at].bounds();
            layers.push(T::with_bounds(bounds));
            previous.push(index);
            index = index + 1;
        }
        let current: usize = self.current;
        assert(flushed.layers[current as int] == self.layers@[current as int].model());
        let bounds = self.layers[current].bounds();
        layers.push(T::with_bounds(bounds));

        let mut transformations: Vec<X> = Vec::new();
        let mut copied: usize = 0;
        while copied < self.transformations.len()
            invariant
                copied <= self.transformations@.len(),
                transformations@ == self.transformations@.take(copied as int),
            decreases self.transformations@.len() - copied,
        {
            transformations.push(self.transformations[copied]);
            copied = copied + 1;
            assert(transformations@ =~= self.transformations@.take(copied as int));
        }

        let mut recorded = Stack {
            layers,
            transformations,
            previous,
            current: open_depth,
            active_count: open_depth + 1,
        };
        std::mem::swap(self, &mut recorded);
        proof {
            let after = continued::<T, X>(flushed);
            assert(self@.layers =~= after.layers);
            assert(self@.transformations =~= after.transformations);
            assert(self@.previous =~= after.previous);
        }
        recorded
    }

    /// Clears the layers of the stack, allowing reuse.
    ///
    /// It resizes the base layer bounds to the `new_bounds`. Layer allocations are kept for
    /// future drawing operations.
    pub fn reset(&mut self, new_bounds: T::Bounds)
        requires
            old(self)@.wf(),
        ensures
            final(self)@.wf(),
            final(self)@ == emptied::<T, X>(old(self)@, new_bounds),
    {
        let ghost before = self@;
        let ghost held = *self;
        let mut index: usize = 0;
        while index < self.active_count
            invariant
                before == held@,
                before.wf(),
                index <= self.active_count,
                self.transformations == held.transformations,
                self.active_count == held.active_count,
                self.layers@.len() == held.layers@.len(),
                forall|i: int|
                    0 <= i < self.layers@.len() ==> (#[trigger] self.layers@[i]).model() == (if i
                        < index {
                        T::cleared(before.layers[i])
                    } else {
                        before.layers[i]
                    }),
            decreases self.active_count - index,
        {
            self.layers[index].reset();
            index = index + 1;
        }
        self.layers[0].resize(new_bounds);
        self.current = 0;
        self.active_count = 1;
        self.previous.clear();
        proof {
            let after = emptied::<T, X>(before, new_bounds);
            assert(self@.layers =~= after.layers);
            assert(self@.previous =~= after.previous);
        }
    }
}

/// The stack after a clipping region was pushed.
pub open spec fn clipped<T: Layer, X>(
    before: Drawing<T::Model, X>,
    bounds: T::Bounds,
) -> Drawing<T::Model, X> {
    Drawing {
        layers: if before.active == before.layers.len() {
            before.layers.push(T::fresh(bounds))
        } else {
            before.layers.update(before.active, T::resized(before.layers[before.active], bounds))
        },
        transformations: before.transformations,
        previous: before.previous.push(before.current),
        current: before.active,
        active: before.active + 1,
    }
}

/// The stack after a clipping region was popped.
pub open spec fn unclipped<T: Layer, X>(before: Drawing<T::Model, X>) -> Drawing<T::Model, X> {
    Drawing {
        layers: before.layers.update(
            before.current,
            T::flushed(before.layers[before.current]),
        ),
        previous: before.previous.drop_last(),
        current: before.previous.last(),
        ..before
    }
}

/// The empty stack that continues the open clipping path of another.
pub open spec fn continued<T: Layer, X>(before: Drawing<T::Model, X>) -> Drawing<T::Model, X> {
    let depth = before.previous.len();
    Drawing {
        layers: before.path().map_values(
            |index: int| T::fresh(T::bounds_of(before.layers[index])),
        ),
        transformations: before.transformations,
        previous: Seq::new(depth, |i: int| i),
        current: depth as int,
        active: depth as int + 1,
    }
}

/// The stack after a reset.
pub open spec fn emptied<T: Layer, X>(
    before: Drawing<T::Model, X>,
    bounds: T::Bounds,
) -> Drawing<T::Model, X> {
    let layers = Seq::new(
        before.layers.len(),
        |i: int|
            if i < before.active {
                T::cleared(before.layers[i])
            } else {
                before.layers[i]
            },
    );
    Drawing {
        layers: layers.update(0, T::resized(layers[0], bounds)),
        transformations: before.transformations,
        previous: Seq::empty(),
        current: 0,
        active: 1,
    }
}

proof fn lemma_path_depth(path: Seq<int>, i: int)
    requires
        0 <= i < path.len(),
        0 <= path[0],
        forall|j: int, k: int|
            0 <= j < k < path.len() ==> #[trigger] path[j] < #[trigger] path[k],
    ensures
        i <= path[i],
    decreases i,
{
    if i > 0 {
        lemma_path_depth(path, i - 1);
        assert(path[i - 1] < path[i]);
    }
}

proof fn lemma_settle_next<T: Layer>(layers: Seq<T::Model>, path: Seq<int>, i: int)
    requires
        0 <= i < path.len(),
        0 <= path[i] < layers.len(),
        forall|j: int, k: int|
            0 <= j < k < path.len() ==> #[trigger] path[j] < #[trigger] path[k],
    ensures
        settled::<T>(layers, path.take(i))[path[i]] == layers[path[i]],
        settled::<T>(layers, path.take(i + 1)) == settled::<T>(layers, path.take(i)).update(
            path[i],
            T::flushed(layers[path[i]]),
        ),
{
    let shorter = path.take(i);
    let longer = path.take(i + 1);
    assert(!shorter.contains(path[i])) by {
        if shorter.contains(path[i]) {
            let j = choose|j: int| 0 <= j < shorter.len() && shorter[j] == path[i];
            assert(path[j] < path[i]);
        }
    }
    assert forall|at: int| longer.contains(at) <==> (shorter.contains(at) || at == path[i]) by {
        if shorter.contains(at) {
            let j = choose|j: int| 0 <= j < shorter.len() && shorter[j] == at;
            assert(longer[j] == at);
        }
        if at == path[i] {
            assert(longer[i] == at);
        }
        if longer.contains(at) {
            let j = choose|j: int| 0 <= j < longer.len() && longer[j] == at;
            if j < i {
                assert(shorter[j] == at);
            }
        }
    }
    assert(settled::<T>(layers, longer) =~= settled::<T>(layers, shorter).update(
        path[i],
        T::flushed(layers[path[i]]),
    ));
}

/// The lowest layer into which the layers above it merge, and where the scan stopped.
pub ghost struct Scan {
    pub target: int,
    pub stop: int,
}

/// Scans downwards from `at` for a contiguous block of layers that merge into one, where
/// `target` is the lowest one found so far.
///
/// Empty layers are skipped. The scan stops at a layer whose levels overlap with the target
/// or whose bounds differ.
pub open spec fn scanned<T: Layer>(layers: Seq<T::Model>, at: int, target: int) -> Scan
    decreases at,
{
    if at <= 0 {
        Scan { target, stop: 0 }
    } else {
        let candidate = layers[at - 1];
        if T::end_of(candidate) == 0 {
            scanned::<T>(layers, at - 1, target)
        } else if T::end_of(candidate) > T::start_of(layers[target]) || !T::agree(
            T::bounds_of(candidate),
            T::bounds_of(layers[target]),
        ) {
            Scan { target, stop: at - 1 }
        } else {
            scanned::<T>(layers, at - 1, at - 1)
        }
    }
}

/// What is left of a layer and those above it once it has taken the primitives of the first
/// `count` of them, from the lowest up.
pub open spec fn absorbed<T: Layer>(layer: T::Model, above: Seq<T::Model>, count: int) -> (
    T::Model,
    Seq<T::Model>,
)
    decreases count,
{
    if count <= 0 {
        (layer, above)
    } else {
        let (taken, rest) = absorbed::<T>(layer, above, count - 1);
        (
            T::merged(taken, rest[count - 1]),
            rest.update(count - 1, T::drained(taken, rest[count - 1])),
        )
    }
}

/// The layers once `target` has taken the primitives of those above it and below `left`.
pub open spec fn collapsed<T: Layer>(layers: Seq<T::Model>, target: int, left: int) -> Seq<
    T::Model,
> {
    let (layer, above) = absorbed::<T>(
        layers[target],
        layers.skip(target + 1),
        left - target - 1,
    );
    layers.take(target).push(layer) + above
}

/// The layers once every block of the lowest `left` ones has merged, from the top down.
pub open spec fn combined<T: Layer>(layers: Seq<T::Model>, left: int) -> Seq<T::Model>
    decreases left,
{
    if left <= 1 {
        layers
    } else {
        proof {
            scans_descend::<T>(layers, left - 1, left - 1);
        }
        let scan = scanned::<T>(layers, left - 1, left - 1);
        combined::<T>(collapsed::<T>(layers, scan.target, left), scan.stop)
    }
}

/// A scan stops below where it starts, and its target lies in between.
pub proof fn scans_descend<T: Layer>(layers: Seq<T::Model>, at: int, target: int)
    requires
        0 <= at <= target,
    ensures
        0 <= scanned::<T>(layers, at, target).stop <= at,
        scanned::<T>(layers, at, target).stop <= scanned::<T>(layers, at, target).target <= target,
        at > 0 ==> scanned::<T>(layers, at, target).stop < at,
    decreases at,
{
    if at > 0 {
        scans_descend::<T>(layers, at - 1, target);
        scans_descend::<T>(layers, at - 1, at - 1);
    }
}

fn absorb_all<T: Layer>(layer: &mut T, above: &mut [T], count: usize)
    requires
        count <= old(above)@.len(),
    ensures
        final(above)@.len() == old(above)@.len(),
        (final(layer).model(), models(final(above)@)) == absorbed::<T>(
            old(layer).model(),
            models(old(above)@),
            count as int,
        ),
{
    let mut index: usize = 0;
    while index < count
        invariant
            index <= count <= above@.len(),
            above@.len() == old(above)@.len(),
            (layer.model(), models(above@)) == absorbed::<T>(
                old(layer).model(),
                models(old(above)@),
                index as int,
            ),
        decreases count - index,
    {
        let ghost before = above@;
        let ghost held = layer.model();
        layer.merge(&mut above[index]);
        assert(models(above@) =~= models(before).update(
            index as int,
            T::drained(held, models(before)[index as int]),
        ));
        index = index + 1;
    }
}

impl<T: Layer, X: Copy> Stack<T, X> {
    /// Performs layer merging wherever possible.
    ///
    /// Flushes and settles any primitives in the stack.
    pub fn merge(&mut self)
        requires
            old(self)@.wf(),
        ensures
            final(self)@.wf(),
            final(self)@ == (Drawing {
                layers: combined::<T>(
                    settled::<T>(old(self)@.layers, old(self)@.path()),
                    old(self)@.active,
                ),
                ..old(self)@
            }),
    {
        self.flush();
        let ghost flushed = self@;
        let ghost held = *self;

        let mut left: usize = self.active_count;
        while left > 1
            invariant
                flushed.wf(),
                flushed == held@,
                left <= self.active_count,
                self.previous == held.previous,
                self.transformations == held.transformations,
                self.current == held.current,
                self.active_count == held.active_count,
                self.layers@.len() == held.layers@.len(),
                combined::<T>(models(self.layers@), left as int) == combined::<T>(
                    flushed.layers,
                    flushed.active,
                ),
            decreases left,
        {
            let ghost layers = models(self.layers@);
            let mut current: usize = left - 1;
            let mut target_index: usize = current;
            let mut target_start: usize = self.layers[current].start();
            let ghost scan = scanned::<T>(layers, left - 1, left - 1);
            proof {
                scans_descend::<T>(layers, left - 1, left - 1);
            }
            while current > 0
                invariant_except_break
                    scanned::<T>(layers, current as int, target_index as int) == scan,
                invariant
                    layers == models(self.layers@),
                    current <= target_index < left <= self.layers@.len(),
                    target_start == T::start_of(layers[target_index as int]),
                ensures
                    scan.stop == current,
                    scan.target == target_index,
                decreases current,
            {
                current = current - 1;
                assert(layers[current as int] == self.layers@[current as int].model());
                assert(layers[target_index as int] == self.layers@[target_index as int].model());
                let start: usize = self.layers[current].start();
                let end: usize = self.layers[current].end();
                if end == 0 {
                    continue ;
                }
                if end > target_start || !T::same_bounds(
                    self.layers[current].bounds(),
                    self.layers[target_index].bounds(),
                ) {
                    break ;
                }
                target_start = start;
                target_index = current;
            }
            let ghost count = left - target_index - 1;
            let length: usize = self.layers.len();
            assert(length == layers.len());
            let (head, tail) = self.layers.as_mut_slice().split_at_mut(target_index + 1);
            assert(models(tail@) =~= layers.skip(target_index + 1));
            assert(head@[target_index as int].model() == layers[target_index as int]);
            let ghost head_before = head@;
            absorb_all(&mut head[target_index], tail, left - target_index - 1);
            proof {
                assert(models(self.layers@) =~= collapsed::<T>(
                    layers,
                    target_index as int,
                    left as int,
                ));
            }
            left = current;
        }
    }
}

/// Whether nothing lies between two layers but empty ones, and the lower one can take the
/// primitives of the upper one.
pub open spec fn mergeable<T: Layer>(layers: Seq<T::Model>, lower: int, upper: int) -> bool {
    &&& lower < upper
    &&& forall|i: int| lower < i < upper ==> T::end_of(#[trigger] layers[i]) == 0
    &&& T::end_of(layers[lower]) <= T::start_of(layers[upper])
    &&& T::agree(T::bounds_of(layers[lower]), T::bounds_of(layers[upper]))
}

/// Only layers with the same bounds merge, and only if the lower one ends before the upper
/// one starts.
pub proof fn only_compatible_layers_merge<T: Layer>(
    layers: Seq<T::Model>,
    at: int,
    target: int,
    lower: int,
)
    requires
        0 <= at <= target,
        forall|i: int| at <= i < target ==> T::end_of(#[trigger] layers[i]) == 0,
        scanned::<T>(layers, at, target).target <= lower < target,
        T::end_of(layers[lower]) > 0,
    ensures
        exists|upper: int| upper <= target && #[trigger] mergeable::<T>(layers, lower, upper),
    decreases at,
{
    scans_descend::<T>(layers, at, target);
    if at > 0 {
        let candidate = layers[at - 1];
        if T::end_of(candidate) == 0 {
            only_compatible_layers_merge::<T>(layers, at - 1, target, lower);
        } else if T::end_of(candidate) > T::start_of(layers[target]) || !T::agree(
            T::bounds_of(candidate),
            T::bounds_of(layers[target]),
        ) {
        } else {
            scans_descend::<T>(layers, at - 1, at - 1);
            if lower < at - 1 {
                only_compatible_layers_merge::<T>(layers, at - 1, at - 1, lower);
                let upper = choose|upper: int|
                    upper <= at - 1 && #[trigger] mergeable::<T>(layers, lower, upper);
                assert(mergeable::<T>(layers, lower, upper));
            } else {
                if lower > at - 1 {
                    assert(T::end_of(layers[lower]) == 0);
                }
                assert(mergeable::<T>(layers, lower, target));
            }
        }
    }
}

proof fn lemma_absorbed_length<T: Layer>(layer: T::Model, above: Seq<T::Model>, count: int)
    requires
        count <= above.len(),
    ensures
        absorbed::<T>(layer, above, count).1.len() == above.len(),
    decreases count,
{
    if count > 0 {
        lemma_absorbed_length::<T>(layer, above, count - 1);
    }
}

/// Merging keeps the number of layers.
pub proof fn merging_keeps_the_layer_count<T: Layer>(layers: Seq<T::Model>, left: int)
    requires
        left <= layers.len(),
    ensures
        combined::<T>(layers, left).len() == layers.len(),
    decreases left,
{
    if left > 1 {
        let scan = scanned::<T>(layers, left - 1, left - 1);
        scans_descend::<T>(layers, left - 1, left - 1);
        lemma_absorbed_length::<T>(
            layers[scan.target],
            layers.skip(scan.target + 1),
            left - scan.target - 1,
        );
        merging_keeps_the_layer_count::<T>(
            collapsed::<T>(layers, scan.target, left),
            scan.stop,
        );
    }
}

/// Popping a clipping region restores the path and the transformations from before the push,
/// and leaves every other layer as it was.
pub proof fn pop_clip_undoes_push_clip<T: Layer, X>(
    before: Drawing<T::Model, X>,
    bounds: T::Bounds,
)
    requires
        before.wf(),
    ensures
        ({
            let after = unclipped::<T, X>(clipped::<T, X>(before, bounds));
            &&& after.path() == before.path()
            &&& after.transformations == before.transformations
            &&& after.active == before.active + 1
            &&& after.drawn().drop_last() == before.drawn()
        }),
{
    let after = unclipped::<T, X>(clipped::<T, X>(before, bounds));
    assert(after.previous =~= before.previous);
    assert(after.drawn().drop_last() =~= before.drawn());
}

/// Whether two stacks clip and transform alike: their open paths have the same bounds, layer
/// by layer, and their transformations are the same.
pub open spec fn same_open_path<T: Layer, X>(
    a: Drawing<T::Model, X>,
    b: Drawing<T::Model, X>,
) -> bool {
    &&& a.wf()
    &&& b.wf()
    &&& a.transformations == b.transformations
    &&& a.path().len() == b.path().len()
    &&& forall|i: int|
        #![trigger a.path()[i]]
        #![trigger b.path()[i]]
        0 <= i < a.path().len() ==> T::bounds_of(a.layers[a.path()[i]]) == T::bounds_of(
            b.layers[b.path()[i]],
        )
}

proof fn lemma_path_in_use<L, X>(stack: Drawing<L, X>, i: int)
    requires
        stack.wf(),
        0 <= i < stack.path().len(),
    ensures
        0 <= stack.path()[i] <= stack.current,
        stack.path()[stack.path().len() - 1] == stack.current,
        i < stack.path().len() - 1 ==> stack.path()[i] < stack.current,
{
    if i < stack.path().len() - 1 {
        assert(stack.path()[i] < stack.path()[stack.path().len() - 1]);
    }
}

/// A split keeps the open path, its bounds and the transformations. What it leaves behind has
/// one layer for each layer of the path, with nothing recorded, and what it returns has all
/// layers from before, with those of the path flushed.
pub proof fn split_keeps_the_open_path<T: Layer, X>(before: Drawing<T::Model, X>)
    requires
        before.wf(),
    ensures
        ({
            let recorded = Drawing {
                layers: settled::<T>(before.layers, before.path()),
                ..before
            };
            let after = continued::<T, X>(recorded);
            &&& same_open_path::<T, X>(before, after)
            &&& after.previous.len() == before.previous.len()
            &&& after.layers.len() == before.path().len()
            &&& after.drawn() == after.layers
            &&& forall|i: int|
                0 <= i < after.layers.len() ==> after.path()[i] == i
                    && #[trigger] after.layers[i] == T::fresh(
                    T::bounds_of(before.layers[before.path()[i]]),
                ) && T::end_of(after.layers[i]) == 0
            &&& recorded.layers.len() == before.layers.len()
            &&& forall|i: int|
                0 <= i < before.layers.len() ==> #[trigger] recorded.layers[i] == (
                if before.path().contains(i) {
                    T::flushed(before.layers[i])
                } else {
                    before.layers[i]
                })
        }),
{
    let recorded = Drawing { layers: settled::<T>(before.layers, before.path()), ..before };
    let after = continued::<T, X>(recorded);
    assert(recorded.path() =~= before.path());
    assert(after.drawn() =~= after.layers);
    assert forall|i: int| 0 <= i < after.layers.len() implies after.path()[i] == i
        && #[trigger] after.layers[i] == T::fresh(T::bounds_of(before.layers[before.path()[i]]))
        && T::end_of(after.layers[i]) == 0 by {
        let model = before.layers[before.path()[i]];
        lemma_path_in_use(before, i);
        assert(before.path().contains(before.path()[i]));
        T::only_resizing_sets_bounds(model, T::bounds_of(model));
        T::new_layers_are_bare(T::bounds_of(model));
    }
    assert forall|i: int|
        #![trigger before.path()[i]]
        #![trigger after.path()[i]]
        0 <= i < before.path().len() implies T::bounds_of(before.layers[before.path()[i]])
        == T::bounds_of(after.layers[after.path()[i]]) by {
        assert(after.layers[i] == T::fresh(T::bounds_of(before.layers[before.path()[i]])));
        T::new_layers_are_bare(T::bounds_of(before.layers[before.path()[i]]));
    }
}

/// Stacks that clip and transform alike still do so after each of them has popped a clipping
/// region. A stack that was split therefore goes back to the same bounds as one that was not.
pub proof fn popping_clips_alike<T: Layer, X>(a: Drawing<T::Model, X>, b: Drawing<T::Model, X>)
    requires
        same_open_path::<T, X>(a, b),
        a.previous.len() > 0,
    ensures
        same_open_path::<T, X>(unclipped::<T, X>(a), unclipped::<T, X>(b)),
{
    lemma_unclipped_path::<T, X>(a);
    lemma_unclipped_path::<T, X>(b);
    let (x, y) = (unclipped::<T, X>(a), unclipped::<T, X>(b));
    assert forall|i: int|
        #![trigger x.path()[i]]
        #![trigger y.path()[i]]
        0 <= i < x.path().len() implies T::bounds_of(x.layers[x.path()[i]]) == T::bounds_of(
        y.layers[y.path()[i]],
    ) by {
        assert(x.path()[i] == a.path()[i]);
        assert(y.path()[i] == b.path()[i]);
        lemma_path_in_use(a, i);
        lemma_path_in_use(b, i);
    }
}

proof fn lemma_unclipped_path<T: Layer, X>(before: Drawing<T::Model, X>)
    requires
        before.wf(),
        before.previous.len() > 0,
    ensures
        unclipped::<T, X>(before).wf(),
        unclipped::<T, X>(before).path() == before.path().drop_last(),
{
    let after = unclipped::<T, X>(before);
    assert(before.path().drop_last() =~= before.previous);
    assert(after.path() =~= before.previous);
    lemma_path_in_use(before, before.path().len() - 2);
    assert forall|i: int| 0 <= i < after.path().len() implies #[trigger] after.path()[i]
        == before.path()[i] by {
    }
}

/// Stacks that clip and transform alike still do so after each of them has popped a
/// transformation, and transform by the same one.
pub proof fn popping_transforms_alike<T: Layer, X>(
    a: Drawing<T::Model, X>,
    b: Drawing<T::Model, X>,
)
    requires
        same_open_path::<T, X>(a, b),
        a.transformations.len() > 1,
    ensures
        ({
            let x = Drawing { transformations: a.transformations.drop_last(), ..a };
            let y = Drawing { transformations: b.transformations.drop_last(), ..b };
            &&& same_open_path::<T, X>(x, y)
            &&& x.transformation() == y.transformation()
        }),
{
    let x = Drawing { transformations: a.transformations.drop_last(), ..a };
    let y = Drawing { transformations: b.transformations.drop_last(), ..b };
    assert(x.path() == a.path());
    assert(y.path() == b.path());
}

/// Stacks that clip and transform alike still do so after the same clipping region was pushed
/// on each of them.
pub proof fn pushing_clips_alike<T: Layer, X>(
    a: Drawing<T::Model, X>,
    b: Drawing<T::Model, X>,
    bounds: T::Bounds,
)
    requires
        same_open_path::<T, X>(a, b),
    ensures
        same_open_path::<T, X>(clipped::<T, X>(a, bounds), clipped::<T, X>(b, bounds)),
{
    lemma_clipped_path::<T, X>(a, bounds);
    lemma_clipped_path::<T, X>(b, bounds);
    let (x, y) = (clipped::<T, X>(a, bounds), clipped::<T, X>(b, bounds));
    assert forall|i: int|
        #![trigger x.path()[i]]
        #![trigger y.path()[i]]
        0 <= i < x.path().len() implies T::bounds_of(x.layers[x.path()[i]]) == T::bounds_of(
        y.layers[y.path()[i]],
    ) by {
        if i < a.path().len() {
            assert(x.path()[i] == a.path()[i]);
            assert(y.path()[i] == b.path()[i]);
            lemma_path_in_use(a, i);
            lemma_path_in_use(b, i);
        }
    }
}

proof fn lemma_clipped_path<T: Layer, X>(before: Drawing<T::Model, X>, bounds: T::Bounds)
    requires
        before.wf(),
    ensures
        clipped::<T, X>(before, bounds).wf(),
        clipped::<T, X>(before, bounds).path() == before.path().push(before.active),
        T::bounds_of(clipped::<T, X>(before, bounds).layers[before.active]) == bounds,
{
    let after = clipped::<T, X>(before, bounds);
    assert(after.path() =~= before.path().push(before.active));
    T::new_layers_are_bare(bounds);
    T::only_resizing_sets_bounds(before.layers[before.active], bounds);
    assert forall|i: int, j: int| 0 <= i < j < after.path().len() implies #[trigger] after.path()[i]
        < #[trigger] after.path()[j] by {
        assert(after.path()[i] == before.path()[i]);
        lemma_path_in_use(before, i);
        if j < before.path().len() {
            assert(after.path()[j] == before.path()[j]);
        }
    }
    assert forall|i: int| 0 <= i < after.path().len() implies 0 <= #[trigger] after.path()[i] by {
        if i < before.path().len() {
            assert(after.path()[i] == before.path()[i]);
        }
    }
}

/// A new clipping region is drawn into a layer of its own, with the region as its bounds and
/// behind all layers in use, which stay as they are.
pub proof fn pushing_opens_a_layer_of_its_own<T: Layer, X>(
    before: Drawing<T::Model, X>,
    bounds: T::Bounds,
)
    requires
        before.wf(),
    ensures
        ({
            let after = clipped::<T, X>(before, bounds);
            &&& after.wf()
            &&& after.active == before.active + 1
            &&& after.current == before.active
            &&& after.path().drop_last() == before.path()
            &&& T::bounds_of(after.layers[after.current]) == bounds
            &&& after.drawn().drop_last() == before.drawn()
            &&& after.transformations == before.transformations
        }),
{
    lemma_clipped_path::<T, X>(before, bounds);
    let after = clipped::<T, X>(before, bounds);
    assert(after.path().drop_last() =~= before.path());
    assert(after.drawn().drop_last() =~= before.drawn());
}

/// Closing a clipping region settles its layer and goes back to the one that it was opened in.
/// No other layer changes, and none leaves.
pub proof fn popping_settles_the_closed_layer<T: Layer, X>(before: Drawing<T::Model, X>, i: int)
    requires
        before.wf(),
        before.previous.len() > 0,
        0 <= i < before.layers.len(),
    ensures
        ({
            let after = unclipped::<T, X>(before);
            &&& after.layers.len() == before.layers.len()
            &&& after.layers[i] == (if i == before.current {
                T::flushed(before.layers[i])
            } else {
                before.layers[i]
            })
            &&& after.path() == before.path().drop_last()
            &&& after.active == before.active
            &&& after.transformations == before.transformations
        }),
{
    let after = unclipped::<T, X>(before);
    assert(after.path() =~= before.path().drop_last());
}

/// Flushing a stack settles exactly the layers that are still drawn into.
pub proof fn flushing_settles_the_open_path<T: Layer>(
    layers: Seq<T::Model>,
    path: Seq<int>,
    i: int,
)
    requires
        0 <= i < layers.len(),
    ensures
        settled::<T>(layers, path).len() == layers.len(),
        (exists|j: int| 0 <= j < path.len() && path[j] == i) ==> settled::<T>(layers, path)[i]
            == T::flushed(layers[i]),
        (forall|j: int| 0 <= j < path.len() ==> path[j] != i) ==> settled::<T>(layers, path)[i]
            == layers[i],
{
}

/// A reset leaves one layer in use, with the new bounds and nothing in it, and empties every
/// layer that was in use. Transformations stay.
pub proof fn resets_empty_the_stack<T: Layer, X>(
    before: Drawing<T::Model, X>,
    bounds: T::Bounds,
    i: int,
)
    requires
        before.wf(),
        0 < i < before.active,
    ensures
        ({
            let after = emptied::<T, X>(before, bounds);
            &&& after.active == 1
            &&& after.path() == seq![0int]
            &&& after.layers[0] == T::resized(T::cleared(before.layers[0]), bounds)
            &&& T::bounds_of(after.layers[0]) == bounds
            &&& after.layers[i] == T::cleared(before.layers[i])
            &&& after.transformations == before.transformations
        }),
{
    let after = emptied::<T, X>(before, bounds);
    T::only_resizing_sets_bounds(T::cleared(before.layers[0]), bounds);
    assert(after.path() =~= seq![0int]);
}

/// A scan that stops above the bottom has found a layer with primitives that cannot take those
/// above it: it has other bounds, or it ends above where they start.
pub proof fn scans_stop_only_at_incompatible_layers<T: Layer>(
    layers: Seq<T::Model>,
    at: int,
    target: int,
)
    requires
        0 <= at <= target,
    ensures
        ({
            let scan = scanned::<T>(layers, at, target);
            scan.stop > 0 ==> {
                let obstacle = layers[scan.stop];
                &&& T::end_of(obstacle) != 0
                &&& T::end_of(obstacle) > T::start_of(layers[scan.target]) || !T::agree(
                    T::bounds_of(obstacle),
                    T::bounds_of(layers[scan.target]),
                )
            }
        }),
    decreases at,
{
    if at > 0 {
        let candidate = layers[at - 1];
        if T::end_of(candidate) == 0 {
            scans_stop_only_at_incompatible_layers::<T>(layers, at - 1, target);
        } else if !(T::end_of(candidate) > T::start_of(layers[target]) || !T::agree(
            T::bounds_of(candidate),
            T::bounds_of(layers[target]),
        )) {
            scans_stop_only_at_incompatible_layers::<T>(layers, at - 1, at - 1);
        }
    }
}

/// The stack that continues another is empty: one new layer for each that is still drawn into,
/// with its bounds, and the same transformations.
pub proof fn continued_stacks_are_empty<T: Layer, X>(before: Drawing<T::Model, X>, i: int)
    requires
        before.wf(),
        0 <= i < before.path().len(),
    ensures
        ({
            let after = continued::<T, X>(before);
            &&& after.layers.len() == before.path().len()
            &&& after.active == before.path().len()
            &&& after.path()[i] == i
            &&& after.path().len() == before.path().len()
            &&& after.layers[i] == T::fresh(T::bounds_of(before.layers[before.path()[i]]))
            &&& T::end_of(after.layers[i]) == 0
            &&& T::bounds_of(after.layers[i]) == T::bounds_of(before.layers[before.path()[i]])
            &&& after.transformations == before.transformations
        }),
{
    T::new_layers_are_bare(T::bounds_of(before.layers[before.path()[i]]));
}

} // verus!
