//! Recorded drawing, ordered by exact barriers.

use crate::content::CacheRequest;
use crate::context::{Context, SizeBits};
use crate::effect::{stack_reads_backdrop, total_passes, EffectStack, Stage};
use crate::effect_plan::PlannedEffectPass;
use crate::float_bits::RectangleBits;
use crate::geometry::Rectangle;
use crate::layer::{self, clipped, continued, settled, unclipped, Drawing, Stack};
use crate::output_key::OutputKey;
use crate::pool::Target;
use crate::request::Layer;
use crate::retained::LeaseTicket;
use vstd::prelude::*;

verus! {

/// An ordered sequence of direct leaves and isolated drawing nodes.
///
/// `T` is the type of drawn layers and `X` that of transformations. `G` stands for a texture
/// and its view, `V` for a text viewport.
pub struct Sequence<T: layer::Layer, X: Copy, G, V>(pub Vec<Node<T, X, G, V>>);

/// A node in an ordered drawing sequence.
pub enum Node<T: layer::Layer, X: Copy, G, V> {
    /// An uninterrupted ordinary layer stack.
    Leaf(Leaf<T, X>),
    /// A bounded isolated layer without effects.
    Layer(RecordedLayer<T, X, G, V>),
    /// A bounded isolated layer with an effect sequence.
    Effect(RecordedLayer<T, X, G, V>),
}

/// An uninterrupted ordinary layer stack.
pub struct Leaf<T: layer::Layer, X: Copy> {
    pub stack: Stack<T, X>,
    pub prepared: Vec<Option<PreparedLayer>>,
}

/// A run of consecutive prepared entries.
#[derive(Debug, Clone, Copy, PartialEq, Eq, Structural)]
pub struct Run {
    pub start: usize,
    pub end: usize,
}

/// Prepared indices for one ordinary layer.
#[derive(Debug, Clone, Copy, PartialEq, Eq)]
pub struct PreparedLayer {
    pub scissor: Rectangle,
    pub physical_bounds: RectangleBits,
    pub quad: Option<usize>,
    pub triangle: Run,
    pub image: Option<usize>,
    pub text: Run,
}

/// A bounded isolated layer node.
pub struct RecordedLayer<T: layer::Layer, X: Copy, G, V> {
    pub layer: Layer,
    /// The requested size before the active renderer transform is applied.
    pub logical_surface_size: SizeBits,
    pub effects: EffectStack,
    pub content: Sequence<T, X, G, V>,
    pub prepared: Option<PreparedIsolatedLayer<G, V>>,
}

/// The access under which an output may be retained.
#[derive(Debug)]
pub struct LeasedOutput {
    pub request: CacheRequest,
    pub key: OutputKey,
    pub ticket: LeaseTicket,
}

/// One pass with the scratch textures that it leased.
pub struct PreparedEffectPass<G, V> {
    pub planned: PlannedEffectPass,
    pub scratch: Vec<Target<G, V>>,
}

/// What drawing an isolated layer needs.
pub struct PreparedIsolatedLayer<G, V> {
    pub context: Context,
    /// The part of the parent that may receive the result.
    pub clip: Option<Rectangle>,
    pub targets: Vec<Target<G, V>>,
    pub backdrop: Option<usize>,
    pub passes: Vec<PreparedEffectPass<G, V>>,
    pub output: usize,
    pub output_lease: Option<LeasedOutput>,
    pub output_valid: bool,
}

/// Whether any of the nodes samples what was drawn before it.
pub open spec fn samples_backdrop<T: layer::Layer, X: Copy, G, V>(
    nodes: Seq<Node<T, X, G, V>>,
) -> bool {
    exists|i: int|
        0 <= i < nodes.len() && (#[trigger] nodes[i] matches Node::Effect(node)
            && stack_reads_backdrop(node.effects@))
}

/// Whether the passes of every effect sequence can be counted on this machine, with two
/// targets more.
pub open spec fn plannable<T: layer::Layer, X: Copy, G, V>(
    nodes: Seq<Node<T, X, G, V>>,
) -> bool {
    forall|i: int|
        0 <= i < nodes.len() ==> match #[trigger] nodes[i] {
            Node::Leaf(_) => true,
            Node::Layer(node) | Node::Effect(node) => total_passes(node.effects@) + 2 <= usize::MAX,
        }
}

impl<T: layer::Layer, X: Copy, G, V> Sequence<T, X, G, V> {
    /// Creates an empty sequence.
    pub fn new() -> (sequence: Self)
        ensures
            sequence.0@ == Seq::<Node<T, X, G, V>>::empty(),
    {
        Sequence(Vec::new())
    }

    /// Returns whether nothing was recorded.
    pub fn is_empty(&self) -> (empty: bool)
        ensures
            empty == (self.0@.len() == 0),
    {
        self.0.len() == 0
    }

    /// Returns whether an effect at this level samples what was drawn before it.
    pub fn needs_backdrop(&self) -> (needs: bool)
        requires
            plannable(self.0@),
        ensures
            needs == samples_backdrop(self.0@),
    {
        let mut index: usize = 0;
        while index < self.0.len()
            invariant
                index <= self.0@.len(),
                plannable(self.0@),
                forall|i: int|
                    0 <= i < index ==> !(#[trigger] self.0@[i] matches Node::Effect(node)
                        && stack_reads_backdrop(node.effects@)),
            decreases self.0@.len() - index,
        {
            match &self.0[index] {
                Node::Effect(node) => {
                    assert(self.0@[index as int] matches Node::Effect(node) && total_passes(
                        node.effects@,
                    ) + 2 <= usize::MAX);
                    if node.effects.requirements().needs_backdrop() {
                        assert(self.0@[index as int] matches Node::Effect(node)
                            && stack_reads_backdrop(node.effects@));
                        return true;
                    }
                },
                Node::Leaf(_) => {},
                Node::Layer(_) => {},
            }
            index = index + 1;
        }
        false
    }
}

impl<T: layer::Layer, X: Copy> Leaf<T, X> {
    fn new(stack: Stack<T, X>) -> (leaf: Self)
        ensures
            leaf.stack == stack,
            leaf.prepared@.len() == 0,
    {
        Leaf { stack, prepared: Vec::new() }
    }
}

/// Whether any of the drawn layers holds primitives.
pub open spec fn visible<T: layer::Layer>(layers: Seq<T::Model>) -> bool {
    exists|i: int| 0 <= i < layers.len() && T::end_of(#[trigger] layers[i]) != 0
}

/// Whether appending a stack as a leaf turns `before` into `after`. A stack without
/// primitives leaves no trace.
pub open spec fn leaf_appended<T: layer::Layer, X: Copy, G, V>(
    before: Seq<Node<T, X, G, V>>,
    after: Seq<Node<T, X, G, V>>,
    stack: Drawing<T::Model, X>,
) -> bool {
    if visible::<T>(stack.drawn()) {
        &&& after.len() == before.len() + 1
        &&& after.drop_last() == before
        &&& after.last() matches Node::Leaf(leaf) && leaf.stack@ == stack && leaf.prepared@.len()
            == 0
    } else {
        after == before
    }
}

struct OpenLayer<T: layer::Layer, X: Copy, G, V> {
    layer: Layer,
    effects: Option<EffectStack>,
    logical_surface_size: SizeBits,
    content: Sequence<T, X, G, V>,
    parent: Stack<T, X>,
}

/// An isolated layer that is still recorded into.
pub ghost struct Open<T: layer::Layer, X: Copy, G, V> {
    pub layer: Layer,
    pub effects: Option<Seq<Stage>>,
    pub logical_surface_size: SizeBits,
    pub content: Seq<Node<T, X, G, V>>,
    pub parent: Drawing<T::Model, X>,
}

impl<T: layer::Layer, X: Copy, G, V> View for OpenLayer<T, X, G, V> {
    type V = Open<T, X, G, V>;

    closed spec fn view(&self) -> Open<T, X, G, V> {
        Open {
            layer: self.layer,
            effects: match self.effects {
                Some(effects) => Some(effects@),
                None => None,
            },
            logical_surface_size: self.logical_surface_size,
            content: self.content.0@,
            parent: self.parent@,
        }
    }
}

/// Records exact ordering barriers while retaining the ordinary direct stack until needed.
pub struct Recorder<T: layer::Layer, X: Copy, G, V> {
    root: Sequence<T, X, G, V>,
    open: Vec<OpenLayer<T, X, G, V>>,
}

/// What a [`Recorder`] holds: the finished nodes at the top level, and the layers that are
/// still recorded into, outermost first.
#[verifier::ext_equal]
pub ghost struct Recording<T: layer::Layer, X: Copy, G, V> {
    pub root: Seq<Node<T, X, G, V>>,
    pub open: Seq<Open<T, X, G, V>>,
}

impl<T: layer::Layer, X: Copy, G, V> Recording<T, X, G, V> {
    /// The nodes that the next one is appended to.
    pub open spec fn current(self) -> Seq<Node<T, X, G, V>> {
        if self.open.len() > 0 {
            self.open.last().content
        } else {
            self.root
        }
    }

    /// The recording with other current nodes.
    pub open spec fn with_current(self, nodes: Seq<Node<T, X, G, V>>) -> Self {
        if self.open.len() > 0 {
            let open = self.open.last();
            Recording {
                open: self.open.update(self.open.len() - 1, Open { content: nodes, ..open }),
                ..self
            }
        } else {
            Recording { root: nodes, ..self }
        }
    }

    /// The stacks that the open layers interrupted can be taken up again.
    pub open spec fn wf(self) -> bool {
        forall|i: int| 0 <= i < self.open.len() ==> (#[trigger] self.open[i]).parent.wf()
    }
}

impl<T: layer::Layer, X: Copy, G, V> View for Recorder<T, X, G, V> {
    type V = Recording<T, X, G, V>;

    closed spec fn view(&self) -> Recording<T, X, G, V> {
        Recording {
            root: self.root.0@,
            open: self.open@.map_values(|open: OpenLayer<T, X, G, V>| open@),
        }
    }
}

impl<T: layer::Layer<Bounds = RectangleBits>, X: Copy, G, V> Recorder<T, X, G, V> {
    /// Creates a recorder without nodes.
    pub fn new() -> (recorder: Self)
        ensures
            recorder@.wf(),
            recorder@.root == Seq::<Node<T, X, G, V>>::empty(),
            recorder@.open == Seq::<Open<T, X, G, V>>::empty(),
    {
        let recorder = Recorder { root: Sequence::new(), open: Vec::new() };
        assert(recorder@.open =~= Seq::<Open<T, X, G, V>>::empty());
        recorder
    }

    /// Returns whether any isolated drawing was recorded.
    pub fn is_segmented(&self) -> (segmented: bool)
        ensures
            segmented == (self@.root.len() > 0 || self@.open.len() > 0),
    {
        !self.root.is_empty() || self.open.len() > 0
    }

    fn append(&mut self, node: Node<T, X, G, V>)
        requires
            old(self)@.wf(),
        ensures
            final(self)@.wf(),
            final(self)@ == old(self)@.with_current(old(self)@.current().push(node)),
    {
        let ghost before = self@;
        let count: usize = self.open.len();
        if count > 0 {
            self.open[count - 1].content.0.push(node);
            assert(self@.open =~= before.with_current(before.current().push(node)).open);
        } else {
            self.root.0.push(node);
            assert(self@.open =~= before.open);
        }
    }

    fn append_leaf(&mut self, stack: Stack<T, X>)
        requires
            old(self)@.wf(),
            stack@.wf(),
        ensures
            final(self)@.wf(),
            final(self)@ == old(self)@.with_current(final(self)@.current()),
            leaf_appended(old(self)@.current(), final(self)@.current(), stack@),
    {
        let ghost before = self@;
        let layers = stack.as_slice();
        let ghost drawn = stack@.drawn();
        let mut seen = false;
        let mut index: usize = 0;
        while index < layers.len() && !seen
            invariant
                index <= layers@.len(),
                layer::models(layers@) == drawn,
                seen ==> visible::<T>(drawn),
                !seen ==> forall|i: int| 0 <= i < index ==> T::end_of(#[trigger] drawn[i]) == 0,
            decreases layers@.len() - index,
        {
            assert(drawn[index as int] == layers@[index as int].model());
            if layers[index].end() != 0 {
                seen = true;
            }
            index = index + 1;
        }
        if seen {
            self.append(Node::Leaf(Leaf::new(stack)));
            proof {
                assert(self@.current() =~= before.current().push(self@.current().last()));
                assert(self@.current().drop_last() =~= before.current());
            }
        } else {
            proof {
                assert(before.with_current(before.current()).open =~= before.open);
            }
        }
    }

    /// Starts an isolated layer without effects.
    ///
    /// `transform` applies the current transformation to bounds.
    pub fn start<F: Fn(RectangleBits, X) -> RectangleBits>(
        &mut self,
        layers: &mut Stack<T, X>,
        layer: Layer,
        transform: &F,
    )
        requires
            old(self)@.wf(),
            old(layers)@.wf(),
            old(layers)@.path().len() < usize::MAX,
            forall|bounds: RectangleBits|
                call_requires(*transform, (bounds, old(layers)@.transformation())),
        ensures
            final(self)@.wf(),
            final(layers)@.wf(),
            final(layers)@.previous.len() > 0,
            exists|bounds: RectangleBits, clip: RectangleBits, child: RectangleBits|
                #![trigger started(
                    old(self)@,
                    old(layers)@,
                    final(self)@,
                    final(layers)@,
                    (Layer { bounds, content_bounds: bounds, clip, ..layer }),
                    None,
                    size_of(layer.bounds),
                    child,
                )]
                {
                    let current = old(layers)@.transformation();
                    &&& call_ensures(*transform, (layer.bounds, current), bounds)
                    &&& call_ensures(*transform, (layer.clip, current), clip)
                    &&& call_ensures(*transform, (layer.bounds, current), child)
                    &&& started(
                        old(self)@,
                        old(layers)@,
                        final(self)@,
                        final(layers)@,
                        Layer { bounds, content_bounds: bounds, clip, ..layer },
                        None,
                        size_of(layer.bounds),
                        child,
                    )
                },
    {
        let ghost requested = layer;
        let local = layer.bounds;
        let transformation = layers.transformation();
        let bounds = transform(layer.bounds, transformation);
        let clip = transform(layer.clip, transformation);
        let placed = Layer { bounds, content_bounds: bounds, clip, ..layer };
        self.start_kind(layers, local, placed, None, transform);
        proof {
            let child = choose|child: RectangleBits| #[trigger]
                call_ensures(*transform, (local, transformation), child) && started(
                    old(self)@,
                    old(layers)@,
                    self@,
                    layers@,
                    placed,
                    None,
                    size_of(local),
                    child,
                );
            assert(started(
                old(self)@,
                old(layers)@,
                self@,
                layers@,
                (Layer { bounds, content_bounds: bounds, clip, ..requested }),
                None,
                size_of(requested.bounds),
                child,
            ));
        }
    }

    /// Starts an isolated layer with an effect sequence.
    ///
    /// `transform` applies the current transformation to bounds.
    pub fn start_effects<F: Fn(RectangleBits, X) -> RectangleBits>(
        &mut self,
        layers: &mut Stack<T, X>,
        layer: Layer,
        effects: EffectStack,
        transform: &F,
    )
        requires
            old(self)@.wf(),
            old(layers)@.wf(),
            old(layers)@.path().len() < usize::MAX,
            forall|bounds: RectangleBits|
                call_requires(*transform, (bounds, old(layers)@.transformation())),
        ensures
            final(self)@.wf(),
            final(layers)@.wf(),
            final(layers)@.previous.len() > 0,
            exists|
                bounds: RectangleBits,
                content_bounds: RectangleBits,
                clip: RectangleBits,
                child: RectangleBits,
            |
                #![trigger started(
                    old(self)@,
                    old(layers)@,
                    final(self)@,
                    final(layers)@,
                    (Layer { bounds, content_bounds, clip, ..layer }),
                    Some(effects@),
                    size_of(layer.bounds),
                    child,
                )]
                {
                    let current = old(layers)@.transformation();
                    &&& call_ensures(*transform, (layer.bounds, current), bounds)
                    &&& call_ensures(*transform, (layer.content_bounds, current), content_bounds)
                    &&& call_ensures(*transform, (layer.clip, current), clip)
                    &&& call_ensures(*transform, (layer.bounds, current), child)
                    &&& started(
                        old(self)@,
                        old(layers)@,
                        final(self)@,
                        final(layers)@,
                        Layer { bounds, content_bounds, clip, ..layer },
                        Some(effects@),
                        size_of(layer.bounds),
                        child,
                    )
                },
    {
        let ghost requested = layer;
        let local = layer.bounds;
        let transformation = layers.transformation();
        let bounds = transform(layer.bounds, transformation);
        let content_bounds = transform(layer.content_bounds, transformation);
        let clip = transform(layer.clip, transformation);
        let placed = Layer { bounds, content_bounds, clip, ..layer };
        self.start_kind(layers, local, placed, Some(effects), transform);
        proof {
            let child = choose|child: RectangleBits| #[trigger]
                call_ensures(*transform, (local, transformation), child) && started(
                    old(self)@,
                    old(layers)@,
                    self@,
                    layers@,
                    placed,
                    Some(effects@),
                    size_of(local),
                    child,
                );
            assert(started(
                old(self)@,
                old(layers)@,
                self@,
                layers@,
                (Layer { bounds, content_bounds, clip, ..requested }),
                Some(effects@),
                size_of(requested.bounds),
                child,
            ));
        }
    }

    fn start_kind<F: Fn(RectangleBits, X) -> RectangleBits>(
        &mut self,
        layers: &mut Stack<T, X>,
        bounds: RectangleBits,
        layer: Layer,
        effects: Option<EffectStack>,
        transform: &F,
    )
        requires
            old(self)@.wf(),
            old(layers)@.wf(),
            old(layers)@.path().len() < usize::MAX,
            call_requires(*transform, (bounds, old(layers)@.transformation())),
        ensures
            final(self)@.wf(),
            final(layers)@.wf(),
            final(layers)@.previous.len() > 0,
            exists|child: RectangleBits| #[trigger]
                call_ensures(*transform, (bounds, old(layers)@.transformation()), child)
                    && started(
                    old(self)@,
                    old(layers)@,
                    final(self)@,
                    final(layers)@,
                    layer,
                    stages_of_kind(effects),
                    size_of(bounds),
                    child,
                ),
    {
        let ghost recording = self@;
        let ghost stack = layers@;
        let before = layers.split();
        self.append_leaf(before);
        let ghost nodes = self@.current();
        let ghost appended = self@;

        let parent = layers.split();
        layers.push_clip(bounds, transform);
        self.open.push(
            OpenLayer {
                layer,
                effects,
                logical_surface_size: SizeBits { width: bounds.width, height: bounds.height },
                content: Sequence::new(),
                parent,
            },
        );
        proof {
            let child = choose|child: RectangleBits| #[trigger]
                call_ensures(*transform, (bounds, stack.transformation()), child) && layers@
                    == clipped::<T, X>(continued::<T, X>(parent@), child);
            let opened = Open {
                layer,
                effects: stages_of_kind(effects),
                logical_surface_size: size_of(bounds),
                content: Seq::empty(),
                parent: parent@,
            };
            assert(self@.open =~= appended.open.push(opened));
            assert(continues_at(recording, nodes, recorded_of::<T, X>(stack)));
            assert(started(
                recording,
                stack,
                self@,
                layers@,
                layer,
                stages_of_kind(effects),
                size_of(bounds),
                child,
            ));
        }
    }

    /// Ends the innermost isolated layer.
    pub fn end(&mut self, layers: &mut Stack<T, X>)
        requires
            old(self)@.wf(),
            old(self)@.open.len() > 0,
            old(layers)@.wf(),
            old(layers)@.previous.len() > 0,
        ensures
            final(self)@.wf(),
            final(layers)@ == old(self)@.open.last().parent,
            ended(old(self)@, old(layers)@, final(self)@),
    {
        let ghost recording = self@;
        let ghost stack = layers@;
        layers.pop_clip();
        let child = layers.split();
        self.append_leaf(child);
        let ghost content = self@.current();
        let ghost appended = self@;

        let open = self.open.pop().unwrap();
        *layers = open.parent;
        let ghost popped = self@;
        proof {
            assert(appended.open == recording.with_current(content).open);
            assert(popped.open =~= appended.open.drop_last());
            assert(popped.open =~= recording.open.drop_last());
            assert(appended.open.last() == (Open { content, ..recording.open.last() }));
        }
        match open.effects {
            None => {
                self.append(
                    Node::Layer(
                        RecordedLayer {
                            layer: open.layer,
                            logical_surface_size: open.logical_surface_size,
                            effects: EffectStack::new(),
                            content: open.content,
                            prepared: None,
                        },
                    ),
                );
            },
            Some(effects) => {
                self.append(
                    Node::Effect(
                        RecordedLayer {
                            layer: open.layer,
                            logical_surface_size: open.logical_surface_size,
                            effects,
                            content: open.content,
                            prepared: None,
                        },
                    ),
                );
            },
        }
        proof {
            let node = self@.current().last();
            let outer = Recording { open: recording.open.drop_last(), ..recording };
            assert(popped =~= outer);
            assert(self@.current() =~= outer.current().push(node));
            assert(self@.current().drop_last() =~= outer.current());
            assert(closes(recording.open.last(), content, node));
            assert(continues_at(recording, content, recorded_of::<T, X>(unclipped::<T, X>(stack))));
        }
    }

    /// Finishes the recording and returns it.
    pub fn take(&mut self, layers: &mut Stack<T, X>) -> (sequence: Sequence<T, X, G, V>)
        requires
            old(self)@.wf(),
            old(self)@.open.len() == 0,
            old(layers)@.wf(),
        ensures
            final(self)@.wf(),
            final(self)@.root == Seq::<Node<T, X, G, V>>::empty(),
            final(self)@.open == Seq::<Open<T, X, G, V>>::empty(),
            final(layers)@ == continued::<T, X>(recorded_of::<T, X>(old(layers)@)),
            leaf_appended(old(self)@.root, sequence.0@, recorded_of::<T, X>(old(layers)@)),
    {
        let tail = layers.split();
        self.append_leaf(tail);
        let mut sequence = Sequence::new();
        std::mem::swap(&mut sequence, &mut self.root);
        assert(self@.open =~= Seq::<Open<T, X, G, V>>::empty());
        sequence
    }

    /// Restores a completed sequence after its transient prepared state has been released.
    ///
    /// Restoring it keeps the recorded frame replayable for screenshots or any other draw
    /// performed before the next reset.
    pub fn restore(&mut self, sequence: Sequence<T, X, G, V>)
        requires
            old(self)@.open.len() == 0,
            old(self)@.root.len() == 0,
        ensures
            final(self)@.root == sequence.0@,
            final(self)@.open == Seq::<Open<T, X, G, V>>::empty(),
    {
        self.root = sequence;
        assert(self@.open =~= Seq::<Open<T, X, G, V>>::empty());
    }

    /// Forgets what was recorded.
    pub fn reset(&mut self)
        requires
            old(self)@.open.len() == 0,
        ensures
            final(self)@.root == Seq::<Node<T, X, G, V>>::empty(),
            final(self)@.open == Seq::<Open<T, X, G, V>>::empty(),
    {
        self.root.0.clear();
        assert(self@.open =~= Seq::<Open<T, X, G, V>>::empty());
    }
}

/// The extent of a rectangle.
pub open spec fn size_of(bounds: RectangleBits) -> SizeBits {
    SizeBits { width: bounds.width, height: bounds.height }
}

/// The stages of an effect sequence, if there is one.
pub open spec fn stages_of_kind(effects: Option<EffectStack>) -> Option<Seq<Stage>> {
    match effects {
        Some(effects) => Some(effects@),
        None => None,
    }
}

/// What a split of a stack returns.
pub open spec fn recorded_of<T: layer::Layer, X>(stack: Drawing<T::Model, X>) -> Drawing<
    T::Model,
    X,
> {
    Drawing { layers: settled::<T>(stack.layers, stack.path()), ..stack }
}

/// Whether `nodes` are the current nodes once a stack was appended to a recording.
pub open spec fn continues_at<T: layer::Layer, X: Copy, G, V>(
    recording: Recording<T, X, G, V>,
    nodes: Seq<Node<T, X, G, V>>,
    stack: Drawing<T::Model, X>,
) -> bool {
    leaf_appended(recording.current(), nodes, stack)
}

/// Whether starting a layer turns this recording and stack into those.
///
/// What was drawn so far becomes a leaf. An empty stack with the same open path is set aside
/// as the layer's parent, and the layer is recorded into another one, clipped to its bounds.
pub open spec fn started<T: layer::Layer<Bounds = RectangleBits>, X: Copy, G, V>(
    before: Recording<T, X, G, V>,
    stack: Drawing<T::Model, X>,
    after: Recording<T, X, G, V>,
    stack_after: Drawing<T::Model, X>,
    layer: Layer,
    effects: Option<Seq<Stage>>,
    logical_surface_size: SizeBits,
    bounds: RectangleBits,
) -> bool {
    let recorded = recorded_of::<T, X>(stack);
    let parent = recorded_of::<T, X>(continued::<T, X>(recorded));
    exists|nodes: Seq<Node<T, X, G, V>>| #[trigger]
        continues_at(before, nodes, recorded) && {
            &&& after.root == before.with_current(nodes).root
            &&& after.open == before.with_current(nodes).open.push(
                Open { layer, effects, logical_surface_size, content: Seq::empty(), parent },
            )
            &&& stack_after == clipped::<T, X>(continued::<T, X>(parent), bounds)
        }
}

/// Whether a node holds what an open layer recorded.
pub open spec fn closes<T: layer::Layer, X: Copy, G, V>(
    open: Open<T, X, G, V>,
    content: Seq<Node<T, X, G, V>>,
    node: Node<T, X, G, V>,
) -> bool {
    match (open.effects, node) {
        (None, Node::Layer(node)) => {
            &&& node.layer == open.layer
            &&& node.logical_surface_size == open.logical_surface_size
            &&& node.effects@ == Seq::<Stage>::empty()
            &&& node.content.0@ == content
            &&& node.prepared is None
        },
        (Some(stages), Node::Effect(node)) => {
            &&& node.layer == open.layer
            &&& node.logical_surface_size == open.logical_surface_size
            &&& node.effects@ == stages
            &&& node.content.0@ == content
            &&& node.prepared is None
        },
        _ => false,
    }
}

/// Whether ending the innermost layer turns this recording and stack into that recording.
pub open spec fn ended<T: layer::Layer, X: Copy, G, V>(
    before: Recording<T, X, G, V>,
    stack: Drawing<T::Model, X>,
    after: Recording<T, X, G, V>,
) -> bool {
    let open = before.open.last();
    let outer = Recording { open: before.open.drop_last(), ..before };
    &&& after == outer.with_current(after.current())
    &&& after.current().len() == outer.current().len() + 1
    &&& after.current().drop_last() == outer.current()
    &&& exists|content: Seq<Node<T, X, G, V>>| #[trigger]
        continues_at(before, content, recorded_of::<T, X>(unclipped::<T, X>(stack))) && closes(
            open,
            content,
            after.current().last(),
        )
}

/// An isolated layer is an exact paint-order barrier. Whatever is recorded into it, once it
/// ends the outer nodes are those from before, then one leaf for what had been drawn since
/// the last barrier, if anything had, and then the layer.
pub proof fn layers_are_exact_barriers<T: layer::Layer<Bounds = RectangleBits>, X: Copy, G, V>(
    before: Recording<T, X, G, V>,
    stack: Drawing<T::Model, X>,
    opened: Recording<T, X, G, V>,
    child: Drawing<T::Model, X>,
    layer: Layer,
    effects: Option<Seq<Stage>>,
    logical_surface_size: SizeBits,
    bounds: RectangleBits,
    recorded: Recording<T, X, G, V>,
    stack_at_end: Drawing<T::Model, X>,
    after: Recording<T, X, G, V>,
)
    requires
        started(before, stack, opened, child, layer, effects, logical_surface_size, bounds),
        recorded.root == opened.root,
        recorded.open.len() == opened.open.len(),
        recorded.open.drop_last() == opened.open.drop_last(),
        recorded.open.last() == (Open {
            content: recorded.open.last().content,
            ..opened.open.last()
        }),
        ended(recorded, stack_at_end, after),
    ensures
        ({
            let drawn = if visible::<T>(recorded_of::<T, X>(stack).drawn()) {
                1int
            } else {
                0int
            };
            let count = before.current().len();
            &&& after.open.len() == before.open.len()
            &&& after.current().len() == count + drawn + 1
            &&& after.current().take(count as int) == before.current()
            &&& drawn == 1 ==> after.current()[count as int] is Leaf
            &&& match after.current().last() {
                Node::Leaf(_) => false,
                Node::Layer(node) => effects is None && node.layer == layer
                    && node.logical_surface_size == logical_surface_size,
                Node::Effect(node) => effects == Some(node.effects@) && node.layer == layer
                    && node.logical_surface_size == logical_surface_size,
            }
        }),
{
    let recorded_stack = recorded_of::<T, X>(stack);
    let nodes = choose|nodes: Seq<Node<T, X, G, V>>| #[trigger]
        continues_at(before, nodes, recorded_stack) && {
            &&& opened.root == before.with_current(nodes).root
            &&& opened.open == before.with_current(nodes).open.push(
                Open {
                    layer,
                    effects,
                    logical_surface_size,
                    content: Seq::empty(),
                    parent: recorded_of::<T, X>(continued::<T, X>(recorded_stack)),
                },
            )
        };
    let middle = before.with_current(nodes);
    let outer = Recording { open: recorded.open.drop_last(), ..recorded };
    assert(opened.open.drop_last() =~= middle.open);
    assert(outer =~= middle);
    assert(middle.current() =~= nodes);
    assert(after.current().drop_last() == nodes);
    assert(after.current() =~= nodes.push(after.current().last()));
    assert(after.current().take(before.current().len() as int) =~= before.current());
}

/// The stack that an isolated layer gives back when it ends has the open path and the
/// transformations from before it started, and holds nothing else.
pub proof fn layers_give_back_the_open_path<
    T: layer::Layer<Bounds = RectangleBits>,
    X: Copy,
    G,
    V,
>(
    before: Recording<T, X, G, V>,
    stack: Drawing<T::Model, X>,
    opened: Recording<T, X, G, V>,
    child: Drawing<T::Model, X>,
    layer: Layer,
    effects: Option<Seq<Stage>>,
    logical_surface_size: SizeBits,
    bounds: RectangleBits,
)
    requires
        stack.wf(),
        started(before, stack, opened, child, layer, effects, logical_surface_size, bounds),
    ensures
        layer::same_open_path::<T, X>(stack, opened.open.last().parent),
        opened.open.last().parent.previous.len() == stack.previous.len(),
        opened.open.last().parent.drawn().len() == stack.path().len(),
        child.previous.len() == stack.previous.len() + 1,
        child.transformations == stack.transformations,
{
    let recorded = recorded_of::<T, X>(stack);
    let parent = recorded_of::<T, X>(continued::<T, X>(recorded));
    assert(recorded.path() =~= stack.path());
    layer::split_keeps_the_open_path::<T, X>(stack);
    layer::split_keeps_the_open_path::<T, X>(continued::<T, X>(recorded));
    assert(parent.path() =~= continued::<T, X>(recorded).path());
    assert(opened.open.last().parent == parent);
    let middle = continued::<T, X>(recorded);
    assert forall|i: int|
        #![trigger stack.path()[i]]
        #![trigger parent.path()[i]]
        0 <= i < stack.path().len() implies T::bounds_of(stack.layers[stack.path()[i]])
        == T::bounds_of(parent.layers[parent.path()[i]]) by {
        assert(middle.path()[i] == parent.path()[i]);
        let model = middle.layers[middle.path()[i]];
        T::only_resizing_sets_bounds(model, T::bounds_of(model));
    }
}

/// A recording that was taken and restored can be taken again: as long as nothing was recorded
/// since, the same nodes come out, all of them and in the same order. Before that, there is
/// something to segment exactly if there were nodes.
pub proof fn restored_recordings_replay<T: layer::Layer, X: Copy, G, V>(
    before: Recording<T, X, G, V>,
    stack: Drawing<T::Model, X>,
    nodes: Seq<Node<T, X, G, V>>,
    restored: Recording<T, X, G, V>,
    again: Seq<Node<T, X, G, V>>,
)
    requires
        stack.wf(),
        before.open.len() == 0,
        leaf_appended(before.root, nodes, recorded_of::<T, X>(stack)),
        restored.root == nodes,
        restored.open == Seq::<Open<T, X, G, V>>::empty(),
        leaf_appended(
            restored.root,
            again,
            recorded_of::<T, X>(continued::<T, X>(recorded_of::<T, X>(stack))),
        ),
    ensures
        again == nodes,
        (restored.root.len() > 0 || restored.open.len() > 0) == (nodes.len() > 0),
{
    let recorded = recorded_of::<T, X>(stack);
    let middle = continued::<T, X>(recorded);
    let bare = recorded_of::<T, X>(middle);
    layer::split_keeps_the_open_path::<T, X>(stack);
    assert forall|i: int| 0 <= i < bare.drawn().len() implies T::end_of(#[trigger] bare.drawn()[i])
        == 0 by {
        let bounds = T::bounds_of(stack.layers[stack.path()[i]]);
        assert(middle.layers[i] == T::fresh(bounds));
        T::new_layers_are_bare(bounds);
    }
    assert(!visible::<T>(bare.drawn()));
}

/// A layer's content is what was recorded into it: the nodes that were finished inside it, and
/// then one leaf for what had been drawn since, if anything had. Before the layer stands a leaf
/// for exactly what had been drawn before it started.
pub proof fn layers_hold_what_was_recorded<T: layer::Layer<Bounds = RectangleBits>, X: Copy, G, V>(
    before: Recording<T, X, G, V>,
    stack: Drawing<T::Model, X>,
    after: Recording<T, X, G, V>,
)
    requires
        before.open.len() > 0,
        ended(before, stack, after),
    ensures
        ({
            let open = before.open.last();
            let finished = open.content.len() as int;
            let rest = recorded_of::<T, X>(unclipped::<T, X>(stack));
            let (content, prepared) = match after.current().last() {
                Node::Layer(node) => (node.content.0@, node.prepared is None && node.effects@
                    == Seq::<Stage>::empty() && open.effects is None),
                Node::Effect(node) => (node.content.0@, node.prepared is None && open.effects
                    == Some(node.effects@)),
                Node::Leaf(_) => (Seq::empty(), false),
            };
            &&& prepared
            &&& content.take(finished) == open.content
            &&& visible::<T>(rest.drawn()) ==> content.len() == finished + 1 && (content[finished]
                matches Node::Leaf(leaf) && leaf.stack@ == rest)
            &&& !visible::<T>(rest.drawn()) ==> content.len() == finished
        }),
{
    let open = before.open.last();
    let rest = recorded_of::<T, X>(unclipped::<T, X>(stack));
    let content = choose|content: Seq<Node<T, X, G, V>>| #[trigger]
        continues_at(before, content, rest) && closes(open, content, after.current().last());
    assert(content.take(open.content.len() as int) =~= open.content);
}

/// What was drawn before a layer starts becomes a leaf of its own, and drawing goes on inside
/// the layer: clipped to its bounds, in the same place and with the same transformations.
pub proof fn starting_a_layer_interrupts_drawing<
    T: layer::Layer<Bounds = RectangleBits>,
    X: Copy,
    G,
    V,
>(
    before: Recording<T, X, G, V>,
    stack: Drawing<T::Model, X>,
    after: Recording<T, X, G, V>,
    stack_after: Drawing<T::Model, X>,
    layer: Layer,
    effects: Option<Seq<Stage>>,
    logical_surface_size: SizeBits,
    bounds: RectangleBits,
)
    requires
        stack.wf(),
        started(before, stack, after, stack_after, layer, effects, logical_surface_size, bounds),
    ensures
        after.open.len() == before.open.len() + 1,
        after.open.last().layer == layer,
        after.open.last().effects == effects,
        after.open.last().logical_surface_size == logical_surface_size,
        after.open.last().content == Seq::<Node<T, X, G, V>>::empty(),
        T::bounds_of(stack_after.layers[stack_after.current]) == bounds,
        stack_after.transformations == stack.transformations,
        stack_after.path().len() == stack.path().len() + 1,
        stack_after.drawn().len() == stack_after.path().len(),
        ({
            let nodes = if before.open.len() > 0 {
                after.open[before.open.len() - 1].content
            } else {
                after.root
            };
            let drawn = recorded_of::<T, X>(stack);
            if visible::<T>(drawn.drawn()) {
                nodes.len() == before.current().len() + 1 && nodes.drop_last() == before.current()
                    && (nodes.last() matches Node::Leaf(leaf) && leaf.stack@ == drawn)
            } else {
                nodes == before.current()
            }
        }),
{
    let recorded = recorded_of::<T, X>(stack);
    let nodes = choose|nodes: Seq<Node<T, X, G, V>>| #[trigger]
        continues_at(before, nodes, recorded) && {
            &&& after.root == before.with_current(nodes).root
            &&& after.open == before.with_current(nodes).open.push(
                Open {
                    layer,
                    effects,
                    logical_surface_size,
                    content: Seq::empty(),
                    parent: recorded_of::<T, X>(continued::<T, X>(recorded)),
                },
            )
        };
    let parent = recorded_of::<T, X>(continued::<T, X>(recorded));
    let inner = continued::<T, X>(parent);
    assert(parent.wf()) by {
        layer::split_keeps_the_open_path::<T, X>(stack);
    }
    layer::split_keeps_the_open_path::<T, X>(parent);
    assert(inner.wf());
    layer::pushing_opens_a_layer_of_its_own::<T, X>(inner, bounds);
    assert(before.with_current(nodes).open.len() == before.open.len());
}

/// A stack leaves a leaf exactly if some layer in use holds a primitive.
pub proof fn only_primitives_leave_a_leaf<T: layer::Layer>(layers: Seq<T::Model>, i: int)
    requires
        0 <= i < layers.len(),
    ensures
        T::end_of(layers[i]) > 0 ==> visible::<T>(layers),
        (forall|j: int| 0 <= j < layers.len() ==> T::end_of(#[trigger] layers[j]) == 0)
            ==> !visible::<T>(layers),
{
}

/// A sequence needs what was drawn before it exactly if some pass of an effect in it reads that.
pub proof fn backdrops_are_needed_by_passes<T: layer::Layer, X: Copy, G, V>(
    nodes: Seq<Node<T, X, G, V>>,
)
    ensures
        samples_backdrop(nodes) <==> exists|i: int, j: int, k: int|
            #![trigger nodes[i]->Effect_0.effects@[j].passes[k]]
            0 <= i < nodes.len() && nodes[i] is Effect && 0 <= j
                < nodes[i]->Effect_0.effects@.len() && 0 <= k
                < nodes[i]->Effect_0.effects@[j].passes.len()
                && nodes[i]->Effect_0.effects@[j].passes[k].reads_backdrop(),
{
    if samples_backdrop(nodes) {
        let i = choose|i: int|
            0 <= i < nodes.len() && (#[trigger] nodes[i] matches Node::Effect(node)
                && stack_reads_backdrop(node.effects@));
        let stages = nodes[i]->Effect_0.effects@;
        let j = choose|j: int|
            0 <= j < stages.len() && crate::effect::any_reads_backdrop((#[trigger] stages[j]).passes);
        let k = choose|k: int|
            0 <= k < stages[j].passes.len() && (#[trigger] stages[j].passes[k]).reads_backdrop();
        assert(nodes[i]->Effect_0.effects@[j].passes[k].reads_backdrop());
    }
    assert forall|i: int, j: int, k: int|
        #![trigger nodes[i]->Effect_0.effects@[j].passes[k]]
        0 <= i < nodes.len() && nodes[i] is Effect && 0 <= j < nodes[i]->Effect_0.effects@.len()
            && 0 <= k < nodes[i]->Effect_0.effects@[j].passes.len()
            && nodes[i]->Effect_0.effects@[j].passes[k].reads_backdrop() implies samples_backdrop(
        nodes,
    ) by {
        let stages = nodes[i]->Effect_0.effects@;
        assert(crate::effect::any_reads_backdrop(stages[j].passes));
        assert(stack_reads_backdrop(stages));
    }
}

/// The surface of a layer has the size of its bounds.
pub proof fn surfaces_have_the_size_of_their_bounds(bounds: RectangleBits)
    ensures
        size_of(bounds).width == bounds.width,
        size_of(bounds).height == bounds.height,
{
}

} // verus!
