//! One draw from start to end.

use crate::commands::{nodes_commands, render_sequence, Command, Fill, Surface};
use crate::content::{CacheKeepAlive, CacheResidencyPriority};
use crate::context::{CaptureGrid, Context};
use crate::diagnostics::{Diagnostics, Limits, Platform};
use crate::drawing::{
    all_contents, counted_up_to, draw_layers, merged_stack, places, prepare_layers,
    prepared_layers, stack_commands, DrawCommand, DrawnLayer, Placed,
};
use crate::float_bits::RectangleBits;
use crate::format::TextureFormat;
use crate::frame::{target_leased, Books, Counters, Device, Frame, Located};
use crate::free_pool::{total_bytes, Backing};
use crate::geometry::{Rectangle, Size};
use crate::layer::{continued, emptied, Drawing, Stack};
use crate::pool::{filed, SizeClass, Target};
use crate::recording::{
    leaf_appended, plannable, recorded_of, samples_backdrop, Node, PreparedLayer, Recorder,
    Sequence,
};
use crate::request::{Composite, Layer};
use crate::retained::{LeaseAudit, OutputTarget, Outputs};
use crate::state::{starting_a_frame_conserves_bytes, with_keep_alive, State};
use crate::traversal::{
    holdings, layer_wf, node_wf, nodes_bare, nodes_prepared, nodes_releasable, nodes_released,
    nodes_wf, preparing_keeps_the_recording, releasing_only_adds_to_the_pool, Holdings,
};
use vstd::prelude::*;

verus! {

/// A renderer of isolated layers: what is being recorded, and what outlasts a frame.
pub struct Renderer<T: DrawnLayer, X: Copy, G, V> {
    pub layers: Stack<T, X>,
    pub recorder: Recorder<T, X, G, V>,
    pub frame: Frame<G, V>,
}

/// A recorded drawing that is ready to be drawn.
pub enum Draw<T: DrawnLayer, X: Copy, G, V> {
    /// Ordinary drawing alone, with the prepared entries of its layers.
    Direct { context: Context, prepared: Vec<Option<PreparedLayer>> },
    /// Drawing with isolated layers, and the target that stands in for the root if what is
    /// drawn to the root has to be read.
    Segmented {
        context: Context,
        root: Option<Target<G, V>>,
        sequence: Sequence<T, X, G, V>,
    },
}

/// No prepared layers.
pub open spec fn no_counts() -> Counters {
    Counters { quads: 0, triangles: 0, images: 0, texts: 0 }
}

impl<T: DrawnLayer, X: Copy, G, V> Renderer<T, X, G, V> {
    /// Creates a renderer with nothing recorded and nothing retained, and with the default
    /// limits of its platform.
    pub fn new(
        identity: X,
        format: TextureFormat,
        maximum_dimension: u32,
        device_epoch: u64,
        platform: Platform,
    ) -> (renderer: Self)
        ensures
            renderer.layers@.wf(),
            renderer.layers@ == (Drawing::<T::Model, X> {
                layers: seq![T::blank()],
                transformations: seq![identity],
                previous: Seq::empty(),
                current: 0,
                active: 1,
            }),
            renderer.recorder@.wf(),
            renderer.recorder@.root.len() == 0,
            renderer.recorder@.open.len() == 0,
            renderer.frame.state.wf(),
            renderer.frame.format == format,
            renderer.frame.maximum_dimension == maximum_dimension,
            renderer.frame.device_epoch == device_epoch,
            renderer.frame.state.frame == 0,
            renderer.frame.state.limits == Limits::defaults(platform),
            renderer.frame.state.pending_keep_alives@ == Map::<
                u64,
                CacheResidencyPriority,
            >::empty(),
            renderer.frame.state.frame_keep_alives@ == Map::<
                u64,
                CacheResidencyPriority,
            >::empty(),
            renderer.frame.state.missing_content.before() == Set::<u64>::empty(),
            renderer.frame.books() == (Books {
                pool: Seq::<Backing<Target<G, V>>>::empty(),
                outputs: Outputs::<Target<G, V>> { slots: Map::empty(), next_ticket: 0 },
                diagnostics: Diagnostics::zero(),
                missing: Set::empty(),
                counters: no_counts(),
                reports: Seq::empty(),
            }),
    {
        Renderer {
            layers: Stack::new(identity),
            recorder: Recorder::new(),
            frame: Frame {
                state: State::default_on(platform),
                counters: Counters { quads: 0, triangles: 0, images: 0, texts: 0 },
                reports: Vec::new(),
                format,
                maximum_dimension,
                device_epoch,
            },
        }
    }

    /// Returns diagnostics for the most recently rendered frame.
    pub fn isolated_layer_diagnostics(&self) -> (diagnostics: Diagnostics)
        ensures
            diagnostics == self.frame.state.diagnostics,
    {
        self.frame.state.diagnostics
    }

    /// Returns the renderer-owned isolated-layer residency limits.
    pub fn isolated_layer_limits(&self) -> (limits: Limits)
        ensures
            limits == self.frame.state.limits,
    {
        self.frame.state.limits()
    }

    /// Replaces the renderer-owned isolated-layer residency limits.
    ///
    /// The new memory budget is enforced at the next rendered frame boundary.
    pub fn set_isolated_layer_limits(&mut self, limits: Limits)
        ensures
            *final(self) == (Renderer {
                frame: Frame {
                    state: State { limits, ..old(self).frame.state },
                    ..old(self).frame
                },
                ..*old(self)
            }),
    {
        self.frame.state.set_limits(limits);
    }

    /// Adds an identity-only keep-alive for the frame after the next reset.
    pub fn mark_cache_alive(&mut self, keep_alive: CacheKeepAlive)
        requires
            old(self).frame.state.wf(),
        ensures
            final(self).frame.state.wf(),
            *final(self) == (Renderer {
                frame: Frame {
                    state: State {
                        pending_keep_alives: final(self).frame.state.pending_keep_alives,
                        ..old(self).frame.state
                    },
                    ..old(self).frame
                },
                ..*old(self)
            }),
            final(self).frame.state.pending_keep_alives@ == with_keep_alive(
                old(self).frame.state.pending_keep_alives@,
                keep_alive,
            ),
    {
        self.frame.state.mark_cache_alive(keep_alive);
    }

    /// Forgets what was recorded, and keeps the collected keep-alives for the next frame.
    pub fn reset(&mut self, new_bounds: RectangleBits)
        requires
            old(self).frame.state.wf(),
            old(self).layers@.wf(),
            old(self).recorder@.open.len() == 0,
        ensures
            final(self).frame.state.wf(),
            final(self).layers@.wf(),
            final(self).layers@ == emptied::<T, X>(old(self).layers@, new_bounds),
            final(self).recorder@.wf(),
            final(self).recorder@.root.len() == 0,
            final(self).recorder@.open.len() == 0,
            final(self).frame == (Frame {
                state: State {
                    pending_keep_alives: final(self).frame.state.pending_keep_alives,
                    frame_keep_alives: old(self).frame.state.pending_keep_alives,
                    ..old(self).frame.state
                },
                ..old(self).frame
            }),
            final(self).frame.state.pending_keep_alives@ == Map::<
                u64,
                CacheResidencyPriority,
            >::empty(),
    {
        self.frame.state.snapshot_pending_keep_alives();
        self.recorder.reset();
        self.layers.reset(new_bounds);
    }
}

/// The books at the start of a draw.
pub open spec fn begun_books<G, V>(frame: Frame<G, V>) -> Books<G, V> {
    let number = begun_device(frame).frame;
    Books {
        pool: frame.state.pool@,
        outputs: frame.state.registry@.recovered(number).marked_all(
            frame.state.frame_keep_alives@,
            number,
        ),
        diagnostics: Diagnostics::zero(),
        missing: Set::empty(),
        counters: no_counts(),
        reports: Seq::empty(),
    }
}

/// What a draw that starts now does not change.
pub open spec fn begun_device<G, V>(frame: Frame<G, V>) -> Device {
    Device {
        frame: if frame.state.frame == u64::MAX {
            0
        } else {
            (frame.state.frame + 1) as u64
        },
        missing_before: frame.state.missing_content.now(),
        format: frame.format,
        maximum_dimension: frame.maximum_dimension,
        epoch: frame.device_epoch,
    }
}

/// Whether the drawing recorded before a draw may become `draw`, with `after` as the books.
pub open spec fn drawing_prepared<
    T: DrawnLayer,
    X: Copy,
    G,
    V,
    L: Fn(RectangleBits, RectangleBits, RectangleBits, Context, CaptureGrid) -> Option<Located>,
    P: Fn(RectangleBits, Context) -> Option<Placed>,
    C: Fn(Size) -> G,
>(
    before: Renderer<T, X, G, V>,
    after: Books<G, V>,
    context: Context,
    locate: L,
    place: P,
    create: C,
    draw: Draw<T, X, G, V>,
) -> bool {
    let begun = begun_books(before.frame);
    match draw {
        Draw::Direct { context: used, prepared } => {
            &&& before.recorder@.root.len() == 0
            &&& used == context
            &&& directly_prepared::<T, X, G, V, P>(
                begun,
                after,
                merged_stack::<T, X>(before.layers@),
                context,
                place,
                prepared@,
            )
        },
        Draw::Segmented { context: used, root, sequence } => {
            &&& before.recorder@.root.len() > 0
            &&& exists|nodes: Seq<Node<T, X, G, V>>, rooted: Books<G, V>|
                #![trigger root_prepared(
                    begun_device(before.frame),
                    begun,
                    rooted,
                    context,
                    used,
                    create,
                    root,
                    nodes,
                )]
                {
                    &&& leaf_appended(
                        before.recorder@.root,
                        nodes,
                        recorded_of::<T, X>(before.layers@),
                    )
                    &&& root_prepared(
                        begun_device(before.frame),
                        begun,
                        rooted,
                        context,
                        used,
                        create,
                        root,
                        nodes,
                    )
                    &&& nodes_prepared(
                        begun_device(before.frame),
                        rooted,
                        after,
                        used,
                        locate,
                        place,
                        create,
                        nodes,
                        sequence.0@,
                    )
                }
        },
    }
}

/// Whether preparing ordinary drawing may turn the books into `after`.
pub open spec fn directly_prepared<
    T: DrawnLayer,
    X: Copy,
    G,
    V,
    P: Fn(RectangleBits, Context) -> Option<Placed>,
>(
    before: Books<G, V>,
    after: Books<G, V>,
    stack: Drawing<T::Model, X>,
    context: Context,
    place: P,
    prepared: Seq<Option<PreparedLayer>>,
) -> bool {
    let contents = all_contents::<T>(stack.drawn());
    exists|placed: Seq<Option<Placed>>| #[trigger]
        places::<T, P>(place, context, stack.drawn(), placed) && {
            &&& prepared == prepared_layers(before.counters, contents, placed)
            &&& after == (Books {
                counters: counted_up_to(
                    before.counters,
                    contents,
                    placed,
                    contents.len() as int,
                ),
                ..before
            })
        }
}

/// Whether preparing a target for the root may turn the books into `after`.
///
/// There is one exactly if what is drawn to the root has to be read.
pub open spec fn root_prepared<T: DrawnLayer, X: Copy, G, V, C: Fn(Size) -> G>(
    device: Device,
    before: Books<G, V>,
    after: Books<G, V>,
    context: Context,
    used: Context,
    create: C,
    root: Option<Target<G, V>>,
    nodes: Seq<Node<T, X, G, V>>,
) -> bool {
    match root {
        Some(root) => {
            &&& samples_backdrop(nodes)
            &&& target_leased(device, before, after, context.viewport(), create, root)
            &&& used == (Context { backing_extent: root.owned().extent, ..context })
        },
        None => !samples_backdrop(nodes) && after == before && used == context,
    }
}

proof fn lemma_plannable<T: DrawnLayer, X: Copy, G, V>(nodes: Seq<Node<T, X, G, V>>)
    requires
        nodes_wf(nodes),
    ensures
        plannable(nodes),
{
    assert forall|i: int| 0 <= i < nodes.len() implies match #[trigger] nodes[i] {
        Node::Leaf(_) => true,
        Node::Layer(node) | Node::Effect(node) => crate::effect::total_passes(node.effects@) + 2
            <= usize::MAX,
    } by {
        assert(node_wf(nodes[i]));
        match nodes[i] {
            Node::Leaf(_) => {},
            Node::Layer(node) => {
                assert(layer_wf(node));
            },
            Node::Effect(node) => {
                assert(layer_wf(node));
            },
        }
    }
}

impl<T: DrawnLayer, X: Copy, G, V> Renderer<T, X, G, V> {
    /// Begins a draw into a root target of the given context, and prepares what was recorded.
    ///
    /// `locate` gives where an isolated layer is captured, `place` where an ordinary layer is
    /// drawn, and `create` the resources of a new target. What the draw holds then is what
    /// left the pool and the registry, and what was newly allocated, to the byte; the allocated
    /// bytes say so until they saturate.
    pub fn begin_draw<
        L: Fn(RectangleBits, RectangleBits, RectangleBits, Context, CaptureGrid) -> Option<Located>,
        P: Fn(RectangleBits, Context) -> Option<Placed>,
        C: Fn(Size) -> G,
    >(&mut self, context: Context, locate: &L, place: &P, create: &C) -> (draw: Draw<T, X, G, V>)
        requires
            old(self).frame.state.wf(),
            old(self).layers@.wf(),
            old(self).recorder@.wf(),
            old(self).recorder@.open.len() == 0,
            nodes_wf(old(self).recorder@.root),
            nodes_bare(old(self).recorder@.root),
            samples_backdrop(old(self).recorder@.root) ==> SizeClass::of(
                context.viewport(),
                old(self).frame.maximum_dimension,
            ) is Some,
            forall|
                a: RectangleBits,
                b: RectangleBits,
                c: RectangleBits,
                parent: Context,
                grid: CaptureGrid,
            | #[trigger]
                call_requires(*locate, (a, b, c, parent, grid)),
            forall|bounds: RectangleBits, parent: Context| #[trigger]
                call_requires(*place, (bounds, parent)),
            forall|extent: Size| #[trigger] call_requires(*create, (extent,)),
        ensures
            final(self).frame.state.wf(),
            final(self).layers@.wf(),
            final(self).recorder@.wf(),
            final(self).recorder@.root.len() == 0,
            final(self).recorder@.open.len() == 0,
            final(self).frame.device() == begun_device(old(self).frame),
            final(self).frame.state.limits == old(self).frame.state.limits,
            final(self).frame.state.pending_keep_alives
                == old(self).frame.state.pending_keep_alives,
            final(self).frame.state.frame_keep_alives@ == Map::<
                u64,
                CacheResidencyPriority,
            >::empty(),
            final(self).layers@ == (if draw is Direct {
                merged_stack::<T, X>(old(self).layers@)
            } else {
                continued::<T, X>(recorded_of::<T, X>(old(self).layers@))
            }),
            drawing_prepared(
                *old(self),
                final(self).frame.books(),
                context,
                *locate,
                *place,
                *create,
                draw,
            ),
            draw.wf(final(self).layers@),
            final(self).frame.state.diagnostics.allocated_bytes < u64::MAX
                ==> final(self).frame.worth() + draw_holdings(draw).bytes
                == old(self).frame.worth()
                + final(self).frame.state.diagnostics.allocated_bytes,
    {
        let ghost before = *self;
        let ghost begun = begun_books(before.frame);
        let ghost device = begun_device(before.frame);
        let segmented = self.recorder.is_segmented();
        self.frame.state.begin_frame();
        self.frame.counters = Counters { quads: 0, triangles: 0, images: 0, texts: 0 };
        self.frame.reports = Vec::new();
        proof {
            assert(self.frame.books() =~= begun);
            starting_a_frame_conserves_bytes(
                before.frame.state.registry@,
                before.frame.state.frame_keep_alives@,
                device.frame,
            );
        }
        if !segmented {
            self.layers.merge();
            let prepared = prepare_layers(
                &self.layers,
                &context,
                &mut self.frame.counters,
                place,
            );
            proof {
                let placed = choose|placed: Seq<Option<Placed>>| #[trigger]
                    places::<T, P>(*place, context, self.layers@.drawn(), placed) && {
                        let contents = all_contents::<T>(self.layers@.drawn());
                        &&& prepared@ == prepared_layers(begun.counters, contents, placed)
                        &&& self.frame.counters == counted_up_to(
                            begun.counters,
                            contents,
                            placed,
                            contents.len() as int,
                        )
                    };
                assert(places::<T, P>(*place, context, self.layers@.drawn(), placed));
                assert(directly_prepared::<T, X, G, V, P>(
                    begun,
                    self.frame.books(),
                    self.layers@,
                    context,
                    *place,
                    prepared@,
                ));
            }
            return Draw::Direct { context, prepared };
        }
        let mut sequence = self.recorder.take(&mut self.layers);
        let ghost nodes = sequence.0@;
        proof {
            lemma_taken_nodes::<T, X, G, V>(before.recorder@.root, nodes, before.layers@);
            lemma_plannable(nodes);
            lemma_bare_is_releasable(nodes);
        }
        let mut used = context;
        let root = if sequence.needs_backdrop() {
            let viewport = context.physical_viewport();
            let root = self.frame.lease_target(viewport, create);
            proof {
                crate::pool::size_class_contains_the_request(
                    viewport,
                    self.frame.maximum_dimension,
                );
            }
            used.set_backing_extent(root.get().extent);
            Some(root)
        } else {
            None
        };
        let ghost rooted = self.frame.books();
        self.frame.prepare_sequence(&mut sequence, &used, locate, place, create);
        proof {
            assert(root_prepared(device, begun, rooted, context, used, *create, root, nodes));
            lemma_still_samples(
                device,
                rooted,
                self.frame.books(),
                used,
                *locate,
                *place,
                *create,
                nodes,
                sequence.0@,
            );
        }
        Draw::Segmented { context: used, root, sequence }
    }
}

proof fn lemma_taken_nodes<T: DrawnLayer, X: Copy, G, V>(
    root: Seq<Node<T, X, G, V>>,
    nodes: Seq<Node<T, X, G, V>>,
    stack: Drawing<T::Model, X>,
)
    requires
        stack.wf(),
        nodes_wf(root),
        nodes_bare(root),
        leaf_appended(root, nodes, recorded_of::<T, X>(stack)),
    ensures
        nodes_wf(nodes),
        nodes_bare(nodes),
        samples_backdrop(nodes) == samples_backdrop(root),
{
    let recorded = recorded_of::<T, X>(stack);
    assert(recorded.path() =~= stack.path());
    assert(recorded.wf());
    assert forall|i: int| 0 <= i < nodes.len() implies node_wf(#[trigger] nodes[i])
        && crate::traversal::node_bare(nodes[i]) by {
        if i < root.len() {
            assert(nodes[i] == root[i]);
            assert(node_wf(root[i]));
            assert(crate::traversal::node_bare(root[i]));
        }
    }
    assert forall|i: int| 0 <= i < nodes.len() implies crate::traversal::node_bare(
        #[trigger] nodes[i],
    ) by {
        assert(node_wf(nodes[i]));
    }
    if samples_backdrop(root) {
        let i = choose|i: int|
            0 <= i < root.len() && (#[trigger] root[i] matches Node::Effect(node)
                && crate::effect::stack_reads_backdrop(node.effects@));
        assert(nodes[i] == root[i]);
    }
    if samples_backdrop(nodes) {
        let i = choose|i: int|
            0 <= i < nodes.len() && (#[trigger] nodes[i] matches Node::Effect(node)
                && crate::effect::stack_reads_backdrop(node.effects@));
        assert(i < root.len());
        assert(nodes[i] == root[i]);
    }
}

proof fn lemma_bare_is_releasable<T: DrawnLayer, X: Copy, G, V>(nodes: Seq<Node<T, X, G, V>>)
    requires
        nodes_bare(nodes),
    ensures
        nodes_releasable(nodes),
    decreases nodes,
{
    assert forall|i: int| 0 <= i < nodes.len() implies crate::traversal::node_releasable(
        #[trigger] nodes[i],
    ) by {
        assert(crate::traversal::node_bare(nodes[i]));
        match nodes[i] {
            Node::Leaf(_) => {},
            Node::Layer(node) => {
                assert(crate::traversal::layer_bare(node));
                lemma_bare_is_releasable(node.content.0@);
                assert(crate::traversal::layer_releasable(node));
            },
            Node::Effect(node) => {
                assert(crate::traversal::layer_bare(node));
                lemma_bare_is_releasable(node.content.0@);
                assert(crate::traversal::layer_releasable(node));
            },
        }
    }
}

proof fn lemma_still_samples<
    T: DrawnLayer,
    X: Copy,
    G,
    V,
    L: Fn(RectangleBits, RectangleBits, RectangleBits, Context, CaptureGrid) -> Option<Located>,
    P: Fn(RectangleBits, Context) -> Option<Placed>,
    C: Fn(Size) -> G,
>(
    device: Device,
    before: Books<G, V>,
    after: Books<G, V>,
    parent: Context,
    locate: L,
    place: P,
    create: C,
    nodes: Seq<Node<T, X, G, V>>,
    nodes_after: Seq<Node<T, X, G, V>>,
)
    requires
        nodes_prepared(
            device,
            before,
            after,
            parent,
            locate,
            place,
            create,
            nodes,
            nodes_after,
        ),
    ensures
        samples_backdrop(nodes_after) == samples_backdrop(nodes),
{
    let trace = choose|trace: Seq<Books<G, V>>| #[trigger]
        crate::traversal::leads(trace, before, after, nodes.len()) && forall|i: int|
            0 <= i < nodes.len() ==> crate::traversal::node_prepared(
                device,
                trace[i],
                trace[i + 1],
                parent,
                locate,
                place,
                create,
                #[trigger] nodes[i],
                nodes_after[i],
            );
    assert forall|i: int| 0 <= i < nodes.len() implies (match (#[trigger] nodes[i], nodes_after[i]) {
        (Node::Effect(node), Node::Effect(node_after)) => node_after.effects == node.effects,
        (Node::Effect(_), _) => false,
        (_, Node::Effect(_)) => false,
        _ => true,
    }) by {
        assert(crate::traversal::node_prepared(
            device,
            trace[i],
            trace[i + 1],
            parent,
            locate,
            place,
            create,
            nodes[i],
            nodes_after[i],
        ));
    }
    if samples_backdrop(nodes) {
        let i = choose|i: int|
            0 <= i < nodes.len() && (#[trigger] nodes[i] matches Node::Effect(node)
                && crate::effect::stack_reads_backdrop(node.effects@));
        assert(nodes_after[i] is Effect);
        assert(samples_backdrop(nodes_after));
    }
    if samples_backdrop(nodes_after) {
        let i = choose|i: int|
            0 <= i < nodes_after.len() && (#[trigger] nodes_after[i] matches Node::Effect(node)
                && crate::effect::stack_reads_backdrop(node.effects@));
        assert(nodes[i] is Effect);
        assert(samples_backdrop(nodes));
    }
}

impl<T: DrawnLayer, X: Copy, G, V> Draw<T, X, G, V> {
    /// Whether the prepared entries belong to the recorded drawing, given the stack that is
    /// drawn directly, and nothing is read from a root that cannot be.
    pub open spec fn wf(self, layers: Drawing<T::Model, X>) -> bool {
        match self {
            Draw::Direct { prepared, .. } => prepared@.len() == layers.drawn().len(),
            Draw::Segmented { root, sequence, .. } => {
                &&& nodes_wf(sequence.0@)
                &&& nodes_releasable(sequence.0@)
                &&& samples_backdrop(sequence.0@) ==> root is Some
            },
        }
    }
}

/// The steps that draw a prepared sequence, cleared to the background if `clear`.
///
/// With a target standing in for the root, everything is drawn into it, and it is composited
/// in the end.
pub open spec fn segmented_commands<'a, T: DrawnLayer, X: Copy, G, V>(
    context: Context,
    root: Option<Target<G, V>>,
    nodes: Seq<Node<T, X, G, V>>,
    clear: bool,
) -> Seq<Command<'a, T, X, G, V>> {
    match root {
        Some(root) => {
            let surface = Surface::Target(&root);
            seq![
                Command::Clear {
                    surface,
                    fill: if clear {
                        Fill::Background
                    } else {
                        Fill::Transparent
                    },
                },
            ] + nodes_commands(nodes, surface, context) + seq![
                Command::Composite {
                    output: &root,
                    composite: Composite::plain(),
                    capture: &context,
                    into: Surface::Root,
                    viewport: context.viewport(),
                    clip: Rectangle {
                        x: 0,
                        y: 0,
                        width: context.viewport().width,
                        height: context.viewport().height,
                    },
                    fill: if clear {
                        Fill::Transparent
                    } else {
                        Fill::Keep
                    },
                },
            ]
        },
        None => seq![
            Command::Clear {
                surface: Surface::Root,
                fill: if clear {
                    Fill::Background
                } else {
                    Fill::Keep
                },
            },
        ] + nodes_commands(nodes, Surface::Root, context),
    }
}

/// Returns the steps that draw a prepared sequence.
pub fn draw_segmented<'a, T: DrawnLayer, X: Copy, G, V>(
    context: &'a Context,
    root: &'a Option<Target<G, V>>,
    sequence: &'a Sequence<T, X, G, V>,
    clear: bool,
) -> (commands: Vec<Command<'a, T, X, G, V>>)
    requires
        nodes_wf(sequence.0@),
        nodes_releasable(sequence.0@),
        samples_backdrop(sequence.0@) ==> *root is Some,
    ensures
        commands@ == segmented_commands(*context, *root, sequence.0@, clear),
{
    let mut commands: Vec<Command<'a, T, X, G, V>> = Vec::new();
    match root {
        Some(root) => {
            let fill = if clear {
                Fill::Background
            } else {
                Fill::Transparent
            };
            commands.push(Command::Clear { surface: Surface::Target(root), fill });
            render_sequence(sequence, Surface::Target(root), context, &mut commands);
            let viewport = context.physical_viewport();
            commands.push(
                Command::Composite {
                    output: root,
                    composite: Composite::default(),
                    capture: context,
                    into: Surface::Root,
                    viewport,
                    clip: Rectangle::with_size(viewport),
                    fill: if clear {
                        Fill::Transparent
                    } else {
                        Fill::Keep
                    },
                },
            );
        },
        None => {
            let fill = if clear {
                Fill::Background
            } else {
                Fill::Keep
            };
            commands.push(Command::Clear { surface: Surface::Root, fill });
            render_sequence(sequence, Surface::Root, context, &mut commands);
        },
    }
    assert(commands@ =~= segmented_commands(*context, *root, sequence.0@, clear));
    commands
}

/// What a draw still holds: the targets of its layers, and the one that stands in for the
/// root.
pub open spec fn draw_holdings<T: DrawnLayer, X: Copy, G, V>(draw: Draw<T, X, G, V>) -> Holdings {
    match draw {
        Draw::Direct { .. } => Holdings { count: 0, bytes: 0 },
        Draw::Segmented { root, sequence, .. } => {
            let held = holdings(sequence.0@);
            match root {
                Some(root) => Holdings {
                    count: held.count + 1,
                    bytes: held.bytes + root.size() as nat,
                },
                None => held,
            }
        },
    }
}

/// Whether giving back what a draw holds may turn the books into `after` and the recorded
/// nodes into `nodes`. The target that stood in for the root goes back first.
pub open spec fn draw_released<T: DrawnLayer, X: Copy, G, V>(
    before: Frame<G, V>,
    after: Frame<G, V>,
    draw: Draw<T, X, G, V>,
    nodes: Seq<Node<T, X, G, V>>,
) -> bool {
    &&& after.same_draw(before)
    &&& match draw {
        Draw::Direct { .. } => after.books() == before.books() && nodes.len() == 0,
        Draw::Segmented { root, sequence, .. } => nodes_released(
            before.device(),
            Books {
                pool: match root {
                    Some(root) => before.state.pool@.push(filed(root)),
                    None => before.state.pool@,
                },
                ..before.books()
            },
            after.books(),
            sequence.0@,
            nodes,
        ),
    }
}

impl<T: DrawnLayer, X: Copy, G, V> Renderer<T, X, G, V> {
    /// Returns the steps that draw the layers which were recorded directly.
    pub fn render(&self, prepared: &Vec<Option<PreparedLayer>>, clear: bool) -> (commands: Vec<
        DrawCommand,
    >)
        requires
            self.layers@.wf(),
            prepared@.len() == self.layers@.drawn().len(),
        ensures
            commands@ == stack_commands(
                all_contents::<T>(self.layers@.drawn()),
                prepared@,
                clear,
            ),
    {
        draw_layers(&self.layers, prepared, clear)
    }

    /// Ends a draw: gives back what it holds, offers rendered outputs for retention, and
    /// enforces the budget. The recorded drawing can be drawn again.
    pub fn finish_draw(&mut self, draw: Draw<T, X, G, V>) -> (audit: LeaseAudit)
        requires
            old(self).frame.state.wf(),
            old(self).recorder@.wf(),
            old(self).recorder@.root.len() == 0,
            old(self).recorder@.open.len() == 0,
            draw matches Draw::Segmented { sequence, .. } ==> nodes_releasable(sequence.0@),
            old(self).frame.can_take(draw_holdings(draw)),
            old(self).frame.state.pool@.len() + draw_holdings(draw).count
                + old(self).frame.state.registry@.slots.dom().len() <= usize::MAX,
        ensures
            final(self).frame.state.wf(),
            final(self).frame.state.countable(),
            final(self).recorder@.wf(),
            final(self).recorder@.open.len() == 0,
            nodes_bare(final(self).recorder@.root),
            draw matches Draw::Segmented { sequence, .. } && nodes_wf(sequence.0@) ==> nodes_wf(
                final(self).recorder@.root,
            ),
            final(self).layers == old(self).layers,
            exists|released: Frame<G, V>| #[trigger]
                draw_released(old(self).frame, released, draw, final(self).recorder@.root)
                    && final(self).frame == (Frame {
                    state: final(self).frame.state,
                    ..released
                }) && released.state.finished(final(self).frame.state, audit),
            final(self).frame.state.diagnostics.retained()
                <= old(self).frame.state.limits.budget_bytes || (total_bytes(
                final(self).frame.state.pool@,
            ) == 0 && forall|identity: u64| #[trigger]
                final(self).frame.state.registry@.slots.contains_key(identity)
                    && final(self).frame.state.registry@.slots[identity].committed is Some
                    ==> final(self).frame.state.registry@.slots[identity].active is Some),
    {
        let ghost before = self.frame;
        match draw {
            Draw::Direct { .. } => {},
            Draw::Segmented { root, sequence, .. } => {
                if let Some(root) = root {
                    proof {
                        assert(before.state.pool@.push(filed(root)).drop_last()
                            =~= before.state.pool@);
                    }
                    self.frame.state.pool.release(root);
                }
                let mut sequence = sequence;
                self.frame.release_prepared_sequence(&mut sequence);
                self.recorder.restore(sequence);
            },
        }
        let ghost released = self.frame;
        let audit = self.frame.state.finish_frame();
        proof {
            assert(draw_released(before, released, draw, self.recorder@.root));
        }
        audit
    }
}

/// A draw starts afresh, with a frame number of its own: nothing is counted or reported yet, no
/// lease of an earlier frame is left, and every output that was kept alive survives the frame. The
/// free backings and the retained outputs are those of the frame before.
pub proof fn draws_start_afresh<G, V>(frame: Frame<G, V>, grace: u64, identity: u64)
    ensures
        ({
            let device = begun_device(frame);
            let books = begun_books(frame);
            let number = device.frame;
            &&& number != frame.state.frame
            &&& frame.state.frame < u64::MAX ==> number == frame.state.frame + 1
            &&& device.format == frame.format
            &&& device.maximum_dimension == frame.maximum_dimension
            &&& device.epoch == frame.device_epoch
            &&& device.missing_before == frame.state.missing_content.now()
            &&& books.pool == frame.state.pool@
            &&& books.diagnostics.output_cache_hits == 0
            &&& books.diagnostics.output_cache_misses == 0
            &&& books.diagnostics.uncached_renders == 0
            &&& books.diagnostics.allocated_bytes == 0
            &&& books.counters.quads == 0 && books.counters.triangles == 0
            &&& books.counters.images == 0 && books.counters.texts == 0
            &&& books.missing == Set::<u64>::empty()
            &&& books.reports.len() == 0
            &&& books.outputs.slots.dom() == frame.state.registry@.slots.dom()
            &&& frame.state.registry@.slots.contains_key(identity) ==> {
                let slot = frame.state.registry@.slots[identity];
                &&& books.outputs.slots[identity].committed == slot.committed
                &&& books.outputs.slots[identity].active matches Some(active) ==> active.frame
                    == number
                &&& frame.state.frame_keep_alives@.contains_key(identity) ==> books.outputs.swept(
                    number,
                    grace,
                ).slots.contains_key(identity)
            }
        }),
{
    assert(begun_books(frame).outputs.slots.dom() =~= frame.state.registry@.slots.dom());
}

/// Drawing without isolated layers is drawn directly, and drawing with them node by node: those
/// that were recorded, and then what was drawn after the last of them.
pub proof fn isolated_layers_are_drawn_node_by_node<
    T: DrawnLayer,
    X: Copy,
    G,
    V,
    L: Fn(RectangleBits, RectangleBits, RectangleBits, Context, CaptureGrid) -> Option<Located>,
    P: Fn(RectangleBits, Context) -> Option<Placed>,
    C: Fn(Size) -> G,
>(
    before: Renderer<T, X, G, V>,
    after: Books<G, V>,
    context: Context,
    locate: L,
    place: P,
    create: C,
    draw: Draw<T, X, G, V>,
    i: int,
)
    requires
        drawing_prepared(before, after, context, locate, place, create, draw),
    ensures
        draw is Direct <==> before.recorder@.root.len() == 0,
        draw matches Draw::Direct { context: used, prepared } ==> {
            &&& used == context
            &&& prepared@.len() == merged_stack::<T, X>(before.layers@).drawn().len()
            &&& after.pool == begun_books(before.frame).pool
            &&& after.outputs == begun_books(before.frame).outputs
        },
        draw matches Draw::Segmented { context: used, root, sequence } ==> {
            &&& used.viewport() == context.viewport()
            &&& root is None ==> used == context
            &&& root matches Some(root) ==> used.backing_extent == root.owned().extent
            &&& root is Some <==> exists|k: int|
                0 <= k < sequence.0@.len() && (#[trigger] sequence.0@[k] matches Node::Effect(node)
                    && crate::effect::stack_reads_backdrop(node.effects@))
            &&& before.recorder@.root.len() <= sequence.0@.len() <= before.recorder@.root.len() + 1
            &&& 0 <= i < before.recorder@.root.len() ==> {
                &&& sequence.0@[i] is Leaf <==> before.recorder@.root[i] is Leaf
                &&& sequence.0@[i] is Layer <==> before.recorder@.root[i] is Layer
                &&& sequence.0@[i] is Effect <==> before.recorder@.root[i] is Effect
                &&& before.recorder@.root[i] matches Node::Layer(node)
                    ==> sequence.0@[i]->Layer_0.layer == node.layer
                &&& before.recorder@.root[i] matches Node::Effect(node)
                    ==> sequence.0@[i]->Effect_0.layer == node.layer
                    && sequence.0@[i]->Effect_0.effects == node.effects
            }
            &&& sequence.0@.len() > before.recorder@.root.len() ==> sequence.0@.last() is Leaf
            &&& crate::recording::visible::<T>(recorded_of::<T, X>(before.layers@).drawn())
                ==> sequence.0@.len() == before.recorder@.root.len() + 1
        },
{
    let begun = begun_books(before.frame);
    match draw {
        Draw::Direct { .. } => {},
        Draw::Segmented { context: used, root, sequence } => {
            let (nodes, rooted) = choose|nodes: Seq<Node<T, X, G, V>>, rooted: Books<G, V>|
                #![trigger root_prepared(
                    begun_device(before.frame),
                    begun,
                    rooted,
                    context,
                    used,
                    create,
                    root,
                    nodes,
                )]
                {
                    &&& leaf_appended(
                        before.recorder@.root,
                        nodes,
                        recorded_of::<T, X>(before.layers@),
                    )
                    &&& root_prepared(
                        begun_device(before.frame),
                        begun,
                        rooted,
                        context,
                        used,
                        create,
                        root,
                        nodes,
                    )
                    &&& nodes_prepared(
                        begun_device(before.frame),
                        rooted,
                        after,
                        used,
                        locate,
                        place,
                        create,
                        nodes,
                        sequence.0@,
                    )
                };
            assert forall|k: int| 0 <= k < nodes.len() implies (#[trigger] nodes[k] is Leaf
                <==> sequence.0@[k] is Leaf) && (nodes[k] is Layer <==> sequence.0@[k] is Layer)
                && (nodes[k] is Effect <==> sequence.0@[k] is Effect) && (nodes[k] is Layer
                ==> sequence.0@[k]->Layer_0.layer == nodes[k]->Layer_0.layer) && (
            nodes[k] is Effect ==> sequence.0@[k]->Effect_0.layer == nodes[k]->Effect_0.layer
                && sequence.0@[k]->Effect_0.effects == nodes[k]->Effect_0.effects) by {
                preparing_keeps_the_recording(
                    begun_device(before.frame),
                    rooted,
                    after,
                    used,
                    locate,
                    place,
                    create,
                    nodes,
                    sequence.0@,
                    k,
                );
            }
            assert(nodes.len() == sequence.0@.len());
            if samples_backdrop(nodes) {
                let k = choose|k: int|
                    0 <= k < nodes.len() && (#[trigger] nodes[k] matches Node::Effect(node)
                        && crate::effect::stack_reads_backdrop(node.effects@));
                assert(sequence.0@[k] is Effect);
            }
            if exists|k: int|
                0 <= k < sequence.0@.len() && (#[trigger] sequence.0@[k] matches Node::Effect(node)
                    && crate::effect::stack_reads_backdrop(node.effects@)) {
                let k = choose|k: int|
                    0 <= k < sequence.0@.len() && (#[trigger] sequence.0@[k] matches Node::Effect(
                        node,
                    ) && crate::effect::stack_reads_backdrop(node.effects@));
                assert(nodes[k] is Effect);
            }
            if 0 <= i < before.recorder@.root.len() {
                if nodes.len() > before.recorder@.root.len() {
                    assert(nodes.drop_last()[i] == nodes[i]);
                }
                assert(nodes[i] == before.recorder@.root[i]);
            }
            if nodes.len() > before.recorder@.root.len() {
                assert(nodes[nodes.len() - 1] is Leaf);
            }
        },
    }
}

/// Drawing a sequence begins with a clear and then draws the nodes. With a target that stands in
/// for the root, all of it goes there, and in the end the whole target is composited into the
/// root. The background is filled in once if it is asked for, and what the root holds is kept
/// otherwise.
pub proof fn root_targets_are_shown_last<'a, T: DrawnLayer, X: Copy, G, V>(
    context: Context,
    root: Option<Target<G, V>>,
    nodes: Seq<Node<T, X, G, V>>,
    clear: bool,
)
    ensures
        ({
            let commands = segmented_commands::<T, X, G, V>(context, root, nodes, clear);
            match root {
                Some(root) => {
                    let drawn = nodes_commands(nodes, Surface::Target(&root), context);
                    &&& commands.len() == drawn.len() + 2
                    &&& commands.subrange(1, commands.len() - 1) == drawn
                    &&& commands.first() matches Command::Clear { surface, fill } && surface
                        == Surface::Target(&root) && (fill == Fill::Background <==> clear) && (fill
                        == Fill::Transparent <==> !clear)
                    &&& commands.last() matches Command::Composite {
                        output,
                        composite,
                        capture,
                        into,
                        viewport,
                        clip,
                        fill,
                    } && {
                        &&& *output == root
                        &&& composite.strength() == 0x3f80_0000
                        &&& composite.blend() == crate::context::BlendMode::SourceOver
                        &&& *capture == context
                        &&& into == Surface::<G, V>::Root
                        &&& viewport == context.viewport()
                        &&& clip.x == 0 && clip.y == 0
                        &&& clip.width == context.source_rect.width
                        &&& clip.height == context.source_rect.height
                        &&& fill == Fill::Keep <==> !clear
                        &&& fill == Fill::Transparent <==> clear
                    }
                },
                None => {
                    let drawn = nodes_commands(nodes, Surface::Root, context);
                    &&& commands.len() == drawn.len() + 1
                    &&& commands.skip(1) == drawn
                    &&& commands.first() matches Command::Clear { surface, fill } && surface
                        == Surface::<G, V>::Root && (fill == Fill::Background <==> clear) && (fill
                        == Fill::Keep <==> !clear)
                },
            }
        }),
{
    let commands = segmented_commands::<T, X, G, V>(context, root, nodes, clear);
    match root {
        Some(root) => {
            let drawn = nodes_commands(nodes, Surface::Target(&root), context);
            assert(commands.subrange(1, commands.len() - 1) =~= drawn);
            crate::request::plain_composites_show_outputs_as_they_are();
        },
        None => {
            let drawn = nodes_commands(nodes, Surface::Root, context);
            assert(commands.skip(1) =~= drawn);
        },
    }
}

/// Ending a draw frees the target that stood in for the root, and takes no free backing away.
/// The recorded drawing is then as it was, with nothing prepared.
pub proof fn finished_draws_free_their_root_target<T: DrawnLayer, X: Copy, G, V>(
    before: Frame<G, V>,
    after: Frame<G, V>,
    draw: Draw<T, X, G, V>,
    nodes: Seq<Node<T, X, G, V>>,
)
    requires
        draw_released(before, after, draw, nodes),
    ensures
        before.state.pool@.is_prefix_of(after.state.pool@),
        draw matches Draw::Segmented { root: Some(root), .. } ==> after.state.pool@.contains(
            filed(root),
        ),
        draw matches Draw::Segmented { sequence, .. } ==> nodes.len() == sequence.0@.len(),
        draw is Direct ==> after.state.registry@ == before.state.registry@ && nodes.len() == 0,
        after.state.frame == before.state.frame,
        after.state.limits == before.state.limits,
{
    match draw {
        Draw::Direct { .. } => {
            assert(after.books().pool == before.books().pool);
        },
        Draw::Segmented { root, sequence, .. } => {
            let pool = match root {
                Some(root) => before.state.pool@.push(filed(root)),
                None => before.state.pool@,
            };
            releasing_only_adds_to_the_pool(
                before.device(),
                Books { pool, ..before.books() },
                after.books(),
                sequence.0@,
                nodes,
            );
            let last = before.state.pool@.len() as int;
            let prefix = after.state.pool@.subrange(0, pool.len() as int);
            assert(after.books().pool == after.state.pool@);
            assert(pool == prefix);
            if root is Some {
                assert(prefix[last] == filed(root->0));
                assert(after.state.pool@[last] == filed(root->0));
            }
            assert(before.state.pool@ =~= prefix.subrange(0, last));
            assert(before.state.pool@ =~= after.state.pool@.subrange(0, last));
        },
    }
}

/// A draw holds the targets of its nodes, and one more if one stands in for the root.
pub proof fn draws_hold_their_root_target<T: DrawnLayer, X: Copy, G, V>(
    context: Context,
    root: Target<G, V>,
    sequence: Sequence<T, X, G, V>,
)
    ensures
        ({
            let with = draw_holdings::<T, X, G, V>(
                Draw::Segmented { context, root: Some(root), sequence },
            );
            let without = draw_holdings::<T, X, G, V>(
                Draw::Segmented { context, root: None, sequence },
            );
            &&& with.count == without.count + 1
            &&& with.bytes == without.bytes + root.size()
            &&& without == holdings(sequence.0@)
        }),
{
}

/// Ordinary drawing is prepared layer by layer: a layer that is somewhere drawn gets an entry with
/// its place, and one that is not gets none. Only the counters change.
pub proof fn direct_drawing_is_prepared_layer_by_layer<
    T: DrawnLayer,
    X: Copy,
    G,
    V,
    P: Fn(RectangleBits, Context) -> Option<Placed>,
>(
    before: Books<G, V>,
    after: Books<G, V>,
    stack: Drawing<T::Model, X>,
    context: Context,
    place: P,
    prepared: Seq<Option<PreparedLayer>>,
    i: int,
)
    requires
        directly_prepared::<T, X, G, V, P>(before, after, stack, context, place, prepared),
        0 <= i < stack.drawn().len(),
    ensures
        prepared.len() == stack.drawn().len(),
        match prepared[i] {
            Some(entry) => call_ensures(
                place,
                (T::bounds_of(stack.drawn()[i]), context),
                Some(Placed { bounds: entry.physical_bounds, scissor: entry.scissor }),
            ),
            None => call_ensures(place, (T::bounds_of(stack.drawn()[i]), context), None),
        },
        after.pool == before.pool,
        after.outputs == before.outputs,
        after.diagnostics == before.diagnostics,
        after.reports == before.reports,
        after.missing == before.missing,
{
    let contents = all_contents::<T>(stack.drawn());
    let placed = choose|placed: Seq<Option<Placed>>| #[trigger]
        places::<T, P>(place, context, stack.drawn(), placed) && prepared == prepared_layers(
            before.counters,
            contents,
            placed,
        ) && after == (Books {
            counters: counted_up_to(before.counters, contents, placed, contents.len() as int),
            ..before
        });
    assert(call_ensures(place, (T::bounds_of(stack.drawn()[i]), context), placed[i]));
    if placed[i] is Some {
        let at = placed[i]->0;
        assert(at == (Placed { bounds: at.bounds, scissor: at.scissor }));
    }
}

} // verus!
