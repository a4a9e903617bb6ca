//! Preparing, drawing and releasing a recorded sequence.

use crate::content::{CacheRequest, Stamp};
use crate::context::{CaptureGrid, Context};
use crate::drawing::{leaf_prepared, prepare_leaf, DrawnLayer, Placed};
use crate::effect::{
    collected, stack_reads_backdrop, stages_gave, total_passes, EffectStack, Stage,
};
use crate::float_bits::RectangleBits;
use crate::frame::{
    backed_context, grid_of, is_position_sensitive, layer_prepared, prepared_wf, signature_of,
    Books, Device, Frame, Located,
};
use crate::free_pool::{lemma_joined, total_bytes};
use crate::geometry::Size;
use crate::output_key::OutputKey;
use crate::pool::{all_filed, filed, Target};
use crate::recording::{
    Leaf, Node, PreparedEffectPass, PreparedIsolatedLayer, RecordedLayer, Sequence,
};
use crate::request::Layer;
use crate::retained::{storing, submission_of, OutputTarget, StoreStep};
use crate::retention_laws::{sizes, storing_conserves_bytes};
use crate::scratch;
use vstd::prelude::*;

verus! {

/// Whether every node, at any depth, can be prepared.
pub open spec fn nodes_wf<T: DrawnLayer, X: Copy, G, V>(nodes: Seq<Node<T, X, G, V>>) -> bool
    decreases nodes,
{
    forall|i: int| 0 <= i < nodes.len() ==> node_wf(#[trigger] nodes[i])
}

/// Whether a node can be prepared: its stacks and requests are well formed, its passes can be
/// counted on this machine, and a plain layer has none.
pub open spec fn node_wf<T: DrawnLayer, X: Copy, G, V>(node: Node<T, X, G, V>) -> bool
    decreases node,
{
    match node {
        Node::Leaf(leaf) => leaf.stack@.wf(),
        Node::Layer(node) => layer_wf(node) && node.effects@.len() == 0,
        Node::Effect(node) => layer_wf(node),
    }
}

/// Whether an isolated layer and everything recorded into it can be prepared.
pub open spec fn layer_wf<T: DrawnLayer, X: Copy, G, V>(node: RecordedLayer<T, X, G, V>) -> bool
    decreases node,
{
    &&& node.layer.wf()
    &&& total_passes(node.effects@) + 2 <= usize::MAX
    &&& nodes_wf(node.content.0@)
}

/// Whether `trace` leads from one state of the books to another in `steps` steps.
pub open spec fn leads<G, V>(
    trace: Seq<Books<G, V>>,
    before: Books<G, V>,
    after: Books<G, V>,
    steps: nat,
) -> bool {
    &&& trace.len() == steps + 1
    &&& trace.first() == before
    &&& trace.last() == after
}

/// Whether preparing nodes one after the other may turn the books and the nodes into these.
pub open spec fn nodes_prepared<
    T: DrawnLayer,
    X: Copy,
    G,
    V,
    L: Fn(RectangleBits, RectangleBits, RectangleBits, Context, CaptureGrid) -> Option<Located>,
    P: Fn(RectangleBits, Context) -> Option<Placed>,
    C: Fn(Size) -> G,
>(
    device: Device,
    before: Books<G, V>,
    after: Books<G, V>,
    parent: Context,
    locate: L,
    place: P,
    create: C,
    nodes: Seq<Node<T, X, G, V>>,
    nodes_after: Seq<Node<T, X, G, V>>,
) -> bool
    decreases nodes,
{
    &&& nodes_after.len() == nodes.len()
    &&& exists|trace: Seq<Books<G, V>>| #[trigger]
        leads(trace, before, after, nodes.len()) && forall|i: int|
            0 <= i < nodes.len() ==> node_prepared(
                device,
                trace[i],
                trace[i + 1],
                parent,
                locate,
                place,
                create,
                #[trigger] nodes[i],
                nodes_after[i],
            )
}

/// Whether preparing a node may turn the books and the node into these.
pub open spec fn node_prepared<
    T: DrawnLayer,
    X: Copy,
    G,
    V,
    L: Fn(RectangleBits, RectangleBits, RectangleBits, Context, CaptureGrid) -> Option<Located>,
    P: Fn(RectangleBits, Context) -> Option<Placed>,
    C: Fn(Size) -> G,
>(
    device: Device,
    before: Books<G, V>,
    after: Books<G, V>,
    parent: Context,
    locate: L,
    place: P,
    create: C,
    node: Node<T, X, G, V>,
    node_after: Node<T, X, G, V>,
) -> bool
    decreases node,
{
    match (node, node_after) {
        (Node::Leaf(leaf), Node::Leaf(leaf_after)) => {
            &&& leaf_prepared::<T, X, P>(
                place,
                parent,
                before.counters,
                after.counters,
                leaf,
                leaf_after,
            )
            &&& after == (Books { counters: after.counters, ..before })
        },
        (Node::Layer(node), Node::Layer(node_after)) => recorded_layer_prepared(
            device,
            before,
            after,
            parent,
            locate,
            place,
            create,
            node,
            node_after,
        ),
        (Node::Effect(node), Node::Effect(node_after)) => recorded_layer_prepared(
            device,
            before,
            after,
            parent,
            locate,
            place,
            create,
            node,
            node_after,
        ),
        _ => false,
    }
}

/// Whether preparing an isolated layer with everything recorded into it may turn the books
/// and the layer into these.
///
/// A layer that has no place keeps what it has. One whose output was retained keeps its
/// content as it is: the content is prepared only if it is to be rendered.
pub open spec fn recorded_layer_prepared<
    T: DrawnLayer,
    X: Copy,
    G,
    V,
    L: Fn(RectangleBits, RectangleBits, RectangleBits, Context, CaptureGrid) -> Option<Located>,
    P: Fn(RectangleBits, Context) -> Option<Placed>,
    C: Fn(Size) -> G,
>(
    device: Device,
    before: Books<G, V>,
    after: Books<G, V>,
    parent: Context,
    locate: L,
    place: P,
    create: C,
    node: RecordedLayer<T, X, G, V>,
    node_after: RecordedLayer<T, X, G, V>,
) -> bool
    decreases node,
{
    let layer = node.layer;
    &&& node_after.layer == layer
    &&& node_after.logical_surface_size == node.logical_surface_size
    &&& node_after.effects == node.effects
    &&& exists|located: Option<Located>, middle: Books<G, V>| #[trigger]
        reached(
            locate,
            (layer.bounds, layer.content_bounds, layer.clip, parent, grid_of(layer)),
            located,
            middle,
        ) && match backed_context(device, located, node.logical_surface_size) {
            Some(context) => match node_after.prepared {
                Some(prepared) => {
                    &&& prepared_wf(prepared)
                    &&& layer_prepared(
                        device,
                        before,
                        middle,
                        layer,
                        node.effects@,
                        context,
                        located->0.clip,
                        create,
                        prepared,
                    )
                    &&& if prepared.output_valid {
                        node_after.content == node.content && after == middle
                    } else {
                        nodes_prepared(
                            device,
                            middle,
                            after,
                            context,
                            locate,
                            place,
                            create,
                            node.content.0@,
                            node_after.content.0@,
                        )
                    }
                },
                None => false,
            },
            None => {
                &&& after == before
                &&& node_after.prepared == node.prepared
                &&& node_after.content == node.content
            },
        }
}

/// Whether `locate` may answer `located`, at some state of the books.
pub open spec fn reached<
    G,
    V,
    L: Fn(RectangleBits, RectangleBits, RectangleBits, Context, CaptureGrid) -> Option<Located>,
>(
    locate: L,
    question: (RectangleBits, RectangleBits, RectangleBits, Context, CaptureGrid),
    located: Option<Located>,
    middle: Books<G, V>,
) -> bool {
    call_ensures(locate, question, located)
}

impl<G, V> Frame<G, V> {
    /// Prepares a recorded sequence for drawing into a target of the given context.
    ///
    /// `locate` gives where an isolated layer is captured, `place` where an ordinary layer is
    /// drawn, and `create` the resources of a new target.
    pub fn prepare_sequence<
        T: DrawnLayer,
        X: Copy,
        L: Fn(RectangleBits, RectangleBits, RectangleBits, Context, CaptureGrid) -> Option<Located>,
        P: Fn(RectangleBits, Context) -> Option<Placed>,
        C: Fn(Size) -> G,
    >(
        &mut self,
        sequence: &mut Sequence<T, X, G, V>,
        parent: &Context,
        locate: &L,
        place: &P,
        create: &C,
    )
        requires
            old(self).state.wf(),
            nodes_wf(old(sequence).0@),
            forall|
                a: RectangleBits,
                b: RectangleBits,
                c: RectangleBits,
                context: Context,
                grid: CaptureGrid,
            | #[trigger]
                call_requires(*locate, (a, b, c, context, grid)),
            forall|bounds: RectangleBits, context: Context| #[trigger]
                call_requires(*place, (bounds, context)),
            forall|extent: Size| #[trigger] call_requires(*create, (extent,)),
        ensures
            final(self).state.wf(),
            final(self).same_draw(*old(self)),
            nodes_wf(final(sequence).0@),
            nodes_prepared(
                old(self).device(),
                old(self).books(),
                final(self).books(),
                *parent,
                *locate,
                *place,
                *create,
                old(sequence).0@,
                final(sequence).0@,
            ),
            nodes_releasable(old(sequence).0@) ==> nodes_releasable(final(sequence).0@),
            nodes_bare(old(sequence).0@) ==> final(self).handed_out(
                *old(self),
                holdings(final(sequence).0@).bytes,
            ),
        decreases *old(sequence),
    {
        let ghost before = self.books();
        let ghost device = self.device();
        let ghost nodes = sequence.0@;
        let ghost recorded = *sequence;
        let ghost started = *self;
        let ghost mut trace: Seq<Books<G, V>> = seq![before];
        let mut index: usize = 0;
        assert(sequence.0@.take(0) =~= Seq::<Node<T, X, G, V>>::empty());
        while index < sequence.0.len()
            invariant
                self.state.wf(),
                self.same_draw(*old(self)),
                device == self.device(),
                nodes == recorded.0@,
                recorded == *old(sequence),
                nodes_wf(nodes),
                index <= nodes.len(),
                sequence.0@.len() == nodes.len(),
                forall|i: int| index <= i < nodes.len() ==> #[trigger] sequence.0@[i] == nodes[i],
                forall|i: int| 0 <= i < index ==> node_wf(#[trigger] sequence.0@[i]),
                nodes_releasable(nodes) ==> forall|i: int|
                    0 <= i < index ==> node_releasable(#[trigger] sequence.0@[i]),
                nodes_bare(nodes) ==> self.handed_out(
                    started,
                    holdings(sequence.0@.take(index as int)).bytes,
                ),
                started == *old(self),
                trace.len() == index + 1,
                trace.first() == before,
                trace.last() == self.books(),
                forall|i: int|
                    0 <= i < index ==> node_prepared(
                        device,
                        trace[i],
                        trace[i + 1],
                        *parent,
                        *locate,
                        *place,
                        *create,
                        #[trigger] nodes[i],
                        sequence.0@[i],
                    ),
                forall|
                    a: RectangleBits,
                    b: RectangleBits,
                    c: RectangleBits,
                    context: Context,
                    grid: CaptureGrid,
                | #[trigger]
                    call_requires(*locate, (a, b, c, context, grid)),
                forall|bounds: RectangleBits, context: Context| #[trigger]
                    call_requires(*place, (bounds, context)),
                forall|extent: Size| #[trigger] call_requires(*create, (extent,)),
            decreases nodes.len() - index,
        {
            assert(node_wf(nodes[index as int]));
            assert(nodes_releasable(nodes) ==> node_releasable(nodes[index as int]));
            assert(nodes_bare(nodes) ==> node_bare(nodes[index as int]));
            assert(decreases_to!(recorded => recorded.0@[index as int]));
            let ghost earlier = trace;
            let ghost prior = sequence.0@;
            self.prepare_node(&mut sequence.0[index], parent, locate, place, create);
            proof {
                trace = trace.push(self.books());
                assert(sequence.0@ =~= prior.update(index as int, sequence.0@[index as int]));
                assert(sequence.0@.take(index + 1).drop_last() =~= prior.take(index as int));
                assert(sequence.0@.take(index + 1).last() == sequence.0@[index as int]);
                assert forall|i: int| 0 <= i < index + 1 implies node_prepared(
                    device,
                    trace[i],
                    trace[i + 1],
                    *parent,
                    *locate,
                    *place,
                    *create,
                    #[trigger] nodes[i],
                    sequence.0@[i],
                ) by {
                    if i < index {
                        assert(trace[i] == earlier[i] && trace[i + 1] == earlier[i + 1]);
                        assert(sequence.0@[i] == prior[i]);
                    }
                }
            }
            index = index + 1;
        }
        proof {
            assert(sequence.0@.take(index as int) =~= sequence.0@);
            assert(leads(trace, before, self.books(), nodes.len()));
        }
    }

    fn prepare_node<
        T: DrawnLayer,
        X: Copy,
        L: Fn(RectangleBits, RectangleBits, RectangleBits, Context, CaptureGrid) -> Option<Located>,
        P: Fn(RectangleBits, Context) -> Option<Placed>,
        C: Fn(Size) -> G,
    >(
        &mut self,
        node: &mut Node<T, X, G, V>,
        parent: &Context,
        locate: &L,
        place: &P,
        create: &C,
    )
        requires
            old(self).state.wf(),
            node_wf(*old(node)),
            forall|
                a: RectangleBits,
                b: RectangleBits,
                c: RectangleBits,
                context: Context,
                grid: CaptureGrid,
            | #[trigger]
                call_requires(*locate, (a, b, c, context, grid)),
            forall|bounds: RectangleBits, context: Context| #[trigger]
                call_requires(*place, (bounds, context)),
            forall|extent: Size| #[trigger] call_requires(*create, (extent,)),
        ensures
            final(self).state.wf(),
            final(self).same_draw(*old(self)),
            node_wf(*final(node)),
            node_prepared(
                old(self).device(),
                old(self).books(),
                final(self).books(),
                *parent,
                *locate,
                *place,
                *create,
                *old(node),
                *final(node),
            ),
            node_releasable(*old(node)) ==> node_releasable(*final(node)),
            node_bare(*old(node)) ==> final(self).handed_out(
                *old(self),
                node_holdings(*final(node)).bytes,
            ),
        decreases *old(node),
    {
        match node {
            Node::Leaf(leaf) => {
                prepare_leaf(leaf, parent, &mut self.counters, place);
            },
            Node::Layer(layer) => {
                self.prepare_recorded_layer(layer, parent, locate, place, create);
            },
            Node::Effect(layer) => {
                self.prepare_recorded_layer(layer, parent, locate, place, create);
            },
        }
    }

    fn prepare_recorded_layer<
        T: DrawnLayer,
        X: Copy,
        L: Fn(RectangleBits, RectangleBits, RectangleBits, Context, CaptureGrid) -> Option<Located>,
        P: Fn(RectangleBits, Context) -> Option<Placed>,
        C: Fn(Size) -> G,
    >(
        &mut self,
        node: &mut RecordedLayer<T, X, G, V>,
        parent: &Context,
        locate: &L,
        place: &P,
        create: &C,
    )
        requires
            old(self).state.wf(),
            layer_wf(*old(node)),
            forall|
                a: RectangleBits,
                b: RectangleBits,
                c: RectangleBits,
                context: Context,
                grid: CaptureGrid,
            | #[trigger]
                call_requires(*locate, (a, b, c, context, grid)),
            forall|bounds: RectangleBits, context: Context| #[trigger]
                call_requires(*place, (bounds, context)),
            forall|extent: Size| #[trigger] call_requires(*create, (extent,)),
        ensures
            final(self).state.wf(),
            final(self).same_draw(*old(self)),
            layer_wf(*final(node)),
            recorded_layer_prepared(
                old(self).device(),
                old(self).books(),
                final(self).books(),
                *parent,
                *locate,
                *place,
                *create,
                *old(node),
                *final(node),
            ),
            layer_releasable(*old(node)) ==> layer_releasable(*final(node)),
            layer_bare(*old(node)) ==> final(self).handed_out(
                *old(self),
                layer_holdings(*final(node)).bytes,
            ),
        decreases *old(node),
    {
        let ghost device = self.device();
        let ghost before = self.books();
        let ghost recorded = *node;
        let prepared = self.prepare_layer(
            &node.layer,
            node.logical_surface_size,
            &node.effects,
            parent,
            locate,
            create,
        );
        let ghost middle = self.books();
        let ghost question = (
            recorded.layer.bounds,
            recorded.layer.content_bounds,
            recorded.layer.clip,
            *parent,
            grid_of(recorded.layer),
        );
        let ghost given = prepared;
        let ghost located = choose|located: Option<Located>| #[trigger]
            call_ensures(*locate, question, located) && match (
                backed_context(device, located, recorded.logical_surface_size),
                given,
            ) {
                (Some(context), Some(prepared)) => prepared_wf(prepared) && layer_prepared(
                    device,
                    before,
                    middle,
                    recorded.layer,
                    recorded.effects@,
                    context,
                    located->0.clip,
                    *create,
                    prepared,
                ),
                (None, None) => middle == before,
                _ => false,
            };
        assert(reached(*locate, question, located, middle));
        proof {
            if layer_bare(recorded) {
                lemma_bare_nodes_hold_nothing(recorded.content.0@);
            }
            if let Some(prepared) = given {
                lemma_fresh_passes_hold_nothing(prepared.passes@);
                lemma_filed_length(held_targets(prepared));
                assert(held_targets(prepared) =~= prepared.targets@);
            }
        }
        if let Some(prepared) = prepared {
            let context = prepared.context;
            let valid = prepared.output_valid;
            node.prepared = Some(prepared);
            if !valid {
                assert(decreases_to!(recorded => recorded.content));
                self.prepare_sequence(&mut node.content, &context, locate, place, create);
            }
        }
    }
}

/// Scratch textures of a list of passes, in order.
pub open spec fn all_scratch<G, V>(passes: Seq<PreparedEffectPass<G, V>>) -> Seq<Target<G, V>>
    decreases passes.len(),
{
    if passes.len() == 0 {
        Seq::empty()
    } else {
        all_scratch(passes.drop_last()) + passes.last().scratch@
    }
}

/// Targets that a prepared layer holds.
pub open spec fn held_targets<G, V>(prepared: PreparedIsolatedLayer<G, V>) -> Seq<Target<G, V>> {
    all_scratch(prepared.passes@) + prepared.targets@
}

/// Targets that the nodes hold, at any depth, and their bytes.
pub ghost struct Holdings {
    pub count: nat,
    pub bytes: nat,
}

/// What a list of nodes holds.
pub open spec fn holdings<T: DrawnLayer, X: Copy, G, V>(nodes: Seq<Node<T, X, G, V>>) -> Holdings
    decreases nodes,
{
    if nodes.len() == 0 {
        Holdings { count: 0, bytes: 0 }
    } else {
        let before = holdings(nodes.drop_last());
        let last = node_holdings(nodes.last());
        Holdings { count: before.count + last.count, bytes: before.bytes + last.bytes }
    }
}

/// What a node holds.
pub open spec fn node_holdings<T: DrawnLayer, X: Copy, G, V>(node: Node<T, X, G, V>) -> Holdings
    decreases node,
{
    match node {
        Node::Leaf(_) => Holdings { count: 0, bytes: 0 },
        Node::Layer(node) => layer_holdings(node),
        Node::Effect(node) => layer_holdings(node),
    }
}

/// What an isolated layer and everything recorded into it hold.
pub open spec fn layer_holdings<T: DrawnLayer, X: Copy, G, V>(
    node: RecordedLayer<T, X, G, V>,
) -> Holdings
    decreases node,
{
    let content = holdings(node.content.0@);
    match node.prepared {
        Some(prepared) => Holdings {
            count: content.count + held_targets(prepared).len(),
            bytes: content.bytes + total_bytes(all_filed(held_targets(prepared))),
        },
        None => content,
    }
}

/// Whether every prepared layer, at any depth, is well formed.
pub open spec fn nodes_releasable<T: DrawnLayer, X: Copy, G, V>(
    nodes: Seq<Node<T, X, G, V>>,
) -> bool
    decreases nodes,
{
    forall|i: int| 0 <= i < nodes.len() ==> node_releasable(#[trigger] nodes[i])
}

/// Whether a node's prepared state is well formed.
pub open spec fn node_releasable<T: DrawnLayer, X: Copy, G, V>(node: Node<T, X, G, V>) -> bool
    decreases node,
{
    match node {
        Node::Leaf(_) => true,
        Node::Layer(node) => layer_releasable(node),
        Node::Effect(node) => layer_releasable(node),
    }
}

/// Whether the prepared state of an isolated layer and of its content is well formed: a
/// backdrop is there only for effects that sample it.
pub open spec fn layer_releasable<T: DrawnLayer, X: Copy, G, V>(
    node: RecordedLayer<T, X, G, V>,
) -> bool
    decreases node,
{
    &&& node.prepared matches Some(prepared) ==> prepared_wf(prepared) && (prepared.backdrop is Some
        ==> stack_reads_backdrop(node.effects@))
    &&& nodes_releasable(node.content.0@)
}

/// Whether nothing is prepared, at any depth.
pub open spec fn nodes_bare<T: DrawnLayer, X: Copy, G, V>(nodes: Seq<Node<T, X, G, V>>) -> bool
    decreases nodes,
{
    forall|i: int| 0 <= i < nodes.len() ==> node_bare(#[trigger] nodes[i])
}

/// Whether nothing of a node is prepared.
pub open spec fn node_bare<T: DrawnLayer, X: Copy, G, V>(node: Node<T, X, G, V>) -> bool
    decreases node,
{
    match node {
        Node::Leaf(_) => true,
        Node::Layer(node) => layer_bare(node),
        Node::Effect(node) => layer_bare(node),
    }
}

/// Whether nothing of an isolated layer or its content is prepared.
pub open spec fn layer_bare<T: DrawnLayer, X: Copy, G, V>(node: RecordedLayer<T, X, G, V>) -> bool
    decreases node,
{
    node.prepared is None && nodes_bare(node.content.0@)
}

proof fn lemma_bare_nodes_hold_nothing<T: DrawnLayer, X: Copy, G, V>(
    nodes: Seq<Node<T, X, G, V>>,
)
    requires
        nodes_bare(nodes),
    ensures
        holdings(nodes) == (Holdings { count: 0, bytes: 0 }),
    decreases nodes,
{
    if nodes.len() > 0 {
        let rest = nodes.drop_last();
        assert forall|i: int| 0 <= i < rest.len() implies node_bare(#[trigger] rest[i]) by {
            assert(rest[i] == nodes[i]);
        }
        lemma_bare_nodes_hold_nothing(rest);
        let last = nodes[nodes.len() - 1];
        assert(node_bare(last));
        match last {
            Node::Leaf(_) => {},
            Node::Layer(node) => {
                lemma_bare_nodes_hold_nothing(node.content.0@);
                assert(layer_holdings(node) == holdings(node.content.0@));
            },
            Node::Effect(node) => {
                lemma_bare_nodes_hold_nothing(node.content.0@);
                assert(layer_holdings(node) == holdings(node.content.0@));
            },
        }
        assert(node_holdings(last) == (Holdings { count: 0, bytes: 0 }));
    }
}

proof fn lemma_fresh_passes_hold_nothing<G, V>(passes: Seq<PreparedEffectPass<G, V>>)
    requires
        forall|i: int| 0 <= i < passes.len() ==> (#[trigger] passes[i]).scratch@.len() == 0,
    ensures
        all_scratch(passes) == Seq::<Target<G, V>>::empty(),
    decreases passes.len(),
{
    if passes.len() > 0 {
        let rest = passes.drop_last();
        assert forall|i: int| 0 <= i < rest.len() implies (#[trigger] rest[i]).scratch@.len()
            == 0 by {
            assert(rest[i] == passes[i]);
        }
        lemma_fresh_passes_hold_nothing(rest);
        assert(passes[passes.len() - 1].scratch@.len() == 0);
    }
    assert(all_scratch(passes) =~= Seq::<Target<G, V>>::empty());
}

/// Whether giving back what a prepared layer holds may turn `before` into `after`.
///
/// Scratch textures go back first. A leased output is submitted under its recollected
/// signature, and what that releases goes back, then every other target.
pub open spec fn prepared_released<G, V>(
    device: Device,
    before: Books<G, V>,
    after: Books<G, V>,
    layer: Layer,
    stages: Seq<Stage>,
    prepared: PreparedIsolatedLayer<G, V>,
) -> bool {
    let pool = before.pool + all_filed(all_scratch(prepared.passes@));
    match prepared.output_lease {
        Some(access) => exists|readings: Seq<Seq<u64>>, current: Stamp| #[trigger]
            submitted(stages, readings, access.request, current) && {
                let output = prepared.output as int;
                let key = signature_of(
                    device,
                    access.request.evidence(),
                    collected(stages, readings),
                    prepared.context,
                    layer.content_bounds,
                    is_position_sensitive(layer, stages),
                );
                let step = storing(
                    before.outputs,
                    submission_of(
                        access.ticket,
                        access.request,
                        key,
                        device.frame,
                        prepared.targets@[output],
                        current,
                    ),
                );
                after == (Books {
                    pool: pool + all_filed(step.released) + all_filed(
                        prepared.targets@.remove(output),
                    ),
                    outputs: step.outputs,
                    ..before
                })
            },
        None => after == (Books { pool: pool + all_filed(prepared.targets@), ..before }),
    }
}

/// Whether an output may be submitted with these readings and this observation.
pub open spec fn submitted(
    stages: Seq<Stage>,
    readings: Seq<Seq<u64>>,
    request: CacheRequest,
    current: Stamp,
) -> bool {
    stages_gave(stages, readings) && request.has_observed(current)
}

/// Whether releasing nodes one after the other may turn the books and the nodes into these.
pub open spec fn nodes_released<T: DrawnLayer, X: Copy, G, V>(
    device: Device,
    before: Books<G, V>,
    after: Books<G, V>,
    nodes: Seq<Node<T, X, G, V>>,
    nodes_after: Seq<Node<T, X, G, V>>,
) -> bool
    decreases nodes,
{
    &&& nodes_after.len() == nodes.len()
    &&& exists|trace: Seq<Books<G, V>>| #[trigger]
        leads(trace, before, after, nodes.len()) && forall|i: int|
            0 <= i < nodes.len() ==> node_released(
                device,
                trace[i],
                trace[i + 1],
                #[trigger] nodes[i],
                nodes_after[i],
            )
}

/// Whether releasing a node may turn the books and the node into these.
pub open spec fn node_released<T: DrawnLayer, X: Copy, G, V>(
    device: Device,
    before: Books<G, V>,
    after: Books<G, V>,
    node: Node<T, X, G, V>,
    node_after: Node<T, X, G, V>,
) -> bool
    decreases node,
{
    match (node, node_after) {
        (Node::Leaf(leaf), Node::Leaf(leaf_after)) => {
            &&& leaf_after.stack == leaf.stack
            &&& leaf_after.prepared@.len() == 0
            &&& after == before
        },
        (Node::Layer(node), Node::Layer(node_after)) => recorded_layer_released(
            device,
            before,
            after,
            node,
            node_after,
        ),
        (Node::Effect(node), Node::Effect(node_after)) => recorded_layer_released(
            device,
            before,
            after,
            node,
            node_after,
        ),
        _ => false,
    }
}

/// Whether releasing an isolated layer, its content first, may turn the books and the layer
/// into these.
pub open spec fn recorded_layer_released<T: DrawnLayer, X: Copy, G, V>(
    device: Device,
    before: Books<G, V>,
    after: Books<G, V>,
    node: RecordedLayer<T, X, G, V>,
    node_after: RecordedLayer<T, X, G, V>,
) -> bool
    decreases node,
{
    &&& node_after.layer == node.layer
    &&& node_after.logical_surface_size == node.logical_surface_size
    &&& node_after.effects == node.effects
    &&& node_after.prepared is None
    &&& exists|middle: Books<G, V>|
        nodes_released(device, before, middle, node.content.0@, node_after.content.0@)
            && #[trigger] released_from(device, middle, after, node)
}

/// Whether giving back what a layer itself holds may turn `before` into `after`.
pub open spec fn released_from<T: DrawnLayer, X: Copy, G, V>(
    device: Device,
    before: Books<G, V>,
    after: Books<G, V>,
    node: RecordedLayer<T, X, G, V>,
) -> bool {
    match node.prepared {
        Some(prepared) => prepared_released(
            device,
            before,
            after,
            node.layer,
            node.effects@,
            prepared,
        ),
        None => after == before,
    }
}

proof fn lemma_holdings_grow<T: DrawnLayer, X: Copy, G, V>(
    nodes: Seq<Node<T, X, G, V>>,
    i: int,
)
    requires
        0 <= i <= nodes.len(),
    ensures
        holdings(nodes.take(i)).count <= holdings(nodes).count,
        holdings(nodes.take(i)).bytes <= holdings(nodes).bytes,
    decreases nodes.len(),
{
    if i == nodes.len() {
        assert(nodes.take(i) =~= nodes);
    } else {
        lemma_holdings_grow(nodes.drop_last(), i);
        assert(nodes.drop_last().take(i) =~= nodes.take(i));
    }
}

proof fn lemma_filed_length<G, V>(targets: Seq<Target<G, V>>)
    ensures
        all_filed(targets).len() == targets.len(),
        total_bytes(all_filed(targets)) == sizes(targets),
    decreases targets.len(),
{
    if targets.len() > 0 {
        lemma_filed_length(targets.drop_last());
        assert(all_filed(targets).drop_last() =~= all_filed(targets.drop_last()));
    }
}

proof fn lemma_sizes_removed<G, V>(targets: Seq<Target<G, V>>, i: int)
    requires
        0 <= i < targets.len(),
    ensures
        sizes(targets.remove(i)) + targets[i].size() == sizes(targets),
    decreases targets.len(),
{
    if i == targets.len() - 1 {
        assert(targets.remove(i) =~= targets.drop_last());
    } else {
        lemma_sizes_removed(targets.drop_last(), i);
        assert(targets.remove(i).drop_last() =~= targets.drop_last().remove(i));
    }
}

proof fn lemma_sizes_joined<G, V>(first: Seq<Target<G, V>>, second: Seq<Target<G, V>>)
    ensures
        sizes(first + second) == sizes(first) + sizes(second),
    decreases second.len(),
{
    if second.len() == 0 {
        assert(first + second =~= first);
    } else {
        lemma_sizes_joined(first, second.drop_last());
        assert((first + second).drop_last() =~= first + second.drop_last());
    }
}

impl<G, V> Frame<G, V> {
    /// Whether the pool can take these holdings besides what it and the registry have.
    pub open spec fn can_take(self, holdings: Holdings) -> bool {
        &&& self.state.pool@.len() + holdings.count <= usize::MAX
        &&& total_bytes(self.state.pool@) + self.state.registry@.total() + holdings.bytes
            <= u64::MAX
    }

    /// Whether holdings went to the pool and the registry, since `before`, without loss.
    pub open spec fn took(self, before: Self, holdings: Holdings) -> bool {
        &&& self.state.pool@.len() <= before.state.pool@.len() + holdings.count
        &&& total_bytes(self.state.pool@) + self.state.registry@.total() == total_bytes(
            before.state.pool@,
        ) + before.state.registry@.total() + holdings.bytes
        &&& self.state.registry@.slots.dom() == before.state.registry@.slots.dom()
    }

    /// Gives back what a prepared layer holds.
    fn release_prepared(
        &mut self,
        layer: &Layer,
        effects: &EffectStack,
        prepared: PreparedIsolatedLayer<G, V>,
    )
        requires
            old(self).state.wf(),
            prepared_wf(prepared),
            old(self).can_take(
                (Holdings {
                    count: held_targets(prepared).len(),
                    bytes: total_bytes(all_filed(held_targets(prepared))),
                }),
            ),
        ensures
            final(self).state.wf(),
            final(self).same_draw(*old(self)),
            prepared_released(
                old(self).device(),
                old(self).books(),
                final(self).books(),
                *layer,
                effects@,
                prepared,
            ),
            final(self).took(
                *old(self),
                (Holdings {
                    count: held_targets(prepared).len(),
                    bytes: total_bytes(all_filed(held_targets(prepared))),
                }),
            ),
    {
        let ghost device = self.device();
        let ghost before = self.books();
        let ghost given = prepared;
        let ghost scratch = all_scratch(given.passes@);
        let ghost targets_given = given.targets@;
        proof {
            lemma_filed_length(held_targets(given));
            lemma_sizes_joined(scratch, targets_given);
            lemma_filed_length(scratch);
            lemma_filed_length(targets_given);
        }
        let context = prepared.context;
        let output: usize = prepared.output;
        let mut targets = prepared.targets;
        self.release_passes(prepared.passes);
        match prepared.output_lease {
            Some(access) => {
                let evidence = effects.recollect_input_evidence();
                let ghost readings = choose|readings: Seq<Seq<u64>>| #[trigger]
                    stages_gave(effects@, readings) && evidence@ == collected(effects@, readings);
                let fresh_key = OutputKey::new(
                    &access.request,
                    evidence,
                    &context,
                    layer.content_bounds,
                    layer.content_depends_on_translation || !effects.is_translation_invariant(),
                    self.device_epoch,
                );
                let retained = targets.remove(output);
                let ghost key = fresh_key@;
                let outcome = self.state.registry.store_output(
                    access.ticket,
                    &access.request,
                    fresh_key,
                    self.state.frame,
                    retained,
                );
                let ghost current = choose|current: Stamp| #[trigger]
                    access.request.has_observed(current) && (StoreStep {
                        outputs: self.state.registry@,
                        disposition: outcome.disposition,
                        released: outcome.released@,
                    }) == storing(
                        before.outputs,
                        submission_of(
                            access.ticket,
                            access.request,
                            key,
                            device.frame,
                            retained,
                            current,
                        ),
                    );
                proof {
                    storing_conserves_bytes(
                        before.outputs,
                        submission_of(
                            access.ticket,
                            access.request,
                            key,
                            device.frame,
                            retained,
                            current,
                        ),
                    );
                    lemma_filed_length(outcome.released@);
                    lemma_filed_length(targets@);
                    lemma_sizes_removed(targets_given, output as int);
                    lemma_joined(before.pool, all_filed(scratch));
                    lemma_joined(
                        before.pool + all_filed(scratch),
                        all_filed(outcome.released@),
                    );
                    lemma_joined(
                        before.pool + all_filed(scratch) + all_filed(outcome.released@),
                        all_filed(targets@),
                    );
                    assert(submitted(effects@, readings, access.request, current));
                }
                let _ = self.state.record_store(outcome);
                self.state.release_targets(targets);
            },
            None => {
                proof {
                    lemma_joined(before.pool, all_filed(scratch));
                    lemma_joined(before.pool + all_filed(scratch), all_filed(targets@));
                }
                self.state.release_targets(targets);
            },
        }
    }

    /// Returns the scratch textures of every pass to the pool.
    fn release_passes(&mut self, passes: Vec<PreparedEffectPass<G, V>>)
        requires
            old(self).state.wf(),
            old(self).state.pool@.len() + all_scratch(passes@).len() <= usize::MAX,
            total_bytes(old(self).state.pool@) + total_bytes(all_filed(all_scratch(passes@)))
                <= u64::MAX,
        ensures
            final(self).state.wf(),
            final(self).same_draw(*old(self)),
            final(self).books() == (Books {
                pool: old(self).state.pool@ + all_filed(all_scratch(passes@)),
                ..old(self).books()
            }),
    {
        let ghost all = passes@;
        let ghost pool = self.state.pool@;
        let ghost before = self.books();
        proof {
            assert(all.take(0) =~= Seq::<PreparedEffectPass<G, V>>::empty());
            assert(pool + all_filed(all_scratch(all.take(0))) =~= pool);
        }
        for pass in iter: passes
            invariant
                iter.seq() == all,
                self.state.wf(),
                self.same_draw(*old(self)),
                pool.len() + all_scratch(all).len() <= usize::MAX,
                total_bytes(pool) + total_bytes(all_filed(all_scratch(all))) <= u64::MAX,
                self.books() == (Books {
                    pool: pool + all_filed(all_scratch(all.take(iter.index()))),
                    ..before
                }),
        {
            let ghost i = iter.index();
            let ghost shorter = all_scratch(all.take(i));
            proof {
                assert(all.take(i + 1).drop_last() =~= all.take(i));
                assert(all.take(i + 1).last() == all[i]);
                assert(pass == all[i]);
                lemma_scratch_grows(all, i + 1);
                lemma_filed_length(shorter);
                lemma_filed_length(pass.scratch@);
                lemma_filed_length(all_scratch(all.take(i + 1)));
                lemma_filed_length(all_scratch(all));
                lemma_sizes_joined(shorter, pass.scratch@);
                lemma_joined(pool, all_filed(shorter));
                assert(all_filed(shorter + pass.scratch@) =~= all_filed(shorter) + all_filed(
                    pass.scratch@,
                ));
                assert(pool + all_filed(shorter + pass.scratch@) =~= pool + all_filed(shorter)
                    + all_filed(pass.scratch@));
            }
            scratch::release(&mut self.state.pool, pass.scratch);
        }
        assert(all.take(all.len() as int) =~= all);
    }
}

proof fn lemma_scratch_grows<G, V>(passes: Seq<PreparedEffectPass<G, V>>, i: int)
    requires
        0 <= i <= passes.len(),
    ensures
        all_scratch(passes.take(i)).len() <= all_scratch(passes).len(),
        sizes(all_scratch(passes.take(i))) <= sizes(all_scratch(passes)),
    decreases passes.len(),
{
    if i == passes.len() {
        assert(passes.take(i) =~= passes);
    } else {
        lemma_scratch_grows(passes.drop_last(), i);
        assert(passes.drop_last().take(i) =~= passes.take(i));
        lemma_sizes_joined(all_scratch(passes.drop_last()), passes.last().scratch@);
    }
}

impl<G, V> Frame<G, V> {
    /// Gives back everything that the nodes of a sequence hold, at any depth.
    ///
    /// Rendered outputs are offered to the registry. Everything else, and what the registry
    /// gives up in return, goes to the pool. The recorded drawing stays as it is.
    pub fn release_prepared_sequence<T: DrawnLayer, X: Copy>(
        &mut self,
        sequence: &mut Sequence<T, X, G, V>,
    )
        requires
            old(self).state.wf(),
            nodes_releasable(old(sequence).0@),
            old(self).can_take(holdings(old(sequence).0@)),
        ensures
            final(self).state.wf(),
            final(self).same_draw(*old(self)),
            nodes_released(
                old(self).device(),
                old(self).books(),
                final(self).books(),
                old(sequence).0@,
                final(sequence).0@,
            ),
            final(self).took(*old(self), holdings(old(sequence).0@)),
            nodes_bare(final(sequence).0@),
            nodes_wf(old(sequence).0@) ==> nodes_wf(final(sequence).0@),
        decreases *old(sequence),
    {
        let ghost before = self.books();
        let ghost device = self.device();
        let ghost nodes = sequence.0@;
        let ghost recorded = *sequence;
        let ghost started = *self;
        let ghost mut trace: Seq<Books<G, V>> = seq![before];
        let mut index: usize = 0;
        assert(nodes.take(0) =~= Seq::<Node<T, X, G, V>>::empty());
        while index < sequence.0.len()
            invariant
                self.state.wf(),
                self.same_draw(*old(self)),
                device == self.device(),
                nodes == recorded.0@,
                recorded == *old(sequence),
                nodes_releasable(nodes),
                started == *old(self),
                started.can_take(holdings(nodes)),
                self.took(started, holdings(nodes.take(index as int))),
                forall|i: int| 0 <= i < index ==> node_bare(#[trigger] sequence.0@[i]),
                nodes_wf(nodes) ==> forall|i: int|
                    0 <= i < index ==> node_wf(#[trigger] sequence.0@[i]),
                index <= nodes.len(),
                sequence.0@.len() == nodes.len(),
                forall|i: int| index <= i < nodes.len() ==> #[trigger] sequence.0@[i] == nodes[i],
                trace.len() == index + 1,
                trace.first() == before,
                trace.last() == self.books(),
                forall|i: int|
                    0 <= i < index ==> node_released(
                        device,
                        trace[i],
                        trace[i + 1],
                        #[trigger] nodes[i],
                        sequence.0@[i],
                    ),
            decreases nodes.len() - index,
        {
            let ghost earlier = trace;
            let ghost prior = sequence.0@;
            proof {
                assert(node_releasable(nodes[index as int]));
                assert(nodes_wf(nodes) ==> node_wf(nodes[index as int]));
                assert(decreases_to!(recorded => recorded.0@[index as int]));
                lemma_holdings_grow(nodes, index + 1);
                assert(nodes.take(index + 1).drop_last() =~= nodes.take(index as int));
                assert(nodes.take(index + 1).last() == nodes[index as int]);
            }
            self.release_node(&mut sequence.0[index]);
            proof {
                trace = trace.push(self.books());
                assert(sequence.0@ =~= prior.update(index as int, sequence.0@[index as int]));
                assert forall|i: int| 0 <= i < index + 1 implies node_released(
                    device,
                    trace[i],
                    trace[i + 1],
                    #[trigger] nodes[i],
                    sequence.0@[i],
                ) by {
                    if i < index {
                        assert(trace[i] == earlier[i] && trace[i + 1] == earlier[i + 1]);
                        assert(sequence.0@[i] == prior[i]);
                    }
                }
            }
            index = index + 1;
        }
        proof {
            assert(nodes.take(index as int) =~= nodes);
            assert(leads(trace, before, self.books(), nodes.len()));
        }
    }

    fn release_node<T: DrawnLayer, X: Copy>(&mut self, node: &mut Node<T, X, G, V>)
        requires
            old(self).state.wf(),
            node_releasable(*old(node)),
            old(self).can_take(node_holdings(*old(node))),
        ensures
            final(self).state.wf(),
            final(self).same_draw(*old(self)),
            node_released(
                old(self).device(),
                old(self).books(),
                final(self).books(),
                *old(node),
                *final(node),
            ),
            final(self).took(*old(self), node_holdings(*old(node))),
            node_bare(*final(node)),
            node_wf(*old(node)) ==> node_wf(*final(node)),
        decreases *old(node),
    {
        match node {
            Node::Leaf(leaf) => {
                leaf.prepared.clear();
            },
            Node::Layer(layer) => {
                self.release_recorded_layer(layer);
            },
            Node::Effect(layer) => {
                self.release_recorded_layer(layer);
            },
        }
    }

    fn release_recorded_layer<T: DrawnLayer, X: Copy>(
        &mut self,
        node: &mut RecordedLayer<T, X, G, V>,
    )
        requires
            old(self).state.wf(),
            layer_releasable(*old(node)),
            old(self).can_take(layer_holdings(*old(node))),
        ensures
            final(self).state.wf(),
            final(self).same_draw(*old(self)),
            recorded_layer_released(
                old(self).device(),
                old(self).books(),
                final(self).books(),
                *old(node),
                *final(node),
            ),
            final(self).took(*old(self), layer_holdings(*old(node))),
            layer_bare(*final(node)),
            layer_wf(*old(node)) ==> layer_wf(*final(node)),
        decreases *old(node),
    {
        let ghost recorded = *node;
        assert(decreases_to!(recorded => recorded.content));
        self.release_prepared_sequence(&mut node.content);
        let ghost middle = self.books();
        if let Some(prepared) = node.prepared.take() {
            self.release_prepared(&node.layer, &node.effects, prepared);
        }
        assert(released_from(self.device(), middle, self.books(), recorded));
    }
}

/// Preparing leaves every node where it is: a leaf stays a leaf, and an isolated layer keeps its
/// request, its size and its effects.
pub proof fn preparing_keeps_the_recording<
    T: DrawnLayer,
    X: Copy,
    G,
    V,
    L: Fn(RectangleBits, RectangleBits, RectangleBits, Context, CaptureGrid) -> Option<Located>,
    P: Fn(RectangleBits, Context) -> Option<Placed>,
    C: Fn(Size) -> G,
>(
    device: Device,
    before: Books<G, V>,
    after: Books<G, V>,
    parent: Context,
    locate: L,
    place: P,
    create: C,
    nodes: Seq<Node<T, X, G, V>>,
    nodes_after: Seq<Node<T, X, G, V>>,
    i: int,
)
    requires
        nodes_prepared(
            device,
            before,
            after,
            parent,
            locate,
            place,
            create,
            nodes,
            nodes_after,
        ),
        0 <= i < nodes.len(),
    ensures
        nodes_after.len() == nodes.len(),
        nodes[i] is Leaf <==> nodes_after[i] is Leaf,
        nodes[i] is Layer <==> nodes_after[i] is Layer,
        nodes[i] is Effect <==> nodes_after[i] is Effect,
        nodes[i] is Layer ==> nodes_after[i]->Layer_0.layer == nodes[i]->Layer_0.layer
            && nodes_after[i]->Layer_0.effects == nodes[i]->Layer_0.effects
            && nodes_after[i]->Layer_0.content.0@.len() == nodes[i]->Layer_0.content.0@.len(),
        nodes[i] is Effect ==> nodes_after[i]->Effect_0.layer == nodes[i]->Effect_0.layer
            && nodes_after[i]->Effect_0.effects == nodes[i]->Effect_0.effects
            && nodes_after[i]->Effect_0.content.0@.len() == nodes[i]->Effect_0.content.0@.len(),
{
    let trace = choose|trace: Seq<Books<G, V>>| #[trigger]
        leads(trace, before, after, nodes.len()) && forall|i: int|
            0 <= i < nodes.len() ==> node_prepared(
                device,
                trace[i],
                trace[i + 1],
                parent,
                locate,
                place,
                create,
                #[trigger] nodes[i],
                nodes_after[i],
            );
    assert(node_prepared(
        device,
        trace[i],
        trace[i + 1],
        parent,
        locate,
        place,
        create,
        nodes[i],
        nodes_after[i],
    ));
    match (nodes[i], nodes_after[i]) {
        (Node::Layer(node), Node::Layer(node_after)) => {
            lemma_content_stays(
                device,
                trace[i],
                trace[i + 1],
                parent,
                locate,
                place,
                create,
                node,
                node_after,
            );
        },
        (Node::Effect(node), Node::Effect(node_after)) => {
            lemma_content_stays(
                device,
                trace[i],
                trace[i + 1],
                parent,
                locate,
                place,
                create,
                node,
                node_after,
            );
        },
        _ => {},
    }
}

proof fn lemma_content_stays<
    T: DrawnLayer,
    X: Copy,
    G,
    V,
    L: Fn(RectangleBits, RectangleBits, RectangleBits, Context, CaptureGrid) -> Option<Located>,
    P: Fn(RectangleBits, Context) -> Option<Placed>,
    C: Fn(Size) -> G,
>(
    device: Device,
    before: Books<G, V>,
    after: Books<G, V>,
    parent: Context,
    locate: L,
    place: P,
    create: C,
    node: RecordedLayer<T, X, G, V>,
    node_after: RecordedLayer<T, X, G, V>,
)
    requires
        recorded_layer_prepared(
            device,
            before,
            after,
            parent,
            locate,
            place,
            create,
            node,
            node_after,
        ),
    ensures
        node_after.layer == node.layer,
        node_after.effects == node.effects,
        node_after.content.0@.len() == node.content.0@.len(),
{
}

/// A layer with a place is prepared there, with the context and the clip that it was located
/// with. Its content is prepared in that context, unless a retained output makes that needless.
pub proof fn located_layers_are_prepared_in_their_place<
    T: DrawnLayer,
    X: Copy,
    G,
    V,
    L: Fn(RectangleBits, RectangleBits, RectangleBits, Context, CaptureGrid) -> Option<Located>,
    P: Fn(RectangleBits, Context) -> Option<Placed>,
    C: Fn(Size) -> G,
>(
    device: Device,
    before: Books<G, V>,
    after: Books<G, V>,
    parent: Context,
    locate: L,
    place: P,
    create: C,
    node: RecordedLayer<T, X, G, V>,
    node_after: RecordedLayer<T, X, G, V>,
    located: Located,
)
    requires
        recorded_layer_prepared(
            device,
            before,
            after,
            parent,
            locate,
            place,
            create,
            node,
            node_after,
        ),
        forall|answer: Option<Located>| #[trigger]
            call_ensures(
                locate,
                (
                    node.layer.bounds,
                    node.layer.content_bounds,
                    node.layer.clip,
                    parent,
                    grid_of(node.layer),
                ),
                answer,
            ) ==> answer == Some(located),
        backed_context(device, Some(located), node.logical_surface_size) is Some,
    ensures
        node_after.prepared matches Some(prepared) && {
            &&& prepared.context == backed_context(
                device,
                Some(located),
                node.logical_surface_size,
            )->0
            &&& prepared.clip == located.clip
            &&& prepared.output < prepared.targets@.len()
            &&& prepared.output_valid ==> node_after.content == node.content
            &&& !prepared.output_valid ==> exists|middle: Books<G, V>| #[trigger]
                nodes_prepared(
                    device,
                    middle,
                    after,
                    prepared.context,
                    locate,
                    place,
                    create,
                    node.content.0@,
                    node_after.content.0@,
                )
        },
{
    let layer = node.layer;
    let question = (layer.bounds, layer.content_bounds, layer.clip, parent, grid_of(layer));
    let context = backed_context(device, Some(located), node.logical_surface_size)->0;
    let prepared = node_after.prepared->0;
    let (answer, middle) = choose|answer: Option<Located>, middle: Books<G, V>| #[trigger]
        reached(locate, question, answer, middle) && match backed_context(
            device,
            answer,
            node.logical_surface_size,
        ) {
            Some(context) => node_after.prepared is Some && prepared_wf(prepared) && layer_prepared(
                device,
                before,
                middle,
                layer,
                node.effects@,
                context,
                answer->0.clip,
                create,
                prepared,
            ) && (prepared.output_valid ==> node_after.content == node.content) && (
            !prepared.output_valid ==> nodes_prepared(
                device,
                middle,
                after,
                context,
                locate,
                place,
                create,
                node.content.0@,
                node_after.content.0@,
            )),
            None => true,
        };
    assert(call_ensures(locate, question, answer));
    assert(prepared.context == context);
}

/// A layer without a place changes nothing and is not prepared.
pub proof fn layers_without_a_place_are_left_alone<
    T: DrawnLayer,
    X: Copy,
    G,
    V,
    L: Fn(RectangleBits, RectangleBits, RectangleBits, Context, CaptureGrid) -> Option<Located>,
    P: Fn(RectangleBits, Context) -> Option<Placed>,
    C: Fn(Size) -> G,
>(
    device: Device,
    before: Books<G, V>,
    after: Books<G, V>,
    parent: Context,
    locate: L,
    place: P,
    create: C,
    node: RecordedLayer<T, X, G, V>,
    node_after: RecordedLayer<T, X, G, V>,
)
    requires
        recorded_layer_prepared(
            device,
            before,
            after,
            parent,
            locate,
            place,
            create,
            node,
            node_after,
        ),
        node.prepared is None,
        forall|answer: Option<Located>| #[trigger]
            call_ensures(
                locate,
                (
                    node.layer.bounds,
                    node.layer.content_bounds,
                    node.layer.clip,
                    parent,
                    grid_of(node.layer),
                ),
                answer,
            ) ==> answer is None,
    ensures
        node_after.prepared is None,
        node_after.content == node.content,
        after == before,
{
}

/// Nothing that a released layer holds gets lost. Without a lease all its targets become free.
/// With one, all but the finished output do, and no output becomes retained but that one.
pub proof fn released_layers_give_back_their_targets<G, V>(
    device: Device,
    before: Books<G, V>,
    after: Books<G, V>,
    layer: Layer,
    stages: Seq<Stage>,
    prepared: PreparedIsolatedLayer<G, V>,
    i: int,
)
    requires
        prepared_wf(prepared),
        prepared_released(device, before, after, layer, stages, prepared),
        0 <= i < prepared.targets@.len(),
    ensures
        prepared.output_lease is None || i != prepared.output ==> after.pool.contains(
            filed(prepared.targets@[i]),
        ),
        prepared.output_lease is None ==> after.outputs == before.outputs,
        prepared.output_lease matches Some(access) ==> {
            let slot = access.request.slot();
            &&& after.outputs.slots.dom() == before.outputs.slots.dom()
            &&& forall|other: u64|
                #![trigger after.outputs.slots[other]]
                before.outputs.slots.contains_key(other) && other != slot
                    ==> after.outputs.slots[other] == before.outputs.slots[other]
            &&& before.outputs.slots.contains_key(slot) && after.outputs.slots[slot].committed
                != before.outputs.slots[slot].committed && after.outputs.slots[slot].committed
                is Some ==> after.outputs.slots[slot].committed->0.target
                == prepared.targets@[prepared.output as int]
        },
        after.diagnostics == before.diagnostics,
        after.counters == before.counters,
        after.reports == before.reports,
        after.missing == before.missing,
{
    let output = prepared.output as int;
    let rest = if prepared.output_lease is Some {
        prepared.targets@.remove(output)
    } else {
        prepared.targets@
    };
    let kept = after.pool.len() - rest.len();
    assert(all_filed(rest).len() == rest.len());
    if prepared.output_lease is None {
        assert(all_filed(rest)[i] == filed(prepared.targets@[i]));
        assert(after.pool[kept + i] == filed(prepared.targets@[i]));
    } else {
        let access = prepared.output_lease->0;
        let (readings, current) = choose|readings: Seq<Seq<u64>>, current: Stamp| #[trigger]
            submitted(stages, readings, access.request, current) && {
                let key = signature_of(
                    device,
                    access.request.evidence(),
                    collected(stages, readings),
                    prepared.context,
                    layer.content_bounds,
                    is_position_sensitive(layer, stages),
                );
                let step = storing(
                    before.outputs,
                    submission_of(
                        access.ticket,
                        access.request,
                        key,
                        device.frame,
                        prepared.targets@[output],
                        current,
                    ),
                );
                after == (Books {
                    pool: before.pool + all_filed(all_scratch(prepared.passes@)) + all_filed(
                        step.released,
                    ) + all_filed(prepared.targets@.remove(output)),
                    outputs: step.outputs,
                    ..before
                })
            };
        assert(submitted(stages, readings, access.request, current));
        if i != output {
            let p = if i < output {
                i
            } else {
                i - 1
            };
            assert(rest[p] == prepared.targets@[i]);
            assert(all_filed(rest)[p] == filed(prepared.targets@[i]));
            assert(after.pool[kept + p] == filed(prepared.targets@[i]));
        }
        assert(after.outputs.slots.dom() =~= before.outputs.slots.dom());
    }
}

proof fn lemma_scratch<G, V>(passes: Seq<PreparedEffectPass<G, V>>, i: int, j: int) -> (k: int)
    requires
        0 <= i < passes.len(),
        0 <= j < passes[i].scratch@.len(),
    ensures
        0 <= k < all_scratch(passes).len(),
        all_scratch(passes)[k] == passes[i].scratch@[j],
    decreases passes.len(),
{
    let rest = passes.drop_last();
    if i == rest.len() {
        all_scratch(rest).len() + j
    } else {
        lemma_scratch(rest, i, j)
    }
}

/// Every scratch texture that a pass of a released layer holds becomes free, and no free backing
/// is taken.
pub proof fn released_layers_give_back_their_scratch<G, V>(
    device: Device,
    before: Books<G, V>,
    after: Books<G, V>,
    layer: Layer,
    stages: Seq<Stage>,
    prepared: PreparedIsolatedLayer<G, V>,
    i: int,
    j: int,
)
    requires
        prepared_released(device, before, after, layer, stages, prepared),
    ensures
        0 <= i < prepared.passes@.len() && 0 <= j < prepared.passes@[i].scratch@.len()
            ==> after.pool.contains(filed(prepared.passes@[i].scratch@[j])),
        before.pool.is_prefix_of(after.pool),
{
    if 0 <= i < prepared.passes@.len() && 0 <= j < prepared.passes@[i].scratch@.len() {
        let k = lemma_scratch(prepared.passes@, i, j);
        let scratch = all_scratch(prepared.passes@);
        assert(all_filed(scratch)[k] == filed(prepared.passes@[i].scratch@[j]));
        assert(after.pool[before.pool.len() + k] == all_filed(scratch)[k]);
    }
}

/// Releasing keeps what was recorded and forgets what was prepared, so that it can be drawn
/// again.
pub proof fn released_nodes_can_be_drawn_again<T: DrawnLayer, X: Copy, G, V>(
    device: Device,
    before: Books<G, V>,
    after: Books<G, V>,
    nodes: Seq<Node<T, X, G, V>>,
    nodes_after: Seq<Node<T, X, G, V>>,
    i: int,
)
    requires
        nodes_released(device, before, after, nodes, nodes_after),
        0 <= i < nodes.len(),
    ensures
        nodes_after.len() == nodes.len(),
        match nodes[i] {
            Node::Leaf(leaf) => nodes_after[i] matches Node::Leaf(leaf_after) && leaf_after.stack
                == leaf.stack && leaf_after.prepared@.len() == 0,
            Node::Layer(node) => nodes_after[i] matches Node::Layer(node_after) && node_after.layer
                == node.layer && node_after.effects == node.effects
                && node_after.logical_surface_size == node.logical_surface_size
                && node_after.prepared is None && node_after.content.0@.len()
                == node.content.0@.len(),
            Node::Effect(node) => nodes_after[i] matches Node::Effect(node_after)
                && node_after.layer == node.layer && node_after.effects == node.effects
                && node_after.logical_surface_size == node.logical_surface_size
                && node_after.prepared is None && node_after.content.0@.len()
                == node.content.0@.len(),
        },
{
    let trace = choose|trace: Seq<Books<G, V>>| #[trigger]
        leads(trace, before, after, nodes.len()) && forall|i: int|
            0 <= i < nodes.len() ==> node_released(
                device,
                trace[i],
                trace[i + 1],
                #[trigger] nodes[i],
                nodes_after[i],
            );
    assert(node_released(device, trace[i], trace[i + 1], nodes[i], nodes_after[i]));
}

/// Releasing takes no free backing away: what was free stays free, in order.
pub proof fn releasing_only_adds_to_the_pool<T: DrawnLayer, X: Copy, G, V>(
    device: Device,
    before: Books<G, V>,
    after: Books<G, V>,
    nodes: Seq<Node<T, X, G, V>>,
    nodes_after: Seq<Node<T, X, G, V>>,
)
    requires
        nodes_released(device, before, after, nodes, nodes_after),
    ensures
        before.pool.is_prefix_of(after.pool),
    decreases nodes, 1nat,
{
    let trace = choose|trace: Seq<Books<G, V>>| #[trigger]
        leads(trace, before, after, nodes.len()) && forall|i: int|
            0 <= i < nodes.len() ==> node_released(
                device,
                trace[i],
                trace[i + 1],
                #[trigger] nodes[i],
                nodes_after[i],
            );
    assert forall|i: int| 0 <= i < nodes.len() implies (#[trigger] trace[i]).pool.is_prefix_of(
        trace[i + 1].pool,
    ) by {
        assert(node_released(device, trace[i], trace[i + 1], nodes[i], nodes_after[i]));
        match (nodes[i], nodes_after[i]) {
            (Node::Layer(node), Node::Layer(node_after)) => {
                lemma_layer_adds(device, trace[i], trace[i + 1], node, node_after);
            },
            (Node::Effect(node), Node::Effect(node_after)) => {
                lemma_layer_adds(device, trace[i], trace[i + 1], node, node_after);
            },
            _ => {},
        }
    }
    lemma_steps_add(trace, nodes.len() as int);
}

proof fn lemma_layer_adds<T: DrawnLayer, X: Copy, G, V>(
    device: Device,
    before: Books<G, V>,
    after: Books<G, V>,
    node: RecordedLayer<T, X, G, V>,
    node_after: RecordedLayer<T, X, G, V>,
)
    requires
        recorded_layer_released(device, before, after, node, node_after),
    ensures
        before.pool.is_prefix_of(after.pool),
    decreases node, 0nat,
{
    let middle = choose|middle: Books<G, V>|
        nodes_released(device, before, middle, node.content.0@, node_after.content.0@)
            && #[trigger] released_from(device, middle, after, node);
    releasing_only_adds_to_the_pool(
        device,
        before,
        middle,
        node.content.0@,
        node_after.content.0@,
    );
    if node.prepared is Some {
        released_layers_give_back_their_scratch(
            device,
            middle,
            after,
            node.layer,
            node.effects@,
            node.prepared->0,
            0,
            0,
        );
    }
}

proof fn lemma_steps_add<G, V>(trace: Seq<Books<G, V>>, steps: int)
    requires
        0 <= steps < trace.len(),
        forall|i: int|
            0 <= i < steps ==> (#[trigger] trace[i]).pool.is_prefix_of(trace[i + 1].pool),
    ensures
        trace[0].pool.is_prefix_of(trace[steps].pool),
    decreases steps,
{
    if steps > 0 {
        lemma_steps_add(trace, steps - 1);
        assert(trace[steps - 1].pool.is_prefix_of(trace[steps - 1 + 1].pool));
    }
}

} // verus!
