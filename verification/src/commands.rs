//! The steps that render a prepared sequence, in exact paint order.

use crate::context::{CompositePositioning, Context};
use crate::drawing::DrawnLayer;
use crate::effect::EffectStack;
use crate::float_bits::RectangleBits;
use crate::frame::prepared_wf;
use crate::geometry::{Rectangle, Size};
use crate::pool::Target;
use crate::recording::{
    samples_backdrop, Leaf, Node, PreparedEffectPass, PreparedIsolatedLayer, RecordedLayer,
    Sequence,
};
use crate::request::Composite;
use crate::traversal::{layer_releasable, node_releasable, node_wf, nodes_releasable, nodes_wf};
use vstd::prelude::*;

verus! {

/// What is rendered into: the target of the whole draw, or a leased one.
pub enum Surface<'a, G, V> {
    Root,
    Target(&'a Target<G, V>),
}

impl<'a, G, V> Clone for Surface<'a, G, V> {
    fn clone(&self) -> (surface: Self)
        ensures
            surface == *self,
    {
        match self {
            Surface::Root => Surface::Root,
            Surface::Target(target) => Surface::Target(*target),
        }
    }
}

/// What a surface holds before it is rendered into.
#[derive(Debug, Clone, Copy, PartialEq, Eq, Structural)]
pub enum Fill {
    /// What it held before.
    Keep,
    /// Nothing.
    Transparent,
    /// The background color of the draw.
    Background,
}

/// One step of rendering a sequence.
pub enum Command<'a, T: DrawnLayer, X: Copy, G, V> {
    /// Fills a surface.
    Clear { surface: Surface<'a, G, V>, fill: Fill },
    /// Draws an ordinary layer stack.
    Leaf { leaf: &'a Leaf<T, X>, into: Surface<'a, G, V>, context: &'a Context },
    /// Copies what was drawn below a layer, pixel by pixel.
    CopyBackdrop { from: Surface<'a, G, V>, to: &'a Target<G, V>, capture: &'a Context },
    /// Resamples what was drawn below a layer that is placed between pixels.
    BlitBackdrop {
        from: Surface<'a, G, V>,
        context: &'a Context,
        to: &'a Target<G, V>,
        capture: &'a Context,
    },
    /// Encodes one pass of an effect.
    Pass {
        effects: &'a EffectStack,
        pass: &'a PreparedEffectPass<G, V>,
        capture: &'a Context,
        content_bounds: RectangleBits,
        stage_input: &'a Target<G, V>,
        backdrop: Option<&'a Target<G, V>>,
        previous: &'a Target<G, V>,
        output: &'a Target<G, V>,
    },
    /// Composites a finished output into its parent.
    Composite {
        output: &'a Target<G, V>,
        composite: Composite,
        capture: &'a Context,
        into: Surface<'a, G, V>,
        viewport: Size,
        clip: Rectangle,
        fill: Fill,
    },
}

/// The step that brings what was drawn below a layer into its backdrop.
pub open spec fn backdrop_commands<'a, T: DrawnLayer, X: Copy, G, V>(
    node: RecordedLayer<T, X, G, V>,
    prepared: PreparedIsolatedLayer<G, V>,
    into: Surface<'a, G, V>,
    context: Context,
) -> Seq<Command<'a, T, X, G, V>> {
    match prepared.backdrop {
        Some(backdrop) => if node.layer.composite.place() == CompositePositioning::Subpixel {
            seq![
                Command::BlitBackdrop {
                    from: into,
                    context: &context,
                    to: &prepared.targets@[backdrop as int],
                    capture: &prepared.context,
                },
            ]
        } else {
            seq![
                Command::CopyBackdrop {
                    from: into,
                    to: &prepared.targets@[backdrop as int],
                    capture: &prepared.context,
                },
            ]
        },
        None => Seq::empty(),
    }
}

/// The steps of one pass. An output that the pass does not fully write is cleared first.
pub open spec fn pass_commands<'a, T: DrawnLayer, X: Copy, G, V>(
    node: RecordedLayer<T, X, G, V>,
    prepared: PreparedIsolatedLayer<G, V>,
    pass: PreparedEffectPass<G, V>,
) -> Seq<Command<'a, T, X, G, V>> {
    let planned = pass.planned;
    let targets = prepared.targets@;
    let encode = Command::Pass {
        effects: &node.effects,
        pass: &pass,
        capture: &prepared.context,
        content_bounds: node.layer.content_bounds,
        stage_input: &targets[planned.stage_input as int],
        backdrop: if planned.uses_backdrop {
            Some(&targets[prepared.backdrop->0 as int])
        } else {
            None
        },
        previous: &targets[planned.previous as int],
        output: &targets[planned.output as int],
    };
    if planned.writes_every_pixel {
        seq![encode]
    } else {
        seq![
            Command::Clear {
                surface: Surface::Target(&targets[planned.output as int]),
                fill: Fill::Transparent,
            },
            encode,
        ]
    }
}

/// The steps of the first `count` passes.
pub open spec fn passes_commands<'a, T: DrawnLayer, X: Copy, G, V>(
    node: RecordedLayer<T, X, G, V>,
    prepared: PreparedIsolatedLayer<G, V>,
    count: int,
) -> Seq<Command<'a, T, X, G, V>>
    decreases count,
{
    if count <= 0 {
        Seq::empty()
    } else {
        passes_commands(node, prepared, count - 1) + pass_commands(
            node,
            prepared,
            prepared.passes@[count - 1],
        )
    }
}

/// The step that composites a finished output, if any of the parent may receive it.
pub open spec fn composite_commands<'a, T: DrawnLayer, X: Copy, G, V>(
    node: RecordedLayer<T, X, G, V>,
    prepared: PreparedIsolatedLayer<G, V>,
    into: Surface<'a, G, V>,
    context: Context,
) -> Seq<Command<'a, T, X, G, V>> {
    match prepared.clip {
        Some(clip) => seq![
            Command::Composite {
                output: &prepared.targets@[prepared.output as int],
                composite: node.layer.composite,
                capture: &prepared.context,
                into,
                viewport: context.viewport(),
                clip,
                fill: Fill::Keep,
            },
        ],
        None => Seq::empty(),
    }
}

/// The steps that render a list of nodes, one after the other.
pub open spec fn nodes_commands<'a, T: DrawnLayer, X: Copy, G, V>(
    nodes: Seq<Node<T, X, G, V>>,
    into: Surface<'a, G, V>,
    context: Context,
) -> Seq<Command<'a, T, X, G, V>>
    decreases nodes,
{
    if nodes.len() == 0 {
        Seq::empty()
    } else {
        nodes_commands(nodes.drop_last(), into, context) + node_commands(
            nodes.last(),
            into,
            context,
        )
    }
}

/// The steps that render a node.
pub open spec fn node_commands<'a, T: DrawnLayer, X: Copy, G, V>(
    node: Node<T, X, G, V>,
    into: Surface<'a, G, V>,
    context: Context,
) -> Seq<Command<'a, T, X, G, V>>
    decreases node,
{
    match node {
        Node::Leaf(leaf) => seq![Command::Leaf { leaf: &leaf, into, context: &context }],
        Node::Layer(node) => layer_commands(node, into, context),
        Node::Effect(node) => layer_commands(node, into, context),
    }
}

/// The steps that render an isolated layer: its backdrop, its content unless the output was
/// retained, its passes, and its composition. A layer that was not prepared takes none.
pub open spec fn layer_commands<'a, T: DrawnLayer, X: Copy, G, V>(
    node: RecordedLayer<T, X, G, V>,
    into: Surface<'a, G, V>,
    context: Context,
) -> Seq<Command<'a, T, X, G, V>>
    decreases node,
{
    match node.prepared {
        Some(prepared) => {
            let content = if prepared.output_valid {
                Seq::empty()
            } else {
                seq![
                    Command::Clear {
                        surface: Surface::Target(&prepared.targets@[0]),
                        fill: Fill::Transparent,
                    },
                ] + nodes_commands(
                    node.content.0@,
                    Surface::Target(&prepared.targets@[0]),
                    prepared.context,
                )
            };
            backdrop_commands(node, prepared, into, context) + content + passes_commands(
                node,
                prepared,
                prepared.passes@.len() as int,
            ) + composite_commands(node, prepared, into, context)
        },
        None => Seq::empty(),
    }
}

/// Whether nothing has to be copied from the target of the whole draw, which cannot be read.
pub open spec fn reads_no_root<T: DrawnLayer, X: Copy, G, V>(
    nodes: Seq<Node<T, X, G, V>>,
    into: Surface<G, V>,
) -> bool {
    into is Root ==> !samples_backdrop(nodes)
}

/// Appends the steps that render a prepared sequence into a surface of the given context.
pub fn render_sequence<'a, T: DrawnLayer, X: Copy, G, V>(
    sequence: &'a Sequence<T, X, G, V>,
    into: Surface<'a, G, V>,
    context: &'a Context,
    commands: &mut Vec<Command<'a, T, X, G, V>>,
)
    requires
        nodes_wf(sequence.0@),
        nodes_releasable(sequence.0@),
        reads_no_root(sequence.0@, into),
    ensures
        final(commands)@ == old(commands)@ + nodes_commands(sequence.0@, into, *context),
    decreases *sequence,
{
    let ghost nodes = sequence.0@;
    let ghost before = commands@;
    let mut index: usize = 0;
    proof {
        assert(nodes.take(0) =~= Seq::<Node<T, X, G, V>>::empty());
        assert(commands@ =~= before + nodes_commands(nodes.take(0), into, *context));
    }
    while index < sequence.0.len()
        invariant
            index <= nodes.len(),
            nodes == sequence.0@,
            nodes_wf(nodes),
            nodes_releasable(nodes),
            reads_no_root(nodes, into),
            commands@ == before + nodes_commands(nodes.take(index as int), into, *context),
        decreases nodes.len() - index,
    {
        let ghost prior = commands@;
        proof {
            assert(node_wf(nodes[index as int]));
            assert(node_releasable(nodes[index as int]));
            assert(decreases_to!(*sequence => sequence.0@[index as int]));
            assert(nodes.take(index + 1).drop_last() =~= nodes.take(index as int));
            assert(nodes.take(index + 1).last() == nodes[index as int]);
        }
        match &sequence.0[index] {
            Node::Leaf(leaf) => {
                commands.push(Command::Leaf { leaf, into: into.clone(), context });
            },
            Node::Layer(node) => {
                render_layer(node, into.clone(), context, commands);
            },
            Node::Effect(node) => {
                assert(into is Root ==> !crate::effect::stack_reads_backdrop(node.effects@)) by {
                    assert(nodes[index as int] matches Node::Effect(_));
                }
                render_layer(node, into.clone(), context, commands);
            },
        }
        proof {
            assert(commands@ =~= prior + node_commands(nodes[index as int], into, *context));
            assert(commands@ =~= before + nodes_commands(
                nodes.take(index + 1),
                into,
                *context,
            ));
        }
        index = index + 1;
    }
    assert(nodes.take(index as int) =~= nodes);
}

fn render_layer<'a, T: DrawnLayer, X: Copy, G, V>(
    node: &'a RecordedLayer<T, X, G, V>,
    into: Surface<'a, G, V>,
    context: &'a Context,
    commands: &mut Vec<Command<'a, T, X, G, V>>,
)
    requires
        nodes_wf(node.content.0@),
        layer_releasable(*node),
        into is Root ==> !crate::effect::stack_reads_backdrop(node.effects@),
    ensures
        final(commands)@ == old(commands)@ + layer_commands(*node, into, *context),
    decreases *node,
{
    let ghost before = commands@;
    let prepared = match &node.prepared {
        Some(prepared) => prepared,
        None => {
            assert(commands@ =~= before + Seq::<Command<'a, T, X, G, V>>::empty());
            return ;
        },
    };
    if let Some(backdrop) = prepared.backdrop {
        if node.layer.composite.positioning() == CompositePositioning::Subpixel {
            commands.push(
                Command::BlitBackdrop {
                    from: into.clone(),
                    context,
                    to: &prepared.targets[backdrop],
                    capture: &prepared.context,
                },
            );
        } else {
            assert(into is Target);
            commands.push(
                Command::CopyBackdrop {
                    from: into.clone(),
                    to: &prepared.targets[backdrop],
                    capture: &prepared.context,
                },
            );
        }
    }
    let ghost first = backdrop_commands(*node, *prepared, into, *context);
    assert(commands@ =~= before + first);

    let ghost mut second: Seq<Command<'a, T, X, G, V>> = Seq::empty();
    if !prepared.output_valid {
        let captured = &prepared.targets[0];
        commands.push(
            Command::Clear { surface: Surface::Target(captured), fill: Fill::Transparent },
        );
        assert(decreases_to!(*node => node.content));
        render_sequence(&node.content, Surface::Target(captured), &prepared.context, commands);
        proof {
            second = seq![
                Command::Clear {
                    surface: Surface::Target(&prepared.targets@[0]),
                    fill: Fill::Transparent,
                },
            ] + nodes_commands(
                node.content.0@,
                Surface::Target(&prepared.targets@[0]),
                prepared.context,
            );
        }
    }
    assert(commands@ =~= before + first + second);

    render_passes(node, prepared, commands);
    let ghost third = passes_commands(*node, *prepared, prepared.passes@.len() as int);

    if let Some(clip) = prepared.clip {
        commands.push(
            Command::Composite {
                output: &prepared.targets[prepared.output],
                composite: node.layer.composite,
                capture: &prepared.context,
                into: into.clone(),
                viewport: context.physical_viewport(),
                clip,
                fill: Fill::Keep,
            },
        );
    }
    let ghost fourth = composite_commands(*node, *prepared, into, *context);
    assert(commands@ =~= before + (first + second + third + fourth));
}

fn render_passes<'a, T: DrawnLayer, X: Copy, G, V>(
    node: &'a RecordedLayer<T, X, G, V>,
    prepared: &'a PreparedIsolatedLayer<G, V>,
    commands: &mut Vec<Command<'a, T, X, G, V>>,
)
    requires
        prepared_wf(*prepared),
    ensures
        final(commands)@ == old(commands)@ + passes_commands(
            *node,
            *prepared,
            prepared.passes@.len() as int,
        ),
{
    let ghost before = commands@;
    let mut index: usize = 0;
    assert(commands@ =~= before + passes_commands(*node, *prepared, 0));
    while index < prepared.passes.len()
        invariant
            prepared_wf(*prepared),
            index <= prepared.passes@.len(),
            commands@ == before + passes_commands(*node, *prepared, index as int),
        decreases prepared.passes@.len() - index,
    {
        let ghost prior = commands@;
        let pass = &prepared.passes[index];
        let planned = pass.planned;
        assert(prepared.passes@[index as int].planned == planned);
        if !planned.writes_every_pixel {
            commands.push(
                Command::Clear {
                    surface: Surface::Target(&prepared.targets[planned.output]),
                    fill: Fill::Transparent,
                },
            );
        }
        let backdrop = if planned.uses_backdrop {
            Some(&prepared.targets[prepared.backdrop.unwrap()])
        } else {
            None
        };
        commands.push(
            Command::Pass {
                effects: &node.effects,
                pass,
                capture: &prepared.context,
                content_bounds: node.layer.content_bounds,
                stage_input: &prepared.targets[planned.stage_input],
                backdrop,
                previous: &prepared.targets[planned.previous],
                output: &prepared.targets[planned.output],
            },
        );
        assert(commands@ =~= prior + pass_commands(
            *node,
            *prepared,
            prepared.passes@[index as int],
        ));
        index = index + 1;
        assert(commands@ =~= before + passes_commands(*node, *prepared, index as int));
    }
}

/// What was recorded first is rendered first, whatever the barrier between two parts.
pub proof fn rendering_keeps_recorded_order<'a, T: DrawnLayer, X: Copy, G, V>(
    first: Seq<Node<T, X, G, V>>,
    second: Seq<Node<T, X, G, V>>,
    into: Surface<'a, G, V>,
    context: Context,
)
    ensures
        nodes_commands(first + second, into, context) == nodes_commands(first, into, context)
            + nodes_commands(second, into, context),
    decreases second.len(),
{
    if second.len() == 0 {
        assert(first + second =~= first);
        assert(nodes_commands(first, into, context) + nodes_commands(second, into, context)
            =~= nodes_commands(first, into, context));
    } else {
        rendering_keeps_recorded_order(first, second.drop_last(), into, context);
        assert((first + second).drop_last() =~= first + second.drop_last());
        assert((first + second).last() == second.last());
        assert(nodes_commands(first + second, into, context) =~= nodes_commands(
            first,
            into,
            context,
        ) + nodes_commands(second, into, context));
    }
}

/// A retained output is composited and nothing else: neither its content nor a pass is
/// rendered again.
pub proof fn retained_outputs_are_only_composited<'a, T: DrawnLayer, X: Copy, G, V>(
    node: RecordedLayer<T, X, G, V>,
    into: Surface<'a, G, V>,
    context: Context,
)
    requires
        node.prepared matches Some(prepared) && prepared_wf(prepared) && prepared.output_valid,
    ensures
        layer_commands(node, into, context) == composite_commands(
            node,
            node.prepared->0,
            into,
            context,
        ),
{
    let prepared = node.prepared->0;
    assert(passes_commands(node, prepared, 0) =~= Seq::<Command<'a, T, X, G, V>>::empty());
    assert(layer_commands(node, into, context) =~= composite_commands(
        node,
        prepared,
        into,
        context,
    ));
}

/// An output that a pass does not fully write is cleared right before the pass.
pub proof fn incomplete_outputs_are_cleared<'a, T: DrawnLayer, X: Copy, G, V>(
    node: RecordedLayer<T, X, G, V>,
    prepared: PreparedIsolatedLayer<G, V>,
    pass: int,
)
    requires
        0 <= pass < prepared.passes@.len(),
        !prepared.passes@[pass].planned.writes_every_pixel,
    ensures
        ({
            let commands = pass_commands::<'a, T, X, G, V>(node, prepared, prepared.passes@[pass]);
            &&& commands.len() == 2
            &&& commands[0] matches Command::Clear { surface, fill } && fill == Fill::Transparent
                && surface == Surface::Target(
                &prepared.targets@[prepared.passes@[pass].planned.output as int],
            )
            &&& commands[1] is Pass
        }),
{
}

/// The passes that a list of steps encodes, in order.
pub open spec fn encoded<'a, T: DrawnLayer, X: Copy, G, V>(
    commands: Seq<Command<'a, T, X, G, V>>,
) -> Seq<Command<'a, T, X, G, V>>
    decreases commands.len(),
{
    if commands.len() == 0 {
        Seq::empty()
    } else if commands.last() is Pass {
        encoded(commands.drop_last()).push(commands.last())
    } else {
        encoded(commands.drop_last())
    }
}

proof fn lemma_encoded_joined<'a, T: DrawnLayer, X: Copy, G, V>(
    first: Seq<Command<'a, T, X, G, V>>,
    second: Seq<Command<'a, T, X, G, V>>,
)
    ensures
        encoded(first + second) == encoded(first) + encoded(second),
    decreases second.len(),
{
    if second.len() == 0 {
        assert(first + second =~= first);
        assert(encoded(first) + encoded(second) =~= encoded(first));
    } else {
        lemma_encoded_joined(first, second.drop_last());
        assert((first + second).drop_last() =~= first + second.drop_last());
        assert((first + second).last() == second.last());
        assert(encoded(first + second) =~= encoded(first) + encoded(second));
    }
}

/// What a pass step hands to the effect: the pass itself, the stage's input and what the pass
/// before it left, the backdrop if it samples it, and a target to write.
pub open spec fn hands_over<'a, T: DrawnLayer, X: Copy, G, V>(
    node: RecordedLayer<T, X, G, V>,
    prepared: PreparedIsolatedLayer<G, V>,
    k: int,
    command: Command<'a, T, X, G, V>,
) -> bool {
    command matches Command::Pass {
        effects,
        pass,
        capture,
        content_bounds,
        stage_input,
        backdrop,
        previous,
        output,
    } && {
        &&& *effects == node.effects
        &&& *pass == prepared.passes@[k]
        &&& *capture == prepared.context
        &&& content_bounds == node.layer.content_bounds
        &&& *stage_input == prepared.targets@[pass.planned.stage_input as int]
        &&& *previous == prepared.targets@[pass.planned.previous as int]
        &&& *output == prepared.targets@[pass.planned.output as int]
        &&& backdrop is Some <==> pass.planned.uses_backdrop
        &&& backdrop matches Some(below) ==> *below == prepared.targets@[prepared.backdrop->0 as int]
    }
}

proof fn lemma_pass_encoded<'a, T: DrawnLayer, X: Copy, G, V>(
    node: RecordedLayer<T, X, G, V>,
    prepared: PreparedIsolatedLayer<G, V>,
    k: int,
)
    ensures
        ({
            let steps = pass_commands::<'a, T, X, G, V>(node, prepared, prepared.passes@[k]);
            &&& encoded(steps).len() == 1
            &&& hands_over(node, prepared, k, encoded(steps)[0])
            &&& steps.last() == encoded(steps)[0]
        }),
{
    let steps = pass_commands::<'a, T, X, G, V>(node, prepared, prepared.passes@[k]);
    reveal_with_fuel(encoded, 3);
}

proof fn lemma_passes_encoded<'a, T: DrawnLayer, X: Copy, G, V>(
    node: RecordedLayer<T, X, G, V>,
    prepared: PreparedIsolatedLayer<G, V>,
    count: int,
)
    requires
        0 <= count,
    ensures
        ({
            let steps = passes_commands::<'a, T, X, G, V>(node, prepared, count);
            &&& encoded(steps).len() == count
            &&& forall|k: int|
                0 <= k < count ==> hands_over(node, prepared, k, #[trigger] encoded(steps)[k])
            &&& count > 0 ==> steps.len() > 0 && steps.last() == encoded(steps)[count - 1]
            &&& forall|i: int|
                0 <= i < steps.len() ==> #[trigger] steps[i] is Pass || steps[i] is Clear
        }),
    decreases count,
{
    if count > 0 {
        let before = passes_commands::<'a, T, X, G, V>(node, prepared, count - 1);
        let last = pass_commands::<'a, T, X, G, V>(node, prepared, prepared.passes@[count - 1]);
        lemma_passes_encoded::<T, X, G, V>(node, prepared, count - 1);
        lemma_pass_encoded::<T, X, G, V>(node, prepared, count - 1);
        lemma_encoded_joined(before, last);
        let steps = passes_commands::<'a, T, X, G, V>(node, prepared, count);
        assert forall|k: int| 0 <= k < count implies hands_over(
            node,
            prepared,
            k,
            #[trigger] encoded(steps)[k],
        ) by {
            if k < count - 1 {
                assert(encoded(steps)[k] == encoded(before)[k]);
            } else {
                assert(encoded(steps)[k] == encoded(last)[0]);
            }
        }
        assert forall|i: int| 0 <= i < steps.len() implies #[trigger] steps[i] is Pass || steps[i]
            is Clear by {
            if i < before.len() {
                assert(steps[i] == before[i]);
            } else {
                assert(steps[i] == last[i - before.len()]);
            }
        }
    } else {
        assert(encoded(Seq::<Command<'a, T, X, G, V>>::empty()).len() == 0);
    }
}

/// A layer that may reach its parent ends in a composition of its output into the parent, with
/// what the layer asks for and where it may be seen. A layer that may not is not composited.
pub proof fn layers_end_in_their_composition<'a, T: DrawnLayer, X: Copy, G, V>(
    node: RecordedLayer<T, X, G, V>,
    into: Surface<'a, G, V>,
    context: Context,
)
    requires
        node.prepared matches Some(prepared) && prepared.clip is Some,
    ensures
        layer_commands(node, into, context).len() > 0,
        layer_commands(node, into, context).last() matches Command::Composite {
            output,
            composite,
            capture,
            into: parent,
            viewport,
            clip,
            fill,
        } && {
            let prepared = node.prepared->0;
            &&& *output == prepared.targets@[prepared.output as int]
            &&& composite == node.layer.composite
            &&& *capture == prepared.context
            &&& parent == into
            &&& viewport == (Size {
                width: context.source_rect.width,
                height: context.source_rect.height,
            })
            &&& Some(clip) == prepared.clip
            &&& fill == Fill::Keep
        },
{
}

/// What is composited is what the last pass wrote, and without passes the captured child, or
/// the retained output.
pub proof fn finished_outputs_are_composited<'a, T: DrawnLayer, X: Copy, G, V>(
    node: RecordedLayer<T, X, G, V>,
    into: Surface<'a, G, V>,
    context: Context,
    plan: crate::effect_plan::EffectPassPlan,
)
    requires
        node.prepared matches Some(prepared) && prepared.clip is Some
            && crate::frame::follows_plan(plan, prepared),
        crate::effect_plan::is_plan(node.effects@, plan),
    ensures
        ({
            let commands = layer_commands(node, into, context);
            let prepared = node.prepared->0;
            &&& commands.last() is Composite
            &&& prepared.passes@.len() > 0 ==> commands.len() >= 2 && commands[commands.len() - 2]
                is Pass && commands[commands.len() - 2]->Pass_output
                == commands.last()->Composite_output
            &&& prepared.passes@.len() == 0 ==> *commands.last()->Composite_output
                == prepared.targets@[0]
        }),
{
    let prepared = node.prepared->0;
    let count = prepared.passes@.len() as int;
    let commands = layer_commands(node, into, context);
    let passes = passes_commands::<'a, T, X, G, V>(node, prepared, count);
    lemma_passes_encoded::<T, X, G, V>(node, prepared, count);
    if count > 0 {
        crate::effect_plan::passes_chain(node.effects@, plan, count - 1);
        assert(prepared.passes@[count - 1].planned == plan.passes@[count - 1]);
        assert(commands[commands.len() - 2] == passes.last());
        assert(hands_over(node, prepared, count - 1, encoded(passes)[count - 1]));
    } else {
        assert(plan.output == 0) by {
            crate::effect_plan::empty_plans_forward_the_child(node.effects@, plan);
        }
    }
}

/// How many steps bring the backdrop in.
pub open spec fn backdrop_steps<G, V>(prepared: PreparedIsolatedLayer<G, V>) -> int {
    if prepared.backdrop is Some {
        1
    } else {
        0
    }
}

/// A layer that samples what was drawn below it starts by taking that from its parent: pixel by
/// pixel, or resampled if it is placed between pixels. Other layers take nothing.
pub proof fn backdrops_are_taken_first<'a, T: DrawnLayer, X: Copy, G, V>(
    node: RecordedLayer<T, X, G, V>,
    into: Surface<'a, G, V>,
    context: Context,
)
    requires
        node.prepared matches Some(prepared) && prepared.backdrop is Some,
    ensures
        ({
            let prepared = node.prepared->0;
            let commands = layer_commands(node, into, context);
            let below = prepared.targets@[prepared.backdrop->0 as int];
            &&& commands.len() > 0
            &&& match commands[0] {
                Command::CopyBackdrop { from, to, capture } => from == into && *to == below
                    && *capture == prepared.context && node.layer.composite.place()
                    != CompositePositioning::Subpixel,
                Command::BlitBackdrop { from, context: parent, to, capture } => from == into
                    && *parent == context && *to == below && *capture == prepared.context
                    && node.layer.composite.place() == CompositePositioning::Subpixel,
                _ => false,
            }
        }),
{
    let commands = layer_commands(node, into, context);
    let first = backdrop_commands(node, node.prepared->0, into, context);
    assert(commands[0] == first[0]);
}

/// Unless the output was retained, the captured child is cleared and the content rendered into
/// it, all of it and in order, before anything is composited or any pass runs.
pub proof fn content_is_captured_into_the_child<'a, T: DrawnLayer, X: Copy, G, V>(
    node: RecordedLayer<T, X, G, V>,
    into: Surface<'a, G, V>,
    context: Context,
)
    requires
        node.prepared matches Some(prepared) && !prepared.output_valid,
    ensures
        ({
            let prepared = node.prepared->0;
            let commands = layer_commands(node, into, context);
            let start = backdrop_steps(prepared);
            let child = Surface::Target(&prepared.targets@[0]);
            let inner = nodes_commands::<T, X, G, V>(node.content.0@, child, prepared.context);
            &&& commands.len() >= start + 1 + inner.len()
            &&& commands[start] matches Command::Clear { surface, fill } && surface == child
                && fill == Fill::Transparent
            &&& commands.subrange(start + 1, start + 1 + inner.len()) == inner
        }),
{
    let prepared = node.prepared->0;
    let commands = layer_commands(node, into, context);
    let start = backdrop_steps(prepared);
    let child = Surface::Target(&prepared.targets@[0]);
    let inner = nodes_commands::<T, X, G, V>(node.content.0@, child, prepared.context);
    let first = backdrop_commands::<T, X, G, V>(node, prepared, into, context);
    assert(first.len() == start);
    assert(commands.subrange(start + 1, start + 1 + inner.len()) =~= inner);
}

/// After its content a layer runs each of its passes once, in order, and then it may be
/// composited. Each pass gets its stage's input and what the pass before it wrote, the first
/// one the captured child, and writes the target that was planned for it.
pub proof fn passes_run_in_order_on_their_targets<'a, T: DrawnLayer, X: Copy, G, V>(
    node: RecordedLayer<T, X, G, V>,
    into: Surface<'a, G, V>,
    context: Context,
    plan: crate::effect_plan::EffectPassPlan,
    k: int,
)
    requires
        node.prepared matches Some(prepared) && !prepared.output_valid
            && crate::frame::follows_plan(plan, prepared) && 0 <= k < prepared.passes@.len(),
        crate::effect_plan::is_plan(node.effects@, plan),
    ensures
        ({
            let prepared = node.prepared->0;
            let child = Surface::Target(&prepared.targets@[0]);
            let inner = nodes_commands::<T, X, G, V>(node.content.0@, child, prepared.context);
            let rest = layer_commands(node, into, context).skip(
                backdrop_steps(prepared) + 1 + inner.len(),
            );
            let passes = encoded(rest);
            &&& passes.len() == prepared.passes@.len()
            &&& hands_over(node, prepared, k, passes[k])
            &&& *passes[k]->previous == (if k == 0 {
                prepared.targets@[0]
            } else {
                *passes[k - 1]->Pass_output
            })
            &&& plan.passes@[k].pass == 0 ==> passes[k]->stage_input == passes[k]->previous
            &&& plan.passes@[k].pass > 0 ==> k > 0 && passes[k]->stage_input == passes[k
                - 1]->stage_input
            &&& forall|i: int|
                0 <= i < rest.len() ==> (#[trigger] rest[i] is Pass || rest[i] is Clear || (i
                    == rest.len() - 1 && rest[i] is Composite && prepared.clip is Some))
        }),
{
    let prepared = node.prepared->0;
    let child = Surface::Target(&prepared.targets@[0]);
    let inner = nodes_commands::<T, X, G, V>(node.content.0@, child, prepared.context);
    let commands = layer_commands(node, into, context);
    let count = prepared.passes@.len() as int;
    let steps = passes_commands::<'a, T, X, G, V>(node, prepared, count);
    let end = composite_commands::<T, X, G, V>(node, prepared, into, context);
    let rest = commands.skip(backdrop_steps(prepared) + 1 + inner.len());
    let first = backdrop_commands::<T, X, G, V>(node, prepared, into, context);
    assert(first.len() == backdrop_steps(prepared));
    assert(rest =~= steps + end);
    lemma_passes_encoded::<T, X, G, V>(node, prepared, count);
    lemma_encoded_joined(steps, end);
    assert(encoded(end).len() == 0) by {
        reveal_with_fuel(encoded, 2);
    }
    assert(encoded(rest) =~= encoded(steps));
    crate::effect_plan::passes_chain(node.effects@, plan, k);
    assert(hands_over(node, prepared, k, encoded(steps)[k]));
    assert(prepared.passes@[k].planned == plan.passes@[k]);
    if k > 0 {
        assert(hands_over(node, prepared, k - 1, encoded(steps)[k - 1]));
        assert(prepared.passes@[k - 1].planned == plan.passes@[k - 1]);
    } else {
        let place = crate::effect_plan::planned_passes_are_declared(node.effects@, 0);
        assert(plan.passes@[0] == crate::effect_plan::planned(node.effects@, place.0, place.1));
    }
    assert forall|i: int| 0 <= i < rest.len() implies (#[trigger] rest[i] is Pass || rest[i]
        is Clear || (i == rest.len() - 1 && rest[i] is Composite && prepared.clip is Some)) by {
        if i < steps.len() {
            assert(rest[i] == steps[i]);
        }
    }
}

/// Ordinary drawing is one step into the surface at hand, with or without effects an isolated
/// layer takes the steps of its own, and a layer that was not prepared takes none.
pub proof fn nodes_are_rendered_where_they_stand<'a, T: DrawnLayer, X: Copy, G, V>(
    node: Node<T, X, G, V>,
    into: Surface<'a, G, V>,
    context: Context,
)
    ensures
        ({
            let commands = nodes_commands(seq![node], into, context);
            match node {
                Node::Leaf(leaf) => commands.len() == 1 && (commands[0] matches Command::Leaf {
                    leaf: drawn,
                    into: surface,
                    context: at,
                } && *drawn == leaf && surface == into && *at == context),
                Node::Layer(layer) | Node::Effect(layer) => {
                    &&& commands == layer_commands(layer, into, context)
                    &&& layer.prepared is None ==> commands.len() == 0
                },
            }
        }),
{
    let nodes = seq![node];
    assert(nodes.drop_last() =~= Seq::<Node<T, X, G, V>>::empty());
    assert(nodes_commands(nodes.drop_last(), into, context) =~= Seq::<
        Command<'a, T, X, G, V>,
    >::empty());
    assert(nodes_commands(nodes, into, context) =~= node_commands(node, into, context));
}

} // verus!
