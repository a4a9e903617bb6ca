//! Ordinary drawing: which primitives of a layer stack are drawn, and in what order.

use crate::context::Context;
use crate::float_bits::RectangleBits;
use crate::frame::Counters;
use crate::geometry::Rectangle;
use crate::layer::{self, combined, models, settled, Drawing, Stack};
use crate::recording::{Leaf, PreparedLayer, Run};
use vstd::prelude::*;

verus! {

/// How many groups of each kind of primitive a layer holds.
#[derive(Debug, Clone, Copy, PartialEq, Eq, Structural)]
pub struct LayerContents {
    pub quads: bool,
    pub triangles: usize,
    pub primitives: usize,
    pub images: bool,
    pub texts: usize,
}

/// A layer of the primitives that a renderer draws.
pub trait DrawnLayer: layer::Layer<Bounds = RectangleBits> {
    /// How many groups of each kind of primitive a layer holds.
    spec fn contents_of(model: Self::Model) -> LayerContents;

    /// Returns how many groups of each kind of primitive the layer holds.
    fn contents(&self) -> (contents: LayerContents)
        ensures
            contents == Self::contents_of(self.model()),
    ;
}

/// Where a layer is drawn.
#[derive(Debug, Clone, Copy)]
pub struct Placed {
    /// The bounds in the target's physical pixels.
    pub bounds: RectangleBits,
    /// The whole pixels that drawing may touch.
    pub scissor: Rectangle,
}

/// A sum, as far as it can be held.
pub open spec fn held_sum(a: usize, b: usize) -> usize {
    if a + b > usize::MAX {
        usize::MAX
    } else {
        (a + b) as usize
    }
}

/// The counters after one more layer was prepared. A layer that is nowhere drawn counts
/// nothing.
pub open spec fn counted(
    counters: Counters,
    contents: LayerContents,
    placed: Option<Placed>,
) -> Counters {
    if placed is None {
        counters
    } else {
        Counters {
            quads: if contents.quads {
                held_sum(counters.quads, 1)
            } else {
                counters.quads
            },
            triangles: held_sum(counters.triangles, contents.triangles),
            images: if contents.images {
                held_sum(counters.images, 1)
            } else {
                counters.images
            },
            texts: held_sum(counters.texts, contents.texts),
        }
    }
}

/// The counters after the first `count` layers were prepared.
pub open spec fn counted_up_to(
    counters: Counters,
    contents: Seq<LayerContents>,
    placed: Seq<Option<Placed>>,
    count: int,
) -> Counters
    decreases count,
{
    if count <= 0 {
        counters
    } else {
        counted(
            counted_up_to(counters, contents, placed, count - 1),
            contents[count - 1],
            placed[count - 1],
        )
    }
}

/// The prepared indices of one layer: those that follow what the counters hold.
pub open spec fn prepared_layer(
    counters: Counters,
    contents: LayerContents,
    placed: Option<Placed>,
) -> Option<PreparedLayer> {
    match placed {
        Some(placed) => Some(
            PreparedLayer {
                scissor: placed.scissor,
                physical_bounds: placed.bounds,
                quad: if contents.quads {
                    Some(counters.quads)
                } else {
                    None
                },
                triangle: Run {
                    start: counters.triangles,
                    end: held_sum(counters.triangles, contents.triangles),
                },
                image: if contents.images {
                    Some(counters.images)
                } else {
                    None
                },
                text: Run {
                    start: counters.texts,
                    end: held_sum(counters.texts, contents.texts),
                },
            },
        ),
        None => None,
    }
}

/// The prepared indices of all layers, in order.
pub open spec fn prepared_layers(
    counters: Counters,
    contents: Seq<LayerContents>,
    placed: Seq<Option<Placed>>,
) -> Seq<Option<PreparedLayer>> {
    Seq::new(
        contents.len(),
        |i: int|
            prepared_layer(counted_up_to(counters, contents, placed, i), contents[i], placed[i]),
    )
}

/// What a list of layers holds of each kind.
pub open spec fn all_contents<T: DrawnLayer>(layers: Seq<T::Model>) -> Seq<LayerContents> {
    layers.map_values(|model: T::Model| T::contents_of(model))
}

/// Whether `place` puts the layers where `placed` says.
pub open spec fn places<T: DrawnLayer, P: Fn(RectangleBits, Context) -> Option<Placed>>(
    place: P,
    context: Context,
    layers: Seq<T::Model>,
    placed: Seq<Option<Placed>>,
) -> bool {
    &&& placed.len() == layers.len()
    &&& forall|i: int|
        0 <= i < layers.len() ==> call_ensures(
            place,
            (T::bounds_of(layers[i]), context),
            #[trigger] placed[i],
        )
}

/// Prepares every layer of a stack that is somewhere drawn.
///
/// `place` gives, for the bounds of a layer and the context of its target, where it is drawn.
pub fn prepare_layers<
    T: DrawnLayer,
    X: Copy,
    P: Fn(RectangleBits, Context) -> Option<Placed>,
>(stack: &Stack<T, X>, context: &Context, counters: &mut Counters, place: &P) -> (prepared: Vec<
    Option<PreparedLayer>,
>)
    requires
        stack@.wf(),
        forall|bounds: RectangleBits| call_requires(*place, (bounds, *context)),
    ensures
        exists|placed: Seq<Option<Placed>>| #[trigger]
            places::<T, P>(*place, *context, stack@.drawn(), placed) && {
                let contents = all_contents::<T>(stack@.drawn());
                &&& prepared@ == prepared_layers(*old(counters), contents, placed)
                &&& *final(counters) == counted_up_to(
                    *old(counters),
                    contents,
                    placed,
                    contents.len() as int,
                )
            },
{
    let layers = stack.as_slice();
    let ghost drawn = stack@.drawn();
    let ghost contents = all_contents::<T>(drawn);
    let ghost before = *counters;
    let ghost mut placed: Seq<Option<Placed>> = Seq::empty();
    let mut prepared: Vec<Option<PreparedLayer>> = Vec::new();
    let mut index: usize = 0;
    while index < layers.len()
        invariant
            index <= layers@.len(),
            models(layers@) == drawn,
            contents == all_contents::<T>(drawn),
            forall|bounds: RectangleBits| call_requires(*place, (bounds, *context)),
            placed.len() == index,
            forall|i: int|
                0 <= i < index ==> call_ensures(
                    *place,
                    (T::bounds_of(drawn[i]), *context),
                    #[trigger] placed[i],
                ),
            prepared@.len() == index,
            forall|i: int|
                0 <= i < index ==> #[trigger] prepared@[i] == prepared_layer(
                    counted_up_to(before, contents, placed, i),
                    contents[i],
                    placed[i],
                ),
            *counters == counted_up_to(before, contents, placed, index as int),
        decreases layers@.len() - index,
    {
        assert(drawn[index as int] == layers@[index as int].model());
        let held = layers[index].contents();
        let bounds = layers[index].bounds();
        let answer = place(bounds, *context);
        let ghost earlier = placed;
        proof {
            placed = placed.push(answer);
            assert forall|i: int| 0 <= i <= index implies counted_up_to(
                before,
                contents,
                placed,
                i,
            ) == counted_up_to(before, contents, earlier, i) by {
                lemma_counted_prefix(before, contents, placed, earlier, i);
            }
        }
        match answer {
            Some(found) => {
                let entry = PreparedLayer {
                    scissor: found.scissor,
                    physical_bounds: found.bounds,
                    quad: if held.quads {
                        Some(counters.quads)
                    } else {
                        None
                    },
                    triangle: Run {
                        start: counters.triangles,
                        end: counters.triangles.saturating_add(held.triangles),
                    },
                    image: if held.images {
                        Some(counters.images)
                    } else {
                        None
                    },
                    text: Run {
                        start: counters.texts,
                        end: counters.texts.saturating_add(held.texts),
                    },
                };
                if held.quads {
                    counters.quads = counters.quads.saturating_add(1);
                }
                if held.images {
                    counters.images = counters.images.saturating_add(1);
                }
                counters.triangles = entry.triangle.end;
                counters.texts = entry.text.end;
                prepared.push(Some(entry));
            },
            None => {
                prepared.push(None);
            },
        }
        index = index + 1;
    }
    proof {
        assert(prepared@ =~= prepared_layers(before, contents, placed));
        assert(places::<T, P>(*place, *context, drawn, placed));
    }
    prepared
}

proof fn lemma_counted_prefix(
    counters: Counters,
    contents: Seq<LayerContents>,
    longer: Seq<Option<Placed>>,
    shorter: Seq<Option<Placed>>,
    count: int,
)
    requires
        count <= shorter.len() <= longer.len(),
        forall|i: int| 0 <= i < shorter.len() ==> #[trigger] longer[i] == shorter[i],
    ensures
        counted_up_to(counters, contents, longer, count) == counted_up_to(
            counters,
            contents,
            shorter,
            count,
        ),
    decreases count,
{
    if count > 0 {
        lemma_counted_prefix(counters, contents, longer, shorter, count - 1);
        assert(longer[count - 1] == shorter[count - 1]);
    }
}

/// The stack after its layers were merged.
pub open spec fn merged_stack<T: DrawnLayer, X>(stack: Drawing<T::Model, X>) -> Drawing<
    T::Model,
    X,
> {
    Drawing {
        layers: combined::<T>(settled::<T>(stack.layers, stack.path()), stack.active),
        ..stack
    }
}

/// Prepares a leaf: merges its layers and prepares those that are somewhere drawn.
pub fn prepare_leaf<T: DrawnLayer, X: Copy, P: Fn(RectangleBits, Context) -> Option<Placed>>(
    leaf: &mut Leaf<T, X>,
    context: &Context,
    counters: &mut Counters,
    place: &P,
)
    requires
        old(leaf).stack@.wf(),
        forall|bounds: RectangleBits| call_requires(*place, (bounds, *context)),
    ensures
        final(leaf).stack@.wf(),
        leaf_prepared::<T, X, P>(
            *place,
            *context,
            *old(counters),
            *final(counters),
            *old(leaf),
            *final(leaf),
        ),
{
    leaf.stack.merge();
    leaf.prepared = prepare_layers(&leaf.stack, context, counters, place);
}

/// Whether preparing a leaf may turn the counters and the leaf into these.
pub open spec fn leaf_prepared<
    T: DrawnLayer,
    X: Copy,
    P: Fn(RectangleBits, Context) -> Option<Placed>,
>(
    place: P,
    context: Context,
    before: Counters,
    after: Counters,
    leaf: Leaf<T, X>,
    leaf_after: Leaf<T, X>,
) -> bool {
    &&& leaf_after.stack@ == merged_stack::<T, X>(leaf.stack@)
    &&& exists|placed: Seq<Option<Placed>>| #[trigger]
        places::<T, P>(place, context, leaf_after.stack@.drawn(), placed) && {
            let contents = all_contents::<T>(leaf_after.stack@.drawn());
            &&& leaf_after.prepared@ == prepared_layers(before, contents, placed)
            &&& after == counted_up_to(before, contents, placed, contents.len() as int)
        }
}

/// One step of drawing a layer stack.
#[derive(Debug, Clone, Copy, PartialEq, Eq)]
pub enum DrawCommand {
    /// Begins a render pass, which keeps what the target holds unless it clears it.
    BeginPass { clear: bool },
    /// Ends the render pass.
    EndPass,
    /// Draws the quads of a layer.
    Quads { layer: usize, index: usize, scissor: Rectangle },
    /// Draws the triangles of a layer, outside of a pass.
    Triangles { layer: usize, start: usize, bounds: RectangleBits },
    /// Draws one custom primitive of a layer.
    Primitive { layer: usize, instance: usize, clip: RectangleBits },
    /// Lets drawing reach the whole target again.
    ResetRegion,
    /// Draws the images of a layer.
    Images { layer: usize, index: usize, scissor: Rectangle },
    /// Draws the text of a layer.
    Text { layer: usize, start: usize, scissor: Rectangle },
}

/// The steps that draw one layer: quads, triangles, custom primitives, images and text.
pub open spec fn layer_commands(
    layer: usize,
    contents: LayerContents,
    prepared: Option<PreparedLayer>,
) -> Seq<DrawCommand> {
    match prepared {
        Some(prepared) => quad_commands(layer, prepared) + triangle_commands(layer, prepared)
            + primitive_commands(layer, contents, prepared) + image_commands(layer, prepared)
            + text_commands(layer, prepared),
        None => Seq::empty(),
    }
}

/// The steps that draw the quads of a layer.
pub open spec fn quad_commands(layer: usize, prepared: PreparedLayer) -> Seq<DrawCommand> {
    match prepared.quad {
        Some(index) => seq![DrawCommand::Quads { layer, index, scissor: prepared.scissor }],
        None => Seq::empty(),
    }
}

/// The steps that draw the triangles of a layer.
pub open spec fn triangle_commands(layer: usize, prepared: PreparedLayer) -> Seq<DrawCommand> {
    if prepared.triangle.start < prepared.triangle.end {
        seq![
            DrawCommand::EndPass,
            DrawCommand::Triangles {
                layer,
                start: prepared.triangle.start,
                bounds: prepared.physical_bounds,
            },
            DrawCommand::BeginPass { clear: false },
        ]
    } else {
        Seq::empty()
    }
}

/// The steps that draw the first `count` custom primitives of a layer.
pub open spec fn instance_commands(
    layer: usize,
    prepared: PreparedLayer,
    count: nat,
) -> Seq<DrawCommand> {
    Seq::new(
        count,
        |i: int|
            DrawCommand::Primitive { layer, instance: i as usize, clip: prepared.physical_bounds },
    )
}

/// The steps that draw the custom primitives of a layer.
pub open spec fn primitive_commands(
    layer: usize,
    contents: LayerContents,
    prepared: PreparedLayer,
) -> Seq<DrawCommand> {
    if contents.primitives > 0 {
        instance_commands(layer, prepared, contents.primitives as nat).push(
            DrawCommand::ResetRegion,
        )
    } else {
        Seq::empty()
    }
}

/// The steps that draw the images of a layer.
pub open spec fn image_commands(layer: usize, prepared: PreparedLayer) -> Seq<DrawCommand> {
    match prepared.image {
        Some(index) => seq![DrawCommand::Images { layer, index, scissor: prepared.scissor }],
        None => Seq::empty(),
    }
}

/// The steps that draw the text of a layer.
pub open spec fn text_commands(layer: usize, prepared: PreparedLayer) -> Seq<DrawCommand> {
    if prepared.text.start < prepared.text.end {
        seq![
            DrawCommand::Text { layer, start: prepared.text.start, scissor: prepared.scissor },
        ]
    } else {
        Seq::empty()
    }
}

/// The steps that draw the first `count` layers.
pub open spec fn layers_commands(
    contents: Seq<LayerContents>,
    prepared: Seq<Option<PreparedLayer>>,
    count: int,
) -> Seq<DrawCommand>
    decreases count,
{
    if count <= 0 {
        Seq::empty()
    } else {
        layers_commands(contents, prepared, count - 1) + layer_commands(
            (count - 1) as usize,
            contents[count - 1],
            prepared[count - 1],
        )
    }
}

/// The steps that draw a whole stack.
pub open spec fn stack_commands(
    contents: Seq<LayerContents>,
    prepared: Seq<Option<PreparedLayer>>,
    clear: bool,
) -> Seq<DrawCommand> {
    seq![DrawCommand::BeginPass { clear }] + layers_commands(
        contents,
        prepared,
        contents.len() as int,
    ) + seq![DrawCommand::EndPass]
}

/// Returns the steps that draw a prepared stack.
///
/// A layer that is nowhere drawn takes none.
pub fn draw_layers<T: DrawnLayer, X: Copy>(
    stack: &Stack<T, X>,
    prepared: &Vec<Option<PreparedLayer>>,
    clear: bool,
) -> (commands: Vec<DrawCommand>)
    requires
        stack@.wf(),
        prepared@.len() == stack@.drawn().len(),
    ensures
        commands@ == stack_commands(all_contents::<T>(stack@.drawn()), prepared@, clear),
{
    let layers = stack.as_slice();
    let ghost drawn = stack@.drawn();
    let ghost contents = all_contents::<T>(drawn);
    let mut commands: Vec<DrawCommand> = Vec::new();
    commands.push(DrawCommand::BeginPass { clear });
    let ghost head = seq![DrawCommand::BeginPass { clear }];
    let mut index: usize = 0;
    assert(commands@ =~= head + layers_commands(contents, prepared@, 0));
    while index < layers.len()
        invariant
            index <= layers@.len(),
            models(layers@) == drawn,
            contents == all_contents::<T>(drawn),
            prepared@.len() == drawn.len(),
            commands@ == head + layers_commands(contents, prepared@, index as int),
        decreases layers@.len() - index,
    {
        assert(drawn[index as int] == layers@[index as int].model());
        let held = layers[index].contents();
        let ghost before = commands@;
        draw_layer(&mut commands, index, held, &prepared[index]);
        index = index + 1;
        assert(commands@ =~= head + layers_commands(contents, prepared@, index as int));
    }
    commands.push(DrawCommand::EndPass);
    assert(commands@ =~= stack_commands(contents, prepared@, clear));
    commands
}

fn draw_primitives(
    commands: &mut Vec<DrawCommand>,
    layer: usize,
    contents: LayerContents,
    prepared: PreparedLayer,
)
    ensures
        final(commands)@ == old(commands)@ + primitive_commands(layer, contents, prepared),
{
    let ghost before = commands@;
    if contents.primitives > 0 {
        let mut instance: usize = 0;
        assert(commands@ =~= before + instance_commands(layer, prepared, 0));
        while instance < contents.primitives
            invariant
                instance <= contents.primitives,
                commands@ == before + instance_commands(layer, prepared, instance as nat),
            decreases contents.primitives - instance,
        {
            commands.push(
                DrawCommand::Primitive { layer, instance, clip: prepared.physical_bounds },
            );
            instance = instance + 1;
            assert(commands@ =~= before + instance_commands(layer, prepared, instance as nat));
        }
        commands.push(DrawCommand::ResetRegion);
    }
    assert(commands@ =~= before + primitive_commands(layer, contents, prepared));
}

fn draw_layer(
    commands: &mut Vec<DrawCommand>,
    layer: usize,
    contents: LayerContents,
    prepared: &Option<PreparedLayer>,
)
    ensures
        final(commands)@ == old(commands)@ + layer_commands(layer, contents, *prepared),
{
    let ghost before = commands@;
    let prepared = match prepared {
        Some(prepared) => *prepared,
        None => {
            assert(commands@ =~= before + Seq::<DrawCommand>::empty());
            return ;
        },
    };
    if let Some(index) = prepared.quad {
        commands.push(DrawCommand::Quads { layer, index, scissor: prepared.scissor });
    }
    let ghost quads = quad_commands(layer, prepared);
    assert(commands@ =~= before + quads);

    if prepared.triangle.start < prepared.triangle.end {
        commands.push(DrawCommand::EndPass);
        commands.push(
            DrawCommand::Triangles {
                layer,
                start: prepared.triangle.start,
                bounds: prepared.physical_bounds,
            },
        );
        commands.push(DrawCommand::BeginPass { clear: false });
    }
    let ghost triangles = triangle_commands(layer, prepared);
    assert(commands@ =~= before + quads + triangles);

    let ghost so_far = commands@;
    draw_primitives(commands, layer, contents, prepared);
    let ghost primitives = primitive_commands(layer, contents, prepared);

    if let Some(index) = prepared.image {
        commands.push(DrawCommand::Images { layer, index, scissor: prepared.scissor });
    }
    let ghost images = image_commands(layer, prepared);
    assert(commands@ =~= so_far + primitives + images);

    if prepared.text.start < prepared.text.end {
        commands.push(
            DrawCommand::Text { layer, start: prepared.text.start, scissor: prepared.scissor },
        );
    }
    assert(commands@ =~= before + layer_commands(layer, contents, Some(prepared)));
}

/// Whether a render pass is open after these steps, and nothing if a step came at a time
/// when it could not.
pub open spec fn pass_after(commands: Seq<DrawCommand>, open: bool) -> Option<bool>
    decreases commands.len(),
{
    if commands.len() == 0 {
        Some(open)
    } else {
        match (pass_after(commands.drop_last(), open), commands.last()) {
            (Some(false), DrawCommand::BeginPass { .. }) => Some(true),
            (Some(true), DrawCommand::EndPass) => Some(false),
            (Some(false), DrawCommand::Triangles { .. }) => Some(false),
            (Some(true), DrawCommand::Quads { .. }) => Some(true),
            (Some(true), DrawCommand::Primitive { .. }) => Some(true),
            (Some(true), DrawCommand::ResetRegion) => Some(true),
            (Some(true), DrawCommand::Images { .. }) => Some(true),
            (Some(true), DrawCommand::Text { .. }) => Some(true),
            _ => None,
        }
    }
}

proof fn lemma_pass_joined(first: Seq<DrawCommand>, second: Seq<DrawCommand>, open: bool)
    requires
        pass_after(first, open) is Some,
    ensures
        pass_after(first + second, open) == pass_after(second, pass_after(first, open)->0),
    decreases second.len(),
{
    if second.len() == 0 {
        assert(first + second =~= first);
    } else {
        lemma_pass_joined(first, second.drop_last(), open);
        assert((first + second).drop_last() =~= first + second.drop_last());
        assert((first + second).last() == second.last());
    }
}

proof fn lemma_step_pass(commands: Seq<DrawCommand>)
    requires
        commands.len() <= 1,
        forall|i: int|
            0 <= i < commands.len() ==> #[trigger] commands[i] is Quads || commands[i] is Images
                || commands[i] is Text,
    ensures
        pass_after(commands, true) == Some(true),
{
    if commands.len() > 0 {
        assert(commands.drop_last() =~= Seq::<DrawCommand>::empty());
        assert(pass_after(commands.drop_last(), true) == Some(true));
        assert(commands[0] == commands.last());
    }
}

proof fn lemma_triangles_pass(layer: usize, prepared: PreparedLayer)
    ensures
        pass_after(triangle_commands(layer, prepared), true) == Some(true),
{
    let triangles = triangle_commands(layer, prepared);
    if triangles.len() > 0 {
        let ended = triangles.drop_last().drop_last();
        assert(ended.drop_last() =~= Seq::<DrawCommand>::empty());
        assert(ended.last() == DrawCommand::EndPass);
        assert(pass_after(ended.drop_last(), true) == Some(true));
        assert(pass_after(ended, true) == Some(false));
        assert(triangles.drop_last().last() is Triangles);
        assert(pass_after(triangles.drop_last(), true) == Some(false));
    }
}

proof fn lemma_primitives_pass(layer: usize, contents: LayerContents, prepared: PreparedLayer)
    ensures
        pass_after(primitive_commands(layer, contents, prepared), true) == Some(true),
{
    if contents.primitives > 0 {
        let instances = instance_commands(layer, prepared, contents.primitives as nat);
        lemma_instances_pass(instances);
        assert(primitive_commands(layer, contents, prepared).drop_last() =~= instances);
    }
}

proof fn lemma_layer_pass(layer: usize, contents: LayerContents, prepared: Option<PreparedLayer>)
    ensures
        pass_after(layer_commands(layer, contents, prepared), true) == Some(true),
{
    if let Some(prepared) = prepared {
        let quads = quad_commands(layer, prepared);
        let triangles = triangle_commands(layer, prepared);
        let primitives = primitive_commands(layer, contents, prepared);
        let images = image_commands(layer, prepared);
        let text = text_commands(layer, prepared);
        lemma_step_pass(quads);
        lemma_triangles_pass(layer, prepared);
        lemma_primitives_pass(layer, contents, prepared);
        lemma_step_pass(images);
        lemma_step_pass(text);
        lemma_pass_joined(quads, triangles, true);
        lemma_pass_joined(quads + triangles, primitives, true);
        lemma_pass_joined(quads + triangles + primitives, images, true);
        lemma_pass_joined(quads + triangles + primitives + images, text, true);
    }
}

proof fn lemma_instances_pass(instances: Seq<DrawCommand>)
    requires
        forall|i: int| 0 <= i < instances.len() ==> #[trigger] instances[i] is Primitive,
    ensures
        pass_after(instances, true) == Some(true),
    decreases instances.len(),
{
    if instances.len() > 0 {
        lemma_instances_pass(instances.drop_last());
        assert(instances[instances.len() - 1] is Primitive);
    }
}

proof fn lemma_layers_pass(
    contents: Seq<LayerContents>,
    prepared: Seq<Option<PreparedLayer>>,
    count: int,
)
    ensures
        pass_after(layers_commands(contents, prepared, count), true) == Some(true),
    decreases count,
{
    if count > 0 {
        lemma_layers_pass(contents, prepared, count - 1);
        lemma_layer_pass((count - 1) as usize, contents[count - 1], prepared[count - 1]);
        lemma_pass_joined(
            layers_commands(contents, prepared, count - 1),
            layer_commands((count - 1) as usize, contents[count - 1], prepared[count - 1]),
            true,
        );
    }
}

/// Every render pass that drawing begins is ended. Triangles are drawn between passes, and
/// everything else within one.
pub proof fn drawing_balances_render_passes(
    contents: Seq<LayerContents>,
    prepared: Seq<Option<PreparedLayer>>,
    clear: bool,
)
    ensures
        pass_after(stack_commands(contents, prepared, clear), false) == Some(false),
{
    let head = seq![DrawCommand::BeginPass { clear }];
    let body = layers_commands(contents, prepared, contents.len() as int);
    let tail = seq![DrawCommand::EndPass];
    assert(pass_after(head, false) == Some(true)) by {
        reveal_with_fuel(pass_after, 3);
    }
    assert(pass_after(tail, true) == Some(false)) by {
        reveal_with_fuel(pass_after, 3);
    }
    lemma_layers_pass(contents, prepared, contents.len() as int);
    lemma_pass_joined(head, body, false);
    lemma_pass_joined(head + body, tail, false);
}

/// Runs of prepared entries never overlap: those of a later layer start where all earlier
/// ones have ended, or further on.
pub proof fn prepared_runs_never_overlap(
    counters: Counters,
    contents: Seq<LayerContents>,
    placed: Seq<Option<Placed>>,
    first: int,
    second: int,
)
    requires
        0 <= first < second < contents.len(),
        placed.len() == contents.len(),
        prepared_layers(counters, contents, placed)[first] is Some,
        prepared_layers(counters, contents, placed)[second] is Some,
    ensures
        ({
            let earlier = prepared_layers(counters, contents, placed)[first]->0;
            let later = prepared_layers(counters, contents, placed)[second]->0;
            &&& earlier.triangle.end <= later.triangle.start
            &&& earlier.text.end <= later.text.start
        }),
{
    lemma_counters_grow(counters, contents, placed, first + 1, second);
}

proof fn lemma_counters_grow(
    counters: Counters,
    contents: Seq<LayerContents>,
    placed: Seq<Option<Placed>>,
    first: int,
    second: int,
)
    requires
        0 <= first <= second,
    ensures
        counted_up_to(counters, contents, placed, first).triangles <= counted_up_to(
            counters,
            contents,
            placed,
            second,
        ).triangles,
        counted_up_to(counters, contents, placed, first).texts <= counted_up_to(
            counters,
            contents,
            placed,
            second,
        ).texts,
    decreases second - first,
{
    if first < second {
        lemma_counters_grow(counters, contents, placed, first, second - 1);
    }
}

/// The layer that a step draws something of.
pub open spec fn drawn_layer(command: DrawCommand) -> Option<usize> {
    match command {
        DrawCommand::Quads { layer, .. } => Some(layer),
        DrawCommand::Triangles { layer, .. } => Some(layer),
        DrawCommand::Primitive { layer, .. } => Some(layer),
        DrawCommand::Images { layer, .. } => Some(layer),
        DrawCommand::Text { layer, .. } => Some(layer),
        _ => None,
    }
}

/// Where a kind of primitive stands in the paint order of a layer.
pub open spec fn turn(command: DrawCommand) -> int {
    match command {
        DrawCommand::Quads { .. } => 0,
        DrawCommand::Triangles { .. } => 1,
        DrawCommand::Primitive { .. } => 2,
        DrawCommand::Images { .. } => 3,
        _ => 4,
    }
}

/// Whether one drawing step comes strictly before another: it belongs to a lower layer, or to
/// an earlier kind of the same layer, or to an earlier custom primitive of it.
pub open spec fn painted_before(first: DrawCommand, second: DrawCommand) -> bool {
    let (a, b) = (drawn_layer(first)->0, drawn_layer(second)->0);
    ||| a < b
    ||| a == b && turn(first) < turn(second)
    ||| a == b && match (first, second) {
        (
            DrawCommand::Primitive { instance: i, .. },
            DrawCommand::Primitive { instance: j, .. },
        ) => i < j,
        _ => false,
    }
}

/// Whether a step draws something that its layer holds, at the place that was prepared for it.
pub open spec fn has_cause(
    contents: Seq<LayerContents>,
    prepared: Seq<Option<PreparedLayer>>,
    command: DrawCommand,
) -> bool {
    drawn_layer(command) matches Some(layer) && layer < contents.len() && {
        prepared[layer as int] matches Some(entry) && match command {
            DrawCommand::Quads { index, scissor, .. } => entry.quad == Some(index) && scissor
                == entry.scissor,
            DrawCommand::Triangles { start, bounds, .. } => start == entry.triangle.start && start
                < entry.triangle.end && bounds == entry.physical_bounds,
            DrawCommand::Primitive { instance, clip, .. } => instance
                < contents[layer as int].primitives && clip == entry.physical_bounds,
            DrawCommand::Images { index, scissor, .. } => entry.image == Some(index) && scissor
                == entry.scissor,
            DrawCommand::Text { start, scissor, .. } => start == entry.text.start && start
                < entry.text.end && scissor == entry.scissor,
            _ => false,
        }
    }
}

proof fn lemma_in_joined<A>(first: Seq<A>, second: Seq<A>, item: A)
    ensures
        (first + second).contains(item) <==> first.contains(item) || second.contains(item),
{
    let joined = first + second;
    if first.contains(item) {
        let i = choose|i: int| 0 <= i < first.len() && first[i] == item;
        assert(joined[i] == item);
    }
    if second.contains(item) {
        let i = choose|i: int| 0 <= i < second.len() && second[i] == item;
        assert(joined[first.len() + i] == item);
    }
    if joined.contains(item) {
        let i = choose|i: int| 0 <= i < joined.len() && joined[i] == item;
        if i < first.len() {
            assert(first[i] == item);
        } else {
            assert(second[i - first.len()] == item);
        }
    }
}

proof fn lemma_primitive_members(
    layer: usize,
    contents: LayerContents,
    prepared: PreparedLayer,
    command: DrawCommand,
)
    requires
        drawn_layer(command) is Some,
    ensures
        primitive_commands(layer, contents, prepared).contains(command) <==> (command matches
            DrawCommand::Primitive { layer: of, instance, clip } && of == layer && instance
            < contents.primitives && clip == prepared.physical_bounds),
{
    let steps = primitive_commands(layer, contents, prepared);
    if let DrawCommand::Primitive { layer: of, instance, clip } = command {
        if of == layer && instance < contents.primitives && clip == prepared.physical_bounds {
            assert(steps[instance as int] == command);
        }
    }
}

proof fn lemma_single_members(layer: usize, prepared: PreparedLayer, command: DrawCommand)
    requires
        drawn_layer(command) is Some,
    ensures
        quad_commands(layer, prepared).contains(command) <==> (command matches DrawCommand::Quads {
            layer: of,
            index,
            scissor,
        } && of == layer && prepared.quad == Some(index) && scissor == prepared.scissor),
        triangle_commands(layer, prepared).contains(command) <==> (command matches
            DrawCommand::Triangles { layer: of, start, bounds } && of == layer && start
            == prepared.triangle.start && start < prepared.triangle.end && bounds
            == prepared.physical_bounds),
        image_commands(layer, prepared).contains(command) <==> (command matches
            DrawCommand::Images { layer: of, index, scissor } && of == layer && prepared.image
            == Some(index) && scissor == prepared.scissor),
        text_commands(layer, prepared).contains(command) <==> (command matches DrawCommand::Text {
            layer: of,
            start,
            scissor,
        } && of == layer && start == prepared.text.start && start < prepared.text.end && scissor
            == prepared.scissor),
{
    let quads = quad_commands(layer, prepared);
    let triangles = triangle_commands(layer, prepared);
    let images = image_commands(layer, prepared);
    let text = text_commands(layer, prepared);
    if quads.len() > 0 {
        assert(quads.contains(quads[0]));
    }
    if triangles.len() > 0 {
        assert(triangles.contains(triangles[1]));
    }
    if images.len() > 0 {
        assert(images.contains(images[0]));
    }
    if text.len() > 0 {
        assert(text.contains(text[0]));
    }
}

proof fn lemma_layer_members(
    contents: Seq<LayerContents>,
    prepared: Seq<Option<PreparedLayer>>,
    layer: usize,
    command: DrawCommand,
)
    requires
        layer < contents.len(),
        drawn_layer(command) is Some,
    ensures
        layer_commands(layer, contents[layer as int], prepared[layer as int]).contains(command)
            <==> drawn_layer(command) == Some(layer) && has_cause(contents, prepared, command),
{
    if let Some(entry) = prepared[layer as int] {
        let quads = quad_commands(layer, entry);
        let triangles = triangle_commands(layer, entry);
        let primitives = primitive_commands(layer, contents[layer as int], entry);
        let images = image_commands(layer, entry);
        let text = text_commands(layer, entry);
        lemma_single_members(layer, entry, command);
        lemma_primitive_members(layer, contents[layer as int], entry, command);
        lemma_in_joined(quads, triangles, command);
        lemma_in_joined(quads + triangles, primitives, command);
        lemma_in_joined(quads + triangles + primitives, images, command);
        lemma_in_joined(quads + triangles + primitives + images, text, command);
    }
}

proof fn lemma_layers_members(
    contents: Seq<LayerContents>,
    prepared: Seq<Option<PreparedLayer>>,
    count: int,
    command: DrawCommand,
)
    requires
        0 <= count <= contents.len() <= usize::MAX,
        drawn_layer(command) is Some,
    ensures
        layers_commands(contents, prepared, count).contains(command) <==> drawn_layer(command)->0
            < count && has_cause(contents, prepared, command),
    decreases count,
{
    if count > 0 {
        let before = layers_commands(contents, prepared, count - 1);
        let last = layer_commands(
            (count - 1) as usize,
            contents[count - 1],
            prepared[count - 1],
        );
        lemma_layers_members(contents, prepared, count - 1, command);
        lemma_layer_members(contents, prepared, (count - 1) as usize, command);
        lemma_in_joined(before, last, command);
    }
}

/// Drawing a stack draws exactly what was prepared: the quads, the triangles, every custom
/// primitive, the images and the text of each layer that is somewhere drawn, each if it is
/// there and at its prepared place, and nothing of any other layer.
pub proof fn everything_prepared_is_drawn(
    contents: Seq<LayerContents>,
    prepared: Seq<Option<PreparedLayer>>,
    clear: bool,
    command: DrawCommand,
)
    requires
        contents.len() <= usize::MAX,
        drawn_layer(command) is Some,
    ensures
        stack_commands(contents, prepared, clear).contains(command) <==> has_cause(
            contents,
            prepared,
            command,
        ),
{
    let head = seq![DrawCommand::BeginPass { clear }];
    let body = layers_commands(contents, prepared, contents.len() as int);
    let tail = seq![DrawCommand::EndPass];
    lemma_layers_members(contents, prepared, contents.len() as int, command);
    lemma_in_joined(head, body, command);
    lemma_in_joined(head + body, tail, command);
}

/// Whether every drawing step of a list comes before each later one.
pub open spec fn in_paint_order(commands: Seq<DrawCommand>) -> bool {
    forall|i: int, j: int|
        #![trigger commands[i], commands[j]]
        0 <= i < j < commands.len() && drawn_layer(commands[i]) is Some && drawn_layer(commands[j])
            is Some ==> painted_before(commands[i], commands[j])
}

proof fn lemma_joined_in_order(first: Seq<DrawCommand>, second: Seq<DrawCommand>)
    requires
        in_paint_order(first),
        in_paint_order(second),
        forall|i: int, j: int|
            #![trigger first[i], second[j]]
            0 <= i < first.len() && 0 <= j < second.len() && drawn_layer(first[i]) is Some
                && drawn_layer(second[j]) is Some ==> painted_before(first[i], second[j]),
    ensures
        in_paint_order(first + second),
{
    let joined = first + second;
    assert forall|i: int, j: int|
        #![trigger joined[i], joined[j]]
        0 <= i < j < joined.len() && drawn_layer(joined[i]) is Some && drawn_layer(joined[j])
            is Some implies painted_before(joined[i], joined[j]) by {
        if j < first.len() {
            assert(painted_before(first[i], first[j]));
        } else if i >= first.len() {
            assert(painted_before(second[i - first.len()], second[j - first.len()]));
        } else {
            assert(painted_before(first[i], second[j - first.len()]));
        }
    }
}

/// Whether the drawing steps of a list are of one layer and of kinds within a range.
spec fn steps_within(commands: Seq<DrawCommand>, layer: usize, first: int, last: int) -> bool {
    forall|i: int|
        #![trigger commands[i]]
        0 <= i < commands.len() && drawn_layer(commands[i]) is Some ==> drawn_layer(commands[i])
            == Some(layer) && first <= turn(commands[i]) <= last
}

proof fn lemma_kinds_in_order(
    first: Seq<DrawCommand>,
    second: Seq<DrawCommand>,
    layer: usize,
    kind: int,
)
    requires
        in_paint_order(first),
        in_paint_order(second),
        steps_within(first, layer, 0, kind),
        steps_within(second, layer, kind + 1, kind + 1),
        kind >= 0,
    ensures
        in_paint_order(first + second),
        steps_within(first + second, layer, 0, kind + 1),
{
    lemma_joined_in_order(first, second);
    let joined = first + second;
    assert forall|i: int|
        #![trigger joined[i]]
        0 <= i < joined.len() && drawn_layer(joined[i]) is Some implies drawn_layer(joined[i])
        == Some(layer) && 0 <= turn(joined[i]) <= kind + 1 by {
        if i < first.len() {
            assert(joined[i] == first[i]);
        } else {
            assert(joined[i] == second[i - first.len()]);
        }
    }
}

proof fn lemma_layer_in_order(
    layer: usize,
    contents: LayerContents,
    prepared: Option<PreparedLayer>,
)
    ensures
        in_paint_order(layer_commands(layer, contents, prepared)),
        steps_within(layer_commands(layer, contents, prepared), layer, 0, 4),
{
    if let Some(entry) = prepared {
        let quads = quad_commands(layer, entry);
        let triangles = triangle_commands(layer, entry);
        let primitives = primitive_commands(layer, contents, entry);
        let images = image_commands(layer, entry);
        let text = text_commands(layer, entry);
        assert(in_paint_order(triangles) && steps_within(triangles, layer, 1, 1));
        assert(in_paint_order(primitives) && steps_within(primitives, layer, 2, 2));
        lemma_kinds_in_order(quads, triangles, layer, 0);
        lemma_kinds_in_order(quads + triangles, primitives, layer, 1);
        lemma_kinds_in_order(quads + triangles + primitives, images, layer, 2);
        lemma_kinds_in_order(quads + triangles + primitives + images, text, layer, 3);
    }
}

proof fn lemma_layers_in_order(
    contents: Seq<LayerContents>,
    prepared: Seq<Option<PreparedLayer>>,
    count: int,
)
    requires
        0 <= count <= contents.len() <= usize::MAX,
    ensures
        in_paint_order(layers_commands(contents, prepared, count)),
        forall|i: int|
            #![trigger layers_commands(contents, prepared, count)[i]]
            0 <= i < layers_commands(contents, prepared, count).len() && drawn_layer(
                layers_commands(contents, prepared, count)[i],
            ) is Some ==> drawn_layer(layers_commands(contents, prepared, count)[i])->0 < count,
    decreases count,
{
    if count > 0 {
        let before = layers_commands(contents, prepared, count - 1);
        let last = layer_commands(
            (count - 1) as usize,
            contents[count - 1],
            prepared[count - 1],
        );
        lemma_layers_in_order(contents, prepared, count - 1);
        lemma_layer_in_order((count - 1) as usize, contents[count - 1], prepared[count - 1]);
        assert forall|i: int, j: int|
            #![trigger before[i], last[j]]
            0 <= i < before.len() && 0 <= j < last.len() && drawn_layer(before[i]) is Some
                && drawn_layer(last[j]) is Some implies painted_before(before[i], last[j]) by {
            assert(drawn_layer(before[i])->0 < count - 1);
            assert(drawn_layer(last[j]) == Some((count - 1) as usize));
        }
        lemma_joined_in_order(before, last);
        let all = layers_commands(contents, prepared, count);
        assert forall|i: int|
            #![trigger all[i]]
            0 <= i < all.len() && drawn_layer(all[i]) is Some implies drawn_layer(all[i])->0
            < count by {
            if i < before.len() {
                assert(all[i] == before[i]);
            } else {
                assert(all[i] == last[i - before.len()]);
            }
        }
    }
}

/// Lower layers are drawn before higher ones, and within a layer quads come before triangles,
/// triangles before custom primitives, those in their order before images, and images before
/// text. No two steps draw the same thing.
pub proof fn drawing_follows_paint_order(
    contents: Seq<LayerContents>,
    prepared: Seq<Option<PreparedLayer>>,
    clear: bool,
)
    requires
        contents.len() <= usize::MAX,
    ensures
        in_paint_order(stack_commands(contents, prepared, clear)),
{
    let head = seq![DrawCommand::BeginPass { clear }];
    let body = layers_commands(contents, prepared, contents.len() as int);
    let tail = seq![DrawCommand::EndPass];
    lemma_layers_in_order(contents, prepared, contents.len() as int);
    lemma_joined_in_order(head, body);
    lemma_joined_in_order(head + body, tail);
}

/// Whether no render pass is begun but those that keep what was drawn, and every custom
/// primitive is followed by another one or by a reset of the region that it drew in.
spec fn tidy(commands: Seq<DrawCommand>) -> bool {
    &&& forall|i: int|
        #![trigger commands[i]]
        0 <= i < commands.len() ==> (commands[i] matches DrawCommand::BeginPass { clear } ==> !clear)
    &&& forall|i: int|
        #![trigger commands[i]]
        0 <= i < commands.len() && commands[i] is Primitive ==> i + 1 < commands.len() && (
        commands[i + 1] is Primitive || commands[i + 1] is ResetRegion)
}

proof fn lemma_tidy_joined(first: Seq<DrawCommand>, second: Seq<DrawCommand>)
    requires
        tidy(first),
        tidy(second),
    ensures
        tidy(first + second),
{
    let joined = first + second;
    assert forall|i: int| #![trigger joined[i]] 0 <= i < joined.len() implies (joined[i] matches
        DrawCommand::BeginPass { clear } ==> !clear) by {
        if i < first.len() {
            assert(joined[i] == first[i]);
        } else {
            assert(joined[i] == second[i - first.len()]);
        }
    }
    assert forall|i: int|
        #![trigger joined[i]]
        0 <= i < joined.len() && joined[i] is Primitive implies i + 1 < joined.len() && (joined[i
        + 1] is Primitive || joined[i + 1] is ResetRegion) by {
        if i < first.len() {
            assert(joined[i] == first[i]);
            assert(joined[i + 1] == first[i + 1]);
        } else {
            assert(joined[i] == second[i - first.len()]);
            assert(joined[i + 1] == second[i - first.len() + 1]);
        }
    }
}

proof fn lemma_layers_tidy(
    contents: Seq<LayerContents>,
    prepared: Seq<Option<PreparedLayer>>,
    count: int,
)
    ensures
        tidy(layers_commands(contents, prepared, count)),
    decreases count,
{
    if count > 0 {
        lemma_layers_tidy(contents, prepared, count - 1);
        let layer = (count - 1) as usize;
        if let Some(entry) = prepared[count - 1] {
            let quads = quad_commands(layer, entry);
            let triangles = triangle_commands(layer, entry);
            let primitives = primitive_commands(layer, contents[count - 1], entry);
            let images = image_commands(layer, entry);
            let text = text_commands(layer, entry);
            assert(tidy(primitives));
            lemma_tidy_joined(quads, triangles);
            lemma_tidy_joined(quads + triangles, primitives);
            lemma_tidy_joined(quads + triangles + primitives, images);
            lemma_tidy_joined(quads + triangles + primitives + images, text);
        }
        lemma_tidy_joined(
            layers_commands(contents, prepared, count - 1),
            layer_commands(layer, contents[count - 1], prepared[count - 1]),
        );
    }
}

/// Drawing clears its target exactly if it is asked to, and then only before anything is drawn.
/// After the custom primitives of a layer, drawing may reach the whole target again.
pub proof fn drawing_clears_once_and_resets_regions(
    contents: Seq<LayerContents>,
    prepared: Seq<Option<PreparedLayer>>,
    clear: bool,
    index: int,
)
    requires
        0 <= index < stack_commands(contents, prepared, clear).len(),
    ensures
        ({
            let commands = stack_commands(contents, prepared, clear);
            &&& commands[0] matches DrawCommand::BeginPass { clear: cleared } && cleared == clear
            &&& index > 0 ==> (commands[index] matches DrawCommand::BeginPass { clear: cleared }
                ==> !cleared)
            &&& commands[index] is Primitive ==> index + 1 < commands.len() && (commands[index + 1]
                is Primitive || commands[index + 1] is ResetRegion)
            &&& commands.last() is EndPass
        }),
{
    let head = seq![DrawCommand::BeginPass { clear }];
    let body = layers_commands(contents, prepared, contents.len() as int);
    let commands = stack_commands(contents, prepared, clear);
    lemma_layers_tidy(contents, prepared, contents.len() as int);
    if 0 < index < commands.len() - 1 {
        assert(commands[index] == body[index - 1]);
        if body[index - 1] is Primitive {
            assert(commands[index + 1] == body[index]);
        }
    }
}

/// What is prepared of a layer is what it holds, where it is drawn. Nothing is prepared of a
/// layer that is nowhere drawn.
pub proof fn preparing_keeps_contents_and_place(
    counters: Counters,
    contents: Seq<LayerContents>,
    placed: Seq<Option<Placed>>,
    layer: int,
)
    requires
        0 <= layer < contents.len(),
        placed.len() == contents.len(),
    ensures
        prepared_layers(counters, contents, placed).len() == contents.len(),
        match (prepared_layers(counters, contents, placed)[layer], placed[layer]) {
            (Some(entry), Some(place)) => {
                &&& entry.scissor == place.scissor
                &&& entry.physical_bounds == place.bounds
                &&& entry.quad is Some <==> contents[layer].quads
                &&& entry.image is Some <==> contents[layer].images
                &&& entry.triangle.start <= entry.triangle.end
                &&& entry.triangle.start + contents[layer].triangles <= usize::MAX
                    ==> entry.triangle.end - entry.triangle.start == contents[layer].triangles
                &&& entry.text.start <= entry.text.end
                &&& entry.text.start + contents[layer].texts <= usize::MAX ==> entry.text.end
                    - entry.text.start == contents[layer].texts
            },
            (None, None) => true,
            _ => false,
        },
{
}

proof fn lemma_indices_grow(
    counters: Counters,
    contents: Seq<LayerContents>,
    placed: Seq<Option<Placed>>,
    first: int,
    second: int,
)
    requires
        0 <= first <= second,
    ensures
        counted_up_to(counters, contents, placed, first).quads <= counted_up_to(
            counters,
            contents,
            placed,
            second,
        ).quads,
        counted_up_to(counters, contents, placed, first).images <= counted_up_to(
            counters,
            contents,
            placed,
            second,
        ).images,
    decreases second - first,
{
    if first < second {
        lemma_indices_grow(counters, contents, placed, first, second - 1);
    }
}

/// No two layers share a prepared group of quads or images: the later one is numbered higher,
/// as long as the numbers can be held.
pub proof fn prepared_groups_are_never_shared(
    counters: Counters,
    contents: Seq<LayerContents>,
    placed: Seq<Option<Placed>>,
    first: int,
    second: int,
)
    requires
        0 <= first < second < contents.len(),
        placed.len() == contents.len(),
        prepared_layers(counters, contents, placed)[first] is Some,
        prepared_layers(counters, contents, placed)[second] is Some,
    ensures
        ({
            let earlier = prepared_layers(counters, contents, placed)[first]->0;
            let later = prepared_layers(counters, contents, placed)[second]->0;
            &&& earlier.quad is Some && later.quad is Some && earlier.quad->0 < usize::MAX
                ==> earlier.quad->0 < later.quad->0
            &&& earlier.image is Some && later.image is Some && earlier.image->0 < usize::MAX
                ==> earlier.image->0 < later.image->0
        }),
{
    lemma_indices_grow(counters, contents, placed, first + 1, second);
}

/// The counters move on by exactly what was prepared: each layer that is somewhere drawn takes
/// the next numbers, one group of quads and of images if it has any, and its triangles and
/// texts. The first layer starts from the counters as they were.
pub proof fn counters_advance_by_what_is_prepared(
    counters: Counters,
    contents: Seq<LayerContents>,
    placed: Seq<Option<Placed>>,
    layer: int,
)
    requires
        0 <= layer < contents.len(),
        placed.len() == contents.len(),
    ensures
        ({
            let before = counted_up_to(counters, contents, placed, layer);
            let after = counted_up_to(counters, contents, placed, layer + 1);
            &&& layer == 0 ==> before == counters
            &&& match prepared_layers(counters, contents, placed)[layer] {
                Some(entry) => {
                    &&& entry.triangle.start == before.triangles && entry.triangle.end
                        == after.triangles
                    &&& entry.text.start == before.texts && entry.text.end == after.texts
                    &&& entry.quad matches Some(index) ==> index == before.quads && (index
                        < usize::MAX ==> after.quads == index + 1)
                    &&& entry.quad is None ==> after.quads == before.quads
                    &&& entry.image matches Some(index) ==> index == before.images && (index
                        < usize::MAX ==> after.images == index + 1)
                    &&& entry.image is None ==> after.images == before.images
                },
                None => after == before,
            }
        }),
{
    reveal_with_fuel(counted_up_to, 2);
}

/// A leaf is prepared layer by layer: a layer that is somewhere drawn gets an entry with its
/// place, and one that is not gets none.
pub proof fn leaves_are_prepared_layer_by_layer<
    T: DrawnLayer,
    X: Copy,
    P: Fn(RectangleBits, Context) -> Option<Placed>,
>(
    place: P,
    context: Context,
    before: Counters,
    after: Counters,
    leaf: Leaf<T, X>,
    leaf_after: Leaf<T, X>,
    i: int,
)
    requires
        leaf_prepared::<T, X, P>(place, context, before, after, leaf, leaf_after),
        0 <= i < leaf_after.stack@.drawn().len(),
    ensures
        leaf_after.stack@ == merged_stack::<T, X>(leaf.stack@),
        leaf_after.prepared@.len() == leaf_after.stack@.drawn().len(),
        match leaf_after.prepared@[i] {
            Some(prepared) => call_ensures(
                place,
                (T::bounds_of(leaf_after.stack@.drawn()[i]), context),
                Some(Placed { bounds: prepared.physical_bounds, scissor: prepared.scissor }),
            ) && (prepared.quad is Some <==> T::contents_of(leaf_after.stack@.drawn()[i]).quads)
                && (prepared.image is Some <==> T::contents_of(
                leaf_after.stack@.drawn()[i],
            ).images),
            None => call_ensures(
                place,
                (T::bounds_of(leaf_after.stack@.drawn()[i]), context),
                None,
            ),
        },
{
    let layers = leaf_after.stack@.drawn();
    let contents = all_contents::<T>(layers);
    let placed = choose|placed: Seq<Option<Placed>>| #[trigger]
        places::<T, P>(place, context, layers, placed) && leaf_after.prepared@ == prepared_layers(
            before,
            contents,
            placed,
        ) && after == counted_up_to(before, contents, placed, contents.len() as int);
    assert(call_ensures(place, (T::bounds_of(layers[i]), context), placed[i]));
    assert(contents[i] == T::contents_of(layers[i]));
    if placed[i] is Some {
        let at = placed[i]->0;
        assert(at == (Placed { bounds: at.bounds, scissor: at.scissor }));
    }
}

} // verus!
