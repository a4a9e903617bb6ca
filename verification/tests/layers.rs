//! Layer stacks and what is recorded of them.

use isolated_layer::batch::Batch;
use isolated_layer::effect::{Effect, EffectStack};
use isolated_layer::evidence::Requirements;
use isolated_layer::float_bits::RectangleBits;
use isolated_layer::layer::{Layer, Stack};
use isolated_layer::recording::{Node, Recorder, Sequence};
use isolated_layer::request;

#[derive(Debug, Default, Clone, Copy, PartialEq)]
struct Bounds {
    x: f32,
    y: f32,
    width: f32,
    height: f32,
}

fn bounds(x: f32, y: f32, width: f32, height: f32) -> Bounds {
    Bounds {
        x,
        y,
        width,
        height,
    }
}

#[derive(Debug, Default)]
struct TestLayer {
    bounds: Bounds,
    values: Vec<u8>,
    pending: Vec<u8>,
}

impl Layer for TestLayer {
    type Bounds = Bounds;
    type Model = (Bounds, Vec<u8>, Vec<u8>);

    fn model(&self) -> Self::Model {
        (self.bounds, self.values.clone(), self.pending.clone())
    }

    fn blank() -> Self::Model {
        (Bounds::default(), Vec::new(), Vec::new())
    }

    fn fresh(bounds: Bounds) -> Self::Model {
        (bounds, Vec::new(), Vec::new())
    }

    fn bounds_of(model: Self::Model) -> Bounds {
        model.0
    }

    fn flushed(model: Self::Model) -> Self::Model {
        (model.0, [model.1, model.2].concat(), Vec::new())
    }

    fn resized(model: Self::Model, bounds: Bounds) -> Self::Model {
        (bounds, model.1, model.2)
    }

    fn cleared(model: Self::Model) -> Self::Model {
        (model.0, Vec::new(), Vec::new())
    }

    fn start_of(model: Self::Model) -> usize {
        usize::from(!model.1.is_empty())
    }

    fn end_of(model: Self::Model) -> usize {
        usize::from(!model.1.is_empty())
    }

    fn merged(model: Self::Model, other: Self::Model) -> Self::Model {
        (model.0, [model.1, other.1].concat(), model.2)
    }

    fn drained(_: Self::Model, other: Self::Model) -> Self::Model {
        (other.0, Vec::new(), other.2)
    }

    fn agree(a: Bounds, b: Bounds) -> bool {
        a == b
    }

    fn new_layers_are_bare(_: Bounds) {}

    fn only_resizing_sets_bounds(_: Self::Model, _: Bounds) {}

    fn empty() -> Self {
        Self::default()
    }

    fn with_bounds(bounds: Bounds) -> Self {
        Self {
            bounds,
            ..Self::default()
        }
    }

    fn bounds(&self) -> Bounds {
        self.bounds
    }

    fn flush(&mut self) {
        self.values.append(&mut self.pending);
    }

    fn resize(&mut self, bounds: Bounds) {
        self.bounds = bounds;
    }

    fn reset(&mut self) {
        self.values.clear();
        self.pending.clear();
    }

    fn start(&self) -> usize {
        usize::from(!self.values.is_empty())
    }

    fn end(&self) -> usize {
        usize::from(!self.values.is_empty())
    }

    fn merge(&mut self, layer: &mut Self) {
        self.values.append(&mut layer.values);
    }

    fn same_bounds(a: Bounds, b: Bounds) -> bool {
        a == b
    }
}

#[derive(Debug, Clone, Copy, PartialEq)]
struct Translation {
    x: f32,
    y: f32,
}

const IDENTITY: Translation = Translation { x: 0.0, y: 0.0 };

fn transform(bounds: Bounds, translation: Translation) -> Bounds {
    Bounds {
        x: bounds.x + translation.x,
        y: bounds.y + translation.y,
        ..bounds
    }
}

fn compose(a: Translation, b: Translation) -> Translation {
    Translation {
        x: a.x + b.x,
        y: a.y + b.y,
    }
}

fn values(stack: &Stack<TestLayer, Translation>) -> Vec<u8> {
    stack
        .as_slice()
        .iter()
        .flat_map(|layer| &layer.values)
        .copied()
        .collect()
}

#[test]
fn split_preserves_active_recording_context() {
    let mut stack = Stack::<TestLayer, Translation>::new(IDENTITY);
    let clip = bounds(10.0, 20.0, 30.0, 40.0);
    let translation = Translation { x: 4.0, y: 8.0 };

    stack.push_transformation(translation, &compose);
    stack.push_clip(clip, &transform);
    stack.current_mut().0.pending.push(1);

    let settled = stack.split();

    assert_eq!(values(&settled), vec![1]);
    assert!(stack.as_slice().iter().all(|layer| layer.values.is_empty()));
    assert_eq!(stack.transformation(), translation);

    stack.current_mut().0.pending.push(2);
    stack.pop_clip();
    stack.pop_transformation();

    assert_eq!(stack.transformation(), IDENTITY);
    assert_eq!(values(&stack), vec![2]);
}

#[test]
fn split_settles_every_open_layer() {
    let mut stack = Stack::<TestLayer, Translation>::new(IDENTITY);
    let outer = bounds(4.0, 6.0, 80.0, 60.0);
    let inner = bounds(8.0, 10.0, 40.0, 30.0);

    stack.current_mut().0.pending.push(1);
    stack.push_clip(outer, &transform);
    stack.current_mut().0.pending.push(2);
    stack.push_clip(inner, &transform);
    stack.current_mut().0.pending.push(3);

    let settled = stack.split();

    assert_eq!(values(&settled), vec![1, 2, 3]);
    assert!(settled
        .as_slice()
        .iter()
        .all(|layer| layer.pending.is_empty()));
    assert!(stack
        .as_slice()
        .iter()
        .all(|layer| layer.values.is_empty() && layer.pending.is_empty()));

    stack.current_mut().0.pending.push(4);
    stack.pop_clip();
    stack.current_mut().0.pending.push(5);
    stack.pop_clip();
    stack.current_mut().0.pending.push(6);
    stack.merge();

    assert_eq!(values(&stack), vec![6, 5, 4]);
}

#[test]
fn public_flush_settles_every_open_layer() {
    let mut stack = Stack::<TestLayer, Translation>::new(IDENTITY);
    let outer = bounds(4.0, 6.0, 80.0, 60.0);
    let inner = bounds(8.0, 10.0, 40.0, 30.0);

    stack.current_mut().0.pending.push(1);
    stack.push_clip(outer, &transform);
    stack.current_mut().0.pending.push(2);
    stack.push_clip(inner, &transform);
    stack.current_mut().0.pending.push(3);

    stack.flush();

    assert_eq!(values(&stack), vec![1, 2, 3]);
    assert!(stack
        .as_slice()
        .iter()
        .all(|layer| layer.pending.is_empty()));
}

#[test]
fn split_compacts_the_empty_continuation_to_the_open_path() {
    let mut stack = Stack::<TestLayer, Translation>::new(IDENTITY);
    let closed = bounds(1.0, 2.0, 20.0, 20.0);
    let outer = bounds(4.0, 6.0, 80.0, 60.0);
    let inner = bounds(8.0, 10.0, 40.0, 30.0);

    for value in 1..=8 {
        stack.push_clip(closed, &transform);
        stack.current_mut().0.pending.push(value);
        stack.pop_clip();
    }

    stack.push_clip(outer, &transform);
    stack.push_clip(inner, &transform);

    let prefix = stack.split();

    assert_eq!(prefix.as_slice().len(), 11);
    assert_eq!(stack.as_slice().len(), 3);
    assert_eq!(stack.current_mut().0.bounds, inner);

    stack.current_mut().0.pending.push(9);
    stack.pop_clip();
    assert_eq!(stack.current_mut().0.bounds, outer);
    stack.current_mut().0.pending.push(10);
    stack.pop_clip();
    stack.current_mut().0.pending.push(11);
    stack.merge();

    assert_eq!(values(&stack), vec![11, 10, 9]);
}

#[test]
fn split_keeps_clips_and_transformations_for_later_calls() {
    let mut stack = Stack::<TestLayer, Translation>::new(IDENTITY);
    let mut whole = Stack::<TestLayer, Translation>::new(IDENTITY);
    let first = bounds(4.0, 6.0, 80.0, 60.0);
    let second = bounds(1.0, 2.0, 3.0, 4.0);
    let moved = Translation { x: 5.0, y: 7.0 };

    for stack in [&mut stack, &mut whole] {
        stack.push_clip(second, &transform);
        stack.pop_clip();
        stack.push_transformation(moved, &compose);
        stack.push_clip(first, &transform);
    }
    let _ = stack.split();

    let (layer, transformation) = stack.current_mut();
    assert_eq!((layer.bounds, transformation), (transform(first, moved), moved));
    for stack in [&mut stack, &mut whole] {
        stack.push_clip(second, &transform);
    }
    assert_eq!(stack.current_mut().0.bounds, whole.current_mut().0.bounds);
    for stack in [&mut stack, &mut whole] {
        stack.pop_clip();
    }
    assert_eq!(stack.current_mut().0.bounds, whole.current_mut().0.bounds);
    for stack in [&mut stack, &mut whole] {
        stack.pop_clip();
        stack.pop_transformation();
    }
    assert_eq!(stack.current_mut().0.bounds, whole.current_mut().0.bounds);
    assert_eq!(stack.transformation(), whole.transformation());
}

#[test]
fn layers_with_the_same_bounds_merge_in_order() {
    let mut stack = Stack::<TestLayer, Translation>::new(IDENTITY);
    let clip = bounds(0.0, 0.0, 5.0, 5.0);

    for value in 1..=3 {
        stack.push_clip(clip, &transform);
        stack.current_mut().0.pending.push(value);
        stack.pop_clip();
    }
    stack.merge();

    assert_eq!(values(&stack), vec![1, 2, 3]);
    let filled: Vec<usize> = stack
        .as_slice()
        .iter()
        .map(|layer| layer.values.len())
        .filter(|count| *count > 0)
        .collect();
    assert_eq!(filled, vec![3]);

    stack.reset(clip);
    assert_eq!(stack.as_slice().len(), 1);
    assert!(values(&stack).is_empty());
}

fn area(x: f32, y: f32, width: f32, height: f32) -> RectangleBits {
    RectangleBits {
        x: x.to_bits(),
        y: y.to_bits(),
        width: width.to_bits(),
        height: height.to_bits(),
    }
}

fn moved(area: RectangleBits, translation: Translation) -> RectangleBits {
    RectangleBits {
        x: (f32::from_bits(area.x) + translation.x).to_bits(),
        y: (f32::from_bits(area.y) + translation.y).to_bits(),
        ..area
    }
}

fn draw_marker(stack: &mut Stack<Batch, Translation>) {
    stack.current_mut().0.draw_quad();
}

#[test]
fn isolated_layer_is_an_exact_barrier() {
    let mut recorder: Recorder<Batch, Translation, (), ()> = Recorder::new();
    let mut stack = Stack::new(IDENTITY);
    let bounds = area(0.0, 0.0, 100.0, 100.0);

    draw_marker(&mut stack);
    recorder.start(&mut stack, request::Layer::new(bounds, bounds), &moved);
    draw_marker(&mut stack);
    recorder.end(&mut stack);
    draw_marker(&mut stack);

    assert!(recorder.is_segmented());
    let sequence = recorder.take(&mut stack);

    assert_eq!(sequence.0.len(), 3);
    assert!(matches!(sequence.0[0], Node::Leaf(_)));
    assert!(matches!(sequence.0[1], Node::Layer(_)));
    assert!(matches!(sequence.0[2], Node::Leaf(_)));
    assert!(!recorder.is_segmented());
}

#[test]
fn nested_isolated_layers_are_recursive() {
    let mut recorder: Recorder<Batch, Translation, (), ()> = Recorder::new();
    let mut stack = Stack::new(IDENTITY);
    let bounds = area(0.0, 0.0, 100.0, 100.0);

    recorder.start(&mut stack, request::Layer::new(bounds, bounds), &moved);
    draw_marker(&mut stack);
    recorder.start(&mut stack, request::Layer::new(bounds, bounds), &moved);
    draw_marker(&mut stack);
    recorder.end(&mut stack);
    recorder.end(&mut stack);

    let sequence = recorder.take(&mut stack);
    let Node::Layer(outer) = &sequence.0[0] else {
        panic!("outer isolated layer");
    };

    assert!(matches!(outer.content.0[0], Node::Leaf(_)));
    assert!(matches!(outer.content.0[1], Node::Layer(_)));
}

#[test]
fn isolated_layer_bounds_follow_the_active_transformation_once() {
    let mut recorder: Recorder<Batch, Translation, (), ()> = Recorder::new();
    let mut stack = Stack::new(IDENTITY);
    let local = area(2.0, 3.0, 10.0, 12.0);
    stack.push_transformation(Translation { x: 20.0, y: 30.0 }, &compose);

    recorder.start(&mut stack, request::Layer::new(local, local), &moved);
    draw_marker(&mut stack);
    recorder.end(&mut stack);

    let sequence = recorder.take(&mut stack);
    let Node::Layer(node) = &sequence.0[0] else {
        panic!("isolated-layer node");
    };

    assert_eq!(node.layer.bounds, area(22.0, 33.0, 10.0, 12.0));
    assert_eq!(node.content.0.len(), 1);
}

#[test]
fn effect_layers_know_whether_they_read_the_backdrop() {
    let mut recorder: Recorder<Batch, Translation, (), ()> = Recorder::new();
    let mut stack = Stack::new(IDENTITY);
    let bounds = area(0.0, 0.0, 10.0, 10.0);
    let effects = EffectStack::from_effect(
        Effect::new(1).pass(Requirements::new().with_backdrop()),
    );

    recorder.start_effects(
        &mut stack,
        request::Layer::new(bounds, bounds),
        effects,
        &moved,
    );
    draw_marker(&mut stack);
    recorder.end(&mut stack);
    let sequence = recorder.take(&mut stack);

    assert!(matches!(sequence.0[0], Node::Effect(_)));
    assert!(sequence.needs_backdrop());
    assert!(!Sequence::<Batch, Translation, (), ()>::new().needs_backdrop());

    recorder.restore(sequence);
    assert!(recorder.is_segmented());
    recorder.reset();
    assert!(!recorder.is_segmented());
}

#[test]
fn nothing_drawn_leaves_no_leaf() {
    let mut recorder: Recorder<Batch, Translation, (), ()> = Recorder::new();
    let mut stack: Stack<Batch, Translation> = Stack::new(IDENTITY);
    let sequence = recorder.take(&mut stack);
    assert!(sequence.is_empty());
}
