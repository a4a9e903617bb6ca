//! Effect stages, their recorded inputs and the passes planned for them.

use isolated_layer::content::{ContentChangeHandle, IdentitySource};
use isolated_layer::effect::{Effect, EffectInput, EffectStack};
use isolated_layer::effect_plan::{plan_effect_passes, PlannedEffectPass};
use isolated_layer::evidence::{
    InputValue, InputWord, LayerInputEvidence, LayerInputRecords, Requirements,
};
use isolated_layer::float_bits::ExpansionBits;

const FLOATING_POINT_INPUTS: u64 = 1;
const FLOAT: u64 = 2;
const UNIT: u64 = 3;
const FIRST: u64 = 4;
const SECOND: u64 = 5;
const CONFIGURABLE: u64 = 6;
const REVISION_EFFECT: u64 = 7;
const PLANNED_STAGE: u64 = 8;

fn float(value: f32) -> InputWord {
    InputWord::Float(value.to_bits())
}

fn floating_point_inputs(value_a: f32, value_b: [f32; 2]) -> InputValue {
    InputValue::new(
        FLOATING_POINT_INPUTS,
        vec![float(value_a), float(value_b[0]), float(value_b[1])],
    )
}

fn padding(top: f32, right: f32, bottom: f32, left: f32) -> ExpansionBits {
    ExpansionBits {
        top: top.to_bits(),
        right: right.to_bits(),
        bottom: bottom.to_bits(),
        left: left.to_bits(),
    }
}

fn even_padding(value: f32) -> ExpansionBits {
    padding(value, value, value, value)
}

fn sum(expansions: &Vec<ExpansionBits>) -> ExpansionBits {
    fn side(values: Vec<u32>) -> u32 {
        let total: f64 = values.into_iter().map(|bits| f64::from(f32::from_bits(bits))).sum();
        if total > f64::from(f32::MAX) {
            f32::INFINITY.to_bits()
        } else {
            (total as f32).to_bits()
        }
    }

    ExpansionBits {
        top: side(expansions.iter().map(|e| e.top).collect()),
        right: side(expansions.iter().map(|e| e.right).collect()),
        bottom: side(expansions.iter().map(|e| e.bottom).collect()),
        left: side(expansions.iter().map(|e| e.left).collect()),
    }
}

fn small(effect_type: u64, value: u8) -> Effect {
    Effect::new(effect_type)
        .passes(1, Requirements::passes(1).writes_every_pixel())
        .translation_invariant(true)
        .input(EffectInput::Value(InputValue::new(
            effect_type,
            vec![InputWord::Integer(u64::from(value))],
        )))
}

fn configurable(
    passes: usize,
    backdrop: bool,
    overwrites: bool,
    expansion: ExpansionBits,
    translation_invariant: bool,
) -> Effect {
    let mut requirements = Requirements::new();
    if backdrop {
        requirements = requirements.with_backdrop();
    }
    if overwrites {
        requirements = requirements.writes_every_pixel();
    }
    Effect::new(CONFIGURABLE)
        .passes(passes, requirements)
        .expand(expansion)
        .translation_invariant(translation_invariant)
}

fn revision_effect(content: &ContentChangeHandle) -> Effect {
    Effect::new(REVISION_EFFECT)
        .pass(Requirements::passes(1))
        .input(EffectInput::Handle(content.clone()))
}

#[test]
fn pass_counts_are_not_clamped() {
    assert_eq!(Requirements::passes(usize::MAX).pass_count(), usize::MAX);
}

#[test]
fn records_owned_clones_of_partial_eq_values() {
    let mut value = floating_point_inputs(0.123, [1.0, 2.0]);
    let original = value.clone();

    let mut recorded = LayerInputRecords::new();
    recorded.record(&value);
    let recorded = recorded.finish();

    value.words[0] = float(9.0);

    let mut expected = LayerInputRecords::new();
    expected.record(&original);
    assert!(recorded.matches(&expected.finish()));

    let mut changed = LayerInputRecords::new();
    changed.record(&value);
    assert!(!recorded.matches(&changed.finish()));
}

#[test]
fn layer_effect_records_its_value_by_default() {
    fn evidence(value_a: f32) -> LayerInputEvidence {
        EffectStack::from_effect(
            Effect::new(FLOATING_POINT_INPUTS)
                .pass(Requirements::passes(1).writes_every_pixel())
                .translation_invariant(true)
                .input(EffectInput::Value(floating_point_inputs(
                    value_a,
                    [1.0, 2.0],
                ))),
        )
        .input_evidence()
    }

    assert!(evidence(0.123).matches(&evidence(0.123)));
    assert!(!evidence(0.123).matches(&evidence(9.0)));
}

#[test]
fn evidence_uses_normal_floating_point_semantics() {
    fn evidence(value: f32) -> LayerInputEvidence {
        let mut inputs = LayerInputRecords::new();
        inputs.record(&InputValue::new(FLOAT, vec![float(value)]));
        inputs.finish()
    }

    assert!(evidence(0.0).matches(&evidence(-0.0)));

    let nan = evidence(f32::NAN);
    assert_ne!(nan, nan.clone());
    assert!(!nan.matches(&nan));
}

#[test]
fn framework_evidence_distinguishes_type_order_and_boundaries() {
    let first_then_second = EffectStack::from_effect(small(FIRST, 7)).with(small(SECOND, 9));
    let second_then_first = EffectStack::from_effect(small(SECOND, 9)).with(small(FIRST, 7));
    let two_first = EffectStack::from_effect(small(FIRST, 7)).with(small(FIRST, 9));

    assert_ne!(
        first_then_second.input_evidence(),
        second_then_first.input_evidence()
    );
    assert_ne!(
        first_then_second.input_evidence(),
        two_first.input_evidence()
    );
}

#[test]
fn framework_evidence_captures_declared_stage_metadata() {
    fn evidence(
        passes: usize,
        backdrop: bool,
        overwrites: bool,
        expansion: ExpansionBits,
        translation_invariant: bool,
    ) -> LayerInputEvidence {
        EffectStack::from_effect(configurable(
            passes,
            backdrop,
            overwrites,
            expansion,
            translation_invariant,
        ))
        .input_evidence()
    }

    let zero = even_padding(0.0);
    let baseline = evidence(1, false, false, zero, false);

    assert_ne!(baseline, evidence(2, false, false, zero, false));
    assert_ne!(baseline, evidence(1, true, false, zero, false));
    assert_ne!(baseline, evidence(1, false, true, zero, false));
    assert_ne!(
        baseline,
        evidence(1, false, false, even_padding(1.0), false)
    );
    assert_ne!(baseline, evidence(1, false, false, zero, true));
}

#[test]
fn volatile_evidence_never_matches() {
    let mut inputs = LayerInputRecords::new();
    inputs.record(&InputValue::new(UNIT, vec![]));
    inputs.mark_volatile();
    let evidence = inputs.finish();

    assert!(evidence.is_volatile());
    assert_eq!(evidence, evidence.clone());
    assert!(!evidence.matches(&evidence));
}

#[test]
fn stack_preserves_stage_requirements_and_aggregates_metadata() {
    let stack = EffectStack::from_effect(configurable(
        32,
        false,
        true,
        padding(1.0, 2.0, 3.0, 4.0),
        true,
    ))
    .with(configurable(
        17,
        true,
        false,
        padding(4.0, 3.0, 2.0, 1.0),
        false,
    ));

    let stages: Vec<_> = stack.stage_requirements();
    assert_eq!(stages.len(), 2);
    assert_eq!(stages[0].pass_count(), 32);
    assert!(stages[0].fully_overwrites());
    assert_eq!(stages[1].pass_count(), 17);
    assert!(stages[1].needs_backdrop());
    assert!(!stages[1].fully_overwrites());

    let aggregate = stack.requirements();
    assert_eq!(aggregate.pass_count(), 49);
    assert!(aggregate.needs_backdrop());
    assert!(!aggregate.fully_overwrites());
    assert_eq!(stack.expansion(&sum), Some(padding(5.0, 5.0, 5.0, 5.0)));
    assert!(!stack.is_translation_invariant());
}

#[test]
fn stack_expansion_is_canonical_and_fallible() {
    assert_eq!(
        EffectStack::new().expansion(&sum),
        Some(even_padding(0.0))
    );

    let canonical = EffectStack::from_effect(configurable(
        1,
        false,
        false,
        padding(-0.0, 0.0, -0.0, 0.0),
        true,
    ))
    .expansion(&sum)
    .expect("signed zero is a valid expansion");

    assert_eq!(canonical.top, 0.0f32.to_bits());
    assert_eq!(canonical.right, 0.0f32.to_bits());
    assert_eq!(canonical.bottom, 0.0f32.to_bits());
    assert_eq!(canonical.left, 0.0f32.to_bits());

    for invalid in [f32::NAN, f32::INFINITY, f32::NEG_INFINITY, -1.0] {
        let stack =
            EffectStack::from_effect(configurable(1, false, false, even_padding(invalid), true));

        assert!(stack.expansion(&sum).is_none());
        assert!(stack.expansions().is_none());
    }

    let overflow =
        EffectStack::from_effect(configurable(1, false, false, even_padding(f32::MAX), true))
            .with(configurable(1, false, false, even_padding(f32::MAX), true));

    assert!(overflow.expansion(&sum).is_none());
}

#[test]
fn canonical_expansion_metadata_normalizes_signed_zero() {
    let positive =
        EffectStack::from_effect(configurable(1, false, false, even_padding(0.0), true));
    let negative =
        EffectStack::from_effect(configurable(1, false, false, even_padding(-0.0), true));

    assert_eq!(positive.input_evidence(), negative.input_evidence());
}

#[test]
fn stack_recollects_from_the_same_erased_effect_instances() {
    let mut identities = IdentitySource::new();
    let revision = ContentChangeHandle::new(&mut identities);
    let stack = EffectStack::from_effect(revision_effect(&revision));
    let recorded = stack.input_evidence();

    assert!(stack.inputs_match(&recorded));
    let _ = revision.mark_changed();
    assert!(!stack.inputs_match(&recorded));
}

#[test]
fn translation_invariance_defaults_to_conservative() {
    let mut identities = IdentitySource::new();
    let revision = ContentChangeHandle::new(&mut identities);
    let stack = EffectStack::from_effect(revision_effect(&revision));

    assert!(!stack.is_translation_invariant());
    assert!(EffectStack::new().is_translation_invariant());
}

#[test]
fn volatile_stages_decline_reuse() {
    let stack =
        EffectStack::from_effect(small(FIRST, 1).input(EffectInput::Volatile));
    let recorded = stack.input_evidence();
    assert!(recorded.is_volatile());
    assert!(!stack.inputs_match(&recorded));
}

#[test]
fn stages_are_found_by_index() {
    let mut stack = EffectStack::new();
    assert!(stack.is_empty());
    stack.push(small(FIRST, 1));
    assert_eq!(stack.len(), 1);
    assert_eq!(stack.get(0).expect("stage").passes_len(), 1);
    assert!(stack.get(1).is_none());
}

fn planned_stage(passes: usize, requirements: Requirements) -> Effect {
    Effect::new(PLANNED_STAGE).passes(passes, requirements)
}

#[test]
fn production_pass_plan_chains_stage_outputs_and_scopes_backdrop_per_stage() {
    let effects = EffectStack::new()
        .with(planned_stage(2, Requirements::new()))
        .with(planned_stage(
            1,
            Requirements::new().with_backdrop().writes_every_pixel(),
        ))
        .with(planned_stage(3, Requirements::new().writes_every_pixel()));

    let plan = plan_effect_passes(&effects);

    assert_eq!(plan.backdrop, Some(1));
    assert_eq!(plan.output, 7);
    assert_eq!(plan.target_count, 8);
    assert_eq!(
        plan.passes,
        vec![
            PlannedEffectPass {
                effect: 0,
                pass: 0,
                stage_input: 0,
                previous: 0,
                output: 2,
                uses_backdrop: false,
                writes_every_pixel: false,
            },
            PlannedEffectPass {
                effect: 0,
                pass: 1,
                stage_input: 0,
                previous: 2,
                output: 3,
                uses_backdrop: false,
                writes_every_pixel: false,
            },
            PlannedEffectPass {
                effect: 1,
                pass: 0,
                stage_input: 3,
                previous: 3,
                output: 4,
                uses_backdrop: true,
                writes_every_pixel: true,
            },
            PlannedEffectPass {
                effect: 2,
                pass: 0,
                stage_input: 4,
                previous: 4,
                output: 5,
                uses_backdrop: false,
                writes_every_pixel: true,
            },
            PlannedEffectPass {
                effect: 2,
                pass: 1,
                stage_input: 4,
                previous: 5,
                output: 6,
                uses_backdrop: false,
                writes_every_pixel: true,
            },
            PlannedEffectPass {
                effect: 2,
                pass: 2,
                stage_input: 4,
                previous: 6,
                output: 7,
                uses_backdrop: false,
                writes_every_pixel: true,
            },
        ]
    );
}

#[test]
fn production_pass_plan_preserves_counts_above_the_legacy_limit() {
    let effects = EffectStack::new()
        .with(planned_stage(32, Requirements::new()))
        .with(planned_stage(17, Requirements::new()));

    let plan = plan_effect_passes(&effects);

    assert_eq!(plan.passes.len(), 49);
    assert_eq!(plan.passes[31].effect, 0);
    assert_eq!(plan.passes[31].pass, 31);
    assert_eq!(plan.passes[32].effect, 1);
    assert_eq!(plan.passes[32].pass, 0);
    assert_eq!(plan.passes[32].stage_input, plan.passes[31].output);
    assert_eq!(plan.passes[48].effect, 1);
    assert_eq!(plan.passes[48].pass, 16);
    assert_eq!(plan.output, plan.passes[48].output);
}

#[test]
fn empty_stack_uses_the_captured_child_as_its_output() {
    let plan = plan_effect_passes(&EffectStack::new());

    assert!(plan.passes.is_empty());
    assert_eq!(plan.backdrop, None);
    assert_eq!(plan.output, 0);
    assert_eq!(plan.target_count, 1);
}

#[test]
fn empty_stages_forward_without_targets_or_backdrop() {
    let effects = EffectStack::new()
        .with(planned_stage(0, Requirements::new().with_backdrop()))
        .with(planned_stage(1, Requirements::new()))
        .with(planned_stage(0, Requirements::new().with_backdrop()));

    let plan = plan_effect_passes(&effects);

    assert_eq!(plan.backdrop, None);
    assert_eq!(plan.target_count, 2);
    assert_eq!(plan.output, 1);
    assert_eq!(
        plan.passes,
        vec![PlannedEffectPass {
            effect: 1,
            pass: 0,
            stage_input: 0,
            previous: 0,
            output: 1,
            uses_backdrop: false,
            writes_every_pixel: false,
        }]
    );
}

#[test]
fn wide_floating_point_inputs_compare_as_numbers() {
    let recorded = |value: f64| {
        let mut records = LayerInputRecords::new();
        records.record(&InputValue::new(
            FLOAT,
            vec![InputWord::Double(value.to_bits())],
        ));
        records.finish()
    };

    assert!(recorded(1.5).matches(&recorded(1.5)));
    assert!(recorded(0.0).matches(&recorded(-0.0)));
    assert!(!recorded(1.5).matches(&recorded(1.5f64.next_up())));
    assert!(!recorded(1.5).matches(&recorded(-1.5)));
    assert!(!recorded(f64::NAN).matches(&recorded(f64::NAN)));
    assert!(recorded(f64::INFINITY).matches(&recorded(f64::INFINITY)));
}

#[test]
fn clones_observe_the_changes_of_the_handles_they_share() {
    let mut identities = IdentitySource::new();
    let content = ContentChangeHandle::new(&mut identities);
    let stack = EffectStack::from_effect(revision_effect(&content));
    let clone = stack.clone();
    let recorded = stack.input_evidence();

    assert!(clone.inputs_match(&recorded));
    assert_eq!(content.mark_changed(), Some(1));
    assert!(!clone.inputs_match(&recorded));
    assert!(!stack.inputs_match(&recorded));
    assert!(clone.inputs_match(&stack.input_evidence()));

    let mut records = LayerInputRecords::new();
    records.depend_on(&content);
    let mut explicit = LayerInputRecords::new();
    explicit.record_revision(content.identity(), 1);
    assert!(records.finish().matches(&explicit.finish()));
}
