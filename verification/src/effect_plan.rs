//! Which targets the passes of an effect stack read and write.

use crate::effect::{stack_reads_backdrop, total_passes, EffectStack, Stage};
use vstd::prelude::*;

verus! {

/// One pass of a stack, with the indices of the targets it uses.
#[derive(Debug, Clone, Copy, PartialEq, Eq, Structural)]
pub struct PlannedEffectPass {
    pub effect: usize,
    pub pass: usize,
    pub stage_input: usize,
    pub previous: usize,
    pub output: usize,
    pub uses_backdrop: bool,
    pub writes_every_pixel: bool,
}

/// The passes of a stack in execution order, and the targets they need.
#[derive(Debug)]
pub struct EffectPassPlan {
    pub passes: Vec<PlannedEffectPass>,
    pub backdrop: Option<usize>,
    pub output: usize,
    pub target_count: usize,
}

/// How many passes run before the given stage.
pub open spec fn first_pass(stages: Seq<Stage>, effect: int) -> nat {
    total_passes(stages.take(effect))
}

/// The first target that is a pass output: the captured child and the backdrop come before.
pub open spec fn first_output(stages: Seq<Stage>) -> nat {
    if stack_reads_backdrop(stages) {
        2
    } else {
        1
    }
}

/// The target that holds the result of the first `count` passes.
pub open spec fn result_of(stages: Seq<Stage>, count: nat) -> nat {
    if count == 0 {
        0
    } else {
        (first_output(stages) + count - 1) as nat
    }
}

/// One pass of one stage.
///
/// It reads what its stage started from and what the pass before it left, and writes a
/// target of its own.
pub open spec fn planned(stages: Seq<Stage>, effect: int, pass: int) -> PlannedEffectPass {
    let before = first_pass(stages, effect);
    let requirements = stages[effect].passes[pass];
    PlannedEffectPass {
        effect: effect as usize,
        pass: pass as usize,
        stage_input: result_of(stages, before) as usize,
        previous: result_of(stages, (before + pass) as nat) as usize,
        output: result_of(stages, (before + pass + 1) as nat) as usize,
        uses_backdrop: requirements.reads_backdrop(),
        writes_every_pixel: requirements.overwrites(),
    }
}

/// Whether `plan` is the plan of a stack.
pub open spec fn is_plan(stages: Seq<Stage>, plan: EffectPassPlan) -> bool {
    &&& plan.backdrop == (if stack_reads_backdrop(stages) {
        Some(1usize)
    } else {
        None
    })
    &&& plan.output == result_of(stages, total_passes(stages))
    &&& plan.target_count == first_output(stages) + total_passes(stages)
    &&& plan.passes@.len() == total_passes(stages)
    &&& forall|effect: int, pass: int|
        #![trigger planned(stages, effect, pass)]
        0 <= effect < stages.len() && 0 <= pass < stages[effect].passes.len()
            ==> plan.passes@[first_pass(stages, effect) + pass] == planned(stages, effect, pass)
}

/// Plans the index-only portion of the shared-final-canvas effect chain.
///
/// Target zero is always the captured child. Every pass receives a dedicated output target,
/// while each stage keeps one stable input: the captured child for the first stage and the
/// preceding stage's final output thereafter.
pub fn plan_effect_passes(effects: &EffectStack) -> (plan: EffectPassPlan)
    requires
        total_passes(effects@) + 2 <= usize::MAX,
    ensures
        is_plan(effects@, plan),
{
    let ghost stages = effects@;
    let backdrop: Option<usize> = if effects.requirements().needs_backdrop() {
        Some(1)
    } else {
        None
    };
    let mut next_output: usize = if backdrop.is_some() {
        2
    } else {
        1
    };
    let mut current_output: usize = 0;
    let mut passes: Vec<PlannedEffectPass> = Vec::new();
    let mut effect: usize = 0;
    assert(stages.take(0) =~= Seq::<Stage>::empty());
    while effect < effects.len()
        invariant
            stages == effects@,
            effect <= stages.len(),
            total_passes(stages) + 2 <= usize::MAX,
            next_output == first_output(stages) + first_pass(stages, effect as int),
            current_output == result_of(stages, first_pass(stages, effect as int)),
            passes@.len() == first_pass(stages, effect as int),
            forall|e: int, p: int|
                #![trigger planned(stages, e, p)]
                0 <= e < effect && 0 <= p < stages[e].passes.len() ==> passes@[first_pass(
                    stages,
                    e,
                ) + p] == planned(stages, e, p),
        decreases stages.len() - effect,
    {
        let stage_input: usize = current_output;
        let stage = effects.get(effect).unwrap();
        let ghost before = first_pass(stages, effect as int);
        let mut pass: usize = 0;
        proof {
            lemma_next_stage(stages, effect as int);
            lemma_first_pass_bound(stages, effect + 1);
        }
        while pass < stage.passes_len()
            invariant
                stages == effects@,
                effect < stages.len(),
                stage@ == stages[effect as int],
                pass <= stage@.passes.len(),
                before == first_pass(stages, effect as int),
                before + stage@.passes.len() + 2 <= usize::MAX,
                stage_input == result_of(stages, before),
                next_output == first_output(stages) + before + pass,
                current_output == result_of(stages, (before + pass) as nat),
                passes@.len() == before + pass,
                forall|e: int, p: int|
                    #![trigger planned(stages, e, p)]
                    0 <= e < effect && 0 <= p < stages[e].passes.len() ==> passes@[first_pass(
                        stages,
                        e,
                    ) + p] == planned(stages, e, p),
                forall|p: int|
                    #![trigger planned(stages, effect as int, p)]
                    0 <= p < pass ==> passes@[before + p] == planned(stages, effect as int, p),
            decreases stage@.passes.len() - pass,
        {
            let requirements = stage.pass_requirements(pass);
            let output: usize = next_output;
            next_output = next_output + 1;
            let previous: usize = if pass == 0 {
                stage_input
            } else {
                output - 1
            };
            let planned_pass = PlannedEffectPass {
                effect,
                pass,
                stage_input,
                previous,
                output,
                uses_backdrop: requirements.needs_backdrop(),
                writes_every_pixel: requirements.fully_overwrites(),
            };
            assert(planned_pass == planned(stages, effect as int, pass as int));
            proof {
                assert forall|e: int, p: int|
                    #![trigger planned(stages, e, p)]
                    0 <= e < effect && 0 <= p < stages[e].passes.len() implies first_pass(
                    stages,
                    e,
                ) + p < before by {
                    lemma_next_stage(stages, e);
                    lemma_first_pass_order(stages, e + 1, effect as int);
                }
            }
            passes.push(planned_pass);
            current_output = output;
            pass = pass + 1;
        }
        effect = effect + 1;
    }
    assert(stages.take(effect as int) =~= stages);
    EffectPassPlan { passes, backdrop, output: current_output, target_count: next_output }
}

proof fn lemma_next_stage(stages: Seq<Stage>, effect: int)
    requires
        0 <= effect < stages.len(),
    ensures
        first_pass(stages, effect + 1) == first_pass(stages, effect) + stages[effect].passes.len(),
{
    assert(stages.take(effect + 1).drop_last() =~= stages.take(effect));
}

proof fn lemma_first_pass_order(stages: Seq<Stage>, first: int, second: int)
    requires
        0 <= first <= second <= stages.len(),
    ensures
        first_pass(stages, first) <= first_pass(stages, second),
    decreases second - first,
{
    if first < second {
        lemma_next_stage(stages, second - 1);
        lemma_first_pass_order(stages, first, second - 1);
    }
}

proof fn lemma_first_pass_bound(stages: Seq<Stage>, effect: int)
    requires
        0 <= effect <= stages.len(),
    ensures
        first_pass(stages, effect) <= total_passes(stages),
{
    lemma_first_pass_order(stages, effect, stages.len() as int);
    assert(stages.take(stages.len() as int) =~= stages);
}

/// Every planned pass is a pass of some stage.
pub proof fn planned_passes_are_declared(stages: Seq<Stage>, k: int) -> (place: (int, int))
    requires
        0 <= k < total_passes(stages),
    ensures
        0 <= place.0 < stages.len(),
        0 <= place.1 < stages[place.0].passes.len(),
        k == first_pass(stages, place.0) + place.1,
    decreases stages.len(),
{
    let last = stages.len() - 1;
    let before = total_passes(stages.drop_last());
    assert(stages.take(last) =~= stages.drop_last());
    if k >= before {
        (last, k - before)
    } else {
        let place = planned_passes_are_declared(stages.drop_last(), k);
        assert(stages.drop_last().take(place.0) =~= stages.take(place.0));
        place
    }
}

/// A pass never writes what it, or an earlier pass, reads: its output is neither the
/// captured child nor the backdrop, nor any earlier output, and it fits the targets.
pub proof fn pass_outputs_never_alias(stages: Seq<Stage>, plan: EffectPassPlan, k: int)
    requires
        is_plan(stages, plan),
        0 <= k < plan.passes@.len(),
    ensures
        plan.passes@[k].output == first_output(stages) + k,
        plan.passes@[k].output < plan.target_count,
        plan.passes@[k].output != 0,
        plan.backdrop != Some(plan.passes@[k].output),
        plan.passes@[k].stage_input < plan.passes@[k].output,
        plan.passes@[k].previous < plan.passes@[k].output,
        plan.backdrop != Some(plan.passes@[k].stage_input),
        plan.backdrop != Some(plan.passes@[k].previous),
{
    let place = planned_passes_are_declared(stages, k);
    assert(plan.passes@[k] == planned(stages, place.0, place.1));
    lemma_next_stage(stages, place.0);
}

/// Each pass continues from the one before it, and the first from the captured child.
pub proof fn passes_chain(stages: Seq<Stage>, plan: EffectPassPlan, k: int)
    requires
        is_plan(stages, plan),
        0 <= k < plan.passes@.len(),
    ensures
        plan.passes@[k].previous == (if k == 0 {
            0
        } else {
            plan.passes@[k - 1].output
        }),
        plan.passes@[k].pass == 0 ==> plan.passes@[k].stage_input == plan.passes@[k].previous,
        plan.passes@[k].pass > 0 ==> plan.passes@[k].stage_input == plan.passes@[k
            - 1].stage_input && plan.passes@[k].effect == plan.passes@[k - 1].effect,
        k == plan.passes@.len() - 1 ==> plan.output == plan.passes@[k].output,
{
    let place = planned_passes_are_declared(stages, k);
    assert(plan.passes@[k] == planned(stages, place.0, place.1));
    if k > 0 {
        pass_outputs_never_alias(stages, plan, k - 1);
        if place.1 > 0 {
            assert(plan.passes@[k - 1] == planned(stages, place.0, place.1 - 1));
        }
    }
}

/// A pass may sample the backdrop only if the plan has one, and a plan has one only if a
/// pass samples it.
pub proof fn backdrop_is_planned_on_demand(stages: Seq<Stage>, plan: EffectPassPlan)
    requires
        is_plan(stages, plan),
    ensures
        plan.backdrop is Some <==> exists|k: int|
            0 <= k < plan.passes@.len() && (#[trigger] plan.passes@[k]).uses_backdrop,
{
    if stack_reads_backdrop(stages) {
        let effect = choose|effect: int|
            0 <= effect < stages.len() && crate::effect::any_reads_backdrop(
                (#[trigger] stages[effect]).passes,
            );
        let passes = stages[effect].passes;
        let pass = choose|pass: int|
            0 <= pass < passes.len() && (#[trigger] passes[pass]).reads_backdrop();
        let k = first_pass(stages, effect) + pass;
        assert(plan.passes@[k] == planned(stages, effect, pass));
        lemma_next_stage(stages, effect);
        lemma_first_pass_bound(stages, effect + 1);
        assert(plan.passes@[k].uses_backdrop);
    }
    assert forall|k: int|
        0 <= k < plan.passes@.len() && (#[trigger] plan.passes@[k]).uses_backdrop implies
        stack_reads_backdrop(stages) by {
        let place = planned_passes_are_declared(stages, k);
        assert(plan.passes@[k] == planned(stages, place.0, place.1));
        assert(stages[place.0].passes[place.1].reads_backdrop());
        assert(crate::effect::any_reads_backdrop(stages[place.0].passes));
    }
}

/// Without passes the captured child is the output.
pub proof fn empty_plans_forward_the_child(stages: Seq<Stage>, plan: EffectPassPlan)
    requires
        is_plan(stages, plan),
        total_passes(stages) == 0,
    ensures
        plan.passes@.len() == 0,
        plan.output == 0,
        plan.backdrop is None,
        plan.target_count == 1,
{
    backdrop_is_planned_on_demand(stages, plan);
}

/// The passes of a plan are those that the stages declare, stage by stage and pass by pass. Each
/// samples the backdrop and writes every pixel exactly if it was declared so.
pub proof fn plans_run_what_is_declared(
    stages: Seq<Stage>,
    plan: EffectPassPlan,
    effect: int,
    pass: int,
) -> (k: int)
    requires
        is_plan(stages, plan),
        stages.len() <= usize::MAX,
        total_passes(stages) <= usize::MAX,
        0 <= effect < stages.len(),
        0 <= pass < stages[effect].passes.len(),
    ensures
        0 <= k < plan.passes@.len(),
        plan.passes@[k].effect == effect,
        plan.passes@[k].pass == pass,
        plan.passes@[k].uses_backdrop == stages[effect].passes[pass].reads_backdrop(),
        plan.passes@[k].writes_every_pixel == stages[effect].passes[pass].overwrites(),
        pass > 0 ==> k > 0 && plan.passes@[k - 1].effect == effect && plan.passes@[k - 1].pass
            == pass - 1,
        pass == 0 && k > 0 ==> plan.passes@[k - 1].effect < effect,
{
    let k = first_pass(stages, effect) + pass;
    lemma_next_stage(stages, effect);
    lemma_first_pass_bound(stages, effect + 1);
    assert(plan.passes@[k] == planned(stages, effect, pass));
    if pass > 0 {
        assert(plan.passes@[k - 1] == planned(stages, effect, pass - 1));
    } else if k > 0 {
        let place = planned_passes_are_declared(stages, k - 1);
        assert(plan.passes@[k - 1] == planned(stages, place.0, place.1));
        if place.0 >= effect {
            lemma_first_pass_order(stages, effect, place.0);
        }
    }
    k
}

/// Passes run in the order of their stages, and within a stage in the order in which they were
/// declared, each once.
pub proof fn plans_keep_the_declared_order(
    stages: Seq<Stage>,
    plan: EffectPassPlan,
    first: int,
    second: int,
)
    requires
        is_plan(stages, plan),
        stages.len() <= usize::MAX,
        total_passes(stages) <= usize::MAX,
        0 <= first < second < plan.passes@.len(),
    ensures
        ({
            let (a, b) = (plan.passes@[first], plan.passes@[second]);
            a.effect < b.effect || (a.effect == b.effect && a.pass < b.pass)
        }),
{
    let one = planned_passes_are_declared(stages, first);
    let other = planned_passes_are_declared(stages, second);
    assert(plan.passes@[first] == planned(stages, one.0, one.1));
    assert(plan.passes@[second] == planned(stages, other.0, other.1));
    lemma_next_stage(stages, one.0);
    lemma_next_stage(stages, other.0);
    lemma_first_pass_bound(stages, one.0 + 1);
    lemma_first_pass_bound(stages, other.0 + 1);
    if other.0 < one.0 {
        lemma_first_pass_order(stages, other.0 + 1, one.0);
    }
}

/// The backdrop is a target of its own, behind the captured child, and every target is used: the
/// child, the backdrop if there is one, and one for each pass.
pub proof fn plans_use_every_target(stages: Seq<Stage>, plan: EffectPassPlan)
    requires
        is_plan(stages, plan),
    ensures
        plan.target_count == 1 + (if plan.backdrop is Some {
            1int
        } else {
            0
        }) + plan.passes@.len(),
        plan.backdrop matches Some(backdrop) ==> 0 < backdrop < plan.target_count,
        plan.output < plan.target_count,
        plan.passes@.len() == total_passes(stages),
{
}

} // verus!
