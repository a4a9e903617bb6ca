//! Effect stages, the stacks they form, and what a stack records of its inputs.

use crate::content::ContentChangeHandle;
use crate::evidence::{
    same_atoms, same_words, Atom, Evidence, InputValue, InputWord, LayerInputEvidence,
    LayerInputRecords, Requirements,
};
use crate::float_bits::{canonical_expansion, ExpansionBits};
use vstd::prelude::*;

verus! {

/// The version of the recorded stack structure.
pub const INPUT_SCHEMA: u32 = 1;

/// One input that an effect contributes to its evidence.
#[derive(Debug)]
pub enum EffectInput {
    /// A value, recorded as it is.
    Value(InputValue),
    /// An explicit resource identity and its generation.
    Revision { identity: u64, generation: u64 },
    /// A shared handle, whose generation is read whenever evidence is collected.
    Handle(ContentChangeHandle),
    /// A declaration that the evidence is incomplete.
    Volatile,
}

/// What an [`EffectInput`] holds.
pub ghost enum Input {
    Value { type_id: u64, words: Seq<InputWord> },
    Revision { identity: u64, generation: u64 },
    Handle { handle: ContentChangeHandle },
    Volatile,
}

impl View for EffectInput {
    type V = Input;

    open spec fn view(&self) -> Input {
        match *self {
            EffectInput::Value(value) => Input::Value { type_id: value.type_id, words: value.words@ },
            EffectInput::Revision { identity, generation } => Input::Revision {
                identity,
                generation,
            },
            EffectInput::Handle(handle) => Input::Handle { handle },
            EffectInput::Volatile => Input::Volatile,
        }
    }
}

impl Clone for EffectInput {
    fn clone(&self) -> (input: Self)
        ensures
            input@ == self@,
    {
        match self {
            EffectInput::Value(value) => EffectInput::Value(value.clone()),
            EffectInput::Revision { identity, generation } => EffectInput::Revision {
                identity: *identity,
                generation: *generation,
            },
            EffectInput::Handle(handle) => EffectInput::Handle(handle.clone()),
            EffectInput::Volatile => EffectInput::Volatile,
        }
    }
}

/// What a list of effect inputs holds.
pub open spec fn inputs_of(inputs: Seq<EffectInput>) -> Seq<Input> {
    inputs.map_values(|input: EffectInput| input@)
}

/// How many of the inputs are shared handles.
pub open spec fn handles(inputs: Seq<Input>) -> nat
    decreases inputs.len(),
{
    if inputs.len() == 0 {
        0
    } else if inputs.last() is Handle {
        handles(inputs.drop_last()) + 1
    } else {
        handles(inputs.drop_last())
    }
}

/// Whether `readings` is what reading the cell of each shared handle may have given.
pub open spec fn gave(inputs: Seq<Input>, readings: Seq<u64>) -> bool
    decreases inputs.len(),
{
    if inputs.len() == 0 {
        readings.len() == 0
    } else {
        let rest = inputs.drop_last();
        match inputs.last() {
            Input::Handle { handle } => readings.len() > 0 && handle.has_read(readings.last())
                && gave(rest, readings.drop_last()),
            _ => gave(rest, readings),
        }
    }
}

/// The atoms that a list of inputs contributes, where the shared handles read `readings`.
pub open spec fn contributed(inputs: Seq<Input>, readings: Seq<u64>) -> Seq<Atom>
    decreases inputs.len(),
{
    if inputs.len() == 0 {
        Seq::empty()
    } else {
        let rest = inputs.drop_last();
        match inputs.last() {
            Input::Value { type_id, words } => contributed(rest, readings).push(
                Atom::Value { type_id, words },
            ),
            Input::Revision { identity, generation } => contributed(rest, readings).push(
                Atom::Revision { identity, generation },
            ),
            Input::Handle { handle } => contributed(rest, readings.drop_last()).push(
                Atom::Revision { identity: handle.id(), generation: readings.last() },
            ),
            Input::Volatile => contributed(rest, readings),
        }
    }
}

/// Whether a list of inputs declines reuse.
pub open spec fn declines(inputs: Seq<Input>) -> bool {
    exists|i: int| 0 <= i < inputs.len() && #[trigger] inputs[i] is Volatile
}

/// Plain frame data describing one stage in an isolated-layer effect stack.
#[derive(Debug)]
pub struct Effect {
    effect_type: u64,
    passes: Vec<Requirements>,
    expansion: ExpansionBits,
    translation_invariant: bool,
    inputs: Vec<EffectInput>,
}

/// What an [`Effect`] declares.
#[verifier::ext_equal]
pub ghost struct Stage {
    pub effect_type: u64,
    pub passes: Seq<Requirements>,
    pub expansion: ExpansionBits,
    pub translation_invariant: bool,
    pub inputs: Seq<Input>,
}

/// Whether any pass reads the backdrop.
pub open spec fn any_reads_backdrop(passes: Seq<Requirements>) -> bool {
    exists|i: int| 0 <= i < passes.len() && (#[trigger] passes[i]).reads_backdrop()
}

/// Whether there are passes and each of them writes every pixel.
pub open spec fn all_overwrite(passes: Seq<Requirements>) -> bool {
    &&& passes.len() > 0
    &&& forall|i: int| 0 <= i < passes.len() ==> (#[trigger] passes[i]).overwrites()
}

impl Stage {
    /// Whether `requirements` sums up what the passes declare.
    pub open spec fn sums_to(self, requirements: Requirements) -> bool {
        &&& requirements.count() == self.passes.len()
        &&& requirements.reads_backdrop() == any_reads_backdrop(self.passes)
        &&& requirements.overwrites() == all_overwrite(self.passes)
    }

    /// The expansion as it is recorded: canonical if it is valid, else as declared.
    pub open spec fn recorded_expansion(self) -> ExpansionBits {
        if self.expansion.valid() {
            self.expansion.canonical()
        } else {
            self.expansion
        }
    }
}

impl View for Effect {
    type V = Stage;

    closed spec fn view(&self) -> Stage {
        Stage {
            effect_type: self.effect_type,
            passes: self.passes@,
            expansion: self.expansion,
            translation_invariant: self.translation_invariant,
            inputs: inputs_of(self.inputs@),
        }
    }
}

impl Effect {
    /// Creates a stage without passes, expansion or inputs.
    ///
    /// It is not translation invariant: an effect can inspect absolute bounds.
    pub fn new(effect_type: u64) -> (effect: Self)
        ensures
            effect@ == (Stage {
                effect_type,
                passes: Seq::empty(),
                expansion: ExpansionBits { top: 0, right: 0, bottom: 0, left: 0 },
                translation_invariant: false,
                inputs: Seq::empty(),
            }),
    {
        let effect = Effect {
            effect_type,
            passes: Vec::new(),
            expansion: ExpansionBits { top: 0, right: 0, bottom: 0, left: 0 },
            translation_invariant: false,
            inputs: Vec::new(),
        };
        assert(effect@.inputs =~= Seq::<Input>::empty());
        effect
    }

    /// Appends one pass.
    pub fn pass(self, requirements: Requirements) -> (effect: Self)
        ensures
            effect@ == (Stage { passes: self@.passes.push(requirements), ..self@ }),
    {
        let mut effect = self;
        effect.passes.push(requirements);
        effect
    }

    /// Appends passes with the same requirements.
    pub fn passes(self, count: usize, requirements: Requirements) -> (effect: Self)
        ensures
            effect@ == (Stage {
                passes: self@.passes + Seq::new(count as nat, |i: int| requirements),
                ..self@
            }),
    {
        let mut effect = self;
        let mut added: usize = 0;
        assert(effect@.passes =~= self@.passes + Seq::new(0, |i: int| requirements));
        while added < count
            invariant
                added <= count,
                effect@ == (Stage {
                    passes: self@.passes + Seq::new(added as nat, |i: int| requirements),
                    ..self@
                }),
            decreases count - added,
        {
            effect.passes.push(requirements);
            added = added + 1;
            assert(effect@.passes =~= self@.passes + Seq::new(added as nat, |i: int| requirements));
        }
        effect
    }

    /// Declares the capture expansion around the widget bounds.
    pub fn expand(self, expansion: ExpansionBits) -> (effect: Self)
        ensures
            effect@ == (Stage { expansion, ..self@ }),
    {
        Effect { expansion, ..self }
    }

    /// Declares whether translating the capture can leave the output unchanged.
    pub fn translation_invariant(self, translation_invariant: bool) -> (effect: Self)
        ensures
            effect@ == (Stage { translation_invariant, ..self@ }),
    {
        Effect { translation_invariant, ..self }
    }

    /// Appends one input.
    pub fn input(self, input: EffectInput) -> (effect: Self)
        ensures
            effect@ == (Stage { inputs: self@.inputs.push(input@), ..self@ }),
    {
        let mut effect = self;
        effect.inputs.push(input);
        assert(effect@.inputs =~= self@.inputs.push(input@));
        effect
    }

    /// Returns the number of passes.
    pub fn passes_len(&self) -> (count: usize)
        ensures
            count == self@.passes.len(),
    {
        self.passes.len()
    }

    /// Returns the requirements of one pass.
    pub fn pass_requirements(&self, pass: usize) -> (requirements: Requirements)
        requires
            pass < self@.passes.len(),
        ensures
            requirements == self@.passes[pass as int],
    {
        self.passes[pass]
    }

    /// Returns the effect's declared pass and texture requirements.
    pub fn requirements(&self) -> (requirements: Requirements)
        ensures
            self@.sums_to(requirements),
    {
        let mut backdrop = false;
        let mut overwrites = self.passes.len() > 0;
        let mut pass: usize = 0;
        while pass < self.passes.len()
            invariant
                pass <= self.passes@.len(),
                backdrop == any_reads_backdrop(self.passes@.take(pass as int)),
                overwrites == (self.passes@.len() > 0 && forall|i: int|
                    0 <= i < pass ==> (#[trigger] self.passes@[i]).overwrites()),
            decreases self.passes@.len() - pass,
        {
            proof {
                lemma_next_backdrop(self.passes@, pass as int);
            }
            backdrop = backdrop || self.passes[pass].needs_backdrop();
            overwrites = overwrites && self.passes[pass].fully_overwrites();
            pass = pass + 1;
        }
        assert(self.passes@.take(pass as int) =~= self.passes@);
        let requirements = Requirements::passes(self.passes.len());
        let requirements = if backdrop {
            requirements.with_backdrop()
        } else {
            requirements
        };
        if overwrites {
            requirements.writes_every_pixel()
        } else {
            requirements
        }
    }

    /// Returns the effect's declared capture expansion.
    pub fn expansion(&self) -> (expansion: ExpansionBits)
        ensures
            expansion == self@.expansion,
    {
        self.expansion
    }

    /// Returns whether the effect declares itself translation invariant.
    pub fn is_translation_invariant(&self) -> (answer: bool)
        ensures
            answer == self@.translation_invariant,
    {
        self.translation_invariant
    }

    /// Contributes the effect-owned portion of its input evidence.
    ///
    /// The generations of shared handles are read now.
    pub fn contribute_inputs(&self, inputs: &mut LayerInputRecords)
        ensures
            exists|readings: Seq<u64>| #[trigger]
                contributes(self@.inputs, readings, old(inputs)@, final(inputs)@) && gave(
                    self@.inputs,
                    readings,
                ),
    {
        let ghost before = inputs@;
        let ghost mut readings: Seq<u64> = Seq::empty();
        let ghost all = self@.inputs;
        let mut index: usize = 0;
        proof {
            assert(all.take(0) =~= Seq::<Input>::empty());
            assert(inputs@.atoms =~= before.atoms + contributed(all.take(0), readings));
        }
        while index < self.inputs.len()
            invariant
                index <= self.inputs@.len(),
                all == self@.inputs,
                contributes(all.take(index as int), readings, before, inputs@),
                gave(all.take(index as int), readings),
            decreases self.inputs@.len() - index,
        {
            let ghost shorter = all.take(index as int);
            let ghost longer = all.take(index + 1);
            let ghost held = inputs@;
            proof {
                assert(longer.drop_last() =~= shorter);
                assert(longer.last() == self.inputs@[index as int]@);
                assert(longer[index as int] == longer.last());
                assert(declines(longer) == (declines(shorter) || longer.last() is Volatile)) by {
                    if declines(shorter) {
                        let i = choose|i: int|
                            0 <= i < shorter.len() && #[trigger] shorter[i] is Volatile;
                        assert(longer[i] is Volatile);
                    }
                    if declines(longer) {
                        let i = choose|i: int|
                            0 <= i < longer.len() && #[trigger] longer[i] is Volatile;
                        if i < index {
                            assert(shorter[i] is Volatile);
                        }
                    }
                }
            }
            match &self.inputs[index] {
                EffectInput::Value(value) => {
                    inputs.record(value);
                },
                EffectInput::Revision { identity, generation } => {
                    inputs.record_revision(*identity, *generation);
                },
                EffectInput::Handle(handle) => {
                    inputs.depend_on(handle);
                    proof {
                        let last = inputs@.atoms.last();
                        let longer_readings = readings.push(last->Revision_generation);
                        assert(handle.has_read(last->Revision_generation));
                        assert(longer_readings.drop_last() =~= readings);
                        readings = longer_readings;
                    }
                },
                EffectInput::Volatile => {
                    inputs.mark_volatile();
                },
            }
            proof {
                assert(inputs@.atoms =~= before.atoms + contributed(longer, readings));
            }
            index = index + 1;
        }
        proof {
            assert(all.take(all.len() as int) =~= all);
        }
    }
}

proof fn lemma_next_backdrop(passes: Seq<Requirements>, i: int)
    requires
        0 <= i < passes.len(),
    ensures
        any_reads_backdrop(passes.take(i + 1)) == (any_reads_backdrop(passes.take(i))
            || passes[i].reads_backdrop()),
{
    let shorter = passes.take(i);
    let longer = passes.take(i + 1);
    if any_reads_backdrop(shorter) {
        let k = choose|k: int| 0 <= k < shorter.len() && (#[trigger] shorter[k]).reads_backdrop();
        assert(longer[k].reads_backdrop());
    }
    if passes[i].reads_backdrop() {
        assert(longer[i].reads_backdrop());
    }
    if any_reads_backdrop(longer) {
        let k = choose|k: int| 0 <= k < longer.len() && (#[trigger] longer[k]).reads_backdrop();
        if k < i {
            assert(shorter[k].reads_backdrop());
        }
    }
}

/// Whether contributing `inputs`, whose handles read `readings`, turns `before` into `after`.
pub open spec fn contributes(
    inputs: Seq<Input>,
    readings: Seq<u64>,
    before: Evidence,
    after: Evidence,
) -> bool {
    &&& readings.len() == handles(inputs)
    &&& after.atoms == before.atoms + contributed(inputs, readings)
    &&& after.volatile == (before.volatile || declines(inputs))
}

impl Stage {
    /// The sum of what the passes declare.
    pub open spec fn summary(self) -> Requirements {
        choose|requirements: Requirements| self.sums_to(requirements)
    }

    /// There is only one sum.
    pub proof fn summary_is_unique(self, requirements: Requirements)
        requires
            self.sums_to(requirements),
        ensures
            self.summary() == requirements,
    {
        self.summary().facts_determine(requirements);
    }
}

/// What a list of stages declares.
pub open spec fn stages_of(effects: Seq<Effect>) -> Seq<Stage> {
    effects.map_values(|effect: Effect| effect@)
}

/// The passes of all stages together.
pub open spec fn total_passes(stages: Seq<Stage>) -> nat
    decreases stages.len(),
{
    if stages.len() == 0 {
        0
    } else {
        total_passes(stages.drop_last()) + stages.last().passes.len()
    }
}

/// Whether any pass of any stage reads the backdrop.
pub open spec fn stack_reads_backdrop(stages: Seq<Stage>) -> bool {
    exists|i: int| 0 <= i < stages.len() && any_reads_backdrop((#[trigger] stages[i]).passes)
}

/// Whether there are stages and each of them overwrites every pixel.
pub open spec fn stack_overwrites(stages: Seq<Stage>) -> bool {
    &&& stages.len() > 0
    &&& forall|i: int| 0 <= i < stages.len() ==> all_overwrite((#[trigger] stages[i]).passes)
}

/// Whether every stage is translation invariant.
pub open spec fn stack_translation_invariant(stages: Seq<Stage>) -> bool {
    forall|i: int| 0 <= i < stages.len() ==> (#[trigger] stages[i]).translation_invariant
}

/// Whether any stage declines reuse.
pub open spec fn stack_declines(stages: Seq<Stage>) -> bool {
    exists|i: int| 0 <= i < stages.len() && declines((#[trigger] stages[i]).inputs)
}

/// Whether there is one reading for each shared handle of each stage.
pub open spec fn readable(stages: Seq<Stage>, readings: Seq<Seq<u64>>) -> bool {
    &&& readings.len() == stages.len()
    &&& forall|i: int|
        0 <= i < stages.len() ==> (#[trigger] readings[i]).len() == handles(stages[i].inputs)
}

/// Whether `readings` is what reading the cells of the shared handles of each stage may have
/// given.
pub open spec fn stages_gave(stages: Seq<Stage>, readings: Seq<Seq<u64>>) -> bool {
    &&& readable(stages, readings)
    &&& forall|i: int| 0 <= i < stages.len() ==> gave(stages[i].inputs, #[trigger] readings[i])
}

/// The recorded start of a stage.
pub open spec fn stage_start(index: int, stage: Stage) -> Atom {
    Atom::Stage {
        index: index as usize,
        effect_type: stage.effect_type,
        requirements: stage.summary(),
        expansion: stage.recorded_expansion(),
        translation_invariant: stage.translation_invariant,
    }
}

/// What one stage records: its declarations, its inputs, and a closing mark.
pub open spec fn stage_atoms(index: int, stage: Stage, readings: Seq<u64>) -> Seq<Atom> {
    seq![stage_start(index, stage)] + contributed(stage.inputs, readings) + seq![
        Atom::EndStage { index: index as usize },
    ]
}

/// What the stages record, one after the other.
pub open spec fn stack_atoms(stages: Seq<Stage>, readings: Seq<Seq<u64>>) -> Seq<Atom>
    decreases stages.len(),
{
    if stages.len() == 0 {
        Seq::empty()
    } else {
        stack_atoms(stages.drop_last(), readings.drop_last()) + stage_atoms(
            stages.len() - 1,
            stages.last(),
            readings.last(),
        )
    }
}

/// The evidence of a stack whose shared handles read `readings`.
pub open spec fn collected(stages: Seq<Stage>, readings: Seq<Seq<u64>>) -> Evidence {
    Evidence {
        atoms: seq![Atom::Stack { schema: INPUT_SCHEMA, stages: stages.len() as usize }]
            + stack_atoms(stages, readings),
        volatile: stack_declines(stages),
    }
}

/// An ordered sequence of isolated-layer effect stages.
#[derive(Debug)]
pub struct EffectStack {
    effects: Vec<Effect>,
}

impl Clone for Effect {
    fn clone(&self) -> (effect: Self)
        ensures
            effect@ == self@,
    {
        let mut passes: Vec<Requirements> = Vec::new();
        let mut index: usize = 0;
        while index < self.passes.len()
            invariant
                index <= self.passes@.len(),
                passes@ == self.passes@.take(index as int),
            decreases self.passes@.len() - index,
        {
            passes.push(self.passes[index]);
            index = index + 1;
            assert(passes@ =~= self.passes@.take(index as int));
        }
        let mut inputs: Vec<EffectInput> = Vec::new();
        let mut index: usize = 0;
        while index < self.inputs.len()
            invariant
                index <= self.inputs@.len(),
                inputs@.len() == index,
                forall|i: int| 0 <= i < index ==> (#[trigger] inputs@[i])@ == self.inputs@[i]@,
            decreases self.inputs@.len() - index,
        {
            inputs.push(self.inputs[index].clone());
            index = index + 1;
        }
        let effect = Effect {
            effect_type: self.effect_type,
            passes,
            expansion: self.expansion,
            translation_invariant: self.translation_invariant,
            inputs,
        };
        assert(inputs_of(inputs@) =~= inputs_of(self.inputs@));
        assert(effect@ =~= self@);
        effect
    }
}

impl View for EffectStack {
    type V = Seq<Stage>;

    closed spec fn view(&self) -> Seq<Stage> {
        stages_of(self.effects@)
    }
}

impl Clone for EffectStack {
    fn clone(&self) -> (stack: Self)
        ensures
            stack@ == self@,
    {
        let mut effects: Vec<Effect> = Vec::new();
        let mut index: usize = 0;
        while index < self.effects.len()
            invariant
                index <= self.effects@.len(),
                effects@.len() == index,
                forall|i: int| 0 <= i < index ==> (#[trigger] effects@[i])@ == self.effects@[i]@,
            decreases self.effects@.len() - index,
        {
            effects.push(self.effects[index].clone());
            index = index + 1;
        }
        let stack = EffectStack { effects };
        assert(stack@ =~= self@);
        stack
    }
}

impl EffectStack {
    /// Creates an empty stack, which represents an effect-free isolated layer.
    pub fn new() -> (stack: Self)
        ensures
            stack@ == Seq::<Stage>::empty(),
    {
        let stack = EffectStack { effects: Vec::new() };
        assert(stack@ =~= Seq::<Stage>::empty());
        stack
    }

    /// Creates a stack containing one effect stage.
    pub fn from_effect(effect: Effect) -> (stack: Self)
        ensures
            stack@ == seq![effect@],
    {
        let mut stack = EffectStack::new();
        stack.push(effect);
        assert(stack@ =~= seq![effect@]);
        stack
    }

    /// Appends one effect stage.
    pub fn push(&mut self, effect: Effect)
        ensures
            final(self)@ == old(self)@.push(effect@),
    {
        self.effects.push(effect);
        assert(self@ =~= old(self)@.push(effect@));
    }

    /// Appends one effect stage and returns the updated stack.
    pub fn with(self, effect: Effect) -> (stack: Self)
        ensures
            stack@ == self@.push(effect@),
    {
        let mut stack = self;
        stack.push(effect);
        stack
    }

    /// Returns the number of effect stages.
    pub fn len(&self) -> (count: usize)
        ensures
            count == self@.len(),
    {
        self.effects.len()
    }

    /// Returns whether the stack has no effect stages.
    pub fn is_empty(&self) -> (empty: bool)
        ensures
            empty == (self@.len() == 0),
    {
        self.effects.len() == 0
    }

    /// Returns one effect stage by index.
    pub fn get(&self, index: usize) -> (effect: Option<&Effect>)
        ensures
            match effect {
                Some(effect) => index < self@.len() && effect@ == self@[index as int],
                None => index >= self@.len(),
            },
    {
        if index < self.effects.len() {
            Some(&self.effects[index])
        } else {
            None
        }
    }

    /// Returns the requirements of each stage in execution order.
    ///
    /// Whether a pass output needs clearing is decided by these, not by the aggregate.
    pub fn stage_requirements(&self) -> (requirements: Vec<Requirements>)
        ensures
            requirements@.len() == self@.len(),
            forall|i: int|
                0 <= i < self@.len() ==> self@[i].sums_to(#[trigger] requirements@[i]),
    {
        let mut requirements: Vec<Requirements> = Vec::new();
        let mut index: usize = 0;
        while index < self.effects.len()
            invariant
                index <= self.effects@.len(),
                requirements@.len() == index,
                forall|i: int|
                    0 <= i < index ==> self@[i].sums_to(#[trigger] requirements@[i]),
            decreases self.effects@.len() - index,
        {
            requirements.push(self.effects[index].requirements());
            index = index + 1;
        }
        requirements
    }

    /// Returns a conservative aggregate requirement summary.
    ///
    /// Pass counts are added without a cap. Backdrop use is the union of the stages. Full
    /// overwrite is true only when every stage declares it and the stack is nonempty.
    pub fn requirements(&self) -> (requirements: Requirements)
        requires
            total_passes(self@) <= usize::MAX,
        ensures
            requirements.count() == total_passes(self@),
            requirements.reads_backdrop() == stack_reads_backdrop(self@),
            requirements.overwrites() == stack_overwrites(self@),
    {
        let ghost all = self@;
        let mut passes: usize = 0;
        let mut backdrop = false;
        let mut overwrites = self.effects.len() > 0;
        let mut index: usize = 0;
        while index < self.effects.len()
            invariant
                index <= self.effects@.len(),
                all == self@,
                total_passes(all) <= usize::MAX,
                passes == total_passes(all.take(index as int)),
                backdrop == stack_reads_backdrop(all.take(index as int)),
                overwrites == (all.len() > 0 && forall|i: int|
                    0 <= i < index ==> all_overwrite((#[trigger] all[i]).passes)),
            decreases self.effects@.len() - index,
        {
            let requirements = self.effects[index].requirements();
            proof {
                lemma_passes_grow(all, index + 1);
                assert(all.take(index + 1).drop_last() =~= all.take(index as int));
                assert(all[index as int] == self.effects@[index as int]@);
                lemma_next_stage_backdrop(all, index as int);
            }
            passes = passes + requirements.pass_count();
            backdrop = backdrop || requirements.needs_backdrop();
            overwrites = overwrites && requirements.fully_overwrites();
            index = index + 1;
        }
        assert(all.take(index as int) =~= all);
        let requirements = Requirements::passes(passes);
        let requirements = if backdrop {
            requirements.with_backdrop()
        } else {
            requirements
        };
        if overwrites {
            requirements.writes_every_pixel()
        } else {
            requirements
        }
    }

    /// Returns the canonical expansion of each stage, and nothing if any of them is invalid.
    pub fn expansions(&self) -> (expansions: Option<Vec<ExpansionBits>>)
        ensures
            match expansions {
                Some(expansions) => {
                    &&& expansions@.len() == self@.len()
                    &&& forall|i: int|
                        0 <= i < self@.len() ==> (#[trigger] self@[i]).expansion.valid()
                            && expansions@[i] == self@[i].expansion.canonical()
                },
                None => exists|i: int|
                    0 <= i < self@.len() && !(#[trigger] self@[i]).expansion.valid(),
            },
    {
        let mut expansions: Vec<ExpansionBits> = Vec::new();
        let mut index: usize = 0;
        while index < self.effects.len()
            invariant
                index <= self.effects@.len(),
                expansions@.len() == index,
                forall|i: int|
                    0 <= i < index ==> (#[trigger] self@[i]).expansion.valid() && expansions@[i]
                        == self@[i].expansion.canonical(),
            decreases self.effects@.len() - index,
        {
            assert(self@[index as int] == self.effects@[index as int]@);
            match canonical_expansion(self.effects[index].expansion()) {
                Some(expansion) => expansions.push(expansion),
                None => {
                    assert(!self@[index as int].expansion.valid());
                    return None;
                },
            }
            index = index + 1;
        }
        Some(expansions)
    }

    /// Whether `expansion` is the space that every stage together needs.
    pub open spec fn expands<F: Fn(&Vec<ExpansionBits>) -> ExpansionBits>(
        self,
        total: F,
        expansion: Option<ExpansionBits>,
    ) -> bool {
        if exists|i: int| 0 <= i < self@.len() && !(#[trigger] self@[i]).expansion.valid() {
            expansion is None
        } else {
            exists|expansions: Vec<ExpansionBits>, sum: ExpansionBits| #[trigger]
                call_ensures(total, (&expansions,), sum) && expansions@ == self@.map_values(
                    |stage: Stage| stage.expansion.canonical(),
                ) && expansion == (if sum.valid() {
                    Some(sum.canonical())
                } else {
                    None
                })
        }
    }

    /// Returns the space that every stage together needs around the content.
    ///
    /// `total` adds up canonical expansions side by side. Nothing is returned where a stage
    /// declares an invalid expansion, or where a total is no finite number.
    pub fn expansion<F: Fn(&Vec<ExpansionBits>) -> ExpansionBits>(&self, total: &F) -> (expansion:
        Option<ExpansionBits>)
        requires
            forall|expansions: &Vec<ExpansionBits>| call_requires(*total, (expansions,)),
        ensures
            self.expands(*total, expansion),
    {
        let expansions = match self.expansions() {
            Some(expansions) => expansions,
            None => return None,
        };
        let sum = total(&expansions);
        assert(call_ensures(*total, (&expansions,), sum));
        assert(expansions@ =~= self@.map_values(|stage: Stage| stage.expansion.canonical()));
        canonical_expansion(sum)
    }

    /// Returns whether every effect stage is translation invariant.
    ///
    /// An empty effect stack is effect-invariant.
    pub fn is_translation_invariant(&self) -> (answer: bool)
        ensures
            answer == stack_translation_invariant(self@),
    {
        let mut index: usize = 0;
        while index < self.effects.len()
            invariant
                index <= self.effects@.len(),
                forall|i: int| 0 <= i < index ==> (#[trigger] self@[i]).translation_invariant,
            decreases self.effects@.len() - index,
        {
            if !self.effects[index].is_translation_invariant() {
                assert(!self@[index as int].translation_invariant);
                return false;
            }
            index = index + 1;
        }
        true
    }

    /// Collects exact effect inputs plus framework-owned stack structure.
    ///
    /// The generations of shared handles are read now.
    pub fn input_evidence(&self) -> (evidence: LayerInputEvidence)
        ensures
            exists|readings: Seq<Seq<u64>>| #[trigger]
                stages_gave(self@, readings) && evidence@ == collected(self@, readings),
    {
        let ghost all = self@;
        let ghost mut readings: Seq<Seq<u64>> = Seq::empty();
        let mut inputs = LayerInputRecords::new();
        inputs.record_stack(INPUT_SCHEMA, self.effects.len());
        let ghost head = seq![Atom::Stack { schema: INPUT_SCHEMA, stages: all.len() as usize }];
        let mut index: usize = 0;
        proof {
            assert(all.take(0) =~= Seq::<Stage>::empty());
            assert(inputs@.atoms =~= head + stack_atoms(all.take(0), readings));
        }
        while index < self.effects.len()
            invariant
                index <= self.effects@.len(),
                all == self@,
                stages_gave(all.take(index as int), readings),
                inputs@.atoms == head + stack_atoms(all.take(index as int), readings),
                inputs@.volatile == stack_declines(all.take(index as int)),
            decreases self.effects@.len() - index,
        {
            let ghost shorter = all.take(index as int);
            let ghost longer = all.take(index + 1);
            let ghost stage = all[index as int];
            let ghost before = inputs@;
            let effect = &self.effects[index];
            let declared = effect.expansion();
            let expansion = match canonical_expansion(declared) {
                Some(expansion) => expansion,
                None => declared,
            };
            let requirements = effect.requirements();
            proof {
                assert(stage == effect@);
                stage.summary_is_unique(requirements);
            }
            inputs.record_stage(
                index,
                effect.effect_type,
                requirements,
                expansion,
                effect.is_translation_invariant(),
            );
            let ghost opened = inputs@;
            effect.contribute_inputs(&mut inputs);
            proof {
                let read = choose|read: Seq<u64>| #[trigger]
                    contributes(stage.inputs, read, opened, inputs@) && gave(stage.inputs, read);
                let longer_readings = readings.push(read);
                assert(longer_readings.drop_last() =~= readings);
                assert(longer.drop_last() =~= shorter);
                assert(longer.last() == stage);
                readings = longer_readings;
                assert forall|i: int| 0 <= i < longer.len() implies (#[trigger] readings[i]).len()
                    == handles(longer[i].inputs) by {
                    if i < index {
                        assert(readings.drop_last()[i].len() == handles(shorter[i].inputs));
                    }
                }
                assert forall|i: int| 0 <= i < longer.len() implies gave(
                    longer[i].inputs,
                    #[trigger] readings[i],
                ) by {
                    if i < index {
                        assert(gave(shorter[i].inputs, readings.drop_last()[i]));
                    }
                }
                lemma_next_declines(all, index as int);
            }
            inputs.record_stage_end(index);
            proof {
                assert(inputs@.atoms =~= before.atoms + stage_atoms(
                    index as int,
                    stage,
                    readings.last(),
                ));
                assert(inputs@.atoms =~= head + stack_atoms(longer, readings));
            }
            index = index + 1;
        }
        proof {
            assert(all.take(all.len() as int) =~= all);
            assert(stages_gave(all, readings));
        }
        inputs.finish()
    }

    /// Recollects evidence from the same retained stages.
    pub fn recollect_input_evidence(&self) -> (evidence: LayerInputEvidence)
        ensures
            exists|readings: Seq<Seq<u64>>| #[trigger]
                stages_gave(self@, readings) && evidence@ == collected(self@, readings),
    {
        self.input_evidence()
    }

    /// Recollects the stack and compares it with an earlier stable snapshot.
    pub fn inputs_match(&self, recorded: &LayerInputEvidence) -> (matches: bool)
        ensures
            exists|readings: Seq<Seq<u64>>| #[trigger]
                stages_gave(self@, readings) && matches == recorded@.matching(
                    collected(self@, readings),
                ),
    {
        let recollected = self.recollect_input_evidence();
        let matches = recorded.matches(&recollected);
        proof {
            let readings = choose|readings: Seq<Seq<u64>>| #[trigger]
                stages_gave(self@, readings) && recollected@ == collected(self@, readings);
            assert(stages_gave(self@, readings));
        }
        matches
    }
}

proof fn lemma_passes_grow(stages: Seq<Stage>, i: int)
    requires
        0 <= i <= stages.len(),
    ensures
        total_passes(stages.take(i)) <= total_passes(stages),
    decreases stages.len(),
{
    if i == stages.len() {
        assert(stages.take(i) =~= stages);
    } else {
        lemma_passes_grow(stages.drop_last(), i);
        assert(stages.drop_last().take(i) =~= stages.take(i));
    }
}

proof fn lemma_next_stage_backdrop(stages: Seq<Stage>, i: int)
    requires
        0 <= i < stages.len(),
    ensures
        stack_reads_backdrop(stages.take(i + 1)) == (stack_reads_backdrop(stages.take(i))
            || any_reads_backdrop(stages[i].passes)),
{
    let shorter = stages.take(i);
    let longer = stages.take(i + 1);
    if stack_reads_backdrop(shorter) {
        let k = choose|k: int|
            0 <= k < shorter.len() && any_reads_backdrop((#[trigger] shorter[k]).passes);
        assert(any_reads_backdrop(longer[k].passes));
    }
    if any_reads_backdrop(stages[i].passes) {
        assert(any_reads_backdrop(longer[i].passes));
    }
    if stack_reads_backdrop(longer) {
        let k = choose|k: int|
            0 <= k < longer.len() && any_reads_backdrop((#[trigger] longer[k]).passes);
        if k < i {
            assert(any_reads_backdrop(shorter[k].passes));
        }
    }
}

proof fn lemma_next_declines(stages: Seq<Stage>, i: int)
    requires
        0 <= i < stages.len(),
    ensures
        stack_declines(stages.take(i + 1)) == (stack_declines(stages.take(i)) || declines(
            stages[i].inputs,
        )),
{
    let shorter = stages.take(i);
    let longer = stages.take(i + 1);
    if stack_declines(shorter) {
        let k = choose|k: int| 0 <= k < shorter.len() && declines((#[trigger] shorter[k]).inputs);
        assert(declines(longer[k].inputs));
    }
    if declines(stages[i].inputs) {
        assert(declines(longer[i].inputs));
    }
    if stack_declines(longer) {
        let k = choose|k: int| 0 <= k < longer.len() && declines((#[trigger] longer[k]).inputs);
        if k < i {
            assert(declines(shorter[k].inputs));
        }
    }
}

proof fn lemma_contributed_kinds(inputs: Seq<Input>, readings: Seq<u64>)
    ensures
        forall|i: int|
            0 <= i < contributed(inputs, readings).len() ==> !((#[trigger] contributed(
                inputs,
                readings,
            )[i]) is Stage),
    decreases inputs.len(),
{
    if inputs.len() > 0 {
        lemma_contributed_kinds(inputs.drop_last(), readings);
        lemma_contributed_kinds(inputs.drop_last(), readings.drop_last());
    }
}

proof fn lemma_stack_determined(
    a: Seq<Stage>,
    read_a: Seq<Seq<u64>>,
    b: Seq<Stage>,
    read_b: Seq<Seq<u64>>,
)
    requires
        a.len() == b.len(),
        readable(a, read_a),
        readable(b, read_b),
        same_atoms(stack_atoms(a, read_a), stack_atoms(b, read_b)),
    ensures
        forall|i: int| 0 <= i < a.len() ==> #[trigger] same_stage(a[i], read_a[i], b[i], read_b[i]),
    decreases a.len(),
{
    if a.len() > 0 {
        let x = stack_atoms(a, read_a);
        let y = stack_atoms(b, read_b);
        let rest_x = stack_atoms(a.drop_last(), read_a.drop_last());
        let rest_y = stack_atoms(b.drop_last(), read_b.drop_last());
        let c = contributed(a.last().inputs, read_a.last());
        let d = contributed(b.last().inputs, read_b.last());
        lemma_contributed_kinds(a.last().inputs, read_a.last());
        lemma_contributed_kinds(b.last().inputs, read_b.last());
        assert(x.len() == rest_x.len() + c.len() + 2);
        assert(y.len() == rest_y.len() + d.len() + 2);
        assert(x[rest_x.len() as int] == stage_start(a.len() - 1, a.last()));
        assert(y[rest_y.len() as int] == stage_start(b.len() - 1, b.last()));
        if c.len() < d.len() {
            let p = rest_x.len() as int;
            assert(x[p].same(y[p]));
            assert(y[p] == d[p - rest_y.len() - 1]);
            assert(false);
        }
        if d.len() < c.len() {
            let p = rest_y.len() as int;
            assert(x[p].same(y[p]));
            assert(x[p] == c[p - rest_x.len() - 1]);
            assert(false);
        }
        let p = rest_x.len() as int;
        assert(x[p].same(y[p]));
        assert forall|i: int| 0 <= i < c.len() implies (#[trigger] c[i]).same(d[i]) by {
            assert(x[p + 1 + i] == c[i]);
            assert(y[p + 1 + i] == d[i]);
            assert(x[p + 1 + i].same(y[p + 1 + i]));
        }
        assert(same_stage(a.last(), read_a.last(), b.last(), read_b.last()));
        assert forall|i: int| 0 <= i < rest_x.len() implies (#[trigger] rest_x[i]).same(
            rest_y[i],
        ) by {
            assert(x[i] == rest_x[i]);
            assert(y[i] == rest_y[i]);
            assert(x[i].same(y[i]));
        }
        let read_rest_a = read_a.drop_last();
        let read_rest_b = read_b.drop_last();
        assert forall|i: int| 0 <= i < a.len() - 1 implies (#[trigger] read_rest_a[i]).len()
            == handles(a.drop_last()[i].inputs) by {
            assert(read_a[i].len() == handles(a[i].inputs));
        }
        assert forall|i: int| 0 <= i < b.len() - 1 implies (#[trigger] read_rest_b[i]).len()
            == handles(b.drop_last()[i].inputs) by {
            assert(read_b[i].len() == handles(b[i].inputs));
        }
        lemma_stack_determined(a.drop_last(), read_rest_a, b.drop_last(), read_rest_b);
        assert forall|i: int| 0 <= i < a.len() implies #[trigger] same_stage(
            a[i],
            read_a[i],
            b[i],
            read_b[i],
        ) by {
            if i < a.len() - 1 {
                assert(same_stage(
                    a.drop_last()[i],
                    read_rest_a[i],
                    b.drop_last()[i],
                    read_rest_b[i],
                ));
            }
        }
    }
}

/// Whether two stages declare the same and contribute equal inputs.
pub open spec fn same_stage(
    a: Stage,
    read_a: Seq<u64>,
    b: Stage,
    read_b: Seq<u64>,
) -> bool {
    &&& a.effect_type == b.effect_type
    &&& a.summary() == b.summary()
    &&& a.recorded_expansion() == b.recorded_expansion()
    &&& a.translation_invariant == b.translation_invariant
    &&& same_atoms(contributed(a.inputs, read_a), contributed(b.inputs, read_b))
}

/// Equal evidence comes only from stacks that agree stage by stage: in number and order, in
/// the type of each effect and what it declares, and in the inputs between its boundaries.
pub proof fn evidence_determines_the_stack(
    a: Seq<Stage>,
    read_a: Seq<Seq<u64>>,
    b: Seq<Stage>,
    read_b: Seq<Seq<u64>>,
)
    requires
        a.len() <= usize::MAX,
        b.len() <= usize::MAX,
        readable(a, read_a),
        readable(b, read_b),
        collected(a, read_a).same(collected(b, read_b)),
    ensures
        a.len() == b.len(),
        forall|i: int| 0 <= i < a.len() ==> #[trigger] same_stage(a[i], read_a[i], b[i], read_b[i]),
{
    let x = collected(a, read_a).atoms;
    let y = collected(b, read_b).atoms;
    assert(x[0].same(y[0]));
    let rest_x = stack_atoms(a, read_a);
    let rest_y = stack_atoms(b, read_b);
    assert forall|i: int| 0 <= i < rest_x.len() implies (#[trigger] rest_x[i]).same(
        rest_y[i],
    ) by {
        assert(x[i + 1] == rest_x[i]);
        assert(y[i + 1] == rest_y[i]);
        assert(x[i + 1].same(y[i + 1]));
    }
    lemma_stack_determined(a, read_a, b, read_b);
}

/// Whether every recorded value equals itself, as all but those with a NaN do.
pub open spec fn self_equal(inputs: Seq<Input>) -> bool {
    forall|i: int|
        0 <= i < inputs.len() ==> (#[trigger] inputs[i] matches Input::Value { words, .. }
            ==> same_words(words, words))
}

proof fn lemma_contributed_self_equal(inputs: Seq<Input>, readings: Seq<u64>)
    requires
        self_equal(inputs),
    ensures
        same_atoms(contributed(inputs, readings), contributed(inputs, readings)),
    decreases inputs.len(),
{
    if inputs.len() > 0 {
        let rest = inputs.drop_last();
        assert forall|i: int| 0 <= i < rest.len() implies (#[trigger] rest[i] matches Input::Value {
            words,
            ..
        } ==> same_words(words, words)) by {
            assert(rest[i] == inputs[i]);
        }
        lemma_contributed_self_equal(rest, readings);
        lemma_contributed_self_equal(rest, readings.drop_last());
        assert(inputs[inputs.len() - 1] == inputs.last());
        let all = contributed(inputs, readings);
        assert forall|i: int| 0 <= i < all.len() implies (#[trigger] all[i]).same(all[i]) by {
            if inputs.last() is Handle {
                let shorter = contributed(rest, readings.drop_last());
                if i < shorter.len() {
                    assert(shorter[i].same(shorter[i]));
                }
            } else {
                let shorter = contributed(rest, readings);
                if i < shorter.len() {
                    assert(shorter[i].same(shorter[i]));
                }
            }
        }
    }
}

proof fn lemma_readings_determined(inputs: Seq<Input>, first: Seq<u64>, second: Seq<u64>)
    requires
        first.len() == handles(inputs),
        second.len() == handles(inputs),
        same_atoms(contributed(inputs, first), contributed(inputs, second)),
    ensures
        first == second,
    decreases inputs.len(),
{
    if inputs.len() == 0 {
        assert(first =~= second);
    } else {
        let rest = inputs.drop_last();
        let x = contributed(inputs, first);
        let y = contributed(inputs, second);
        if inputs.last() is Handle {
            let rest_x = contributed(rest, first.drop_last());
            let rest_y = contributed(rest, second.drop_last());
            assert forall|i: int| 0 <= i < rest_x.len() implies (#[trigger] rest_x[i]).same(
                rest_y[i],
            ) by {
                assert(x[i].same(y[i]));
            }
            lemma_readings_determined(rest, first.drop_last(), second.drop_last());
            assert(x[x.len() - 1].same(y[y.len() - 1]));
            assert(first =~= first.drop_last().push(first.last()));
            assert(second =~= second.drop_last().push(second.last()));
        } else {
            let rest_x = contributed(rest, first);
            let rest_y = contributed(rest, second);
            assert forall|i: int| 0 <= i < rest_x.len() implies (#[trigger] rest_x[i]).same(
                rest_y[i],
            ) by {
                assert(x[i].same(y[i]));
            }
            lemma_readings_determined(rest, first, second);
        }
    }
}

proof fn lemma_stack_self_equal(stages: Seq<Stage>, readings: Seq<Seq<u64>>)
    requires
        forall|i: int| 0 <= i < stages.len() ==> self_equal((#[trigger] stages[i]).inputs),
    ensures
        same_atoms(stack_atoms(stages, readings), stack_atoms(stages, readings)),
    decreases stages.len(),
{
    if stages.len() > 0 {
        let rest = stages.drop_last();
        assert forall|i: int| 0 <= i < rest.len() implies self_equal(
            (#[trigger] rest[i]).inputs,
        ) by {
            assert(rest[i] == stages[i]);
        }
        lemma_stack_self_equal(rest, readings.drop_last());
        assert(self_equal(stages[stages.len() - 1].inputs));
        lemma_contributed_self_equal(stages.last().inputs, readings.last());
        let all = stack_atoms(stages, readings);
        let before = stack_atoms(rest, readings.drop_last());
        let middle = contributed(stages.last().inputs, readings.last());
        assert forall|i: int| 0 <= i < all.len() implies (#[trigger] all[i]).same(all[i]) by {
            if i < before.len() {
                assert(all[i] == before[i]);
                assert(before[i].same(before[i]));
            } else if before.len() < i < all.len() - 1 {
                let k = i - before.len() - 1;
                assert(all[i] == middle[k]);
                assert(middle[k].same(middle[k]));
            }
        }
    }
}

/// Recollecting a stable stack matches exactly when no shared handle has changed in
/// between. A value with a NaN is not equal to itself and so never matches.
pub proof fn recollection_matches_unchanged_inputs(
    stages: Seq<Stage>,
    recorded: Seq<Seq<u64>>,
    recollected: Seq<Seq<u64>>,
)
    requires
        stages.len() <= usize::MAX,
        readable(stages, recorded),
        readable(stages, recollected),
        !stack_declines(stages),
        forall|i: int| 0 <= i < stages.len() ==> self_equal((#[trigger] stages[i]).inputs),
    ensures
        collected(stages, recorded).matching(collected(stages, recollected)) <==> recorded
            == recollected,
{
    let x = collected(stages, recorded);
    let y = collected(stages, recollected);
    if recorded == recollected {
        lemma_stack_self_equal(stages, recorded);
        let rest = stack_atoms(stages, recorded);
        assert forall|i: int| 0 <= i < x.atoms.len() implies (#[trigger] x.atoms[i]).same(
            x.atoms[i],
        ) by {
            if i > 0 {
                assert(x.atoms[i] == rest[i - 1]);
                assert(rest[i - 1].same(rest[i - 1]));
            }
        }
    }
    if x.matching(y) {
        evidence_determines_the_stack(stages, recorded, stages, recollected);
        assert forall|i: int| 0 <= i < stages.len() implies #[trigger] recorded[i]
            == recollected[i] by {
            assert(same_stage(stages[i], recorded[i], stages[i], recollected[i]));
            lemma_readings_determined(stages[i].inputs, recorded[i], recollected[i]);
        }
        assert(recorded =~= recollected);
    }
}

/// One volatile stage makes the evidence of the whole stack match nothing.
pub proof fn volatile_stages_decline_the_stack(
    stages: Seq<Stage>,
    readings: Seq<Seq<u64>>,
    volatile: int,
    other: Evidence,
)
    requires
        0 <= volatile < stages.len(),
        declines(stages[volatile].inputs),
    ensures
        !collected(stages, readings).matching(other),
        !other.matching(collected(stages, readings)),
{
}

/// Each input leaves one record, in order: a value as it is, an explicit revision as it is, and
/// a shared handle as its identity with what was read of it.
pub proof fn every_input_is_recorded(inputs: Seq<Input>, readings: Seq<u64>, i: int)
    requires
        forall|j: int| 0 <= j < inputs.len() ==> !(#[trigger] inputs[j] is Volatile),
        readings.len() == handles(inputs),
        0 <= i < inputs.len(),
    ensures
        contributed(inputs, readings).len() == inputs.len(),
        match inputs[i] {
            Input::Value { type_id, words } => contributed(inputs, readings)[i] == (Atom::Value {
                type_id,
                words,
            }),
            Input::Revision { identity, generation } => contributed(inputs, readings)[i] == (
            Atom::Revision { identity, generation }),
            Input::Handle { handle } => handles(inputs.take(i)) < readings.len() && contributed(
                inputs,
                readings,
            )[i] == (Atom::Revision {
                identity: handle.id(),
                generation: readings[handles(inputs.take(i)) as int],
            }),
            Input::Volatile => false,
        },
    decreases inputs.len(),
{
    let rest = inputs.drop_last();
    let shorter = if inputs.last() is Handle {
        readings.drop_last()
    } else {
        readings
    };
    assert(inputs[inputs.len() - 1] == inputs.last());
    assert forall|j: int| 0 <= j < rest.len() implies !(#[trigger] rest[j] is Volatile) by {
        assert(rest[j] == inputs[j]);
    }
    if i < rest.len() {
        every_input_is_recorded(rest, shorter, i);
        assert(rest.take(i) =~= inputs.take(i));
    } else {
        assert(inputs.take(i) =~= rest);
        if rest.len() > 0 {
            every_input_is_recorded(rest, shorter, 0);
        } else {
            assert(contributed(rest, shorter).len() == 0);
            assert(handles(rest) == 0);
        }
    }
    assert(contributed(rest, shorter).len() == rest.len());
}

/// A declaration that the evidence is incomplete leaves no record, but makes the evidence of
/// its stack volatile. Nothing else does.
pub proof fn incomplete_inputs_make_evidence_volatile(
    stages: Seq<Stage>,
    readings: Seq<Seq<u64>>,
)
    ensures
        collected(stages, readings).volatile <==> exists|i: int, j: int|
            #![trigger stages[i].inputs[j]]
            0 <= i < stages.len() && 0 <= j < stages[i].inputs.len() && stages[i].inputs[j]
                is Volatile,
{
    if stack_declines(stages) {
        let i = choose|i: int| 0 <= i < stages.len() && declines((#[trigger] stages[i]).inputs);
        let j = choose|j: int|
            0 <= j < stages[i].inputs.len() && #[trigger] stages[i].inputs[j] is Volatile;
        assert(stages[i].inputs[j] is Volatile);
    }
    if exists|i: int, j: int|
        #![trigger stages[i].inputs[j]]
        0 <= i < stages.len() && 0 <= j < stages[i].inputs.len() && stages[i].inputs[j]
            is Volatile {
        let (i, j) = choose|i: int, j: int|
            #![trigger stages[i].inputs[j]]
            0 <= i < stages.len() && 0 <= j < stages[i].inputs.len() && stages[i].inputs[j]
                is Volatile;
        assert(declines(stages[i].inputs));
    }
}

/// The records of a stack start with how many stages it has, and every stage adds what it
/// declares, its inputs and an end, behind those of the stages before it.
pub proof fn stages_are_recorded_one_after_another(
    stages: Seq<Stage>,
    readings: Seq<Seq<u64>>,
    stage: Stage,
    read: Seq<u64>,
)
    requires
        stages.len() < usize::MAX,
        readings.len() == stages.len(),
    ensures
        ({
            let before = collected(stages, readings).atoms;
            let after = collected(stages.push(stage), readings.push(read)).atoms;
            let inputs = contributed(stage.inputs, read);
            &&& before[0] == (Atom::Stack { schema: 1, stages: stages.len() as usize })
            &&& after.len() == before.len() + inputs.len() + 2
            &&& after.subrange(1, before.len() as int) == before.skip(1)
            &&& after[before.len() as int] matches Atom::Stage {
                index,
                effect_type,
                requirements,
                expansion,
                translation_invariant,
            } && index == stages.len() && effect_type == stage.effect_type && requirements
                == stage.summary() && expansion == stage.recorded_expansion()
                && translation_invariant == stage.translation_invariant
            &&& after.subrange(before.len() as int + 1, after.len() - 1) == inputs
            &&& after.last() == (Atom::EndStage { index: stages.len() as usize })
        }),
{
    let before = collected(stages, readings).atoms;
    let after = collected(stages.push(stage), readings.push(read)).atoms;
    let inputs = contributed(stage.inputs, read);
    assert(stages.push(stage).drop_last() =~= stages);
    assert(readings.push(read).drop_last() =~= readings);
    assert(after.skip(1) =~= before.skip(1) + stage_atoms(stages.len() as int, stage, read));
    assert(after.subrange(1, before.len() as int) =~= before.skip(1));
    assert(after.subrange(before.len() as int + 1, after.len() - 1) =~= inputs);
}

/// A stack sums up its stages: adding one adds its passes, may bring in the backdrop, and keeps
/// full overwriting, translation invariance and stable inputs only if it has them too.
pub proof fn stacks_sum_up_their_stages(stages: Seq<Stage>, stage: Stage)
    ensures
        total_passes(stages.push(stage)) == total_passes(stages) + stage.passes.len(),
        total_passes(Seq::<Stage>::empty()) == 0,
        stack_reads_backdrop(stages.push(stage)) <==> stack_reads_backdrop(stages) || exists|i: int|
            0 <= i < stage.passes.len() && (#[trigger] stage.passes[i]).reads_backdrop(),
        !stack_reads_backdrop(Seq::<Stage>::empty()),
        stack_overwrites(stages.push(stage)) <==> (stages.len() == 0 || stack_overwrites(stages))
            && stage.passes.len() > 0 && forall|i: int|
            0 <= i < stage.passes.len() ==> (#[trigger] stage.passes[i]).overwrites(),
        !stack_overwrites(Seq::<Stage>::empty()),
        stack_translation_invariant(stages.push(stage)) <==> stack_translation_invariant(stages)
            && stage.translation_invariant,
        stack_translation_invariant(Seq::<Stage>::empty()),
        stack_declines(stages.push(stage)) <==> stack_declines(stages) || exists|i: int|
            0 <= i < stage.inputs.len() && #[trigger] stage.inputs[i] is Volatile,
        !stack_declines(Seq::<Stage>::empty()),
{
    let longer = stages.push(stage);
    let last = stages.len() as int;
    assert(longer.drop_last() =~= stages);
    assert(longer.take(last) =~= stages);
    assert(longer.take(last + 1) =~= longer);
    assert(longer[last] == stage);
    lemma_next_stage_backdrop(longer, last);
    lemma_next_declines(longer, last);
    if stack_overwrites(longer) {
        assert forall|i: int| 0 <= i < stages.len() implies all_overwrite(
            (#[trigger] stages[i]).passes,
        ) by {
            assert(longer[i] == stages[i]);
        }
        assert(all_overwrite(longer[last].passes));
    }
    if (stages.len() == 0 || stack_overwrites(stages)) && all_overwrite(stage.passes) {
        assert forall|i: int| 0 <= i < longer.len() implies all_overwrite(
            (#[trigger] longer[i]).passes,
        ) by {
            if i < last {
                assert(longer[i] == stages[i]);
            }
        }
    }
    if stack_translation_invariant(longer) {
        assert forall|i: int| 0 <= i < stages.len() implies (
        #[trigger] stages[i]).translation_invariant by {
            assert(longer[i] == stages[i]);
        }
        assert(longer[last].translation_invariant);
    }
}

/// What a stage declares for all of its passes together: their number, whether any reads the
/// backdrop, and whether there are passes and each writes every pixel.
pub proof fn summaries_follow_their_passes(stage: Stage, requirements: Requirements)
    requires
        stage.sums_to(requirements),
    ensures
        requirements.count() == stage.passes.len(),
        requirements.reads_backdrop() <==> exists|i: int|
            0 <= i < stage.passes.len() && (#[trigger] stage.passes[i]).reads_backdrop(),
        requirements.overwrites() <==> stage.passes.len() > 0 && forall|i: int|
            0 <= i < stage.passes.len() ==> (#[trigger] stage.passes[i]).overwrites(),
        stage.summary() == requirements,
{
    stage.summary_is_unique(requirements);
}

/// A stack gives its expansion only if every stage declares a finite one that is not below zero
/// on any side, and what it gives is such an expansion too.
pub proof fn expansions_are_sound<F: Fn(&Vec<ExpansionBits>) -> ExpansionBits>(
    stack: EffectStack,
    total: F,
    expansion: Option<ExpansionBits>,
    i: int,
)
    requires
        stack.expands(total, expansion),
        0 <= i < stack@.len(),
    ensures
        expansion matches Some(sides) ==> {
            &&& stack@[i].expansion.top % 0x8000_0000 == 0 || stack@[i].expansion.top < 0x7f80_0000
            &&& stack@[i].expansion.right % 0x8000_0000 == 0 || stack@[i].expansion.right
                < 0x7f80_0000
            &&& stack@[i].expansion.bottom % 0x8000_0000 == 0 || stack@[i].expansion.bottom
                < 0x7f80_0000
            &&& stack@[i].expansion.left % 0x8000_0000 == 0 || stack@[i].expansion.left
                < 0x7f80_0000
            &&& sides.top < 0x7f80_0000
            &&& sides.right < 0x7f80_0000
            &&& sides.bottom < 0x7f80_0000
            &&& sides.left < 0x7f80_0000
        },
{
    if expansion is Some {
        assert(stack@[i].expansion.valid());
    }
}

/// What is recorded of an expansion stands for the expansion that was declared, side by side.
pub proof fn recorded_expansions_keep_their_sides(stage: Stage)
    ensures
        ({
            let (kept, declared) = (stage.recorded_expansion(), stage.expansion);
            &&& kept.top == declared.top || (kept.top == 0 && declared.top == 0x8000_0000)
            &&& kept.right == declared.right || (kept.right == 0 && declared.right == 0x8000_0000)
            &&& kept.bottom == declared.bottom || (kept.bottom == 0 && declared.bottom
                == 0x8000_0000)
            &&& kept.left == declared.left || (kept.left == 0 && declared.left == 0x8000_0000)
            &&& declared.valid() ==> kept.top != 0x8000_0000 && kept.right != 0x8000_0000
                && kept.bottom != 0x8000_0000 && kept.left != 0x8000_0000
        }),
{
}

/// Contributing adds to what was recorded and takes nothing back: evidence that declined reuse
/// still does, and a declining input makes it do so.
pub proof fn contributions_only_add(
    inputs: Seq<Input>,
    readings: Seq<u64>,
    before: Evidence,
    after: Evidence,
    i: int,
)
    requires
        contributes(inputs, readings, before, after),
    ensures
        0 <= i < before.atoms.len() ==> i < after.atoms.len() && after.atoms[i] == before.atoms[i],
        before.volatile ==> after.volatile,
        0 <= i < inputs.len() && inputs[i] is Volatile ==> after.volatile,
        (forall|j: int| 0 <= j < inputs.len() ==> !(#[trigger] inputs[j] is Volatile))
            ==> after.volatile == before.volatile && after.atoms.len() == before.atoms.len()
            + inputs.len(),
{
    if 0 <= i < inputs.len() && inputs[i] is Volatile {
        assert(declines(inputs));
    }
    if forall|j: int| 0 <= j < inputs.len() ==> !(#[trigger] inputs[j] is Volatile) {
        if inputs.len() > 0 {
            every_input_is_recorded(inputs, readings, 0);
        } else {
            assert(contributed(inputs, readings).len() == 0);
        }
    }
}

/// Each shared handle among the inputs was read once, and its reading stands in its place.
pub proof fn every_handle_is_read(inputs: Seq<Input>, readings: Seq<u64>, i: int)
    requires
        gave(inputs, readings),
        0 <= i < inputs.len(),
    ensures
        readings.len() == handles(inputs),
        inputs[i] matches Input::Handle { handle } ==> handles(inputs.take(i)) < readings.len()
            && handle.has_read(readings[handles(inputs.take(i)) as int]),
    decreases inputs.len(),
{
    let rest = inputs.drop_last();
    let shorter = if inputs.last() is Handle {
        readings.drop_last()
    } else {
        readings
    };
    if i < rest.len() {
        every_handle_is_read(rest, shorter, i);
        assert(rest.take(i) =~= inputs.take(i));
    } else {
        assert(inputs.take(i) =~= rest);
        if rest.len() > 0 {
            every_handle_is_read(rest, shorter, 0);
        } else {
            assert(gave(rest, shorter));
            assert(handles(rest) == 0 && shorter.len() == 0);
        }
    }
    assert(shorter.len() == handles(rest));
}

/// Two bit patterns that are the same but for the sign of zero.
pub open spec fn same_side(kept: u32, declared: u32) -> bool {
    kept == declared || (kept == 0 && declared == 0x8000_0000)
}

/// The space that a stack needs is the total of what its stages declare, each of them once and in
/// order, side by side.
pub proof fn every_stage_adds_its_expansion<F: Fn(&Vec<ExpansionBits>) -> ExpansionBits>(
    stack: EffectStack,
    total: F,
    sides: ExpansionBits,
)
    requires
        stack.expands(total, Some(sides)),
    ensures
        exists|expansions: Vec<ExpansionBits>, sum: ExpansionBits|
            {
                &&& #[trigger] call_ensures(total, (&expansions,), sum)
                &&& expansions@.len() == stack@.len()
                &&& forall|i: int|
                    0 <= i < stack@.len() ==> same_side(
                        (#[trigger] expansions@[i]).top,
                        stack@[i].expansion.top,
                    ) && same_side(expansions@[i].right, stack@[i].expansion.right) && same_side(
                        expansions@[i].bottom,
                        stack@[i].expansion.bottom,
                    ) && same_side(expansions@[i].left, stack@[i].expansion.left)
                &&& same_side(sides.top, sum.top) && same_side(sides.right, sum.right)
                &&& same_side(sides.bottom, sum.bottom) && same_side(sides.left, sum.left)
            },
{
    let (expansions, sum) = choose|expansions: Vec<ExpansionBits>, sum: ExpansionBits| #[trigger]
        call_ensures(total, (&expansions,), sum) && expansions@ == stack@.map_values(
            |stage: Stage| stage.expansion.canonical(),
        ) && Some(sides) == (if sum.valid() {
            Some(sum.canonical())
        } else {
            None
        });
    lemma_canonical_sides(sum);
    assert forall|i: int| 0 <= i < stack@.len() implies same_side(
        (#[trigger] expansions@[i]).top,
        stack@[i].expansion.top,
    ) && same_side(expansions@[i].right, stack@[i].expansion.right) && same_side(
        expansions@[i].bottom,
        stack@[i].expansion.bottom,
    ) && same_side(expansions@[i].left, stack@[i].expansion.left) by {
        lemma_canonical_sides(stack@[i].expansion);
    }
}

proof fn lemma_canonical_sides(expansion: ExpansionBits)
    ensures
        same_side(expansion.canonical().top, expansion.top),
        same_side(expansion.canonical().right, expansion.right),
        same_side(expansion.canonical().bottom, expansion.bottom),
        same_side(expansion.canonical().left, expansion.left),
{
    crate::float_bits::canonical_bits_keep_the_number(expansion.top);
    crate::float_bits::canonical_bits_keep_the_number(expansion.right);
    crate::float_bits::canonical_bits_keep_the_number(expansion.bottom);
    crate::float_bits::canonical_bits_keep_the_number(expansion.left);
}

/// A stack of sound expansions whose totals are sound has one.
pub proof fn sound_stacks_expand<F: Fn(&Vec<ExpansionBits>) -> ExpansionBits>(
    stack: EffectStack,
    total: F,
    expansion: Option<ExpansionBits>,
)
    requires
        stack.expands(total, expansion),
        forall|i: int|
            0 <= i < stack@.len() ==> (#[trigger] stack@[i]).expansion.top < 0x7f80_0000
                && stack@[i].expansion.right < 0x7f80_0000 && stack@[i].expansion.bottom
                < 0x7f80_0000 && stack@[i].expansion.left < 0x7f80_0000,
        forall|expansions: &Vec<ExpansionBits>, sum: ExpansionBits| #[trigger]
            call_ensures(total, (expansions,), sum) ==> sum.top < 0x7f80_0000 && sum.right
                < 0x7f80_0000 && sum.bottom < 0x7f80_0000 && sum.left < 0x7f80_0000,
    ensures
        expansion is Some,
{
    assert forall|i: int| 0 <= i < stack@.len() implies (#[trigger] stack@[i]).expansion.valid() by {
        let declared = stack@[i].expansion;
        crate::float_bits::valid_sides_are_finite_and_not_negative(declared.top);
        crate::float_bits::valid_sides_are_finite_and_not_negative(declared.right);
        crate::float_bits::valid_sides_are_finite_and_not_negative(declared.bottom);
        crate::float_bits::valid_sides_are_finite_and_not_negative(declared.left);
    }
    let (expansions, sum) = choose|expansions: Vec<ExpansionBits>, sum: ExpansionBits| #[trigger]
        call_ensures(total, (&expansions,), sum) && expansions@ == stack@.map_values(
            |stage: Stage| stage.expansion.canonical(),
        ) && expansion == (if sum.valid() {
            Some(sum.canonical())
        } else {
            None
        });
    crate::float_bits::valid_sides_are_finite_and_not_negative(sum.top);
    crate::float_bits::valid_sides_are_finite_and_not_negative(sum.right);
    crate::float_bits::valid_sides_are_finite_and_not_negative(sum.bottom);
    crate::float_bits::valid_sides_are_finite_and_not_negative(sum.left);
}

/// The shared handles of every stage are read, each in its place.
pub proof fn every_stage_is_read(stages: Seq<Stage>, readings: Seq<Seq<u64>>, i: int, j: int)
    requires
        stages_gave(stages, readings),
        0 <= i < stages.len(),
        0 <= j < stages[i].inputs.len(),
    ensures
        readings.len() == stages.len(),
        stages[i].inputs[j] matches Input::Handle { handle } ==> handle.has_read(
            readings[i][handles(stages[i].inputs.take(j)) as int],
        ),
{
    assert(gave(stages[i].inputs, readings[i]));
    every_handle_is_read(stages[i].inputs, readings[i], j);
}

} // verus!
