//! Exact, comparable snapshots of effect inputs.

use crate::content::ContentChangeHandle;
use crate::float_bits::{
    equal_numbers, equal_wide_numbers, numerically_equal, numerically_equal_wide, ExpansionBits,
};
use std::sync::Arc;
use vstd::prelude::*;

verus! {

/// Declared resource requirements of an isolated-layer effect, or of one of its passes.
#[derive(Debug, Clone, Copy, PartialEq, Eq, Hash, Structural)]
pub struct Requirements {
    passes: usize,
    backdrop: bool,
    writes_every_pixel: bool,
}

impl Requirements {
    /// The declared number of passes.
    pub closed spec fn count(self) -> usize {
        self.passes
    }

    /// Whether a parent-prefix snapshot is required.
    pub closed spec fn reads_backdrop(self) -> bool {
        self.backdrop
    }

    /// Whether every output is fully initialized by its pass.
    pub closed spec fn overwrites(self) -> bool {
        self.writes_every_pixel
    }

    /// Requirements are nothing but these three facts.
    pub proof fn facts_determine(self, other: Self)
        requires
            self.count() == other.count(),
            self.reads_backdrop() == other.reads_backdrop(),
            self.overwrites() == other.overwrites(),
        ensures
            self == other,
    {
    }

    /// Creates backdrop-free requirements for an ordered number of passes.
    ///
    /// The pass count is not clamped.
    pub fn passes(passes: usize) -> (requirements: Self)
        ensures
            requirements.count() == passes,
            !requirements.reads_backdrop(),
            !requirements.overwrites(),
    {
        Requirements { passes, backdrop: false, writes_every_pixel: false }
    }

    /// Creates backdrop-free requirements for one pass.
    pub fn new() -> (requirements: Self)
        ensures
            requirements.count() == 1,
            !requirements.reads_backdrop(),
            !requirements.overwrites(),
    {
        Requirements::passes(1)
    }

    /// Declares a parent-prefix backdrop input.
    pub fn with_backdrop(self) -> (requirements: Self)
        ensures
            requirements.count() == self.count(),
            requirements.reads_backdrop(),
            requirements.overwrites() == self.overwrites(),
    {
        Requirements { backdrop: true, ..self }
    }

    /// Declares that every output pixel is initialized.
    pub fn writes_every_pixel(self) -> (requirements: Self)
        ensures
            requirements.count() == self.count(),
            requirements.reads_backdrop() == self.reads_backdrop(),
            requirements.overwrites(),
    {
        Requirements { writes_every_pixel: true, ..self }
    }

    /// Returns the declared pass count.
    pub fn pass_count(self) -> (count: usize)
        ensures
            count == self.count(),
    {
        self.passes
    }

    /// Returns whether a parent-prefix snapshot is required.
    pub fn needs_backdrop(self) -> (needs: bool)
        ensures
            needs == self.reads_backdrop(),
    {
        self.backdrop
    }

    /// Returns whether every output is fully initialized by its pass.
    pub fn fully_overwrites(self) -> (overwrites: bool)
        ensures
            overwrites == self.overwrites(),
    {
        self.writes_every_pixel
    }
}

/// One plain component of a recorded value.
#[derive(Debug, Clone, Copy, PartialEq, Eq, Structural)]
pub enum InputWord {
    /// Compared exactly.
    Integer(u64),
    /// The bits of a single-precision number, compared numerically.
    Float(u32),
    /// The bits of a double-precision number, compared numerically.
    Double(u64),
}

impl InputWord {
    /// Whether two components are equal as the values they stand for.
    pub open spec fn same(self, other: Self) -> bool {
        match (self, other) {
            (InputWord::Integer(a), InputWord::Integer(b)) => a == b,
            (InputWord::Float(a), InputWord::Float(b)) => numerically_equal(a, b),
            (InputWord::Double(a), InputWord::Double(b)) => numerically_equal_wide(a, b),
            _ => false,
        }
    }

    fn is_same(self, other: Self) -> (same: bool)
        ensures
            same == self.same(other),
    {
        match (self, other) {
            (InputWord::Integer(a), InputWord::Integer(b)) => a == b,
            (InputWord::Float(a), InputWord::Float(b)) => equal_numbers(a, b),
            (InputWord::Double(a), InputWord::Double(b)) => equal_wide_numbers(a, b),
            _ => false,
        }
    }
}

/// A recorded value: a number for its type, and its components.
#[derive(Debug)]
pub struct InputValue {
    pub type_id: u64,
    pub words: Vec<InputWord>,
}

impl InputValue {
    /// Creates a value of the given type from its components.
    pub fn new(type_id: u64, words: Vec<InputWord>) -> (value: Self)
        ensures
            value.type_id == type_id,
            value.words@ == words@,
    {
        InputValue { type_id, words }
    }
}

impl Clone for InputValue {
    fn clone(&self) -> (value: Self)
        ensures
            value.type_id == self.type_id,
            value.words@ == self.words@,
    {
        let words = self.words.clone();
        assert(words@ =~= self.words@);
        InputValue { type_id: self.type_id, words }
    }
}

/// One recorded input.
#[derive(Debug)]
pub enum InputAtom {
    /// A value that an effect contributed.
    Value(InputValue),
    /// A resource identity and its generation.
    Revision { identity: u64, generation: u64 },
    /// The start of a stack.
    Stack { schema: u32, stages: usize },
    /// The start of a stage, with everything that it declares.
    Stage {
        index: usize,
        effect_type: u64,
        requirements: Requirements,
        expansion: ExpansionBits,
        translation_invariant: bool,
    },
    /// The end of a stage.
    EndStage { index: usize },
}

/// What an [`InputAtom`] holds.
pub ghost enum Atom {
    Value { type_id: u64, words: Seq<InputWord> },
    Revision { identity: u64, generation: u64 },
    Stack { schema: u32, stages: usize },
    Stage {
        index: usize,
        effect_type: u64,
        requirements: Requirements,
        expansion: ExpansionBits,
        translation_invariant: bool,
    },
    EndStage { index: usize },
}

impl View for InputAtom {
    type V = Atom;

    open spec fn view(&self) -> Atom {
        match *self {
            InputAtom::Value(value) => Atom::Value {
                type_id: value.type_id,
                words: value.words@,
            },
            InputAtom::Revision { identity, generation } => Atom::Revision { identity, generation },
            InputAtom::Stack { schema, stages } => Atom::Stack { schema, stages },
            InputAtom::Stage {
                index,
                effect_type,
                requirements,
                expansion,
                translation_invariant,
            } => Atom::Stage {
                index,
                effect_type,
                requirements,
                expansion,
                translation_invariant,
            },
            InputAtom::EndStage { index } => Atom::EndStage { index },
        }
    }
}

/// Components that are equal one by one.
pub open spec fn same_words(a: Seq<InputWord>, b: Seq<InputWord>) -> bool {
    a.len() == b.len() && forall|i: int| 0 <= i < a.len() ==> (#[trigger] a[i]).same(b[i])
}

impl Atom {
    /// Whether two inputs are of the same kind and equal as the values they stand for.
    pub open spec fn same(self, other: Self) -> bool {
        match (self, other) {
            (
                Atom::Value { type_id: a, words: v },
                Atom::Value { type_id: b, words: w },
            ) => a == b && same_words(v, w),
            (Atom::Value { .. }, _) => false,
            (_, Atom::Value { .. }) => false,
            (a, b) => a == b,
        }
    }
}

/// Inputs that are equal one by one.
pub open spec fn same_atoms(a: Seq<Atom>, b: Seq<Atom>) -> bool {
    a.len() == b.len() && forall|i: int| 0 <= i < a.len() ==> (#[trigger] a[i]).same(b[i])
}

fn equal_words(a: &Vec<InputWord>, b: &Vec<InputWord>) -> (equal: bool)
    ensures
        equal == same_words(a@, b@),
{
    if a.len() != b.len() {
        return false;
    }
    let mut index: usize = 0;
    while index < a.len()
        invariant
            index <= a@.len(),
            a@.len() == b@.len(),
            forall|i: int| 0 <= i < index ==> (#[trigger] a@[i]).same(b@[i]),
        decreases a@.len() - index,
    {
        if !a[index].is_same(b[index]) {
            assert(!a@[index as int].same(b@[index as int]));
            return false;
        }
        index = index + 1;
    }
    true
}

impl InputAtom {
    fn is_same(&self, other: &Self) -> (same: bool)
        ensures
            same == self@.same(other@),
    {
        match (self, other) {
            (InputAtom::Value(a), InputAtom::Value(b)) => a.type_id == b.type_id && equal_words(
                &a.words,
                &b.words,
            ),
            (
                InputAtom::Revision { identity: a, generation: v },
                InputAtom::Revision { identity: b, generation: w },
            ) => *a == *b && *v == *w,
            (
                InputAtom::Stack { schema: a, stages: v },
                InputAtom::Stack { schema: b, stages: w },
            ) => *a == *b && *v == *w,
            (
                InputAtom::Stage {
                    index: a,
                    effect_type: b,
                    requirements: c,
                    expansion: d,
                    translation_invariant: e,
                },
                InputAtom::Stage {
                    index: v,
                    effect_type: w,
                    requirements: x,
                    expansion: y,
                    translation_invariant: z,
                },
            ) => *a == *v && *b == *w && *c == *x && *d == *y && *e == *z,
            (InputAtom::EndStage { index: a }, InputAtom::EndStage { index: b }) => *a == *b,
            _ => false,
        }
    }
}

fn equal_atoms(a: &Vec<InputAtom>, b: &Vec<InputAtom>) -> (equal: bool)
    ensures
        equal == same_atoms(atoms_of(a@), atoms_of(b@)),
{
    if a.len() != b.len() {
        return false;
    }
    let mut index: usize = 0;
    while index < a.len()
        invariant
            index <= a@.len(),
            a@.len() == b@.len(),
            forall|i: int|
                0 <= i < index ==> (#[trigger] atoms_of(a@)[i]).same(atoms_of(b@)[i]),
        decreases a@.len() - index,
    {
        if !a[index].is_same(&b[index]) {
            assert(!atoms_of(a@)[index as int].same(atoms_of(b@)[index as int]));
            return false;
        }
        index = index + 1;
    }
    true
}

/// What a list of recorded inputs holds.
pub open spec fn atoms_of(atoms: Seq<InputAtom>) -> Seq<Atom> {
    atoms.map_values(|atom: InputAtom| atom@)
}

/// The inputs of an effect stack, and whether any stage declined retained-output reuse.
#[verifier::ext_equal]
pub ghost struct Evidence {
    pub atoms: Seq<Atom>,
    pub volatile: bool,
}

impl Evidence {
    /// Equal inputs and equal volatility.
    pub open spec fn same(self, other: Self) -> bool {
        self.volatile == other.volatile && same_atoms(self.atoms, other.atoms)
    }

    /// Whether both snapshots are stable and equal.
    pub open spec fn matching(self, other: Self) -> bool {
        !self.volatile && !other.volatile && same_atoms(self.atoms, other.atoms)
    }
}

/// Volatile evidence matches nothing, not even itself.
pub proof fn volatile_evidence_matches_nothing(volatile: Evidence, other: Evidence)
    requires
        volatile.volatile,
    ensures
        !volatile.matching(other),
        !other.matching(volatile),
        !volatile.matching(volatile),
{
}

/// Matching does not depend on which snapshot is asked.
pub proof fn matching_is_symmetric(a: Evidence, b: Evidence)
    ensures
        a.matching(b) == b.matching(a),
{
    if same_atoms(a.atoms, b.atoms) {
        lemma_same_atoms_symmetric(a.atoms, b.atoms);
    }
    if same_atoms(b.atoms, a.atoms) {
        lemma_same_atoms_symmetric(b.atoms, a.atoms);
    }
}

proof fn lemma_same_atoms_symmetric(a: Seq<Atom>, b: Seq<Atom>)
    requires
        same_atoms(a, b),
    ensures
        same_atoms(b, a),
{
    assert forall|i: int| 0 <= i < b.len() implies (#[trigger] b[i]).same(a[i]) by {
        assert(a[i].same(b[i]));
        if let (Atom::Value { words: v, .. }, Atom::Value { words: w, .. }) = (a[i], b[i]) {
            assert forall|j: int| 0 <= j < w.len() implies (#[trigger] w[j]).same(v[j]) by {
                assert(v[j].same(w[j]));
            }
        }
    }
}

/// Records retained, directly comparable snapshots of effect inputs.
#[derive(Debug)]
pub struct LayerInputRecords {
    atoms: Vec<InputAtom>,
    volatile: bool,
}

impl View for LayerInputRecords {
    type V = Evidence;

    closed spec fn view(&self) -> Evidence {
        Evidence { atoms: atoms_of(self.atoms@), volatile: self.volatile }
    }
}

impl LayerInputRecords {
    /// Creates an empty input record.
    pub fn new() -> (records: Self)
        ensures
            records@ == (Evidence { atoms: Seq::empty(), volatile: false }),
    {
        let records = LayerInputRecords { atoms: Vec::new(), volatile: false };
        assert(records@.atoms =~= Seq::<Atom>::empty());
        records
    }

    fn push(&mut self, atom: InputAtom)
        ensures
            final(self)@ == (Evidence {
                atoms: old(self)@.atoms.push(atom@),
                volatile: old(self)@.volatile,
            }),
    {
        self.atoms.push(atom);
        assert(self@.atoms =~= old(self)@.atoms.push(atom@));
    }

    /// Records an owned clone of a borrowed value.
    pub fn record(&mut self, value: &InputValue)
        ensures
            final(self)@ == (Evidence {
                atoms: old(self)@.atoms.push(
                    Atom::Value { type_id: value.type_id, words: value.words@ },
                ),
                volatile: old(self)@.volatile,
            }),
    {
        self.push(InputAtom::Value(value.clone()));
    }

    /// Records an explicit stable resource identity and monotonic generation.
    pub fn record_revision(&mut self, identity: u64, generation: u64)
        ensures
            final(self)@ == (Evidence {
                atoms: old(self)@.atoms.push(Atom::Revision { identity, generation }),
                volatile: old(self)@.volatile,
            }),
    {
        self.push(InputAtom::Revision { identity, generation });
    }

    /// Records the current revision of a shared content-change handle.
    pub fn depend_on(&mut self, dependency: &ContentChangeHandle)
        ensures
            exists|generation: u64| #[trigger]
                dependency.has_read(generation) && final(self)@ == (Evidence {
                    atoms: old(self)@.atoms.push(
                        Atom::Revision { identity: dependency.id(), generation },
                    ),
                    volatile: old(self)@.volatile,
                }),
    {
        let generation: u64 = dependency.generation();
        self.record_revision(dependency.identity(), generation);
    }

    /// Declares that this effect cannot provide stable, complete input evidence.
    ///
    /// One volatile stage makes output-cache lookup and storage ineligible for the
    /// complete stack.
    pub fn mark_volatile(&mut self)
        ensures
            final(self)@ == (Evidence { atoms: old(self)@.atoms, volatile: true }),
    {
        self.volatile = true;
    }

    /// Finishes input recording.
    pub fn finish(self) -> (evidence: LayerInputEvidence)
        ensures
            evidence@ == self@,
    {
        LayerInputEvidence { atoms: Arc::new(self.atoms), volatile: self.volatile }
    }

    /// Records the start of a stack.
    pub fn record_stack(&mut self, schema: u32, stages: usize)
        ensures
            final(self)@ == (Evidence {
                atoms: old(self)@.atoms.push(Atom::Stack { schema, stages }),
                volatile: old(self)@.volatile,
            }),
    {
        self.push(InputAtom::Stack { schema, stages });
    }

    /// Records the start of a stage with everything that it declares.
    pub fn record_stage(
        &mut self,
        index: usize,
        effect_type: u64,
        requirements: Requirements,
        expansion: ExpansionBits,
        translation_invariant: bool,
    )
        ensures
            final(self)@ == (Evidence {
                atoms: old(self)@.atoms.push(
                    Atom::Stage {
                        index,
                        effect_type,
                        requirements,
                        expansion,
                        translation_invariant,
                    },
                ),
                volatile: old(self)@.volatile,
            }),
    {
        self.push(
            InputAtom::Stage {
                index,
                effect_type,
                requirements,
                expansion,
                translation_invariant,
            },
        );
    }

    /// Records the end of a stage.
    pub fn record_stage_end(&mut self, index: usize)
        ensures
            final(self)@ == (Evidence {
                atoms: old(self)@.atoms.push(Atom::EndStage { index }),
                volatile: old(self)@.volatile,
            }),
    {
        self.push(InputAtom::EndStage { index });
    }
}

/// An exact, cloneable snapshot of an effect stack's inputs and structure.
#[derive(Debug)]
pub struct LayerInputEvidence {
    atoms: Arc<Vec<InputAtom>>,
    volatile: bool,
}

impl View for LayerInputEvidence {
    type V = Evidence;

    closed spec fn view(&self) -> Evidence {
        Evidence { atoms: atoms_of((*self.atoms)@), volatile: self.volatile }
    }
}

impl LayerInputEvidence {
    /// Returns whether any stage explicitly declined retained-output reuse.
    pub fn is_volatile(&self) -> (volatile: bool)
        ensures
            volatile == self@.volatile,
    {
        self.volatile
    }

    /// Returns whether both snapshots are stable and exactly equal.
    ///
    /// Volatile evidence deliberately never matches, including itself.
    pub fn matches(&self, other: &Self) -> (matches: bool)
        ensures
            matches == self@.matching(other@),
    {
        !self.volatile && !other.volatile && equal_atoms(&*self.atoms, &*other.atoms)
    }
}

impl Clone for LayerInputEvidence {
    fn clone(&self) -> (evidence: Self)
        ensures
            evidence@ == self@,
    {
        LayerInputEvidence { atoms: self.atoms.clone(), volatile: self.volatile }
    }
}

impl PartialEq for LayerInputEvidence {
    fn eq(&self, other: &Self) -> (equal: bool) {
        self.volatile == other.volatile && equal_atoms(&*self.atoms, &*other.atoms)
    }
}

impl vstd::std_specs::cmp::PartialEqSpecImpl for LayerInputEvidence {
    open spec fn obeys_eq_spec() -> bool {
        true
    }

    open spec fn eq_spec(&self, other: &Self) -> bool {
        self@.same(other@)
    }
}

/// Recorded components are equal as the values that they stand for: integers as they are,
/// numbers by their value, so that zeroes of either sign are equal and what is no number equals
/// nothing. Components of different kinds are never equal.
pub proof fn components_compare_by_value(a: InputWord, b: InputWord)
    ensures
        match (a, b) {
            (InputWord::Integer(x), InputWord::Integer(y)) => a.same(b) <==> x == y,
            (InputWord::Float(x), InputWord::Float(y)) => a.same(b) <==> x % 0x8000_0000
                <= 0x7f80_0000 && y % 0x8000_0000 <= 0x7f80_0000 && (x == y || (x % 0x8000_0000
                == 0 && y % 0x8000_0000 == 0)),
            (InputWord::Double(x), InputWord::Double(y)) => a.same(b) <==> x % 0x8000_0000_0000_0000
                <= 0x7ff0_0000_0000_0000 && y % 0x8000_0000_0000_0000 <= 0x7ff0_0000_0000_0000 && (x
                == y || (x % 0x8000_0000_0000_0000 == 0 && y % 0x8000_0000_0000_0000 == 0)),
            _ => !a.same(b),
        },
{
}

/// Two snapshots match only if both are stable and hold as many inputs, each equal to the one
/// at its place: values of the same type in every component, and everything else exactly.
pub proof fn matching_evidence_agrees_input_by_input(a: Evidence, b: Evidence, i: int)
    requires
        a.matching(b),
        0 <= i < a.atoms.len(),
    ensures
        !a.volatile,
        !b.volatile,
        a.atoms.len() == b.atoms.len(),
        match (a.atoms[i], b.atoms[i]) {
            (
                Atom::Value { type_id: one, words: left },
                Atom::Value { type_id: other, words: right },
            ) => one == other && left.len() == right.len() && forall|j: int|
                0 <= j < left.len() ==> (#[trigger] left[j]).same(right[j]),
            (Atom::Value { .. }, _) => false,
            (_, Atom::Value { .. }) => false,
            (left, right) => left == right,
        },
{
    assert(a.atoms[i].same(b.atoms[i]));
}

/// Stable snapshots that hold the same, without any component that is no number, match.
pub proof fn equal_stable_evidence_matches(a: Evidence)
    requires
        !a.volatile,
        forall|i: int|
            0 <= i < a.atoms.len() ==> (#[trigger] a.atoms[i] matches Atom::Value { words, .. }
                ==> forall|j: int| 0 <= j < words.len() ==> (#[trigger] words[j]).same(words[j])),
    ensures
        a.matching(a),
        a.same(a),
{
    assert forall|i: int| 0 <= i < a.atoms.len() implies (#[trigger] a.atoms[i]).same(
        a.atoms[i],
    ) by {}
}

/// Equal snapshots agree in their volatility too; matching asks in addition that neither is
/// volatile.
pub proof fn matching_is_stable_equality(a: Evidence, b: Evidence)
    ensures
        a.matching(b) <==> a.same(b) && !a.volatile,
{
}

} // verus!
