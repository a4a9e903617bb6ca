//! Blur settings, and the pyramid of textures that downsampling blurs draw.

use crate::effect::{Effect, EffectInput};
use crate::evidence::{InputValue, InputWord, Requirements};
use crate::float_bits::{
    is_finite, is_negative, is_zero, limit, limited, limiting_is_idempotent, ExpansionBits,
};
use crate::geometry::{div_ceil, groups, Size};
use crate::rounding::{ceil, ceil_bits, one, units, whole_bits};
use vstd::prelude::*;

verus! {

/// The bits of the largest radius, 128 logical pixels.
pub const RADIUS_LIMIT: u32 = 0x4300_0000;

/// The same expansion on every side.
pub open spec fn all_around(side: u32) -> ExpansionBits {
    ExpansionBits { top: side, right: side, bottom: side, left: side }
}

/// A pass that fully writes its output and reads no backdrop.
pub open spec fn covers(requirements: Requirements) -> bool {
    requirements.overwrites() && !requirements.reads_backdrop() && requirements.count() == 1
}

/// Returns what a pass needs that fully writes its output and reads no backdrop.
pub(crate) fn covering_pass() -> (requirements: Requirements)
    ensures
        covers(requirements),
{
    Requirements::new().writes_every_pixel()
}

/// Gaussian blur settings.
///
/// The radius is held as bits. Settings may be written down with any radius: it is
/// normalized wherever it is used.
#[derive(Debug, Clone, Copy, PartialEq, Eq, Structural)]
pub struct GaussianBlur {
    /// The approximate outer radius in logical pixels, brought between zero and 128.
    pub radius: u32,
}

impl GaussianBlur {
    /// Creates Gaussian blur settings.
    pub fn new(radius: u32) -> (blur: Self)
        ensures
            blur.radius == limited(radius, RADIUS_LIMIT),
    {
        GaussianBlur { radius: limit(radius, RADIUS_LIMIT) }
    }

    /// The radius that is used.
    pub open spec fn reach(self) -> u32 {
        limited(self.radius, RADIUS_LIMIT)
    }

    /// Returns the settings with the radius that is used.
    pub fn normalized(self) -> (blur: Self)
        ensures
            blur.radius == self.reach(),
            blur.reach() == self.reach(),
    {
        proof {
            limiting_is_idempotent(self.radius, RADIUS_LIMIT);
        }
        GaussianBlur::new(self.radius)
    }

    /// Returns the whole logical pixels that the blur needs around the content, as bits.
    pub fn padding(self) -> (padding: u32)
        ensures
            is_finite(padding) && !is_negative(padding),
            units(padding) == ceil(self.reach()) * one(),
    {
        proof {
            limiting_is_idempotent(self.radius, RADIUS_LIMIT);
        }
        ceil_bits(self.normalized().radius)
    }

    /// The number of passes: one along each axis, and none for a zero radius.
    pub open spec fn draws(self) -> nat {
        if is_zero(self.reach()) {
            0
        } else {
            2
        }
    }

    /// Declares the blur as an effect of the given type.
    pub fn effect(self, effect_type: u64) -> (effect: Effect)
        ensures
            effect@.effect_type == effect_type,
            effect@.passes.len() == self.draws(),
            forall|i: int| 0 <= i < effect@.passes.len() ==> covers(#[trigger] effect@.passes[i]),
            exists|padding: u32| #[trigger]
                units(padding) == ceil(self.reach()) * one() && is_finite(padding) && !is_negative(
                    padding,
                ) && effect@.expansion == all_around(padding),
            effect@.translation_invariant,
            effect@.inputs == seq![
                crate::effect::Input::Value {
                    type_id: effect_type,
                    words: seq![InputWord::Float(self.reach())],
                },
            ],
    {
        let radius: u32 = self.normalized().radius;
        let padding: u32 = self.padding();
        let mut words: Vec<InputWord> = Vec::new();
        words.push(InputWord::Float(radius));
        let passes: usize = if radius % 0x8000_0000 == 0 {
            0
        } else {
            2
        };
        let effect = Effect::new(effect_type).passes(passes, covering_pass()).expand(
            ExpansionBits { top: padding, right: padding, bottom: padding, left: padding },
        ).translation_invariant(true).input(EffectInput::Value(InputValue::new(effect_type, words)));
        assert(effect@.expansion == all_around(padding));
        assert(words@ =~= seq![InputWord::Float(self.reach())]);
        effect
    }
}

impl Default for GaussianBlur {
    fn default() -> (blur: Self)
        ensures
            blur.radius == 0,
    {
        GaussianBlur::new(0)
    }
}

/// Dual Kawase blur settings.
#[derive(Debug, Clone, Copy, PartialEq, Eq, Structural)]
pub struct DualKawaseBlur {
    radius: u32,
    depth: u32,
}

/// A requested number of downsample levels brought between one and eight.
pub open spec fn limited_depth(depth: u32) -> u32 {
    if depth < 1 {
        1
    } else if depth > 8 {
        8
    } else {
        depth
    }
}

/// The logical pixels that a pyramid of the given depth adds around the content.
pub open spec fn pyramid_guard(depth: u32) -> int
    decreases depth,
{
    if depth == 0 {
        0
    } else {
        2 * pyramid_guard((depth - 1) as u32) + 6
    }
}

impl DualKawaseBlur {
    /// The number of downsample levels of new settings.
    pub const DEFAULT_DEPTH: u32 = 3;

    /// The radius, as bits.
    pub closed spec fn reach(self) -> u32 {
        self.radius
    }

    /// The requested number of downsample levels.
    pub closed spec fn levels(self) -> u32 {
        self.depth
    }

    /// The radius and the depth lie within their limits.
    pub open spec fn wf(self) -> bool {
        self.reach() == limited(self.reach(), RADIUS_LIMIT) && 1 <= self.levels() <= 8
    }

    /// Creates blur settings with the given radius and the default number of levels.
    pub fn new(radius: u32) -> (blur: Self)
        ensures
            blur.wf(),
            blur.reach() == limited(radius, RADIUS_LIMIT),
            blur.levels() == DualKawaseBlur::DEFAULT_DEPTH,
    {
        proof {
            limiting_is_idempotent(radius, RADIUS_LIMIT);
        }
        DualKawaseBlur {
            radius: limit(radius, RADIUS_LIMIT),
            depth: DualKawaseBlur::DEFAULT_DEPTH,
        }
    }

    /// Sets the requested number of downsample levels, brought between one and eight.
    ///
    /// The actual depth may be smaller when neither texture dimension can shrink.
    pub fn pyramid_depth(self, depth: u32) -> (blur: Self)
        requires
            self.wf(),
        ensures
            blur.wf(),
            blur.reach() == self.reach(),
            blur.levels() == limited_depth(depth),
    {
        let depth: u32 = if depth < 1 {
            1
        } else if depth > 8 {
            8
        } else {
            depth
        };
        DualKawaseBlur { radius: self.radius, depth }
    }

    /// Returns the approximate radius in logical pixels, as bits.
    pub fn radius(&self) -> (radius: u32)
        ensures
            radius == self.reach(),
    {
        self.radius
    }

    /// Returns the requested pyramid depth.
    pub fn depth(&self) -> (depth: u32)
        ensures
            depth == self.levels(),
    {
        self.depth
    }

    /// Whether `padding` is the practical guard band: four times the radius and the
    /// pyramid's own guard, rounded up to whole logical pixels.
    ///
    /// `plus` adds two numbers.
    pub open spec fn padded<F: Fn(u32, u32) -> u32>(self, plus: F, padding: u32) -> bool {
        if is_zero(self.reach()) {
            padding == 0
        } else {
            exists|double: u32, fourfold: u32, guard: u32, total: u32|
                #![trigger call_ensures(plus, (double, double), fourfold), call_ensures(plus, (fourfold, guard), total)]
                call_ensures(plus, (self.reach(), self.reach()), double) && call_ensures(
                    plus,
                    (double, double),
                    fourfold,
                ) && units(guard) == pyramid_guard(self.levels()) * one() && call_ensures(
                    plus,
                    (fourfold, guard),
                    total,
                ) && (if is_negative(total) || !is_finite(total) {
                    padding == total
                } else {
                    is_finite(padding) && !is_negative(padding) && units(padding) == ceil(total)
                        * one()
                })
        }
    }

    /// Returns the logical pixels that the blur practically needs around the content.
    ///
    /// Extreme zoom and depth may still clip faint tails.
    pub fn padding<F: Fn(u32, u32) -> u32>(self, plus: &F) -> (padding: u32)
        requires
            self.wf(),
            forall|a: u32, b: u32| call_requires(*plus, (a, b)),
        ensures
            self.padded(*plus, padding),
    {
        if self.radius % 0x8000_0000 == 0 {
            return 0;
        }
        let mut guard: u32 = 0;
        let mut level: u32 = 0;
        while level < self.depth
            invariant
                self.wf(),
                level <= self.depth,
                guard == pyramid_guard(level),
                guard <= 6 * 255,
                level == 0 ==> guard == 0,
                level == 1 ==> guard == 6,
                level == 2 ==> guard == 18,
                level == 3 ==> guard == 42,
                level == 4 ==> guard == 90,
                level == 5 ==> guard == 186,
                level == 6 ==> guard == 378,
                level == 7 ==> guard == 762,
                level == 8 ==> guard == 1530,
            decreases self.depth - level,
        {
            guard = 2 * guard + 6;
            level = level + 1;
        }
        let double: u32 = plus(self.radius, self.radius);
        let fourfold: u32 = plus(double, double);
        let guard: u32 = whole_bits(guard);
        let total: u32 = plus(fourfold, guard);
        assert(call_ensures(*plus, (self.reach(), self.reach()), double));
        assert(call_ensures(*plus, (double, double), fourfold));
        assert(call_ensures(*plus, (fourfold, guard), total));
        if total >= 0x7f80_0000 {
            total
        } else {
            ceil_bits(total)
        }
    }

    /// Declares the blur as an effect of the given type.
    ///
    /// A zero radius draws nothing and forwards its input.
    pub fn effect<F: Fn(u32, u32) -> u32>(self, effect_type: u64, plus: &F) -> (effect: Effect)
        requires
            self.wf(),
            forall|a: u32, b: u32| call_requires(*plus, (a, b)),
        ensures
            effect@.effect_type == effect_type,
            effect@.passes.len() == (if is_zero(self.reach()) {
                0nat
            } else {
                1
            }),
            forall|i: int| 0 <= i < effect@.passes.len() ==> covers(#[trigger] effect@.passes[i]),
            exists|padding: u32| #[trigger]
                self.padded(*plus, padding) && effect@.expansion == all_around(padding),
            effect@.translation_invariant,
            effect@.inputs == seq![
                crate::effect::Input::Value {
                    type_id: effect_type,
                    words: seq![
                        InputWord::Float(self.reach()),
                        InputWord::Integer(self.levels() as u64),
                    ],
                },
            ],
    {
        let padding: u32 = self.padding(plus);
        let mut words: Vec<InputWord> = Vec::new();
        words.push(InputWord::Float(self.radius));
        words.push(InputWord::Integer(self.depth as u64));
        let passes: usize = if self.radius % 0x8000_0000 == 0 {
            0
        } else {
            1
        };
        assert(words@ =~= seq![
            InputWord::Float(self.reach()),
            InputWord::Integer(self.levels() as u64),
        ]);
        let effect = Effect::new(effect_type).passes(passes, covering_pass()).expand(
            ExpansionBits { top: padding, right: padding, bottom: padding, left: padding },
        ).translation_invariant(true).input(EffectInput::Value(InputValue::new(effect_type, words)));
        assert(effect@.expansion == all_around(padding));
        effect
    }
}

impl Default for DualKawaseBlur {
    fn default() -> (blur: Self)
        ensures
            blur.wf(),
            blur.reach() == 0,
            blur.levels() == DualKawaseBlur::DEFAULT_DEPTH,
    {
        DualKawaseBlur::new(0)
    }
}

/// Blur algorithm and settings used by a drop shadow.
#[derive(Debug, Clone, Copy, PartialEq, Eq, Structural)]
pub enum Blur {
    /// Separable Gaussian filtering.
    Gaussian(GaussianBlur),
    /// Downsampling and upsampling Dual Kawase filtering.
    DualKawase(DualKawaseBlur),
}

impl Default for Blur {
    fn default() -> (blur: Self)
        ensures
            blur == Blur::Gaussian(GaussianBlur { radius: 0 }),
    {
        Blur::Gaussian(GaussianBlur::default())
    }
}

/// A length halved, rounding up.
pub open spec fn halved_length(length: u32) -> u32 {
    if groups(length as int, 2) < 1 {
        1
    } else {
        groups(length as int, 2) as u32
    }
}

/// A size halved along both axes.
pub open spec fn halved(size: Size) -> Size {
    Size { width: halved_length(size.width), height: halved_length(size.height) }
}

/// The sizes of at most `depth` downsample levels of a texture.
pub open spec fn levels(size: Size, depth: nat) -> Seq<Size>
    decreases depth,
{
    if depth == 0 || halved(size) == size {
        Seq::empty()
    } else {
        seq![halved(size)] + levels(halved(size), (depth - 1) as nat)
    }
}

fn half(length: u32) -> (half: u32)
    ensures
        half == halved_length(length),
{
    let half: u32 = div_ceil(length, 2);
    if half < 1 {
        1
    } else {
        half
    }
}

/// Returns the sizes of at most `depth` downsample levels of a texture.
///
/// Every level halves the one before it, rounding up, until neither dimension can shrink.
pub fn level_sizes(size: Size, depth: u32) -> (sizes: Vec<Size>)
    ensures
        sizes@ == levels(size, depth as nat),
{
    let mut sizes: Vec<Size> = Vec::new();
    let mut current = size;
    let mut count: u32 = 0;
    while count < depth
        invariant_except_break
            count <= depth,
            levels(size, depth as nat) == sizes@ + levels(current, (depth - count) as nat),
        ensures
            levels(size, depth as nat) == sizes@,
        decreases depth - count,
    {
        let next = Size::new(half(current.width), half(current.height));
        assert(next == halved(current));
        if next == current {
            assert(sizes@ + levels(current, (depth - count) as nat) =~= sizes@);
            break;
        }
        let ghost before = sizes@;
        sizes.push(next);
        assert(before + levels(current, (depth - count) as nat) =~= sizes@ + levels(
            next,
            (depth - count - 1) as nat,
        ));
        current = next;
        count = count + 1;
    }
    sizes
}

/// Levels never grow: each has at least one pixel along each axis, fits a texture that is
/// not empty, and there are no more of them than requested.
pub proof fn levels_fit_their_texture(size: Size, depth: nat)
    requires
        size.width > 0,
        size.height > 0,
    ensures
        levels(size, depth).len() <= depth,
        forall|i: int|
            0 <= i < levels(size, depth).len() ==> {
                let level = #[trigger] levels(size, depth)[i];
                &&& 1 <= level.width <= size.width
                &&& 1 <= level.height <= size.height
            },
    decreases depth,
{
    if depth > 0 && halved(size) != size {
        levels_fit_their_texture(halved(size), (depth - 1) as nat);
        assert forall|i: int| 0 <= i < levels(size, depth).len() implies {
            let level = #[trigger] levels(size, depth)[i];
            &&& 1 <= level.width <= size.width
            &&& 1 <= level.height <= size.height
        } by {
            if i > 0 {
                assert(levels(size, depth)[i] == levels(halved(size), (depth - 1) as nat)[i - 1]);
            }
        }
    }
}

/// Fewer levels than requested end in a single pixel.
pub proof fn short_pyramids_end_in_one_pixel(size: Size, depth: nat)
    requires
        size.width > 0,
        size.height > 0,
        levels(size, depth).len() < depth,
    ensures
        levels(size, depth).len() == 0 ==> size == (Size { width: 1, height: 1 }),
        levels(size, depth).len() > 0 ==> levels(size, depth).last() == (Size {
            width: 1,
            height: 1,
        }),
    decreases depth,
{
    if depth > 0 && halved(size) != size {
        let rest = levels(halved(size), (depth - 1) as nat);
        assert(levels(size, depth) == seq![halved(size)] + rest);
        short_pyramids_end_in_one_pixel(halved(size), (depth - 1) as nat);
        if rest.len() > 0 {
            assert(levels(size, depth).last() == rest.last());
        } else {
            assert(levels(size, depth).last() == halved(size));
        }
    }
}

/// What one draw of a pyramid computes.
#[derive(Debug, Clone, Copy, PartialEq, Eq, Structural)]
pub enum ChainMode {
    /// Downsamples a level.
    Down,
    /// Upsamples a level and blends it with the one above.
    Up,
    /// Writes the blurred output.
    Blur,
    /// Writes the output as a shadow below its input.
    Shadow,
}

/// One draw of a pyramid.
///
/// Textures are named by their index; no texture stands for the input of the stage, or for
/// its output.
#[derive(Debug, Clone, Copy, PartialEq, Eq, Structural)]
pub struct ChainStep {
    /// The texture that is sampled.
    pub source: Option<usize>,
    /// The texture with which the result is blended.
    pub original: Option<usize>,
    /// The texture that is drawn.
    pub output: Option<usize>,
    /// The level whose contribution weighs the blend.
    pub weight: usize,
    pub mode: ChainMode,
}

/// The supplementary textures and the draws of a pyramid.
#[derive(Debug)]
pub struct ChainPlan {
    pub textures: Vec<Size>,
    pub steps: Vec<ChainStep>,
}

/// How the last draw writes the output of the stage.
pub open spec fn last_mode(shadow: bool) -> ChainMode {
    if shadow {
        ChainMode::Shadow
    } else {
        ChainMode::Blur
    }
}

/// How many supplementary textures a pyramid needs: one for each level on the way down, and
/// one for each but the last on the way up.
pub open spec fn texture_count(levels: nat) -> nat {
    if levels == 0 {
        0
    } else {
        (2 * levels - 1) as nat
    }
}

/// The size of a supplementary texture.
pub open spec fn texture_size(levels: Seq<Size>, index: int) -> Size {
    if index < levels.len() {
        levels[index]
    } else {
        levels[2 * levels.len() - 2 - index]
    }
}

/// A draw of a pyramid with the given number of levels.
pub open spec fn chain_step(levels: nat, shadow: bool, index: int) -> ChainStep {
    let source = if index == 0 {
        None
    } else {
        Some((index - 1) as usize)
    };
    if index < levels {
        ChainStep {
            source,
            original: None,
            output: Some(index as usize),
            weight: 0,
            mode: ChainMode::Down,
        }
    } else if index < 2 * levels - 1 {
        ChainStep {
            source,
            original: Some((2 * levels - 2 - index) as usize),
            output: Some(index as usize),
            weight: (2 * levels - 1 - index) as usize,
            mode: ChainMode::Up,
        }
    } else {
        ChainStep { source, original: None, output: None, weight: 0, mode: last_mode(shadow) }
    }
}

/// How many draws a pyramid takes. Without any level its input is copied in one draw.
pub open spec fn step_count(levels: nat) -> nat {
    if levels == 0 {
        1
    } else {
        2 * levels
    }
}

/// Whether `plan` draws a pyramid with the given levels.
pub open spec fn chains(levels: Seq<Size>, shadow: bool, plan: ChainPlan) -> bool {
    &&& plan.textures@ == Seq::new(
        texture_count(levels.len()),
        |i: int| texture_size(levels, i),
    )
    &&& plan.steps@ == Seq::new(
        step_count(levels.len()),
        |i: int| chain_step(levels.len(), shadow, i),
    )
}

/// Plans the supplementary textures and the draws of a pyramid.
///
/// Downsampled levels are kept for smooth contributions, so the way up draws into textures
/// of its own and no draw samples its own attachment.
pub fn plan_chain(levels: &Vec<Size>, shadow: bool) -> (plan: ChainPlan)
    requires
        2 * levels@.len() <= usize::MAX,
    ensures
        chains(levels@, shadow, plan),
{
    let count: usize = levels.len();
    let mut textures: Vec<Size> = Vec::new();
    let mut steps: Vec<ChainStep> = Vec::new();
    let mut index: usize = 0;
    while index < count
        invariant
            index <= count,
            count == levels@.len(),
            2 * count <= usize::MAX,
            textures@ == Seq::new(index as nat, |i: int| texture_size(levels@, i)),
            steps@ == Seq::new(index as nat, |i: int| chain_step(count as nat, shadow, i)),
        decreases count - index,
    {
        textures.push(levels[index]);
        let source: Option<usize> = if index == 0 {
            None
        } else {
            Some(index - 1)
        };
        steps.push(
            ChainStep {
                source,
                original: None,
                output: Some(index),
                weight: 0,
                mode: ChainMode::Down,
            },
        );
        index = index + 1;
        assert(textures@ =~= Seq::new(index as nat, |i: int| texture_size(levels@, i)));
        assert(steps@ =~= Seq::new(index as nat, |i: int| chain_step(count as nat, shadow, i)));
    }
    let mut level: usize = count;
    while level > 1
        invariant
            count >= 1 ==> 1 <= level <= count,
            count == 0 ==> level == 0,
            count == levels@.len(),
            2 * count <= usize::MAX,
            textures@ == Seq::new(
                (2 * count - level) as nat,
                |i: int| texture_size(levels@, i),
            ),
            steps@ == Seq::new(
                (2 * count - level) as nat,
                |i: int| chain_step(count as nat, shadow, i),
            ),
        decreases level,
    {
        level = level - 1;
        textures.push(levels[level - 1]);
        let output: usize = 2 * count - 1 - level;
        steps.push(
            ChainStep {
                source: Some(output - 1),
                original: Some(level - 1),
                output: Some(output),
                weight: level,
                mode: ChainMode::Up,
            },
        );
        assert(textures@ =~= Seq::new(
            (2 * count - level) as nat,
            |i: int| texture_size(levels@, i),
        ));
        assert(steps@ =~= Seq::new(
            (2 * count - level) as nat,
            |i: int| chain_step(count as nat, shadow, i),
        ));
    }
    let source: Option<usize> = if count == 0 {
        None
    } else {
        Some(2 * count - 2)
    };
    steps.push(
        ChainStep {
            source,
            original: None,
            output: None,
            weight: 0,
            mode: if shadow {
                ChainMode::Shadow
            } else {
                ChainMode::Blur
            },
        },
    );
    assert(textures@ =~= Seq::new(
        texture_count(levels@.len()),
        |i: int| texture_size(levels@, i),
    ));
    assert(steps@ =~= Seq::new(
        step_count(levels@.len()),
        |i: int| chain_step(levels@.len(), shadow, i),
    ));
    ChainPlan { textures, steps }
}

/// A pyramid of some depth takes twice as many draws, and one texture less than draws.
pub proof fn pyramids_cost_two_draws_for_each_level(
    levels: Seq<Size>,
    shadow: bool,
    plan: ChainPlan,
)
    requires
        chains(levels, shadow, plan),
        levels.len() > 0,
    ensures
        plan.steps@.len() == 2 * levels.len(),
        plan.textures@.len() == 2 * levels.len() - 1,
{
}

/// No draw samples the texture that it writes, every texture that a draw samples was written
/// by an earlier one, and exactly the last draw writes the output of the stage.
pub proof fn draws_sample_what_was_drawn_before(
    levels: Seq<Size>,
    shadow: bool,
    plan: ChainPlan,
    index: int,
)
    requires
        chains(levels, shadow, plan),
        2 * levels.len() <= usize::MAX,
        0 <= index < plan.steps@.len(),
    ensures
        plan.steps@[index].output is None <==> index == plan.steps@.len() - 1,
        plan.steps@[index].output matches Some(texture) ==> texture == index && texture
            < plan.textures@.len(),
        plan.steps@[index].source matches Some(texture) ==> texture < index
            && plan.steps@[texture as int].output == Some(texture),
        plan.steps@[index].original matches Some(texture) ==> texture < index
            && plan.steps@[texture as int].output == Some(texture),
{
}

/// On the way up a level is blended with a texture of the size that it is drawn at.
pub proof fn blends_agree_in_size(levels: Seq<Size>, shadow: bool, plan: ChainPlan, index: int)
    requires
        chains(levels, shadow, plan),
        2 * levels.len() <= usize::MAX,
        levels.len() <= index < 2 * levels.len() - 1,
    ensures
        plan.steps@[index].output matches Some(output) && plan.steps@[index].original matches Some(
            original,
        ) && plan.textures@[output as int] == plan.textures@[original as int],
{
}

/// The last draw of a pyramid is the one that writes the output, as a shadow exactly if a shadow
/// is asked for. Before it come as many draws down as there are levels, and then only draws up.
pub proof fn pyramids_go_down_then_up_then_out(
    levels: Seq<Size>,
    shadow: bool,
    plan: ChainPlan,
    index: int,
)
    requires
        chains(levels, shadow, plan),
        0 <= index < plan.steps@.len(),
    ensures
        plan.steps@.len() > 0,
        index == plan.steps@.len() - 1 ==> (if shadow {
            plan.steps@[index].mode == ChainMode::Shadow
        } else {
            plan.steps@[index].mode == ChainMode::Blur
        }),
        index < plan.steps@.len() - 1 ==> (if index < levels.len() {
            plan.steps@[index].mode == ChainMode::Down
        } else {
            plan.steps@[index].mode == ChainMode::Up
        }),
        levels.len() == 0 ==> plan.steps@.len() == 1,
        levels.len() > 0 ==> plan.steps@.len() == 2 * levels.len(),
{
}

/// The first draw samples the input of the stage, and every other one what the draw right
/// before it has written.
pub proof fn draws_continue_one_another(
    levels: Seq<Size>,
    shadow: bool,
    plan: ChainPlan,
    index: int,
)
    requires
        chains(levels, shadow, plan),
        2 * levels.len() <= usize::MAX,
        0 <= index < plan.steps@.len(),
    ensures
        index == 0 ==> plan.steps@[index].source is None,
        index > 0 ==> plan.steps@[index].source is Some && plan.steps@[index].source
            == plan.steps@[index - 1].output,
{
}

/// A draw down writes the level of its number, at that level's size. A draw up writes the level
/// above the one that it samples, at that level's size, blended with what was drawn there on the
/// way down and weighed by the level that it came from.
pub proof fn draws_write_their_level(
    levels: Seq<Size>,
    shadow: bool,
    plan: ChainPlan,
    index: int,
)
    requires
        chains(levels, shadow, plan),
        2 * levels.len() <= usize::MAX,
        0 <= index < plan.steps@.len() - 1,
    ensures
        plan.steps@[index].output matches Some(output) && 0 <= output < plan.textures@.len() && {
            let step = plan.steps@[index];
            let drawn = plan.textures@[output as int];
            match step.mode {
                ChainMode::Down => drawn == levels[index] && step.original is None && step.weight
                    == 0,
                ChainMode::Up => step.original matches Some(original) && {
                    &&& original < levels.len() - 1
                    &&& drawn == levels[original as int]
                    &&& plan.steps@[original as int].output == Some(original)
                    &&& plan.steps@[original as int].mode == ChainMode::Down
                    &&& step.weight == original + 1
                    &&& original + index == 2 * levels.len() - 2
                },
                _ => false,
            }
        },
        plan.steps@.last().output is None,
        plan.steps@.last().original is None,
        plan.steps@.last().weight == 0,
{
}

/// Halving a length rounds up and never vanishes, so no pixel is lost: two halves hold the
/// whole, and one pixel less in each would not.
pub proof fn levels_halve_rounding_up(size: Size, depth: nat, i: int)
    requires
        size.width > 0,
        size.height > 0,
        0 <= i < levels(size, depth).len(),
    ensures
        ({
            let above = if i == 0 {
                size
            } else {
                levels(size, depth)[i - 1]
            };
            let level = levels(size, depth)[i];
            &&& above.width <= 2 * level.width <= above.width + 1
            &&& above.height <= 2 * level.height <= above.height + 1
            &&& level != above
        }),
    decreases depth,
{
    if depth > 0 && halved(size) != size {
        let rest = levels(halved(size), (depth - 1) as nat);
        assert(levels(size, depth) == seq![halved(size)] + rest);
        if i > 0 {
            levels_halve_rounding_up(halved(size), (depth - 1) as nat, i - 1);
            assert(levels(size, depth)[i] == rest[i - 1]);
            if i > 1 {
                assert(levels(size, depth)[i - 1] == rest[i - 2]);
            }
        }
    }
}

/// Asking for more levels keeps those that were there, in front.
pub proof fn deeper_pyramids_extend_shallower_ones(size: Size, depth: nat, deeper: nat)
    requires
        depth <= deeper,
    ensures
        levels(size, depth).len() <= levels(size, deeper).len(),
        levels(size, deeper).take(levels(size, depth).len() as int) == levels(size, depth),
        levels(size, depth).len() <= depth,
    decreases depth,
{
    if depth > 0 && halved(size) != size {
        deeper_pyramids_extend_shallower_ones(
            halved(size),
            (depth - 1) as nat,
            (deeper - 1) as nat,
        );
        let short = levels(halved(size), (depth - 1) as nat);
        let long = levels(halved(size), (deeper - 1) as nat);
        assert forall|i: int| 0 <= i < levels(size, depth).len() implies levels(size, deeper)[i]
            == levels(size, depth)[i] by {
            if i > 0 {
                assert(long.take(short.len() as int)[i - 1] == long[i - 1]);
            }
        }
    }
    assert(levels(size, deeper).take(levels(size, depth).len() as int) =~= levels(size, depth));
}

/// The largest radius is 128 logical pixels.
pub proof fn radius_limit_is_exact()
    ensures
        units(RADIUS_LIMIT) == 128 * one(),
        is_finite(RADIUS_LIMIT),
        !is_negative(RADIUS_LIMIT),
{
    vstd::arithmetic::power2::lemma2_to64();
    crate::rounding::powers_of_two_are_exact(RADIUS_LIMIT, 7);
}

/// A Gaussian blur uses its radius as it is up to 128 logical pixels, and that many for larger
/// ones. A negative radius, or one that is no number, is none.
pub proof fn radii_are_used_up_to_their_limit(blur: GaussianBlur)
    ensures
        blur.radius % 0x8000_0000 > 0x7f80_0000 ==> units(blur.reach()) == 0,
        blur.radius % 0x8000_0000 <= 0x7f80_0000 ==> units(blur.reach()) == (if units(blur.radius)
            <= 0 {
            0
        } else if units(blur.radius) <= 128 * one() {
            units(blur.radius)
        } else {
            128 * one()
        }),
        !is_negative(blur.reach()),
{
    radius_limit_is_exact();
    crate::rounding::limiting_clamps_values(blur.radius, RADIUS_LIMIT);
}

/// Settings for a downsampling blur hold at least one level and at most eight, and as many as
/// are asked for in between.
pub proof fn depths_are_limited(depth: u32)
    ensures
        1 <= limited_depth(depth) <= 8,
        1 <= depth <= 8 ==> limited_depth(depth) == depth,
        depth == 0 ==> limited_depth(depth) == 1,
        depth > 8 ==> limited_depth(depth) == 8,
{
}

/// The guard of a pyramid is six pixels of every level, measured in pixels of the texture
/// above: each level doubles what the one below it needs.
pub proof fn pyramid_guards_double(depth: u32)
    ensures
        pyramid_guard(depth) == 6 * (vstd::arithmetic::power2::pow2(depth as nat) - 1),
    decreases depth,
{
    vstd::arithmetic::power2::lemma2_to64();
    if depth > 0 {
        pyramid_guards_double((depth - 1) as u32);
        vstd::arithmetic::power2::lemma_pow2_unfold(depth as nat);
    }
}

/// The space around a downsampling blur holds four times its radius and the guard of its
/// pyramid, and less than one pixel more, up to the errors of the three additions. A blur
/// without a radius needs none.
pub proof fn downsampling_padding_holds_radius_and_guard<F: Fn(u32, u32) -> u32>(
    blur: DualKawaseBlur,
    plus: F,
    padding: u32,
    error: int,
)
    requires
        blur.wf(),
        blur.padded(plus, padding),
        0 <= error <= one(),
        crate::capture::adds_within(plus, 4096 * one(), error),
    ensures
        units(blur.reach()) == 0 ==> units(padding) == 0,
        units(blur.reach()) != 0 ==> {
            let needed = 4 * units(blur.reach()) + 6 * (vstd::arithmetic::power2::pow2(
                blur.levels() as nat,
            ) - 1) * one();
            needed - 4 * error <= units(padding) < needed + 4 * error + one()
        },
{
    let unit = one();
    vstd::arithmetic::power2::lemma_pow2_pos(149);
    vstd::arithmetic::power2::lemma2_to64();
    radius_limit_is_exact();
    limiting_is_idempotent(blur.reach(), RADIUS_LIMIT);
    crate::rounding::limiting_clamps_values(blur.reach(), RADIUS_LIMIT);
    crate::rounding::zeroes_are_no_units(0);
    crate::rounding::zeroes_are_no_units(blur.reach());
    crate::rounding::ranks_order_values(blur.reach(), 0);
    crate::rounding::ranks_order_values(blur.reach(), RADIUS_LIMIT);
    pyramid_guards_double(blur.levels());
    assert(units(0) == 0);
    if !is_zero(blur.reach()) {
        let (double, fourfold, guard, total) = choose|
            double: u32,
            fourfold: u32,
            guard: u32,
            total: u32,
        |
            #![trigger call_ensures(plus, (double, double), fourfold), call_ensures(plus, (fourfold, guard), total)]
            call_ensures(plus, (blur.reach(), blur.reach()), double) && call_ensures(
                plus,
                (double, double),
                fourfold,
            ) && units(guard) == pyramid_guard(blur.levels()) * one() && call_ensures(
                plus,
                (fourfold, guard),
                total,
            ) && (if is_negative(total) || !is_finite(total) {
                padding == total
            } else {
                is_finite(padding) && !is_negative(padding) && units(padding) == ceil(total)
                    * one()
            });
        let reach = units(blur.reach());
        assert(0 <= reach <= 128 * unit);
        let count = pyramid_guard(blur.levels());
        assert(0 <= count <= 1530);
        assert(0 <= count * unit <= 1530 * unit) by (nonlinear_arith)
            requires
                0 <= count <= 1530,
                unit > 0,
        ;
        crate::rounding::rounding_encloses(total);
        let up = ceil(total);
        assert((up - 1) * unit == up * unit - unit) by (nonlinear_arith);
    }
}

/// The space around a Gaussian blur is its radius rounded up to whole pixels: the least that
/// holds the radius.
pub proof fn gaussian_padding_holds_the_radius(blur: GaussianBlur, padding: u32)
    requires
        units(padding) == ceil(blur.reach()) * one(),
    ensures
        units(blur.reach()) <= units(padding) < units(blur.reach()) + one(),
{
    let unit = one();
    crate::rounding::rounding_encloses(blur.reach());
    let up = ceil(blur.reach());
    assert((up - 1) * unit == up * unit - unit) by (nonlinear_arith);
}

/// A Gaussian blur draws once along each axis if it has a radius, and else not at all.
pub proof fn gaussian_blurs_draw_along_both_axes(blur: GaussianBlur)
    ensures
        units(blur.reach()) > 0 ==> blur.draws() == 2,
        units(blur.reach()) == 0 ==> blur.draws() == 0,
{
    crate::rounding::zeroes_are_no_units(blur.reach());
}

/// A pass that covers its output writes every pixel of it in one draw and reads nothing below.
pub proof fn covering_passes_need_no_backdrop(requirements: Requirements)
    requires
        covers(requirements),
    ensures
        requirements.overwrites(),
        !requirements.reads_backdrop(),
        requirements.count() == 1,
{
}

/// A blur needs the same space on all sides.
pub proof fn blurs_expand_alike_on_all_sides(side: u32)
    ensures
        all_around(side).top == side,
        all_around(side).right == side,
        all_around(side).bottom == side,
        all_around(side).left == side,
{
}

} // verus!
