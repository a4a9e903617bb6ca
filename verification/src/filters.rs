//! Drop shadows and alpha masks.

use crate::blur::{all_around, covering_pass, covers, Blur};
use crate::context::PointBits;
use crate::effect::{Effect, EffectInput, Input};
use crate::evidence::{InputValue, InputWord};
use crate::float_bits::{
    is_finite, is_nan, is_negative, limit, limited, ExpansionBits,
};
use crate::rounding::{ceil, one, units};
use vstd::prelude::*;

verus! {

/// The bits of the largest fade distance, 4096 logical pixels.
pub const FADE_LIMIT: u32 = 0x4580_0000;

/// The bits of a color's components.
#[derive(Debug, Clone, Copy, PartialEq, Eq, Structural)]
pub struct ColorBits {
    pub red: u32,
    pub green: u32,
    pub blue: u32,
    pub alpha: u32,
}

/// Drop shadow settings. Colors and offsets are held as bits.
#[derive(Debug, Clone, Copy, PartialEq, Eq, Structural)]
pub struct DropShadow {
    /// The color of the shadow.
    pub color: ColorBits,
    /// The offset of the shadow.
    pub offset: PointBits,
    /// Blur algorithm and settings.
    pub blur: Blur,
}

/// The bits of a number with its sign turned.
pub open spec fn negated(bits: u32) -> u32 {
    if is_negative(bits) {
        (bits - 0x8000_0000) as u32
    } else {
        (bits + 0x8000_0000) as u32
    }
}

/// The bits of a number, or of zero where it is lower or no number.
pub open spec fn at_least_zero(bits: u32) -> u32 {
    if is_nan(bits) || is_negative(bits) {
        0
    } else {
        bits
    }
}

fn negate(bits: u32) -> (negated: u32)
    ensures
        negated == self::negated(bits),
{
    if bits >= 0x8000_0000 {
        bits - 0x8000_0000
    } else {
        bits + 0x8000_0000
    }
}

fn raise_to_zero(bits: u32) -> (raised: u32)
    ensures
        raised == at_least_zero(bits),
{
    if bits > 0x7f80_0000 {
        0
    } else {
        bits
    }
}

impl Blur {
    /// The settings lie within their limits.
    pub open spec fn wf(self) -> bool {
        match self {
            Blur::Gaussian(_) => true,
            Blur::DualKawase(blur) => blur.wf(),
        }
    }

    /// Whether `padding` is the space that the blur needs around the content.
    pub open spec fn padded<F: Fn(u32, u32) -> u32>(self, plus: F, padding: u32) -> bool {
        match self {
            Blur::Gaussian(blur) => is_finite(padding) && !is_negative(padding) && units(padding)
                == ceil(blur.reach()) * one(),
            Blur::DualKawase(blur) => blur.padded(plus, padding),
        }
    }

    /// Returns the logical pixels that the blur needs around the content, as bits.
    pub fn padding<F: Fn(u32, u32) -> u32>(self, plus: &F) -> (padding: u32)
        requires
            self.wf(),
            forall|a: u32, b: u32| call_requires(*plus, (a, b)),
        ensures
            self.padded(*plus, padding),
    {
        match self {
            Blur::Gaussian(blur) => blur.padding(),
            Blur::DualKawase(blur) => blur.padding(plus),
        }
    }

    /// The number of passes that blur and draw a shadow.
    pub open spec fn shadow_draws(self) -> nat {
        match self {
            Blur::Gaussian(blur) => blur.draws() + 1,
            Blur::DualKawase(_) => 1,
        }
    }

    /// The settings that are used, as recorded components.
    pub open spec fn words(self) -> Seq<InputWord> {
        match self {
            Blur::Gaussian(blur) => seq![InputWord::Integer(0), InputWord::Float(blur.reach())],
            Blur::DualKawase(blur) => seq![
                InputWord::Integer(1),
                InputWord::Float(blur.reach()),
                InputWord::Integer(blur.levels() as u64),
            ],
        }
    }
}

impl DropShadow {
    /// The sides by which the offset moves the shadow out of its content.
    pub open spec fn overhang(self) -> ExpansionBits {
        ExpansionBits {
            top: at_least_zero(negated(self.offset.y)),
            right: at_least_zero(self.offset.x),
            bottom: at_least_zero(self.offset.y),
            left: at_least_zero(negated(self.offset.x)),
        }
    }

    /// Whether `expansion` is the blur's padding and the offset's overhang, side by side.
    pub open spec fn expands<F: Fn(u32, u32) -> u32>(
        self,
        plus: F,
        expansion: ExpansionBits,
    ) -> bool {
        exists|padding: u32| #[trigger]
            self.blur.padded(plus, padding) && {
                &&& call_ensures(plus, (padding, self.overhang().top), expansion.top)
                &&& call_ensures(plus, (padding, self.overhang().right), expansion.right)
                &&& call_ensures(plus, (padding, self.overhang().bottom), expansion.bottom)
                &&& call_ensures(plus, (padding, self.overhang().left), expansion.left)
            }
    }

    /// Returns the space that the shadow needs around the content.
    pub fn expansion<F: Fn(u32, u32) -> u32>(self, plus: &F) -> (expansion: ExpansionBits)
        requires
            self.blur.wf(),
            forall|a: u32, b: u32| call_requires(*plus, (a, b)),
        ensures
            self.expands(*plus, expansion),
    {
        let padding: u32 = self.blur.padding(plus);
        assert(self.blur.padded(*plus, padding));
        ExpansionBits {
            top: plus(padding, raise_to_zero(negate(self.offset.y))),
            right: plus(padding, raise_to_zero(self.offset.x)),
            bottom: plus(padding, raise_to_zero(self.offset.y)),
            left: plus(padding, raise_to_zero(negate(self.offset.x))),
        }
    }

    /// The recorded components: color, offset, and the blur settings that are used.
    pub open spec fn words(self) -> Seq<InputWord> {
        seq![
            InputWord::Float(self.color.red),
            InputWord::Float(self.color.green),
            InputWord::Float(self.color.blue),
            InputWord::Float(self.color.alpha),
            InputWord::Float(self.offset.x),
            InputWord::Float(self.offset.y),
        ] + self.blur.words()
    }

    /// Declares the shadow as an effect of the given type.
    pub fn effect<F: Fn(u32, u32) -> u32>(self, effect_type: u64, plus: &F) -> (effect: Effect)
        requires
            self.blur.wf(),
            forall|a: u32, b: u32| call_requires(*plus, (a, b)),
        ensures
            effect@.effect_type == effect_type,
            effect@.passes.len() == self.blur.shadow_draws(),
            forall|i: int| 0 <= i < effect@.passes.len() ==> covers(#[trigger] effect@.passes[i]),
            self.expands(*plus, effect@.expansion),
            effect@.translation_invariant,
            effect@.inputs == seq![Input::Value { type_id: effect_type, words: self.words() }],
    {
        let mut words: Vec<InputWord> = Vec::new();
        words.push(InputWord::Float(self.color.red));
        words.push(InputWord::Float(self.color.green));
        words.push(InputWord::Float(self.color.blue));
        words.push(InputWord::Float(self.color.alpha));
        words.push(InputWord::Float(self.offset.x));
        words.push(InputWord::Float(self.offset.y));
        let passes: usize = match self.blur {
            Blur::Gaussian(blur) => {
                let radius: u32 = blur.normalized().radius;
                words.push(InputWord::Integer(0));
                words.push(InputWord::Float(radius));
                if radius % 0x8000_0000 == 0 {
                    1
                } else {
                    3
                }
            },
            Blur::DualKawase(blur) => {
                words.push(InputWord::Integer(1));
                words.push(InputWord::Float(blur.radius()));
                words.push(InputWord::Integer(blur.depth() as u64));
                1
            },
        };
        assert(words@ =~= self.words());
        Effect::new(effect_type).passes(passes, covering_pass()).expand(
            self.expansion(plus),
        ).translation_invariant(true).input(EffectInput::Value(InputValue::new(effect_type, words)))
    }
}

impl Default for DropShadow {
    fn default() -> (shadow: Self)
        ensures
            shadow == (DropShadow {
                color: ColorBits { red: 0, green: 0, blue: 0, alpha: 0 },
                offset: PointBits { x: 0, y: 0 },
                blur: Blur::Gaussian(crate::blur::GaussianBlur { radius: 0 }),
            }),
    {
        DropShadow {
            color: ColorBits { red: 0, green: 0, blue: 0, alpha: 0 },
            offset: PointBits { x: 0, y: 0 },
            blur: Blur::default(),
        }
    }
}

/// Shadows whose Gaussian radii are used alike record the same inputs.
pub proof fn normalized_shadows_record_alike(first: DropShadow, second: DropShadow)
    requires
        first.color == second.color,
        first.offset == second.offset,
        first.blur matches Blur::Gaussian(one) && second.blur matches Blur::Gaussian(other)
            && one.reach() == other.reach(),
    ensures
        first.words() == second.words(),
{
}

/// A generated alpha mask for soft container edges. Fade distances are held as bits.
#[derive(Debug, Clone, Copy, PartialEq, Eq, Structural)]
pub struct AlphaMask {
    /// Top fade distance in logical pixels.
    pub top: u32,
    /// Right fade distance in logical pixels.
    pub right: u32,
    /// Bottom fade distance in logical pixels.
    pub bottom: u32,
    /// Left fade distance in logical pixels.
    pub left: u32,
}

impl AlphaMask {
    /// Creates an edge-fade alpha mask, whose distances are brought between zero and 4096.
    pub fn new(top: u32, right: u32, bottom: u32, left: u32) -> (mask: Self)
        ensures
            mask == (AlphaMask {
                top: limited(top, FADE_LIMIT),
                right: limited(right, FADE_LIMIT),
                bottom: limited(bottom, FADE_LIMIT),
                left: limited(left, FADE_LIMIT),
            }),
    {
        AlphaMask {
            top: limit(top, FADE_LIMIT),
            right: limit(right, FADE_LIMIT),
            bottom: limit(bottom, FADE_LIMIT),
            left: limit(left, FADE_LIMIT),
        }
    }

    /// Creates a mask that fades only the top and bottom edges.
    pub fn vertical(top: u32, bottom: u32) -> (mask: Self)
        ensures
            mask == (AlphaMask {
                top: limited(top, FADE_LIMIT),
                right: 0,
                bottom: limited(bottom, FADE_LIMIT),
                left: 0,
            }),
    {
        AlphaMask::new(top, 0, bottom, 0)
    }

    /// Declares the mask as an effect of the given type.
    pub fn effect(self, effect_type: u64) -> (effect: Effect)
        ensures
            effect@.effect_type == effect_type,
            effect@.passes.len() == 1,
            covers(effect@.passes[0]),
            effect@.expansion == all_around(0),
            effect@.translation_invariant,
            effect@.inputs == seq![
                Input::Value {
                    type_id: effect_type,
                    words: seq![
                        InputWord::Float(self.top),
                        InputWord::Float(self.right),
                        InputWord::Float(self.bottom),
                        InputWord::Float(self.left),
                    ],
                },
            ],
    {
        let mut words: Vec<InputWord> = Vec::new();
        words.push(InputWord::Float(self.top));
        words.push(InputWord::Float(self.right));
        words.push(InputWord::Float(self.bottom));
        words.push(InputWord::Float(self.left));
        assert(words@ =~= seq![
            InputWord::Float(self.top),
            InputWord::Float(self.right),
            InputWord::Float(self.bottom),
            InputWord::Float(self.left),
        ]);
        Effect::new(effect_type).passes(1, covering_pass()).expand(
            ExpansionBits { top: 0, right: 0, bottom: 0, left: 0 },
        ).translation_invariant(true).input(EffectInput::Value(InputValue::new(effect_type, words)))
    }
}

impl Default for AlphaMask {
    fn default() -> (mask: Self)
        ensures
            mask == (AlphaMask { top: 0, right: 0, bottom: 0, left: 0 }),
    {
        AlphaMask::new(0, 0, 0, 0)
    }
}

/// What an offset adds to a side, in numbers: as much as it points to that side, and nothing if
/// it points away.
pub open spec fn towards(offset: int) -> int {
    if offset > 0 {
        offset
    } else {
        0
    }
}

proof fn lemma_overhang(bits: u32)
    requires
        is_finite(bits),
    ensures
        units(at_least_zero(bits)) == towards(units(bits)),
        units(at_least_zero(negated(bits))) == towards(-units(bits)),
{
    crate::rounding::ranks_order_values(bits, 0);
    crate::rounding::ranks_order_values(negated(bits), 0);
    crate::rounding::ranks_order_values(0, 0);
    crate::rounding::zeroes_are_no_units(0);
    assert(crate::float_bits::magnitude(negated(bits)) == crate::float_bits::magnitude(bits));
    assert(units(negated(bits)) == -units(bits));
}

/// The shadow lies inside the expanded content, and no side is expanded further: on each side
/// the expansion is the space of the blur and what the offset moves the shadow to that side, up
/// to the error of one addition.
pub proof fn expansions_hold_the_moved_shadow<F: Fn(u32, u32) -> u32>(
    shadow: DropShadow,
    plus: F,
    expansion: ExpansionBits,
    limit: int,
    error: int,
) -> (padding: u32)
    requires
        shadow.expands(plus, expansion),
        is_finite(shadow.offset.x),
        is_finite(shadow.offset.y),
        crate::capture::adds_within(plus, limit, error),
        forall|padding: u32| #[trigger]
            shadow.blur.padded(plus, padding) ==> 0 <= units(padding) && units(padding) + towards(
                units(shadow.offset.x),
            ) <= limit && units(padding) + towards(-units(shadow.offset.x)) <= limit && units(
                padding,
            ) + towards(units(shadow.offset.y)) <= limit && units(padding) + towards(
                -units(shadow.offset.y),
            ) <= limit,
    ensures
        shadow.blur.padded(plus, padding),
        -error <= units(expansion.right) - units(padding) - towards(units(shadow.offset.x))
            <= error,
        -error <= units(expansion.left) - units(padding) - towards(-units(shadow.offset.x))
            <= error,
        -error <= units(expansion.bottom) - units(padding) - towards(units(shadow.offset.y))
            <= error,
        -error <= units(expansion.top) - units(padding) - towards(-units(shadow.offset.y))
            <= error,
{
    let padding = choose|padding: u32| #[trigger]
        shadow.blur.padded(plus, padding) && {
            &&& call_ensures(plus, (padding, shadow.overhang().top), expansion.top)
            &&& call_ensures(plus, (padding, shadow.overhang().right), expansion.right)
            &&& call_ensures(plus, (padding, shadow.overhang().bottom), expansion.bottom)
            &&& call_ensures(plus, (padding, shadow.overhang().left), expansion.left)
        };
    lemma_overhang(shadow.offset.x);
    lemma_overhang(shadow.offset.y);
    padding
}

/// The bits with the sign turned, by arithmetic on the sign bit alone.
pub open spec fn mirrored(bits: u32) -> u32 {
    ((bits + 0x8000_0000) % 0x1_0000_0000) as u32
}

/// Turning the sign of an offset along an axis swaps the sides of that axis and leaves the
/// others alone.
pub proof fn mirrored_shadows_swap_sides<F: Fn(u32, u32) -> u32>(
    shadow: DropShadow,
    plus: F,
    expansion: ExpansionBits,
)
    requires
        shadow.expands(plus, expansion),
    ensures
        (DropShadow {
            offset: PointBits { x: mirrored(shadow.offset.x), y: shadow.offset.y },
            ..shadow
        }).expands(
            plus,
            (ExpansionBits { left: expansion.right, right: expansion.left, ..expansion }),
        ),
        (DropShadow {
            offset: PointBits { x: shadow.offset.x, y: mirrored(shadow.offset.y) },
            ..shadow
        }).expands(
            plus,
            (ExpansionBits { top: expansion.bottom, bottom: expansion.top, ..expansion }),
        ),
{
    let padding = choose|padding: u32| #[trigger]
        shadow.blur.padded(plus, padding) && {
            &&& call_ensures(plus, (padding, shadow.overhang().top), expansion.top)
            &&& call_ensures(plus, (padding, shadow.overhang().right), expansion.right)
            &&& call_ensures(plus, (padding, shadow.overhang().bottom), expansion.bottom)
            &&& call_ensures(plus, (padding, shadow.overhang().left), expansion.left)
        };
    let across = DropShadow {
        offset: PointBits { x: mirrored(shadow.offset.x), y: shadow.offset.y },
        ..shadow
    };
    let down = DropShadow {
        offset: PointBits { x: shadow.offset.x, y: mirrored(shadow.offset.y) },
        ..shadow
    };
    lemma_mirrored(shadow.offset.x);
    lemma_mirrored(shadow.offset.y);
    let sides = shadow.overhang();
    assert(across.overhang() == (ExpansionBits { left: sides.right, right: sides.left, ..sides }));
    assert(down.overhang() == (ExpansionBits { top: sides.bottom, bottom: sides.top, ..sides }));
    assert(across.blur.padded(plus, padding));
    assert(down.blur.padded(plus, padding));
}

proof fn lemma_mirrored(bits: u32)
    ensures
        negated(bits) == mirrored(bits),
        negated(mirrored(bits)) == bits,
{
}

/// A shadow needs around its content what its blur needs, whichever blur that is.
pub proof fn shadows_keep_the_space_of_their_blur<F: Fn(u32, u32) -> u32>(
    blur: Blur,
    plus: F,
    padding: u32,
)
    requires
        blur.padded(plus, padding),
    ensures
        match blur {
            Blur::Gaussian(blur) => units(blur.reach()) <= units(padding) < units(blur.reach())
                + one(),
            Blur::DualKawase(blur) => blur.padded(plus, padding),
        },
{
    if let Blur::Gaussian(blur) = blur {
        crate::blur::gaussian_padding_holds_the_radius(blur, padding);
    }
}

/// A shadow takes one draw more than its Gaussian blur, and one alone with a downsampling blur,
/// which draws its pyramid within it.
pub proof fn shadows_are_drawn_after_their_blur(blur: Blur)
    ensures
        match blur {
            Blur::Gaussian(settings) => blur.shadow_draws() == (if units(settings.reach()) > 0 {
                3int
            } else {
                1
            }),
            Blur::DualKawase(_) => blur.shadow_draws() == 1,
        },
{
    if let Blur::Gaussian(settings) = blur {
        crate::blur::gaussian_blurs_draw_along_both_axes(settings);
        crate::blur::radii_are_used_up_to_their_limit(settings);
        lemma_not_negative(settings.reach());
    }
}

proof fn lemma_not_negative(bits: u32)
    requires
        !is_negative(bits),
    ensures
        units(bits) >= 0,
{
    let power = vstd::arithmetic::power2::pow2(crate::rounding::elevation(bits) as nat) as int;
    let significand = crate::rounding::significand(bits);
    assert(significand * power >= 0) by (nonlinear_arith)
        requires
            significand >= 0,
            power >= 0,
    ;
}

/// What a shadow records tells its settings apart: its color, its offset, which blur it uses
/// and with what radius and depth.
pub proof fn recorded_shadows_tell_settings_apart(first: DropShadow, second: DropShadow)
    requires
        first.words() == second.words(),
    ensures
        first.color == second.color,
        first.offset == second.offset,
        match (first.blur, second.blur) {
            (Blur::Gaussian(one), Blur::Gaussian(other)) => one.reach() == other.reach(),
            (Blur::DualKawase(one), Blur::DualKawase(other)) => one.reach() == other.reach()
                && one.levels() == other.levels(),
            _ => false,
        },
{
    let (a, b) = (first.words(), second.words());
    let (u, v) = (first.blur.words(), second.blur.words());
    assert(a[0] == InputWord::Float(first.color.red) && b[0] == InputWord::Float(second.color.red));
    assert(a[1] == InputWord::Float(first.color.green) && b[1] == InputWord::Float(
        second.color.green,
    ));
    assert(a[2] == InputWord::Float(first.color.blue) && b[2] == InputWord::Float(
        second.color.blue,
    ));
    assert(a[3] == InputWord::Float(first.color.alpha) && b[3] == InputWord::Float(
        second.color.alpha,
    ));
    assert(a[4] == InputWord::Float(first.offset.x) && b[4] == InputWord::Float(second.offset.x));
    assert(a[5] == InputWord::Float(first.offset.y) && b[5] == InputWord::Float(second.offset.y));
    assert(a.len() == 6 + u.len() && b.len() == 6 + v.len());
    assert(a[6] == u[0] && b[6] == v[0]);
    assert(a[7] == u[1] && b[7] == v[1]);
    if u.len() > 2 && v.len() > 2 {
        assert(a[8] == u[2] && b[8] == v[2]);
    }
}

/// Fade distances are used as they are up to 4096 logical pixels, and that many for larger
/// ones. A negative distance, or one that is no number, is none.
pub proof fn fades_are_used_up_to_their_limit(distance: u32)
    ensures
        distance % 0x8000_0000 > 0x7f80_0000 ==> units(limited(distance, FADE_LIMIT)) == 0,
        distance % 0x8000_0000 <= 0x7f80_0000 ==> units(limited(distance, FADE_LIMIT)) == (if units(
            distance,
        ) <= 0 {
            0
        } else if units(distance) <= 4096 * one() {
            units(distance)
        } else {
            4096 * one()
        }),
{
    vstd::arithmetic::power2::lemma2_to64();
    crate::rounding::powers_of_two_are_exact(FADE_LIMIT, 12);
    crate::rounding::limiting_clamps_values(distance, FADE_LIMIT);
}

} // verus!
