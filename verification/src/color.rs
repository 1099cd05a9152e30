//! Colours for entities, chosen from the order in which entities first appear.
//!
//! A colour is a hue on the colour wheel, held as a 32-bit binary fraction of a
//! full turn, together with one saturation and one value that all entities
//! share. Consecutive entities are one golden-ratio step apart on the wheel.
use vstd::prelude::*;
use vstd::arithmetic::div_mod::{lemma_mul_mod_noop_left, lemma_mod_multiples_vanish, lemma_small_mod};

verus! {

/// The golden-ratio conjugate (about 0.6180339887) as a 32-bit fraction of a turn.
pub const HUE_STEP: u64 = 2654435769;

/// The number of hue units in one full turn of the colour wheel.
pub const HUE_TURN: u64 = 4294967296;

/// The number that undoes a multiplication by `HUE_STEP` modulo `HUE_TURN`.
pub const HUE_STEP_INVERSE: u64 = 340573321;

/// Saturation of every assigned colour, in percent.
pub const SATURATION_PERCENT: u8 = 85;

/// Value (brightness) of every assigned colour, in percent.
pub const VALUE_PERCENT: u8 = 50;

/// A colour of full opacity with the shared saturation and value.
/// `hue` counts units of `1 / HUE_TURN` of a turn.
#[derive(Clone, Copy, Debug, PartialEq, Eq, Structural)]
pub struct Color {
    pub hue: u32,
}

/// The hue of the entity that is introduced after `index` others:
/// `index` golden-ratio steps round the wheel, reduced to one turn.
pub open spec fn hue_at(index: nat) -> nat {
    (index * (HUE_STEP as nat)) % (HUE_TURN as nat)
}

/// The colour of the entity that is introduced after `index` others.
pub open spec fn color_at(index: nat) -> Color {
    Color { hue: hue_at(index) as u32 }
}

/// Computes the colour of the entity that is introduced after `index` others.
pub fn auto_color(index: usize) -> (c: Color)
    ensures
        c == color_at(index as nat),
        c.hue as nat == hue_at(index as nat),
{
    let turn: u64 = HUE_TURN;
    let step: u64 = HUE_STEP;
    let wide: u64 = index as u64;
    let reduced: u64 = wide % turn;
    assert(reduced * step < 0x1_0000_0000_0000_0000) by (nonlinear_arith)
        requires
            reduced < 4294967296,
            step == 2654435769,
    ;
    let product: u64 = reduced * step;
    let hue: u64 = product % turn;
    proof {
        lemma_mul_mod_noop_left(index as int, step as int, turn as int);
    }
    Color { hue: hue as u32 }
}

/// Multiplying a hue by `HUE_STEP_INVERSE` gives back the index it came from,
/// up to whole turns.
pub proof fn lemma_hue_inverts(index: nat)
    ensures
        (hue_at(index) * (HUE_STEP_INVERSE as nat)) % (HUE_TURN as nat) == index % (HUE_TURN as nat),
{
    let t = HUE_TURN as int;
    let k = HUE_STEP as int;
    let v = HUE_STEP_INVERSE as int;
    let i = index as int;
    lemma_mul_mod_noop_left(i * k, v, t);
    assert(k * v == 210485888 * t + 1) by (nonlinear_arith)
        requires
            k == 2654435769,
            v == 340573321,
            t == 4294967296,
    ;
    assert((i * k) * v == t * (210485888 * i) + i) by (nonlinear_arith)
        requires
            k * v == 210485888 * t + 1,
    ;
    lemma_mod_multiples_vanish(210485888 * i, i, t);
}

/// Colour distinctness: two different entities among the first `HUE_TURN`
/// introduced never receive the same colour.
pub proof fn lemma_colors_distinct(i: nat, j: nat)
    requires
        i != j,
        i < HUE_TURN,
        j < HUE_TURN,
    ensures
        hue_at(i) != hue_at(j),
        color_at(i) != color_at(j),
{
    lemma_hue_inverts(i);
    lemma_hue_inverts(j);
    lemma_small_mod(i, HUE_TURN as nat);
    lemma_small_mod(j, HUE_TURN as nat);
}

} // verus!
