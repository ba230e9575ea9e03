use vstd::prelude::*;

verus! {

/// One RGBA8 pixel: red, green, blue, alpha.
pub type Pixel = (u8, u8, u8, u8);

/// One palette entry: red, green, blue.
pub type Rgb = (u8, u8, u8);

/// Number of entries in the gradient.
pub const PALETTE_SIZE: usize = 16;

/// The continuous iteration index is carried in fixed point with this many
/// steps per whole iteration.
pub const INDEX_STEPS: i64 = 256;

/// Outcome of evaluating one pixel.
#[derive(Clone, Copy, Debug, PartialEq, Eq, Structural)]
pub enum EscapeResult {
    /// The orbit stayed bounded up to the iteration cap.
    Interior,
    /// The orbit escaped; `smooth` is the continuous (smoothed) iteration
    /// count in units of `1 / INDEX_STEPS`.
    Escaped { smooth: i64 },
}

/// The hand-tuned gradient.
pub open spec fn palette(i: int) -> Rgb {
    if i == 0 { (66, 30, 15) }
    else if i == 1 { (25, 7, 26) }
    else if i == 2 { (9, 1, 47) }
    else if i == 3 { (4, 4, 73) }
    else if i == 4 { (0, 7, 100) }
    else if i == 5 { (12, 44, 138) }
    else if i == 6 { (24, 82, 177) }
    else if i == 7 { (57, 125, 209) }
    else if i == 8 { (134, 181, 229) }
    else if i == 9 { (211, 236, 248) }
    else if i == 10 { (241, 233, 191) }
    else if i == 11 { (248, 201, 95) }
    else if i == 12 { (255, 170, 0) }
    else if i == 13 { (204, 128, 0) }
    else if i == 14 { (153, 87, 0) }
    else { (106, 52, 3) }
}

/// The colour of every pixel that does not escape.
pub open spec fn interior_pixel() -> Pixel {
    (0, 0, 0, 255)
}

/// Linear interpolation of one channel from `a` (at `t == 0`) towards `b`
/// (at `t == INDEX_STEPS`), rounded down.
#[verifier::opaque]
pub open spec fn lerp(a: int, b: int, t: int) -> int {
    (a * (256 - t) + b * t) / 256
}

/// Palette colour for a continuous index given in `1 / INDEX_STEPS` units:
/// the whole part selects an entry (modulo the palette size), the fraction
/// blends it with the next entry.
pub open spec fn color_of(index: int) -> Pixel {
    let i = (index / 256) % 16;
    let t = index % 256;
    let a = palette(i);
    let b = palette((i + 1) % 16);
    (
        lerp(a.0 as int, b.0 as int, t) as u8,
        lerp(a.1 as int, b.1 as int, t) as u8,
        lerp(a.2 as int, b.2 as int, t) as u8,
        255,
    )
}

/// Colour of an evaluation result.
pub open spec fn shade_of(r: EscapeResult) -> Pixel {
    match r {
        EscapeResult::Interior => interior_pixel(),
        EscapeResult::Escaped { smooth } => color_of(smooth as int),
    }
}

/// Entry `i` of the gradient.
pub fn palette_entry(i: usize) -> (r: Rgb)
    requires
        i < PALETTE_SIZE,
    ensures
        r == palette(i as int),
{
    match i {
        0 => (66, 30, 15),
        1 => (25, 7, 26),
        2 => (9, 1, 47),
        3 => (4, 4, 73),
        4 => (0, 7, 100),
        5 => (12, 44, 138),
        6 => (24, 82, 177),
        7 => (57, 125, 209),
        8 => (134, 181, 229),
        9 => (211, 236, 248),
        10 => (241, 233, 191),
        11 => (248, 201, 95),
        12 => (255, 170, 0),
        13 => (204, 128, 0),
        14 => (153, 87, 0),
        _ => (106, 52, 3),
    }
}

proof fn lemma_lerp_bounds(a: int, b: int, t: int)
    requires
        0 <= a <= 255,
        0 <= b <= 255,
        0 <= t < 256,
    ensures
        0 <= lerp(a, b, t) <= 255,
{
    reveal(lerp);
    assert(0 <= a * (256 - t)) by (nonlinear_arith)
        requires 0 <= a, 0 <= 256 - t;
    assert(0 <= b * t) by (nonlinear_arith)
        requires 0 <= b, 0 <= t;
    assert(a * (256 - t) + b * t <= 255 * 256) by (nonlinear_arith)
        requires a <= 255, b <= 255, 0 <= t < 256, 0 <= a, 0 <= b;
}

fn lerp_channel(a: u8, b: u8, t: u32) -> (r: u8)
    requires
        t < 256,
    ensures
        r as int == lerp(a as int, b as int, t as int),
{
    proof {
        reveal(lerp);
        lemma_lerp_bounds(a as int, b as int, t as int);
        assert((a as int) * (256 - t as int) <= 255 * 256) by (nonlinear_arith)
            requires a <= 255, t < 256;
        assert((b as int) * (t as int) <= 255 * 256) by (nonlinear_arith)
            requires b <= 255, t < 256;
    }
    let v: u32 = (a as u32) * (256 - t) + (b as u32) * t;
    (v / 256) as u8
}

/// Splits a continuous index into its palette entry and blend fraction.
fn split_index(index: i64) -> (r: (usize, u32))
    ensures
        r.0 as int == (index as int / 256) % 16,
        r.1 as int == index as int % 256,
        r.0 < 16,
        r.1 < 256,
{
    if index >= 0 {
        let u: u64 = index as u64;
        (((u / 256) % 16) as usize, (u % 256) as u32)
    } else {
        let neg: u64 = (-(index + 1)) as u64;
        let q: u64 = neg / 256;
        let b: u64 = neg % 256;
        proof {
            let n = neg as int;
            assert(n == 256 * (q as int) + b as int);
            assert(index as int == 256 * (-(q as int) - 1) + (255 - b as int));
            vstd::arithmetic::div_mod::lemma_fundamental_div_mod_converse(
                index as int, 256, -(q as int) - 1, 255 - b as int);
            let qq = q as int;
            assert(qq == 16 * (qq / 16) + qq % 16);
            assert(-qq - 1 == 16 * (-(qq / 16) - 1) + (15 - qq % 16));
            vstd::arithmetic::div_mod::lemma_fundamental_div_mod_converse(
                -qq - 1, 16, -(qq / 16) - 1, 15 - qq % 16);
        }
        (15 - (q % 16) as usize, 255 - b as u32)
    }
}

/// Colour for a continuous iteration index in `1 / INDEX_STEPS` units.
pub fn color_for(index: i64) -> (r: Pixel)
    ensures
        r == color_of(index as int),
{
    let (entry, t) = split_index(index);
    let next: usize = if entry == 15 { 0 } else { entry + 1 };
    assert(next as int == (entry as int + 1) % 16);
    let a = palette_entry(entry);
    let b = palette_entry(next);
    let red = lerp_channel(a.0, b.0, t);
    let green = lerp_channel(a.1, b.1, t);
    let blue = lerp_channel(a.2, b.2, t);
    (red, green, blue, 255)
}

/// Colour of an evaluation result: the fixed interior colour, or the
/// palette colour of the escaped pixel's continuous index.
pub fn shade(r: EscapeResult) -> (p: Pixel)
    ensures
        p == shade_of(r),
{
    match r {
        EscapeResult::Interior => (0, 0, 0, 255),
        EscapeResult::Escaped { smooth } => color_for(smooth),
    }
}

} // verus!
