//! Opaque and translucent colors, and the truncating linear blend used to
//! composite a translucent paint over an opaque pixel.
use vstd::prelude::*;

verus! {

/// A color with an alpha channel: 0 is fully transparent, 255 fully opaque.
#[derive(Debug, Clone, Copy, PartialEq, Eq, Structural)]
pub struct RGBA {
    pub r: u8,
    pub g: u8,
    pub b: u8,
    pub a: u8,
}

/// An opaque color, the content of one pixel.
#[derive(Debug, Clone, Copy, PartialEq, Eq, Structural)]
pub struct RGB {
    pub r: u8,
    pub g: u8,
    pub b: u8,
}

/// One channel of `(1 - t) * base + t * over` with `t = num / den`,
/// truncated toward zero.
pub open spec fn mix(base: int, over: int, num: int, den: int) -> int {
    ((den - num) * base + num * over) / den
}

/// `base` moved toward `over` by the fraction `num / den`, channel by channel.
pub open spec fn lerp_spec(base: RGB, over: RGB, num: int, den: int) -> RGB {
    RGB {
        r: mix(base.r as int, over.r as int, num, den) as u8,
        g: mix(base.g as int, over.g as int, num, den) as u8,
        b: mix(base.b as int, over.b as int, num, den) as u8,
    }
}

/// The RGB part of a translucent color.
pub open spec fn opaque_part(c: RGBA) -> RGB {
    RGB { r: c.r, g: c.g, b: c.b }
}

/// `paint` composited over `base`: a blend by `paint.a / 255`.
pub open spec fn composite(base: RGB, paint: RGBA) -> RGB {
    lerp_spec(base, opaque_part(paint), paint.a as int, 255)
}

/// A blended channel stays within a byte, and so does its numerator over
/// `den`.
proof fn lemma_mix_bounds(base: int, over: int, num: int, den: int)
    requires
        0 <= base <= 255,
        0 <= over <= 255,
        0 <= num <= den,
        0 < den,
    ensures
        0 <= (den - num) * base + num * over <= den * 255,
        0 <= mix(base, over, num, den) <= 255,
{
    assert(0 <= (den - num) * base <= (den - num) * 255) by (nonlinear_arith)
        requires
            0 <= base <= 255,
            0 <= num <= den,
    ;
    assert(0 <= num * over <= num * 255) by (nonlinear_arith)
        requires
            0 <= over <= 255,
            0 <= num,
    ;
    let s = (den - num) * base + num * over;
    assert(s <= den * 255) by (nonlinear_arith)
        requires
            s <= (den - num) * 255 + num * 255,
    ;
    vstd::arithmetic::div_mod::lemma_div_is_ordered(s, den * 255, den);
    vstd::arithmetic::div_mod::lemma_div_multiples_vanish(255, den);
    vstd::arithmetic::div_mod::lemma_div_pos_is_pos(s, den);
}

/// Compositing an opaque paint gives the paint's own color, whatever lies
/// beneath.
pub proof fn lemma_opaque_paint_replaces(base: RGB, paint: RGBA)
    requires
        paint.a == 255,
    ensures
        composite(base, paint) == opaque_part(paint),
{
    assert forall|b: int, o: int| mix(b, o, 255, 255) == o by {
        assert((255 - 255) * b + 255 * o == o * 255) by (nonlinear_arith);
        vstd::arithmetic::div_mod::lemma_div_multiples_vanish(o, 255);
    }
}

/// Compositing a fully transparent paint leaves the color as it was.
pub proof fn lemma_transparent_paint_keeps(base: RGB, paint: RGBA)
    requires
        paint.a == 0,
    ensures
        composite(base, paint) == base,
{
    assert forall|b: int, o: int| mix(b, o, 0, 255) == b by {
        assert((255 - 0) * b + 0 * o == b * 255) by (nonlinear_arith);
        vstd::arithmetic::div_mod::lemma_div_multiples_vanish(b, 255);
    }
}

fn mix_channel(base: u8, over: u8, num: u32, den: u32) -> (r: u8)
    requires
        num <= den,
        0 < den,
    ensures
        r == mix(base as int, over as int, num as int, den as int),
{
    proof {
        lemma_mix_bounds(base as int, over as int, num as int, den as int);
    }
    let s: u64 = (den - num) as u64 * base as u64 + num as u64 * over as u64;
    (s / den as u64) as u8
}

impl RGBA {
    /// A translucent color from its four channels.
    pub fn new(r: u8, g: u8, b: u8, a: u8) -> (c: Self)
        ensures
            c == (RGBA { r, g, b, a }),
    {
        Self { r, g, b, a }
    }

    /// An opaque grey: all three color channels equal to `grey`.
    pub fn grey(grey: u8) -> (c: Self)
        ensures
            c == (RGBA { r: grey, g: grey, b: grey, a: 255 }),
    {
        Self { r: grey, g: grey, b: grey, a: 255 }
    }

    /// Splits the color into its opaque part and its alpha byte.
    pub fn to_rgb(self) -> (r: (RGB, u8))
        ensures
            r.0 == opaque_part(self),
            r.1 == self.a,
    {
        (RGB { r: self.r, g: self.g, b: self.b }, self.a)
    }
}

impl RGB {
    /// Composites the translucent `other` over this color: a blend by
    /// `other.a / 255`, each channel truncated.
    pub fn add_rgba(self, other: RGBA) -> (r: Self)
        ensures
            r == composite(self, other),
    {
        let (other, alpha) = other.to_rgb();
        self.lerp(&other, alpha as u32, 255)
    }

    /// Linear interpolation from `self` toward `other` by the fraction
    /// `num / den`: each channel is `((den - num) * self + num * other) / den`,
    /// truncated toward zero.
    pub fn lerp(&self, other: &Self, num: u32, den: u32) -> (r: Self)
        requires
            num <= den,
            0 < den,
        ensures
            r == lerp_spec(*self, *other, num as int, den as int),
    {
        RGB {
            r: mix_channel(self.r, other.r, num, den),
            g: mix_channel(self.g, other.g, num, den),
            b: mix_channel(self.b, other.b, num, den),
        }
    }
}

} // verus!
