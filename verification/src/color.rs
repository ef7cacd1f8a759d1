//! RGBA colors and source-over-destination compositing.

use vstd::prelude::*;

verus! {

/// An RGBA color with 8 bits per channel; `a == 0` is fully transparent.
#[derive(Debug, Clone, Copy, PartialEq, Eq, Structural, Hash, Default)]
pub struct Rgba {
    pub r: u8,
    pub g: u8,
    pub b: u8,
    pub a: u8,
}

/// The combined coverage of a source of alpha `sa` over a destination of
/// alpha `da`, scaled by 255: a value in `255..=65025` when `da > 0`.
pub open spec fn blend_alpha(sa: int, da: int) -> int {
    sa * 255 + da * 255 - (da * 255) * (sa * 255) / (255int * 255)
}

/// The alpha-weighted sum of one color channel of the source (`s`, alpha
/// `sa`) and of the destination (`d`, alpha `da`).
pub open spec fn blend_weight(s: int, sa: int, d: int, da: int) -> int {
    s * sa + d * da - (d * da) * (sa * 255) / (255int * 255)
}

/// One channel of the composite: the weighted sum divided by the coverage.
pub open spec fn blend_channel(s: int, sa: int, d: int, da: int) -> int {
    blend_weight(s, sa, d, da) * 255 * 255 / blend_alpha(sa, da) / 255
}

/// Source-over-destination compositing of `src` over `dst`.
///
/// A transparent destination leaves the source as it is.
pub open spec fn blend(src: Rgba, dst: Rgba) -> Rgba {
    if dst.a == 0 {
        src
    } else {
        Rgba {
            r: blend_channel(src.r as int, src.a as int, dst.r as int, dst.a as int) as u8,
            g: blend_channel(src.g as int, src.a as int, dst.g as int, dst.a as int) as u8,
            b: blend_channel(src.b as int, src.a as int, dst.b as int, dst.a as int) as u8,
            a: (blend_alpha(src.a as int, dst.a as int) / 255) as u8,
        }
    }
}

/// The coverage of a composite over a visible destination lies between
/// 255 and 65025, so dividing by it is defined and its quotient by 255 is
/// a valid, non-zero alpha.
pub proof fn lemma_blend_alpha_bounds(sa: int, da: int)
    requires
        0 <= sa <= 255,
        1 <= da <= 255,
    ensures
        blend_alpha(sa, da) == 255 * sa + da * (255 - sa),
        255 <= blend_alpha(sa, da) <= 65025,
        1 <= blend_alpha(sa, da) / 255 <= 255,
{
    assert((da * 255) * (sa * 255) == (da * sa) * (255 * 255)) by (nonlinear_arith);
    assert((da * sa) * (255 * 255) / (255int * 255) == da * sa) by (nonlinear_arith);
    assert(sa * 255 + da * 255 - da * sa == 255 * sa + da * (255 - sa)) by (nonlinear_arith);
    assert(0 <= da * (255 - sa) <= 255 * (255 - sa)) by (nonlinear_arith)
        requires
            0 <= sa <= 255,
            1 <= da <= 255,
    ;
    assert(da * (255 - sa) >= 255 - sa) by (nonlinear_arith)
        requires
            0 <= sa <= 255,
            1 <= da <= 255,
    ;
}

/// The weighted sum of a channel never exceeds the coverage, so each
/// channel of a composite fits in eight bits and the 32-bit products that
/// compute it stay below `2^32`.
pub proof fn lemma_blend_channel_bounds(s: int, sa: int, d: int, da: int)
    requires
        0 <= s <= 255,
        0 <= sa <= 255,
        0 <= d <= 255,
        1 <= da <= 255,
    ensures
        0 <= blend_weight(s, sa, d, da) <= blend_alpha(sa, da),
        blend_weight(s, sa, d, da) * 255 * 255 <= 0xffff_ffff,
        0 <= blend_channel(s, sa, d, da) <= 255,
{
    lemma_blend_alpha_bounds(sa, da);
    let a = blend_alpha(sa, da);
    let w = blend_weight(s, sa, d, da);
    let q = (d * da) * (sa * 255) / (255int * 255);
    let n = (d * da) * (sa * 255);
    assert(0 <= d * da <= 255 * da) by (nonlinear_arith)
        requires
            0 <= d <= 255,
            1 <= da <= 255,
    ;
    assert(0 <= n) by (nonlinear_arith)
        requires
            n == (d * da) * (sa * 255),
            0 <= d * da,
            0 <= sa,
    ;
    assert(n <= (d * da) * (255 * 255)) by (nonlinear_arith)
        requires
            n == (d * da) * (sa * 255),
            0 <= d * da,
            0 <= sa <= 255,
    ;
    // q is the floor of n / 65025, so 65025 * q <= n < 65025 * (q + 1).
    assert(q * 65025 <= n && n < (q + 1) * 65025) by (nonlinear_arith)
        requires
            q == n / (255int * 255),
            0 <= n,
    ;
    assert(q <= d * da) by (nonlinear_arith)
        requires
            q * 65025 <= n,
            n <= (d * da) * (255 * 255),
    ;
    // 255 * (d * da - q) < d * da * (255 - sa) + 255, hence d * da - q <= da * (255 - sa).
    assert(255 * (d * da - q) * 255 < (d * da) * (255 - sa) * 255 + 65025) by (nonlinear_arith)
        requires
            n == (d * da) * (sa * 255),
            n < (q + 1) * 65025,
    ;
    assert((d * da) * (255 - sa) <= (255 * da) * (255 - sa)) by (nonlinear_arith)
        requires
            0 <= d * da <= 255 * da,
            0 <= sa <= 255,
    ;
    assert(d * da - q <= da * (255 - sa)) by (nonlinear_arith)
        requires
            255 * (d * da - q) * 255 < (d * da) * (255 - sa) * 255 + 65025,
            (d * da) * (255 - sa) <= (255 * da) * (255 - sa),
    ;
    assert(0 <= s * sa <= 255 * sa) by (nonlinear_arith)
        requires
            0 <= s <= 255,
            0 <= sa <= 255,
    ;
    assert(0 <= w <= a);
    assert(w * 255 * 255 <= 65025 * 65025) by (nonlinear_arith)
        requires
            0 <= w <= 65025,
    ;
    assert(0 <= w * 255 * 255 / a <= 65025) by (nonlinear_arith)
        requires
            0 <= w <= a,
            255 <= a,
    ;
    assert(0 <= (w * 255 * 255 / a) / 255 <= 255) by (nonlinear_arith)
        requires
            0 <= w * 255 * 255 / a <= 65025,
    ;
}

/// Compositing over a visible destination gives a visible color.
pub proof fn lemma_blend_visible(src: Rgba, dst: Rgba)
    requires
        dst.a != 0,
    ensures
        blend(src, dst).a != 0,
{
    lemma_blend_alpha_bounds(src.a as int, dst.a as int);
}

impl Rgba {
    pub fn new(r: u8, g: u8, b: u8, a: u8) -> (color: Rgba)
        ensures
            color == (Rgba { r, g, b, a }),
    {
        Rgba { r, g, b, a }
    }

    /// Composites `self` over `dst`. Over a visible destination every
    /// channel of the composite is the quotient that `blend` names, whole,
    /// and the composite is visible.
    pub fn alpha_blend(self, dst: Rgba) -> (out: Rgba)
        ensures
            out == blend(self, dst),
            dst.a != 0 ==> {
                &&& out.a != 0
                &&& out.a == blend_alpha(self.a as int, dst.a as int) / 255
                &&& out.r == blend_channel(self.r as int, self.a as int, dst.r as int, dst.a as int)
                &&& out.g == blend_channel(self.g as int, self.a as int, dst.g as int, dst.a as int)
                &&& out.b == blend_channel(self.b as int, self.a as int, dst.b as int, dst.a as int)
            },
    {
        proof {
            if dst.a != 0 {
                lemma_blend_alpha_bounds(self.a as int, dst.a as int);
                lemma_blend_channel_bounds(self.r as int, self.a as int, dst.r as int, dst.a as int);
                lemma_blend_channel_bounds(self.g as int, self.a as int, dst.g as int, dst.a as int);
                lemma_blend_channel_bounds(self.b as int, self.a as int, dst.b as int, dst.a as int);
            }
        }
        over(self, dst)
    }
}

/// Calls `pagurus::image::Rgba::alpha_blend`, which composites `src` over
/// `dst`: it returns `src` when `dst` is transparent, and otherwise
/// computes in 32-bit integers the coverage and the weighted sum of each
/// channel and divides, exactly as `blend` writes it out.
#[verifier::external_body]
fn over(src: Rgba, dst: Rgba) -> (out: Rgba)
    ensures
        out == blend(src, dst),
{
    let s = pagurus::image::Rgba::new(src.r, src.g, src.b, src.a);
    let d = pagurus::image::Rgba::new(dst.r, dst.g, dst.b, dst.a);
    let c = s.alpha_blend(d);
    Rgba { r: c.r, g: c.g, b: c.b, a: c.a }
}

} // verus!
