use vstd::prelude::*;

verus! {

/// The colour of a pixel, without its alpha channel.
#[derive(Clone, Copy, Debug, PartialEq, Eq, Structural)]
pub struct Rgb {
    pub r: u8,
    pub g: u8,
    pub b: u8,
}

/// One pixel of an image buffer: a colour and its alpha channel.
#[derive(Clone, Copy, Debug, PartialEq, Eq, Structural)]
pub struct Pixel {
    pub r: u8,
    pub g: u8,
    pub b: u8,
    pub a: u8,
}

impl Pixel {
    pub open spec fn rgb(self) -> Rgb {
        Rgb { r: self.r, g: self.g, b: self.b }
    }

    pub fn color(&self) -> (c: Rgb)
        ensures
            c == self.rgb(),
    {
        Rgb { r: self.r, g: self.g, b: self.b }
    }

    pub fn with_color(&self, c: Rgb) -> (p: Pixel)
        ensures
            p.rgb() == c,
            p.a == self.a,
    {
        Pixel { r: c.r, g: c.g, b: c.b, a: self.a }
    }
}

/// A non-negative rational number `num / den`; well formed when `den > 0`.
#[derive(Clone, Copy, Debug, PartialEq, Eq, Structural)]
pub struct Fraction {
    pub num: u32,
    pub den: u32,
}

impl Fraction {
    pub open spec fn wf(self) -> bool {
        self.den > 0
    }

    /// The fraction as a pair (numerator, denominator) of mathematical integers.
    pub open spec fn pair(self) -> (int, int) {
        (self.num as int, self.den as int)
    }
}

/// `a <= b` for rationals given as (numerator, positive denominator).
pub open spec fn ratio_le(a: (int, int), b: (int, int)) -> bool {
    a.0 * b.1 <= b.0 * a.1
}

/// Comparison of rationals with positive denominators is transitive.
pub proof fn lemma_ratio_le_transitive(a: (int, int), b: (int, int), c: (int, int))
    requires
        a.1 > 0,
        b.1 > 0,
        c.1 > 0,
        ratio_le(a, b),
        ratio_le(b, c),
    ensures
        ratio_le(a, c),
{
    assert(a.0 * b.1 * c.1 <= b.0 * a.1 * c.1) by (nonlinear_arith)
        requires
            a.0 * b.1 <= b.0 * a.1,
            c.1 > 0,
    ;
    assert(b.0 * c.1 * a.1 <= c.0 * b.1 * a.1) by (nonlinear_arith)
        requires
            b.0 * c.1 <= c.0 * b.1,
            a.1 > 0,
    ;
    assert(a.0 * c.1 <= c.0 * a.1) by (nonlinear_arith)
        requires
            a.0 * b.1 * c.1 <= b.0 * a.1 * c.1,
            b.0 * c.1 * a.1 <= c.0 * b.1 * a.1,
            b.1 > 0,
    ;
}

/// Compares two fractions exactly, by cross-multiplication.
pub fn fraction_le(a: Fraction, b: Fraction) -> (r: bool)
    ensures
        r == ratio_le(a.pair(), b.pair()),
{
    let x: u64 = a.num as u64;
    let y: u64 = b.den as u64;
    let z: u64 = b.num as u64;
    let w: u64 = a.den as u64;
    assert(x * y <= 0xffff_ffffu64 * 0xffff_ffffu64) by (nonlinear_arith)
        requires
            x <= 0xffff_ffffu64,
            y <= 0xffff_ffffu64,
    ;
    assert(z * w <= 0xffff_ffffu64 * 0xffff_ffffu64) by (nonlinear_arith)
        requires
            z <= 0xffff_ffffu64,
            w <= 0xffff_ffffu64,
    ;
    x * y <= z * w
}

/// A per-pixel scalar: one colour channel, or one component of the HSV triple.
#[derive(Clone, Copy, Debug, PartialEq, Eq, Structural)]
pub enum Attribute {
    Red,
    Green,
    Blue,
    Hue,
    Saturation,
    Value,
}

/// The HSV triple of a colour: hue in degrees in [0, 360), saturation and value
/// in percent in [0, 100], each held exactly as a fraction.
#[derive(Clone, Copy, Debug, PartialEq, Eq, Structural)]
pub struct Hsv {
    pub hue: Fraction,
    pub saturation: Fraction,
    pub value: Fraction,
}

pub open spec fn max3(r: int, g: int, b: int) -> int {
    if r >= g && r >= b {
        r
    } else if g >= b {
        g
    } else {
        b
    }
}

pub open spec fn min3(r: int, g: int, b: int) -> int {
    if r <= g && r <= b {
        r
    } else if g <= b {
        g
    } else {
        b
    }
}

pub open spec fn max_channel(c: Rgb) -> int {
    max3(c.r as int, c.g as int, c.b as int)
}

/// The chroma `max - min` of the three channels, on the 0..=255 scale.
pub open spec fn chroma(c: Rgb) -> int {
    max_channel(c) - min3(c.r as int, c.g as int, c.b as int)
}

/// The hue in degrees multiplied by the chroma. The sector is picked by the
/// largest channel, red first, then green, then blue; a negative red-sector
/// angle is brought into [0, 360) by adding 360 degrees.
pub open spec fn hue_times_chroma(c: Rgb) -> int {
    let r = c.r as int;
    let g = c.g as int;
    let b = c.b as int;
    let d = chroma(c);
    let mx = max_channel(c);
    if d == 0 {
        0
    } else if mx == r {
        if g >= b {
            60 * (g - b)
        } else {
            360 * d + 60 * (g - b)
        }
    } else if mx == g {
        120 * d + 60 * (b - r)
    } else {
        240 * d + 60 * (r - g)
    }
}

/// The HSV triple of `c`, each component as (numerator, denominator):
/// hue = 60 * (sector offset) over the chroma (0 for a grey), saturation =
/// 100 * chroma / max (0 for black), value = 100 * max / 255.
pub open spec fn hsv_of(c: Rgb) -> ((int, int), (int, int), (int, int)) {
    let d = chroma(c);
    let mx = max_channel(c);
    (
        (hue_times_chroma(c), if d == 0 { 1 } else { d }),
        (100 * d, if mx == 0 { 1 } else { mx }),
        (100 * mx, 255),
    )
}

/// The attribute of `c` scaled into [0, 1]: channels divided by 255, hue by
/// 360, saturation and value by 100.
pub open spec fn normalized(c: Rgb, attr: Attribute) -> (int, int) {
    let hsv = hsv_of(c);
    match attr {
        Attribute::Red => (c.r as int, 255),
        Attribute::Green => (c.g as int, 255),
        Attribute::Blue => (c.b as int, 255),
        Attribute::Hue => (hsv.0.0, 360 * hsv.0.1),
        Attribute::Saturation => (hsv.1.0, 100 * hsv.1.1),
        Attribute::Value => (hsv.2.0, 100 * hsv.2.1),
    }
}

/// A scaled attribute is a fraction with a positive denominator.
pub proof fn lemma_normalized_den_positive(c: Rgb, attr: Attribute)
    ensures
        normalized(c, attr).1 > 0,
        normalized(c, attr).0 >= 0,
{
}

fn max_of3(r: u8, g: u8, b: u8) -> (m: u8)
    ensures
        m as int == max3(r as int, g as int, b as int),
{
    if r >= g && r >= b {
        r
    } else if g >= b {
        g
    } else {
        b
    }
}

fn min_of3(r: u8, g: u8, b: u8) -> (m: u8)
    ensures
        m as int == min3(r as int, g as int, b as int),
{
    if r <= g && r <= b {
        r
    } else if g <= b {
        g
    } else {
        b
    }
}

/// Converts a colour to its HSV triple, exactly.
pub fn rgb_to_hsv(c: Rgb) -> (hsv: Hsv)
    ensures
        hsv.hue.pair() == hsv_of(c).0,
        hsv.saturation.pair() == hsv_of(c).1,
        hsv.value.pair() == hsv_of(c).2,
        hsv.hue.wf(),
        hsv.saturation.wf(),
        hsv.value.wf(),
        hsv.hue.num < 360 * hsv.hue.den,
        hsv.saturation.num <= 100 * hsv.saturation.den,
        hsv.value.num <= 100 * hsv.value.den,
        hsv.hue.den <= 255,
        hsv.saturation.den <= 255,
        hsv.value.den == 255,
{
    let r = c.r as u32;
    let g = c.g as u32;
    let b = c.b as u32;
    let mx = max_of3(c.r, c.g, c.b) as u32;
    let mn = min_of3(c.r, c.g, c.b) as u32;
    let d = mx - mn;
    let hue = if d == 0 {
        Fraction { num: 0, den: 1 }
    } else if mx == r {
        if g >= b {
            Fraction { num: 60 * (g - b), den: d }
        } else {
            Fraction { num: 360 * d - 60 * (b - g), den: d }
        }
    } else if mx == g {
        if b >= r {
            Fraction { num: 120 * d + 60 * (b - r), den: d }
        } else {
            Fraction { num: 120 * d - 60 * (r - b), den: d }
        }
    } else {
        if r >= g {
            Fraction { num: 240 * d + 60 * (r - g), den: d }
        } else {
            Fraction { num: 240 * d - 60 * (g - r), den: d }
        }
    };
    let saturation = if mx == 0 {
        Fraction { num: 0, den: 1 }
    } else {
        Fraction { num: 100 * d, den: mx }
    };
    let value = Fraction { num: 100 * mx, den: 255 };
    Hsv { hue, saturation, value }
}

/// The attribute `attr` of `c`, scaled into [0, 1] as an exact fraction.
pub fn normalized_attribute(c: Rgb, attr: Attribute) -> (f: Fraction)
    ensures
        f.pair() == normalized(c, attr),
        f.wf(),
        f.num <= f.den,
{
    match attr {
        Attribute::Red => Fraction { num: c.r as u32, den: 255 },
        Attribute::Green => Fraction { num: c.g as u32, den: 255 },
        Attribute::Blue => Fraction { num: c.b as u32, den: 255 },
        Attribute::Hue => {
            let hsv = rgb_to_hsv(c);
            Fraction { num: hsv.hue.num, den: 360 * hsv.hue.den }
        },
        Attribute::Saturation => {
            let hsv = rgb_to_hsv(c);
            Fraction { num: hsv.saturation.num, den: 100 * hsv.saturation.den }
        },
        Attribute::Value => {
            let hsv = rgb_to_hsv(c);
            Fraction { num: hsv.value.num, den: 100 * hsv.value.den }
        },
    }
}

} // verus!
