use vstd::prelude::*;

use crate::color::{
    fraction_le, lemma_normalized_den_positive, lemma_ratio_le_transitive, normalized, normalized_attribute, ratio_le, Attribute, Fraction, Pixel, Rgb,
};

verus! {

/// Whether the attribute `attr` of `c`, scaled into [0, 1], lies in the
/// inclusive band `[lower, upper]`.
pub open spec fn in_band(c: Rgb, attr: Attribute, lower: Fraction, upper: Fraction) -> bool {
    ratio_le(lower.pair(), normalized(c, attr)) && ratio_le(normalized(c, attr), upper.pair())
}

/// The contrast mask of `pixels`: one entry per pixel, `true` where the pixel
/// is inside the band.
pub open spec fn mask_of(pixels: Seq<Pixel>, attr: Attribute, lower: Fraction, upper: Fraction) -> Seq<bool> {
    Seq::new(pixels.len(), |i: int| in_band(pixels[i].rgb(), attr, lower, upper))
}

/// Whether one colour lies inside the band.
pub fn color_in_band(c: Rgb, attr: Attribute, lower: Fraction, upper: Fraction) -> (r: bool)
    ensures
        r == in_band(c, attr, lower, upper),
{
    let v = normalized_attribute(c, attr);
    fraction_le(lower, v) && fraction_le(v, upper)
}

/// Classifies every pixel: `true` where its attribute `attr`, scaled into
/// [0, 1], lies in `[lower, upper]` (both ends included).
pub fn build_mask(pixels: &Vec<Pixel>, attr: Attribute, lower: Fraction, upper: Fraction) -> (mask: Vec<bool>)
    requires
        lower.wf(),
        upper.wf(),
    ensures
        mask@ == mask_of(pixels@, attr, lower, upper),
{
    let mut mask: Vec<bool> = Vec::with_capacity(pixels.len());
    let mut i: usize = 0;
    while i < pixels.len()
        invariant
            i <= pixels.len(),
            mask@ == mask_of(pixels@.take(i as int), attr, lower, upper),
        decreases pixels.len() - i,
    {
        let inside = color_in_band(pixels[i].color(), attr, lower, upper);
        mask.push(inside);
        i += 1;
        assert(mask@ =~= mask_of(pixels@.take(i as int), attr, lower, upper));
    }
    assert(pixels@.take(i as int) =~= pixels@);
    mask
}

/// The black and white picture of a mask: white where the mask is `true`,
/// black where it is `false`, opaque everywhere.
pub open spec fn mask_pixel(inside: bool) -> Pixel {
    if inside {
        Pixel { r: 255, g: 255, b: 255, a: 255 }
    } else {
        Pixel { r: 0, g: 0, b: 0, a: 255 }
    }
}

/// Renders a mask as pixels, one per entry, for a debugging picture.
pub fn mask_image(mask: &Vec<bool>) -> (pixels: Vec<Pixel>)
    ensures
        pixels@ == Seq::new(mask@.len(), |i: int| mask_pixel(mask@[i])),
{
    let mut pixels: Vec<Pixel> = Vec::with_capacity(mask.len());
    let mut i: usize = 0;
    while i < mask.len()
        invariant
            i <= mask.len(),
            pixels@ == Seq::new(i as nat, |k: int| mask_pixel(mask@[k])),
        decreases mask.len() - i,
    {
        let p = if mask[i] {
            Pixel { r: 255, g: 255, b: 255, a: 255 }
        } else {
            Pixel { r: 0, g: 0, b: 0, a: 255 }
        };
        pixels.push(p);
        i += 1;
        assert(pixels@ =~= Seq::new(i as nat, |k: int| mask_pixel(mask@[k])));
    }
    pixels
}

/// When the band is empty (`upper < lower`), no pixel is inside it.
pub proof fn lemma_empty_band_masks_nothing(pixels: Seq<Pixel>, attr: Attribute, lower: Fraction, upper: Fraction)
    requires
        lower.wf(),
        upper.wf(),
        !ratio_le(lower.pair(), upper.pair()),
    ensures
        forall|i: int| 0 <= i < pixels.len() ==> !#[trigger] mask_of(pixels, attr, lower, upper)[i],
{
    assert forall|i: int| 0 <= i < pixels.len() implies !#[trigger] mask_of(pixels, attr, lower, upper)[i] by {
        let v = normalized(pixels[i].rgb(), attr);
        lemma_normalized_den_positive(pixels[i].rgb(), attr);
        if ratio_le(lower.pair(), v) && ratio_le(v, upper.pair()) {
            lemma_ratio_le_transitive(lower.pair(), v, upper.pair());
        }
    }
}

} // verus!
