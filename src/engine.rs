use vstd::prelude::*;

use crate::color::{ratio_le, Attribute, Fraction, Pixel};
use crate::grid::{image_sorted, sort_pixels, SortDirection};
use crate::mask::{build_mask, lemma_empty_band_masks_nothing, mask_of};

verus! {

/// What one run of the sorter does to every image: the direction, the sort
/// key, and the contrast band `[lower, upper]` over the contrast attribute.
#[derive(Clone, Copy, Debug, PartialEq, Eq, Structural)]
pub struct SortSettings {
    pub direction: SortDirection,
    pub sort_by: Attribute,
    pub contrast_type: Attribute,
    pub lower: Fraction,
    pub upper: Fraction,
}

impl SortSettings {
    pub open spec fn wf(self) -> bool {
        self.lower.wf() && self.upper.wf()
    }
}

/// Builds the contrast mask of a `width` by `height` row-major image, then
/// sorts every span of it in place. Returns the mask, for a debugging picture.
pub fn sort_image(pixels: &mut Vec<Pixel>, width: usize, height: usize, settings: &SortSettings) -> (mask: Vec<bool>)
    requires
        old(pixels)@.len() == width * height,
        settings.wf(),
    ensures
        mask@ == mask_of(old(pixels)@, settings.contrast_type, settings.lower, settings.upper),
        image_sorted(old(pixels)@, final(pixels)@, mask@, width as int, height as int, settings.sort_by, settings.direction),
{
    let mask = build_mask(pixels, settings.contrast_type, settings.lower, settings.upper);
    sort_pixels(pixels, &mask, width, height, settings.sort_by, settings.direction);
    mask
}

/// Sorting with a mask that includes no pixel leaves the image exactly as it
/// was.
pub proof fn lemma_sort_without_mask_is_identity(
    input: Seq<Pixel>,
    output: Seq<Pixel>,
    mask: Seq<bool>,
    width: int,
    height: int,
    sort_by: Attribute,
    direction: SortDirection,
)
    requires
        mask.len() == input.len(),
        forall|i: int| 0 <= i < mask.len() ==> !#[trigger] mask[i],
        image_sorted(input, output, mask, width, height, sort_by, direction),
    ensures
        output == input,
{
    assert forall|i: int| 0 <= i < input.len() implies output[i] == input[i] by {
        assert(!mask[i]);
    }
    assert(output =~= input);
}

/// Sorting an image with the mask of an empty band (`upper < lower`) leaves
/// the image exactly as it was.
pub proof fn lemma_empty_band_sort_is_identity(
    input: Seq<Pixel>,
    output: Seq<Pixel>,
    width: int,
    height: int,
    settings: SortSettings,
)
    requires
        settings.wf(),
        !ratio_le(settings.lower.pair(), settings.upper.pair()),
        image_sorted(
            input,
            output,
            mask_of(input, settings.contrast_type, settings.lower, settings.upper),
            width,
            height,
            settings.sort_by,
            settings.direction,
        ),
    ensures
        output == input,
{
    let mask = mask_of(input, settings.contrast_type, settings.lower, settings.upper);
    lemma_empty_band_masks_nothing(input, settings.contrast_type, settings.lower, settings.upper);
    lemma_sort_without_mask_is_identity(input, output, mask, width, height, settings.sort_by, settings.direction);
}

} // verus!
