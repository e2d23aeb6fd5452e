use pixel_sort::color::{fraction_le, Attribute, Fraction, Pixel, Rgb};
use pixel_sort::grid::{direction_axis, direction_order, sort_pixels, Axis, SortDirection};
use pixel_sort::mask::{build_mask, color_in_band};
use pixel_sort::span::{key_before_exec, sort_span, Order};

/// A small linear congruential generator, so that the data is the same on
/// every run.
struct Lcg(u64);

impl Lcg {
    fn next(&mut self) -> u8 {
        self.0 = self.0.wrapping_mul(6364136223846793005).wrapping_add(1442695040888963407);
        (self.0 >> 33) as u8
    }
}

fn random_image(seed: u64, n: usize) -> Vec<Pixel> {
    let mut g = Lcg(seed);
    (0..n).map(|_| Pixel { r: g.next(), g: g.next(), b: g.next(), a: g.next() }).collect()
}

fn sorted_copy(mut v: Vec<(u8, u8, u8)>) -> Vec<(u8, u8, u8)> {
    v.sort();
    v
}

#[test]
fn fractions_compare_exactly() {
    assert!(fraction_le(Fraction { num: 1, den: 3 }, Fraction { num: 2, den: 6 }));
    assert!(fraction_le(Fraction { num: 1, den: 3 }, Fraction { num: 34, den: 100 }));
    assert!(!fraction_le(Fraction { num: 34, den: 100 }, Fraction { num: 1, den: 3 }));
    assert!(fraction_le(Fraction { num: u32::MAX, den: u32::MAX }, Fraction { num: 1, den: 1 }));
    assert!(!fraction_le(Fraction { num: u32::MAX, den: u32::MAX - 1 }, Fraction { num: 1, den: 1 }));
}

#[test]
fn band_membership_of_one_colour() {
    let c = Rgb { r: 128, g: 0, b: 0 };
    assert!(color_in_band(c, Attribute::Red, Fraction { num: 1, den: 2 }, Fraction { num: 1, den: 1 }));
    assert!(!color_in_band(c, Attribute::Red, Fraction { num: 129, den: 255 }, Fraction { num: 1, den: 1 }));
    assert!(color_in_band(c, Attribute::Saturation, Fraction { num: 1, den: 1 }, Fraction { num: 1, den: 1 }));
}

#[test]
fn directions_split_into_axis_and_order() {
    assert_eq!(direction_axis(SortDirection::Left), Axis::Rows);
    assert_eq!(direction_axis(SortDirection::Right), Axis::Rows);
    assert_eq!(direction_axis(SortDirection::Up), Axis::Columns);
    assert_eq!(direction_axis(SortDirection::Down), Axis::Columns);
    assert_eq!(direction_order(SortDirection::Left), Order::Descending);
    assert_eq!(direction_order(SortDirection::Up), Order::Descending);
    assert_eq!(direction_order(SortDirection::Right), Order::Ascending);
    assert_eq!(direction_order(SortDirection::Down), Order::Ascending);
}

#[test]
fn key_order_follows_direction() {
    let dark = Rgb { r: 10, g: 0, b: 0 };
    let bright = Rgb { r: 200, g: 0, b: 0 };
    assert!(key_before_exec(dark, bright, Attribute::Red, Order::Ascending));
    assert!(!key_before_exec(bright, dark, Attribute::Red, Order::Ascending));
    assert!(key_before_exec(bright, dark, Attribute::Red, Order::Descending));
    assert!(key_before_exec(dark, dark, Attribute::Red, Order::Descending));
}

#[test]
fn sort_span_touches_only_its_range() {
    let mut line: Vec<Rgb> = [9u8, 8, 7, 6, 5, 4].iter().map(|&r| Rgb { r, g: 0, b: 0 }).collect();
    sort_span(&mut line, 1, 5, Attribute::Red, Order::Ascending);
    let r: Vec<u8> = line.iter().map(|c| c.r).collect();
    assert_eq!(r, vec![9, 5, 6, 7, 8, 4]);
    sort_span(&mut line, 3, 3, Attribute::Red, Order::Descending);
    let r2: Vec<u8> = line.iter().map(|c| c.r).collect();
    assert_eq!(r2, r);
}

#[test]
fn large_image_rows_are_sorted_permutations() {
    let (w, h) = (1500usize, 3usize);
    let input = random_image(7, w * h);
    let mask = build_mask(&input, Attribute::Green, Fraction { num: 1, den: 10 }, Fraction { num: 1, den: 1 });
    let mut out = input.clone();
    sort_pixels(&mut out, &mask, w, h, Attribute::Blue, SortDirection::Right);
    for i in 0..w * h {
        assert_eq!(out[i].a, input[i].a);
        if !mask[i] {
            assert_eq!(out[i], input[i]);
        }
    }
    // Check every span of every row.
    for y in 0..h {
        let mut x = 0;
        while x < w {
            if !mask[y * w + x] {
                x += 1;
                continue;
            }
            let mut e = x;
            while e < w && mask[y * w + e] {
                e += 1;
            }
            let before: Vec<(u8, u8, u8)> = (x..e).map(|k| (input[y * w + k].r, input[y * w + k].g, input[y * w + k].b)).collect();
            let after: Vec<(u8, u8, u8)> = (x..e).map(|k| (out[y * w + k].r, out[y * w + k].g, out[y * w + k].b)).collect();
            assert_eq!(sorted_copy(before), sorted_copy(after.clone()));
            assert!(after.windows(2).all(|p| p[0].2 <= p[1].2));
            x = e;
        }
    }
}

#[test]
fn large_image_columns_sort_by_hue_descending() {
    let (w, h) = (4usize, 1200usize);
    let input = random_image(11, w * h);
    let mask = vec![true; w * h];
    let mut out = input.clone();
    sort_pixels(&mut out, &mask, w, h, Attribute::Hue, SortDirection::Up);
    for x in 0..w {
        let before: Vec<(u8, u8, u8)> = (0..h).map(|y| (input[y * w + x].r, input[y * w + x].g, input[y * w + x].b)).collect();
        let after: Vec<(u8, u8, u8)> = (0..h).map(|y| (out[y * w + x].r, out[y * w + x].g, out[y * w + x].b)).collect();
        assert_eq!(sorted_copy(before), sorted_copy(after.clone()));
        for y in 1..h {
            let a = Rgb { r: after[y - 1].0, g: after[y - 1].1, b: after[y - 1].2 };
            let b = Rgb { r: after[y].0, g: after[y].1, b: after[y].2 };
            assert!(key_before_exec(a, b, Attribute::Hue, Order::Descending));
        }
    }
}

#[test]
fn empty_image_is_a_no_op() {
    let mut out: Vec<Pixel> = Vec::new();
    sort_pixels(&mut out, &Vec::new(), 0, 5, Attribute::Red, SortDirection::Down);
    assert!(out.is_empty());
    sort_pixels(&mut out, &Vec::new(), 5, 0, Attribute::Red, SortDirection::Left);
    assert!(out.is_empty());
}
