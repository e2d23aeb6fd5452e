use vstd::prelude::*;
use vstd::arithmetic::div_mod::{lemma_fundamental_div_mod, lemma_fundamental_div_mod_converse};
use vstd::arithmetic::mul::lemma_mul_is_commutative;

use crate::color::{Attribute, Pixel, Rgb};
use crate::span::{sort_line, spans_sorted, Order};

verus! {

/// The four sort directions. Each fixes both the scan axis and the order:
/// left and up sort descending, right and down ascending.
#[derive(Clone, Copy, Debug, PartialEq, Eq, Structural)]
pub enum SortDirection {
    Left,
    Right,
    Up,
    Down,
}

/// Whether an image is scanned row by row or column by column.
#[derive(Clone, Copy, Debug, PartialEq, Eq, Structural)]
pub enum Axis {
    Rows,
    Columns,
}

pub open spec fn axis_of(d: SortDirection) -> Axis {
    match d {
        SortDirection::Left | SortDirection::Right => Axis::Rows,
        SortDirection::Up | SortDirection::Down => Axis::Columns,
    }
}

pub open spec fn order_of(d: SortDirection) -> Order {
    match d {
        SortDirection::Left | SortDirection::Up => Order::Descending,
        SortDirection::Right | SortDirection::Down => Order::Ascending,
    }
}

/// The scan axis of a direction.
pub fn direction_axis(d: SortDirection) -> (a: Axis)
    ensures
        a == axis_of(d),
{
    match d {
        SortDirection::Left | SortDirection::Right => Axis::Rows,
        SortDirection::Up | SortDirection::Down => Axis::Columns,
    }
}

/// The sort order of a direction.
pub fn direction_order(d: SortDirection) -> (o: Order)
    ensures
        o == order_of(d),
{
    match d {
        SortDirection::Left | SortDirection::Up => Order::Descending,
        SortDirection::Right | SortDirection::Down => Order::Ascending,
    }
}

/// How many scan lines a `width` by `height` image has along `axis`.
pub open spec fn line_count(axis: Axis, width: int, height: int) -> int {
    match axis {
        Axis::Rows => height,
        Axis::Columns => width,
    }
}

/// How many pixels one scan line holds.
pub open spec fn line_len(axis: Axis, width: int, height: int) -> int {
    match axis {
        Axis::Rows => width,
        Axis::Columns => height,
    }
}

/// The row-major index of the `t`-th pixel of scan line `k`.
pub open spec fn position(axis: Axis, width: int, k: int, t: int) -> int {
    match axis {
        Axis::Rows => k * width + t,
        Axis::Columns => t * width + k,
    }
}

/// The scan line that holds the pixel at row-major index `p`.
pub open spec fn line_index(axis: Axis, width: int, p: int) -> int {
    match axis {
        Axis::Rows => p / width,
        Axis::Columns => p % width,
    }
}

/// Where in its scan line the pixel at row-major index `p` stands.
pub open spec fn line_offset(axis: Axis, width: int, p: int) -> int {
    match axis {
        Axis::Rows => p % width,
        Axis::Columns => p / width,
    }
}

/// Scan line `k` of a row-major grid, in scan order.
pub open spec fn line_of<T>(s: Seq<T>, axis: Axis, width: int, height: int, k: int) -> Seq<T> {
    Seq::new(line_len(axis, width, height) as nat, |t: int| s[position(axis, width, k, t)])
}

/// The colours of a pixel sequence.
pub open spec fn colors(s: Seq<Pixel>) -> Seq<Rgb> {
    Seq::new(s.len(), |i: int| s[i].rgb())
}

/// `output` is `input` (a `width` by `height` row-major image) with every span
/// of `mask` sorted along the scan lines of `direction` by `sort_by`: pixels
/// outside the mask stay as they are, colours move only within their span and
/// are sorted there, and every alpha value stays at its place.
pub open spec fn image_sorted(
    input: Seq<Pixel>,
    output: Seq<Pixel>,
    mask: Seq<bool>,
    width: int,
    height: int,
    sort_by: Attribute,
    direction: SortDirection,
) -> bool {
    let axis = axis_of(direction);
    &&& output.len() == input.len()
    &&& forall|i: int| 0 <= i < input.len() ==> (#[trigger] output[i]).a == input[i].a
    &&& forall|i: int| 0 <= i < input.len() && !mask[i] ==> #[trigger] output[i] == input[i]
    &&& forall|k: int|
        0 <= k < line_count(axis, width, height) ==> spans_sorted(
            #[trigger] line_of(colors(input), axis, width, height, k),
            line_of(colors(output), axis, width, height, k),
            line_of(mask, axis, width, height, k),
            sort_by,
            order_of(direction),
        )
}

/// A pixel of scan line `k` lies in the grid, and belongs to line `k`.
pub proof fn lemma_position(axis: Axis, width: int, height: int, k: int, t: int)
    requires
        0 <= k < line_count(axis, width, height),
        0 <= t < line_len(axis, width, height),
    ensures
        0 <= position(axis, width, k, t) < width * height,
        line_index(axis, width, position(axis, width, k, t)) == k,
        line_offset(axis, width, position(axis, width, k, t)) == t,
{
    let p = position(axis, width, k, t);
    match axis {
        Axis::Rows => {
            assert(0 <= k * width + t < width * height) by (nonlinear_arith)
                requires
                    0 <= k < height,
                    0 <= t < width,
            ;
            lemma_fundamental_div_mod_converse(p, width, k, t);
        },
        Axis::Columns => {
            assert(0 <= t * width + k < width * height) by (nonlinear_arith)
                requires
                    0 <= t < height,
                    0 <= k < width,
            ;
            lemma_fundamental_div_mod_converse(p, width, t, k);
        },
    }
}

/// Every pixel of the grid belongs to exactly one place of one scan line.
pub proof fn lemma_index_position(axis: Axis, width: int, height: int, p: int)
    requires
        0 <= width,
        0 <= height,
        0 <= p < width * height,
    ensures
        0 <= line_index(axis, width, p) < line_count(axis, width, height),
        0 <= line_offset(axis, width, p) < line_len(axis, width, height),
        position(axis, width, line_index(axis, width, p), line_offset(axis, width, p)) == p,
{
    assert(width > 0) by (nonlinear_arith)
        requires
            0 <= width,
            0 <= height,
            0 <= p < width * height,
    ;
    lemma_fundamental_div_mod(p, width);
    let q = p / width;
    let r = p % width;
    assert(0 <= q < height) by (nonlinear_arith)
        requires
            p == width * q + r,
            0 <= r < width,
            0 <= p < width * height,
    ;
    lemma_mul_is_commutative(q, width);
}

fn position_exec(axis: Axis, width: usize, height: usize, k: usize, t: usize) -> (p: usize)
    requires
        width * height <= usize::MAX,
        k < line_count(axis, width as int, height as int),
        t < line_len(axis, width as int, height as int),
    ensures
        p == position(axis, width as int, k as int, t as int),
        p < width * height,
{
    proof {
        lemma_position(axis, width as int, height as int, k as int, t as int);
    }
    match axis {
        Axis::Rows => {
            assert(k * width <= k * width + t) by (nonlinear_arith)
                requires
                    t >= 0,
            ;
            k * width + t
        },
        Axis::Columns => {
            assert(t * width <= t * width + k) by (nonlinear_arith)
                requires
                    k >= 0,
            ;
            t * width + k
        },
    }
}

/// Sorts every span of `mask` along the scan lines of `direction`, by
/// `sort_by`, in place. Alpha values and pixels outside the mask stay where
/// they are.
pub fn sort_pixels(
    pixels: &mut Vec<Pixel>,
    mask: &Vec<bool>,
    width: usize,
    height: usize,
    sort_by: Attribute,
    direction: SortDirection,
)
    requires
        old(pixels)@.len() == width * height,
        mask@.len() == width * height,
    ensures
        image_sorted(old(pixels)@, final(pixels)@, mask@, width as int, height as int, sort_by, direction),
{
    let ghost orig = pixels@;
    let ghost n = orig.len() as int;
    let ghost w = width as int;
    let ghost h = height as int;
    let axis = direction_axis(direction);
    let order = direction_order(direction);
    let count = match axis {
        Axis::Rows => height,
        Axis::Columns => width,
    };
    let len = match axis {
        Axis::Rows => width,
        Axis::Columns => height,
    };
    let _len = pixels.len();
    let mut k: usize = 0;
    assert(w * h <= usize::MAX);
    while k < count
        invariant
            count == line_count(axis, w, h),
            len == line_len(axis, w, h),
            axis == axis_of(direction),
            order == order_of(direction),
            n == w * h,
            orig.len() == n,
            w * h <= usize::MAX,
            w == width as int,
            h == height as int,
            mask@.len() == n,
            k <= count,
            pixels@.len() == n,
            forall|p: int| 0 <= p < n ==> (#[trigger] pixels@[p]).a == orig[p].a,
            forall|p: int| 0 <= p < n && !mask@[p] ==> #[trigger] pixels@[p] == orig[p],
            forall|p: int| 0 <= p < n && line_index(axis, w, p) >= k ==> #[trigger] pixels@[p] == orig[p],
            forall|kk: int|
                0 <= kk < k ==> spans_sorted(
                    #[trigger] line_of(colors(orig), axis, w, h, kk),
                    line_of(colors(pixels@), axis, w, h, kk),
                    line_of(mask@, axis, w, h, kk),
                    sort_by,
                    order,
                ),
        decreases count - k,
    {
        let mut line: Vec<Rgb> = Vec::with_capacity(len);
        let mut line_mask: Vec<bool> = Vec::with_capacity(len);
        let mut t: usize = 0;
        while t < len
            invariant
                count == line_count(axis, w, h),
                len == line_len(axis, w, h),
                n == w * h,
                w * h <= usize::MAX,
                w == width as int,
                h == height as int,
                mask@.len() == n,
                pixels@.len() == n,
                k < count,
                t <= len,
                line@ == Seq::new(t as nat, |i: int| pixels@[position(axis, w, k as int, i)].rgb()),
                line_mask@ == Seq::new(t as nat, |i: int| mask@[position(axis, w, k as int, i)]),
            decreases len - t,
        {
            let p = position_exec(axis, width, height, k, t);
            line.push(pixels[p].color());
            line_mask.push(mask[p]);
            t += 1;
            assert(line@ =~= Seq::new(t as nat, |i: int| pixels@[position(axis, w, k as int, i)].rgb()));
            assert(line_mask@ =~= Seq::new(t as nat, |i: int| mask@[position(axis, w, k as int, i)]));
        }
        let ghost gathered = line@;
        let ghost before = pixels@;
        proof {
            assert(gathered =~= line_of(colors(orig), axis, w, h, k as int)) by {
                assert forall|i: int| 0 <= i < len implies gathered[i] == line_of(
                    colors(orig),
                    axis,
                    w,
                    h,
                    k as int,
                )[i] by {
                    lemma_position(axis, w, h, k as int, i);
                    let p = position(axis, w, k as int, i);
                    assert(pixels@[p] == orig[p]);
                    assert(gathered[i] == pixels@[p].rgb());
                    assert(colors(orig)[p] == orig[p].rgb());
                }
            }
            assert(line_mask@ =~= line_of(mask@, axis, w, h, k as int));
        }
        sort_line(&mut line, &line_mask, sort_by, order);
        let mut t: usize = 0;
        while t < len
            invariant
                count == line_count(axis, w, h),
                len == line_len(axis, w, h),
                n == w * h,
                w * h <= usize::MAX,
                w == width as int,
                h == height as int,
                pixels@.len() == n,
                line@.len() == len,
                k < count,
                t <= len,
                forall|p: int|
                    0 <= p < n && (line_index(axis, w, p) != k || line_offset(axis, w, p) >= t) ==> #[trigger] pixels@[p]
                        == before[p],
                forall|i: int|
                    0 <= i < t ==> (#[trigger] pixels@[position(axis, w, k as int, i)]).rgb() == line@[i]
                        && pixels@[position(axis, w, k as int, i)].a == before[position(axis, w, k as int, i)].a,
            decreases len - t,
        {
            let p = position_exec(axis, width, height, k, t);
            proof {
                lemma_position(axis, w, h, k as int, t as int);
                assert forall|i: int| 0 <= i < t implies position(axis, w, k as int, i) != p by {
                    lemma_position(axis, w, h, k as int, i);
                }
            }
            let old_pixel = pixels[p];
            let ghost prev = pixels@;
            pixels.set(p, old_pixel.with_color(line[t]));
            proof {
                assert(old_pixel == before[p as int]);
                assert forall|i: int| 0 <= i < t + 1 implies (#[trigger] pixels@[position(axis, w, k as int, i)]).rgb()
                    == line@[i] && pixels@[position(axis, w, k as int, i)].a == before[position(
                    axis,
                    w,
                    k as int,
                    i,
                )].a by {
                    if i < t {
                        lemma_position(axis, w, h, k as int, i);
                        assert(pixels@[position(axis, w, k as int, i)] == prev[position(axis, w, k as int, i)]);
                    }
                }
            }
            t += 1;
        }
        proof {
            let sorted = line@;
            assert forall|i: int| 0 <= i < len implies #[trigger] sorted[i] == line_of(
                colors(pixels@),
                axis,
                w,
                h,
                k as int,
            )[i] by {
                lemma_position(axis, w, h, k as int, i);
            }
            assert(sorted =~= line_of(colors(pixels@), axis, w, h, k as int));
            assert forall|p: int| 0 <= p < n implies (#[trigger] pixels@[p]).a == orig[p].a by {
                lemma_index_position(axis, w, h, p);
                if line_index(axis, w, p) == k {
                    let i = line_offset(axis, w, p);
                    assert(pixels@[position(axis, w, k as int, i)].a == before[position(axis, w, k as int, i)].a);
                }
            }
            assert forall|p: int| 0 <= p < n && !mask@[p] implies #[trigger] pixels@[p] == orig[p] by {
                lemma_index_position(axis, w, h, p);
                if line_index(axis, w, p) == k {
                    let i = line_offset(axis, w, p);
                    assert(line_of(mask@, axis, w, h, k as int)[i] == mask@[p]);
                    assert(sorted[i] == gathered[i]);
                    assert(pixels@[position(axis, w, k as int, i)].a == before[position(axis, w, k as int, i)].a);
                }
            }
            assert forall|kk: int| 0 <= kk < k + 1 implies spans_sorted(
                #[trigger] line_of(colors(orig), axis, w, h, kk),
                line_of(colors(pixels@), axis, w, h, kk),
                line_of(mask@, axis, w, h, kk),
                sort_by,
                order,
            ) by {
                if kk < k {
                    assert forall|i: int| 0 <= i < len implies #[trigger] line_of(colors(pixels@), axis, w, h, kk)[i]
                        == line_of(colors(before), axis, w, h, kk)[i] by {
                        lemma_position(axis, w, h, kk, i);
                    }
                    assert(line_of(colors(pixels@), axis, w, h, kk) =~= line_of(colors(before), axis, w, h, kk));
                }
            }
        }
        k += 1;
    }
    proof {
        assert forall|p: int| 0 <= p < n && !mask@[p] implies #[trigger] pixels@[p] == orig[p] by {}
    }
}

} // verus!
