//! The weighted blur: every pixel becomes the distance-weighted mean of its
//! neighbourhood, pass after pass.
//!
//! All arithmetic is on integers. A neighbour counts with the weight that
//! [`crate::weight`] gives to its distance: one over the distance, where
//! the whole number in the distance divides exactly and the root that is
//! left is cut after 60 fractional bits. A mean is the quotient of a
//! weighted sum by the sum of those weights, and a half is rounded up.

use vstd::prelude::*;
use vstd::arithmetic::div_mod::lemma_fundamental_div_mod_converse;
use crate::layout::{
    buffer_len,
    channel_of,
    column_of,
    lemma_index,
    lemma_offset,
    lemma_pixel_number,
    offset,
    row_of,
};
use crate::boundary::{params_text, text_of, validate, validated};
use crate::params::{json_object, parse_object, u32_setting, Document, Setting};
use crate::big::Big;
use crate::weight::{
    dist_sq,
    free_part,
    lemma_product_is_positive,
    lemma_root_part,
    lemma_weight_in_class,
    product_without,
    root_part,
    weight,
    weight_of,
    ROOT_SCALE,
};

verus! {

/// First row or column of a neighbourhood: `radius` before the centre, or the
/// image's edge.
pub open spec fn window_start(center: int, radius: int) -> int {
    if center >= radius {
        center - radius
    } else {
        0
    }
}

/// One past the last row or column of a neighbourhood: `radius` after the
/// centre, or the image's edge.
pub open spec fn window_end(center: int, radius: int, limit: int) -> int {
    if center + radius + 1 <= limit {
        center + radius + 1
    } else {
        limit
    }
}

/// How far a blur of the given radius looks along one side of the image:
/// `radius` pixels, or as many as the side has beyond one.
pub open spec fn span(radius: int, side: int) -> int {
    if side <= 0 {
        0
    } else if radius < side - 1 {
        radius
    } else {
        side - 1
    }
}

/// The reach of a blur: no pixel of the image has a neighbour farther away
/// than this. It sets the scale of the weights.
pub open spec fn reach_of(width: int, height: int, radius: int) -> nat {
    (span(radius, width) + span(radius, height)) as nat
}

/// Weight with which the pixel `(nx, ny)` counts in the mean around
/// `(cx, cy)`.
pub open spec fn neighbor_weight(cx: int, cy: int, nx: int, ny: int, reach: nat) -> nat {
    weight(dist_sq(cx - nx, cy - ny), reach)
}

/// Weighted sum of channel `ch` over the columns `x0 .. x1` of row `ny`, seen
/// from `(cx, cy)`.
pub open spec fn row_sum(
    s: Seq<u8>,
    width: int,
    ch: int,
    cx: int,
    cy: int,
    ny: int,
    x0: int,
    x1: int,
    reach: nat,
) -> nat
    decreases x1 - x0,
{
    if x1 <= x0 {
        0
    } else {
        row_sum(s, width, ch, cx, cy, ny, x0, x1 - 1, reach) + s[offset(width, x1 - 1, ny, ch)] as nat
            * neighbor_weight(cx, cy, x1 - 1, ny, reach)
    }
}

/// Sum of the weights over the columns `x0 .. x1` of row `ny`, seen from
/// `(cx, cy)`.
pub open spec fn row_weight(cx: int, cy: int, ny: int, x0: int, x1: int, reach: nat) -> nat
    decreases x1 - x0,
{
    if x1 <= x0 {
        0
    } else {
        row_weight(cx, cy, ny, x0, x1 - 1, reach) + neighbor_weight(cx, cy, x1 - 1, ny, reach)
    }
}

/// Weighted sum of channel `ch` over the window of columns `x0 .. x1` and
/// rows `y0 .. y1`, seen from `(cx, cy)`.
pub open spec fn window_sum(
    s: Seq<u8>,
    width: int,
    ch: int,
    cx: int,
    cy: int,
    x0: int,
    x1: int,
    y0: int,
    y1: int,
    reach: nat,
) -> nat
    decreases y1 - y0,
{
    if y1 <= y0 {
        0
    } else {
        window_sum(s, width, ch, cx, cy, x0, x1, y0, y1 - 1, reach) + row_sum(
            s,
            width,
            ch,
            cx,
            cy,
            y1 - 1,
            x0,
            x1,
            reach,
        )
    }
}

/// Sum of the weights over the window of columns `x0 .. x1` and rows
/// `y0 .. y1`, seen from `(cx, cy)`.
pub open spec fn window_weight(cx: int, cy: int, x0: int, x1: int, y0: int, y1: int, reach: nat) -> nat
    decreases y1 - y0,
{
    if y1 <= y0 {
        0
    } else {
        window_weight(cx, cy, x0, x1, y0, y1 - 1, reach) + row_weight(cx, cy, y1 - 1, x0, x1, reach)
    }
}

/// Weighted sum of channel `ch` over the neighbourhood of `(x, y)`, clipped
/// at the image's edges.
pub open spec fn channel_sum(
    s: Seq<u8>,
    width: int,
    height: int,
    radius: int,
    x: int,
    y: int,
    ch: int,
) -> nat {
    let reach = reach_of(width, height, radius);
    window_sum(
        s,
        width,
        ch,
        x,
        y,
        window_start(x, radius),
        window_end(x, radius, width),
        window_start(y, radius),
        window_end(y, radius, height),
        reach,
    )
}

/// Sum of the weights over the neighbourhood of `(x, y)`, clipped at the
/// image's edges.
pub open spec fn total_weight(width: int, height: int, radius: int, x: int, y: int) -> nat {
    let reach = reach_of(width, height, radius);
    window_weight(
        x,
        y,
        window_start(x, radius),
        window_end(x, radius, width),
        window_start(y, radius),
        window_end(y, radius, height),
        reach,
    )
}

/// `n / d` rounded to the nearest integer, a half rounded up.
pub open spec fn rounded_div(n: int, d: int) -> int {
    (2 * n + d) / (2 * d)
}

/// New value of channel `ch` of pixel `(x, y)` after one pass over `s`: the
/// weighted mean of the channel over the pixel's neighbourhood, rounded.
pub open spec fn blurred_channel(
    s: Seq<u8>,
    width: int,
    height: int,
    radius: int,
    x: int,
    y: int,
    ch: int,
) -> int {
    rounded_div(
        channel_sum(s, width, height, radius, x, y, ch) as int,
        total_weight(width, height, radius, x, y) as int,
    )
}

/// The image after one pass: every byte is computed from `s` alone.
pub open spec fn blur_pass(s: Seq<u8>, width: int, height: int, radius: int) -> Seq<u8> {
    Seq::new(
        s.len(),
        |i: int|
            blurred_channel(
                s,
                width,
                height,
                radius,
                column_of(width, i),
                row_of(width, i),
                channel_of(i),
            ) as u8,
    )
}

/// The image after `iterations` passes, each over the result of the one
/// before.
pub open spec fn blurred(
    s: Seq<u8>,
    width: int,
    height: int,
    radius: int,
    iterations: nat,
) -> Seq<u8>
    decreases iterations,
{
    if iterations == 0 {
        s
    } else {
        blur_pass(blurred(s, width, height, radius, (iterations - 1) as nat), width, height, radius)
    }
}

/// Weighted channel sums of one neighbourhood, and the sum of its weights.
#[derive(Debug)]
pub struct WeightedSums {
    pub red: Big,
    pub green: Big,
    pub blue: Big,
    pub alpha: Big,
    pub total: Big,
}

proof fn lemma_row_weight_holds(cx: int, cy: int, ny: int, x0: int, x1: int, x: int, reach: nat)
    requires
        x0 <= x < x1,
    ensures
        row_weight(cx, cy, ny, x0, x1, reach) >= neighbor_weight(cx, cy, x, ny, reach),
    decreases x1 - x0,
{
    if x < x1 - 1 {
        lemma_row_weight_holds(cx, cy, ny, x0, x1 - 1, x, reach);
    }
}

/// A window that holds its centre weighs something.
pub proof fn lemma_window_weight_holds_center(
    cx: int,
    cy: int,
    x0: int,
    x1: int,
    y0: int,
    y1: int,
    reach: nat,
)
    requires
        x0 <= cx < x1,
        y0 <= cy < y1,
    ensures
        window_weight(cx, cy, x0, x1, y0, y1, reach) >= 1,
    decreases y1 - y0,
{
    if cy < y1 - 1 {
        lemma_window_weight_holds_center(cx, cy, x0, x1, y0, y1 - 1, reach);
    } else {
        lemma_row_weight_holds(cx, cy, cy, x0, x1, cx, reach);
        assert(dist_sq(0, 0) == 0) by (nonlinear_arith);
        lemma_product_is_positive(reach, 1);
        let whole = product_without(reach, 1);
        assert(ROOT_SCALE * whole >= 1) by (nonlinear_arith)
            requires
                whole >= 1,
                ROOT_SCALE >= 1,
        ;
    }
}

proof fn lemma_squared_difference(a: int, b: int, d: int)
    by (nonlinear_arith)
    requires
        d == a - b || d == b - a,
        0 <= d < 0x4000_0000_0000_0000,
    ensures
        d * d == (a - b) * (a - b),
        0 <= d * d < 0x1000_0000_0000_0000_0000_0000_0000_0000,
{
}

proof fn lemma_scaled(c: u8, w: nat)
    by (nonlinear_arith)
    ensures
        0 <= c * w <= 255 * w,
{
}

fn distance(a: usize, b: usize) -> (d: usize)
    ensures
        d == a - b || d == b - a,
        d >= 0,
{
    if a >= b {
        a - b
    } else {
        b - a
    }
}

fn span_of(radius: usize, side: usize) -> (far: usize)
    ensures
        far == span(radius as int, side as int),
        far <= side,
        side > 0 ==> far < side,
{
    if side == 0 {
        0
    } else if radius < side - 1 {
        radius
    } else {
        side - 1
    }
}

/// Place in a table of weights of the neighbour `dx` columns and `dy` rows
/// away, where the table has a row for every `dy` and in it a place for
/// every `dx` from zero to `across`.
pub open spec fn slot(across: int, dx: int, dy: int) -> int {
    dy * (across + 1) + dx
}

/// The weights of one blur, worked out once for all its pixels: one for
/// every number of columns and rows that a neighbour can be away.
#[derive(Debug)]
pub struct Weights {
    pub table: Vec<Big>,
    pub across: usize,
    pub down: usize,
}

impl Weights {
    /// The table holds the weights of a blur of the given radius over an
    /// image of the given size.
    pub open spec fn fits(&self, width: int, height: int, radius: int) -> bool {
        &&& self.across == span(radius, width)
        &&& self.down == span(radius, height)
        &&& self.table@.len() == (self.across + 1) * (self.down + 1)
        &&& forall|dx: int, dy: int|
            0 <= dx <= self.across && 0 <= dy <= self.down ==> self.table@[#[trigger] slot(
                self.across as int,
                dx,
                dy,
            )]@ == weight(dist_sq(dx, dy), reach_of(width, height, radius))
    }

    /// Works out the weights of a blur.
    pub fn for_blur(width: usize, height: usize, radius: usize) -> (weights: Weights)
        requires
            width > 0,
            height > 0,
            width * height * 4 <= usize::MAX,
        ensures
            weights.fits(width as int, height as int, radius as int),
    {
        let across: usize = span_of(radius, width);
        let down: usize = span_of(radius, height);
        proof {
            lemma_pixel_number(width as int, height as int, 0, 0);
            assert(across + down + 1 <= (across + 1) * (down + 1) <= width * height)
                by (nonlinear_arith)
                requires
                    0 <= across,
                    0 <= down,
                    across + 1 <= width,
                    down + 1 <= height,
            ;
        }
        let reach: usize = across + down;
        let ghost far = reach_of(width as int, height as int, radius as int);
        let mut table: Vec<Big> = Vec::new();
        let mut dy: usize = 0;
        while dy <= down
            invariant
                dy <= down + 1,
                far == reach,
                reach == across + down,
                reach < usize::MAX,
                across < 0x4000_0000_0000_0000,
                down < 0x4000_0000_0000_0000,
                table@.len() == dy * (across + 1),
                forall|fx: int, fy: int|
                    0 <= fx <= across && 0 <= fy < dy ==> table@[#[trigger] slot(
                        across as int,
                        fx,
                        fy,
                    )]@ == weight(dist_sq(fx, fy), far),
            decreases down + 1 - dy,
        {
            let mut dx: usize = 0;
            while dx <= across
                invariant
                    dy <= down,
                    dx <= across + 1,
                    far == reach,
                    reach == across + down,
                    reach < usize::MAX,
                    across < 0x4000_0000_0000_0000,
                    down < 0x4000_0000_0000_0000,
                    table@.len() == dy * (across + 1) + dx,
                    forall|fx: int, fy: int|
                        0 <= fx <= across && (0 <= fy < dy || (fy == dy && fx < dx))
                            ==> table@[#[trigger] slot(across as int, fx, fy)]@ == weight(
                            dist_sq(fx, fy),
                            far,
                        ),
                decreases across + 1 - dx,
            {
                assert(dx * dx + dy * dy < 0x4000_0000_0000_0000_0000_0000_0000_0000)
                    by (nonlinear_arith)
                    requires
                        0 <= dx < 0x4000_0000_0000_0000,
                        0 <= dy < 0x4000_0000_0000_0000,
                ;
                let d: u128 = (dx as u128) * (dx as u128) + (dy as u128) * (dy as u128);
                let wt: Big = weight_of(d, reach);
                let ghost before = table@;
                table.push(wt);
                proof {
                    assert forall|fx: int, fy: int|
                        0 <= fx <= across && (0 <= fy < dy || (fy == dy && fx < dx + 1))
                        implies table@[#[trigger] slot(across as int, fx, fy)]@ == weight(
                        dist_sq(fx, fy),
                        far,
                    ) by {
                        if fy < dy {
                            assert(slot(across as int, fx, fy) < dy * (across + 1))
                                by (nonlinear_arith)
                                requires
                                    0 <= fx <= across,
                                    0 <= fy < dy,
                                    slot(across as int, fx, fy) == fy * (across + 1) + fx,
                            ;
                            assert(table@[slot(across as int, fx, fy)] == before[slot(
                                across as int,
                                fx,
                                fy,
                            )]);
                        } else if fx < dx {
                            assert(table@[slot(across as int, fx, fy)] == before[slot(
                                across as int,
                                fx,
                                fy,
                            )]);
                        }
                    }
                }
                dx = dx + 1;
            }
            assert((dy + 1) * (across + 1) == dy * (across + 1) + across + 1) by (nonlinear_arith);
            dy = dy + 1;
        }
        assert((across + 1) * (down + 1) == (down + 1) * (across + 1)) by (nonlinear_arith);
        Weights { table, across, down }
    }
}

/// Adds up the weighted channel values and the weights of one
/// neighbourhood, with the weights taken from the table of the blur.
fn accumulate_with(
    data: &[u8],
    width: usize,
    height: usize,
    center_x: usize,
    center_y: usize,
    radius: usize,
    weights: &Weights,
) -> (acc: WeightedSums)
    requires
        data@.len() == width * height * 4,
        center_x < width,
        center_y < height,
        weights.fits(width as int, height as int, radius as int),
    ensures
        acc.red@ == channel_sum(
            data@,
            width as int,
            height as int,
            radius as int,
            center_x as int,
            center_y as int,
            0,
        ),
        acc.green@ == channel_sum(
            data@,
            width as int,
            height as int,
            radius as int,
            center_x as int,
            center_y as int,
            1,
        ),
        acc.blue@ == channel_sum(
            data@,
            width as int,
            height as int,
            radius as int,
            center_x as int,
            center_y as int,
            2,
        ),
        acc.alpha@ == channel_sum(
            data@,
            width as int,
            height as int,
            radius as int,
            center_x as int,
            center_y as int,
            3,
        ),
        acc.total@ == total_weight(
            width as int,
            height as int,
            radius as int,
            center_x as int,
            center_y as int,
        ),
        acc.total@ >= 1,
        acc.red@ <= 255 * acc.total@,
        acc.green@ <= 255 * acc.total@,
        acc.blue@ <= 255 * acc.total@,
        acc.alpha@ <= 255 * acc.total@,
{
    assert(data.len() == width * height * 4);
    let ghost s = data@;
    let ghost w = width as int;
    let ghost cx = center_x as int;
    let ghost cy = center_y as int;
    proof {
        lemma_pixel_number(w, height as int, cx, cy);
    }
    let across: usize = weights.across;
    let ghost far = reach_of(w, height as int, radius as int);
    let ghost down = weights.down as int;
    let y_start: usize = center_y.saturating_sub(radius);
    let y_end: usize = if radius >= height - center_y {
        height
    } else {
        center_y + radius + 1
    };
    let x_start: usize = center_x.saturating_sub(radius);
    let x_end: usize = if radius >= width - center_x {
        width
    } else {
        center_x + radius + 1
    };
    let ghost x0 = x_start as int;
    let ghost x1 = x_end as int;
    let ghost y0 = y_start as int;
    let ghost y1 = y_end as int;

    let mut red: Big = Big::from_u64(0);
    let mut green: Big = Big::from_u64(0);
    let mut blue: Big = Big::from_u64(0);
    let mut alpha: Big = Big::from_u64(0);
    let mut total: Big = Big::from_u64(0);
    let mut ny: usize = y_start;
    while ny < y_end
        invariant
            s == data@,
            s.len() == width * height * 4,
            width * height * 4 <= usize::MAX,
            w == width,
            cx == center_x,
            cy == center_y,
            cx < width,
            cy < height,
            far == reach_of(w, height as int, radius as int),
            weights.fits(w, height as int, radius as int),
            across == weights.across,
            down == weights.down,
            cx - x0 <= radius,
            x1 - cx <= radius + 1,
            cy - y0 <= radius,
            y1 - cy <= radius + 1,
            x0 == x_start,
            x1 == x_end,
            y0 == y_start,
            y1 == y_end,
            x0 <= x1 <= width,
            y0 <= ny <= y1 <= height,
            red@ == window_sum(s, w, 0, cx, cy, x0, x1, y0, ny as int, far),
            green@ == window_sum(s, w, 1, cx, cy, x0, x1, y0, ny as int, far),
            blue@ == window_sum(s, w, 2, cx, cy, x0, x1, y0, ny as int, far),
            alpha@ == window_sum(s, w, 3, cx, cy, x0, x1, y0, ny as int, far),
            total@ == window_weight(cx, cy, x0, x1, y0, ny as int, far),
        decreases y_end - ny,
    {
        proof {
            lemma_pixel_number(w, height as int, 0, ny as int);
        }
        let row: usize = ny * width;
        let dy: usize = distance(center_y, ny);
        let mut nx: usize = x_start;
        while nx < x_end
            invariant
                s == data@,
                s.len() == width * height * 4,
                width * height * 4 <= usize::MAX,
                w == width,
                cx == center_x,
                cy == center_y,
                cx < width,
                cy < height,
                far == reach_of(w, height as int, radius as int),
                weights.fits(w, height as int, radius as int),
                across == weights.across,
                down == weights.down,
                cx - x0 <= radius,
                x1 - cx <= radius + 1,
                dy <= down,
                x0 == x_start,
                x1 == x_end,
                y0 == y_start,
                x0 <= nx <= x1 <= width,
                y0 <= ny < height,
                row == ny * width,
                dy == cy - ny || dy == ny - cy,
                red@ == window_sum(s, w, 0, cx, cy, x0, x1, y0, ny as int, far) + row_sum(
                    s,
                    w,
                    0,
                    cx,
                    cy,
                    ny as int,
                    x0,
                    nx as int,
                    far,
                ),
                green@ == window_sum(s, w, 1, cx, cy, x0, x1, y0, ny as int, far) + row_sum(
                    s,
                    w,
                    1,
                    cx,
                    cy,
                    ny as int,
                    x0,
                    nx as int,
                    far,
                ),
                blue@ == window_sum(s, w, 2, cx, cy, x0, x1, y0, ny as int, far) + row_sum(
                    s,
                    w,
                    2,
                    cx,
                    cy,
                    ny as int,
                    x0,
                    nx as int,
                    far,
                ),
                alpha@ == window_sum(s, w, 3, cx, cy, x0, x1, y0, ny as int, far) + row_sum(
                    s,
                    w,
                    3,
                    cx,
                    cy,
                    ny as int,
                    x0,
                    nx as int,
                    far,
                ),
                total@ == window_weight(cx, cy, x0, x1, y0, ny as int, far) + row_weight(
                    cx,
                    cy,
                    ny as int,
                    x0,
                    nx as int,
                    far,
                ),
            decreases x_end - nx,
        {
            proof {
                lemma_pixel_number(w, height as int, nx as int, ny as int);
            }
            let dx: usize = distance(center_x, nx);
            proof {
                lemma_squared_difference(cx, nx as int, dx as int);
                lemma_squared_difference(cy, ny as int, dy as int);
            }
            proof {
                assert(dx <= across);
                assert(slot(across as int, dx as int, dy as int) < (across + 1) * (down + 1))
                    by (nonlinear_arith)
                    requires
                        0 <= dx <= across,
                        0 <= dy <= down,
                        slot(across as int, dx as int, dy as int) == dy * (across + 1) + dx,
                ;
                assert(dy * (across + 1) >= 0 && across + 1 <= (across + 1) * (down + 1))
                    by (nonlinear_arith)
                    requires
                        dy >= 0,
                        across >= 0,
                        down >= 0,
                ;
                assert(weights.table.len() == (across + 1) * (down + 1));
                assert(dist_sq(dx as int, dy as int) == dist_sq(cx - nx, cy - ny));
            }
            let wt: &Big = &weights.table[dy * (across + 1) + dx];
            assert(wt@ == weight(dist_sq(cx - nx, cy - ny), far));
            let src: usize = (row + nx) * 4;
            proof {
                assert(src + 0 == offset(w, nx as int, ny as int, 0));
                assert(src + 1 == offset(w, nx as int, ny as int, 1));
                assert(src + 2 == offset(w, nx as int, ny as int, 2));
                assert(src + 3 == offset(w, nx as int, ny as int, 3));
                let n = wt@;
                assert(n * data@[src as int] == data@[src as int] as nat * n) by (nonlinear_arith);
                assert(n * data@[src + 1] == data@[src + 1] as nat * n) by (nonlinear_arith);
                assert(n * data@[src + 2] == data@[src + 2] as nat * n) by (nonlinear_arith);
                assert(n * data@[src + 3] == data@[src + 3] as nat * n) by (nonlinear_arith);
            }
            red = red.plus(&wt.times(data[src] as u64));
            green = green.plus(&wt.times(data[src + 1] as u64));
            blue = blue.plus(&wt.times(data[src + 2] as u64));
            alpha = alpha.plus(&wt.times(data[src + 3] as u64));
            total = total.plus(wt);
            nx = nx + 1;
        }
        ny = ny + 1;
    }
    proof {
        lemma_window_weight_holds_center(cx, cy, x0, x1, y0, y1, far);
        lemma_window_sum_bound(s, w, 0, cx, cy, x0, x1, y0, y1, far);
        lemma_window_sum_bound(s, w, 1, cx, cy, x0, x1, y0, y1, far);
        lemma_window_sum_bound(s, w, 2, cx, cy, x0, x1, y0, y1, far);
        lemma_window_sum_bound(s, w, 3, cx, cy, x0, x1, y0, y1, far);
    }
    WeightedSums { red, green, blue, alpha, total }
}

/// Adds up, for the pixel `(center_x, center_y)`, the weighted channel
/// values of all pixels within `radius` rows and columns of it, and their
/// weights.
pub fn accumulate_neighborhood(
    data: &[u8],
    width: usize,
    height: usize,
    center_x: usize,
    center_y: usize,
    radius: usize,
) -> (acc: WeightedSums)
    requires
        data@.len() == width * height * 4,
        center_x < width,
        center_y < height,
    ensures
        acc.red@ == channel_sum(
            data@,
            width as int,
            height as int,
            radius as int,
            center_x as int,
            center_y as int,
            0,
        ),
        acc.green@ == channel_sum(
            data@,
            width as int,
            height as int,
            radius as int,
            center_x as int,
            center_y as int,
            1,
        ),
        acc.blue@ == channel_sum(
            data@,
            width as int,
            height as int,
            radius as int,
            center_x as int,
            center_y as int,
            2,
        ),
        acc.alpha@ == channel_sum(
            data@,
            width as int,
            height as int,
            radius as int,
            center_x as int,
            center_y as int,
            3,
        ),
        acc.total@ == total_weight(
            width as int,
            height as int,
            radius as int,
            center_x as int,
            center_y as int,
        ),
        acc.total@ >= 1,
        acc.red@ <= 255 * acc.total@,
        acc.green@ <= 255 * acc.total@,
        acc.blue@ <= 255 * acc.total@,
        acc.alpha@ <= 255 * acc.total@,
{
    assert(data.len() == width * height * 4);
    let weights: Weights = Weights::for_blur(width, height, radius);
    accumulate_with(data, width, height, center_x, center_y, radius, &weights)
}

/// The weighted mean `sum / total`, rounded to the nearest byte.
fn rounded_mean(sum: &Big, total: &Big) -> (value: u8)
    requires
        total@ >= 1,
        sum@ <= 255 * total@,
    ensures
        value == rounded_div(sum@ as int, total@ as int),
{
    let doubled: Big = sum.times(2).plus(total);
    let mut lo: u64 = 0;
    let mut hi: u64 = 256;
    assert(2 * 0 * total@ <= doubled@ < 2 * 256 * total@) by (nonlinear_arith)
        requires
            doubled@ == sum@ * 2 + total@,
            total@ >= 1,
            sum@ <= 255 * total@,
    ;
    while hi - lo > 1
        invariant
            lo < hi <= 256,
            total@ >= 1,
            doubled@ == sum@ * 2 + total@,
            2 * lo * total@ <= doubled@ < 2 * hi * total@,
        decreases hi - lo,
    {
        let mid: u64 = lo + (hi - lo) / 2;
        let bound: Big = total.times(2 * mid);
        assert(bound@ == 2 * mid * total@) by (nonlinear_arith)
            requires
                bound@ == total@ * (2 * mid),
        ;
        if doubled.at_least(&bound) {
            lo = mid;
        } else {
            hi = mid;
        }
    }
    proof {
        let n = doubled@ as int;
        let t = total@ as int;
        assert(n == (2 * t) * lo + (n - 2 * lo * t) && 0 <= n - 2 * lo * t < 2 * t)
            by (nonlinear_arith)
            requires
                hi == lo + 1,
                2 * lo * t <= n < 2 * hi * t,
        ;
        lemma_fundamental_div_mod_converse(n, 2 * t, lo as int, n - 2 * lo * t);
        assert(n == 2 * (sum@ as int) + t);
    }
    lo as u8
}

/// Writes one pass over `src` into `dst`. `src` is only read, so every new
/// value comes from the image as it was before the pass.
fn blur_into(
    src: &[u8],
    dst: &mut [u8],
    width: usize,
    height: usize,
    radius: usize,
    weights: &Weights,
)
    requires
        src@.len() == width * height * 4,
        old(dst)@.len() == src@.len(),
        weights.fits(width as int, height as int, radius as int),
    ensures
        final(dst)@ == blur_pass(src@, width as int, height as int, radius as int),
{
    let ghost target = blur_pass(src@, width as int, height as int, radius as int);
    assert(src.len() == width * height * 4);
    let mut y: usize = 0;
    while y < height
        invariant
            src@.len() == width * height * 4,
            width * height * 4 <= usize::MAX,
            dst@.len() == src@.len(),
            y <= height,
            weights.fits(width as int, height as int, radius as int),
            target == blur_pass(src@, width as int, height as int, radius as int),
            (y * width) * 4 <= dst@.len(),
            forall|j: int| 0 <= j < (y * width) * 4 ==> dst@[j] == target[j],
        decreases height - y,
    {
        let mut x: usize = 0;
        while x < width
            invariant
                src@.len() == width * height * 4,
                width * height * 4 <= usize::MAX,
                dst@.len() == src@.len(),
                y < height,
                x <= width,
                weights.fits(width as int, height as int, radius as int),
                target == blur_pass(src@, width as int, height as int, radius as int),
                (y * width + x) * 4 <= dst@.len(),
                forall|j: int| 0 <= j < (y * width + x) * 4 ==> dst@[j] == target[j],
            decreases width - x,
        {
            proof {
                lemma_pixel_number(width as int, height as int, x as int, y as int);
            }
            let acc = accumulate_with(src, width, height, x, y, radius, weights);
            let at: usize = (y * width + x) * 4;
            proof {
                lemma_offset(width as int, height as int, x as int, y as int, 0);
                lemma_offset(width as int, height as int, x as int, y as int, 1);
                lemma_offset(width as int, height as int, x as int, y as int, 2);
                lemma_offset(width as int, height as int, x as int, y as int, 3);
            }
            dst[at] = rounded_mean(&acc.red, &acc.total);
            dst[at + 1] = rounded_mean(&acc.green, &acc.total);
            dst[at + 2] = rounded_mean(&acc.blue, &acc.total);
            dst[at + 3] = rounded_mean(&acc.alpha, &acc.total);
            x = x + 1;
        }
        assert((y + 1) * width == y * width + width) by (nonlinear_arith);
        y = y + 1;
    }
    proof {
        assert(y * width == width * height) by (nonlinear_arith)
            requires
                y == height,
        ;
        assert(dst@ =~= target);
    }
}

proof fn lemma_blur_of_nothing(s: Seq<u8>, width: int, height: int, radius: int, iterations: nat)
    requires
        s.len() == 0,
    ensures
        blurred(s, width, height, radius, iterations) == s,
    decreases iterations,
{
    if iterations > 0 {
        lemma_blur_of_nothing(s, width, height, radius, (iterations - 1) as nat);
        assert(blur_pass(s, width, height, radius) =~= s);
    }
}

/// Blurs an RGBA image in place, `iterations` times over.
///
/// In each pass every channel of every pixel becomes the weighted mean of
/// that channel over the pixels at most `radius` rows and columns away, as
/// far as they lie inside the image. A neighbour's weight is one over its
/// distance, as [`crate::weight::weight`] holds it, and one for the pixel
/// itself and its direct neighbours. A pass writes into a scratch buffer
/// and reads only what the pass before has left.
pub fn weighted_blur(
    data: &mut [u8],
    width: usize,
    height: usize,
    radius: usize,
    iterations: u32,
)
    requires
        old(data)@.len() == width * height * 4,
    ensures
        final(data)@ == blurred(
            old(data)@,
            width as int,
            height as int,
            radius as int,
            iterations as nat,
        ),
{
    let len: usize = data.len();
    if width == 0 || height == 0 {
        assert(width * height * 4 == 0) by (nonlinear_arith)
            requires
                height == 0 || width == 0,
        ;
        proof {
            lemma_blur_of_nothing(
                data@,
                width as int,
                height as int,
                radius as int,
                iterations as nat,
            );
        }
        return ;
    }
    let weights: Weights = Weights::for_blur(width, height, radius);
    let mut temp: Vec<u8> = vec![0u8; len];
    let mut pass: u32 = 0;
    while pass < iterations
        invariant
            pass <= iterations,
            len == width * height * 4,
            data@.len() == len,
            temp@.len() == len,
            weights.fits(width as int, height as int, radius as int),
            data@ == blurred(
                old(data)@,
                width as int,
                height as int,
                radius as int,
                pass as nat,
            ),
        decreases iterations - pass,
    {
        blur_into(data, temp.as_mut_slice(), width, height, radius, &weights);
        let mut i: usize = 0;
        while i < len
            invariant
                i <= len,
                data@.len() == len,
                temp@.len() == len,
                forall|j: int| 0 <= j < i ==> data@[j] == temp@[j],
            decreases len - i,
        {
            data[i] = temp[i];
            i = i + 1;
        }
        assert(data@ =~= temp@);
        pass = pass + 1;
    }
}

/// The reach of a blur covers every distance that it meets: the whole
/// number in the distance between a pixel and any of its neighbours is
/// among the numbers that the weights are scaled by, so that its division
/// is exact.
pub proof fn lemma_reach_covers(
    width: int,
    height: int,
    radius: int,
    x: int,
    y: int,
    nx: int,
    ny: int,
)
    requires
        0 <= x < width,
        0 <= y < height,
        radius >= 0,
        window_start(x, radius) <= nx < window_end(x, radius, width),
        window_start(y, radius) <= ny < window_end(y, radius, height),
        nx != x || ny != y,
    ensures
        dist_sq(x - nx, y - ny) >= 1,
        1 <= root_part(dist_sq(x - nx, y - ny)) <= reach_of(width, height, radius),
        weight(dist_sq(x - nx, y - ny), reach_of(width, height, radius)) * root_part(
            dist_sq(x - nx, y - ny),
        ) == weight(free_part(dist_sq(x - nx, y - ny)), reach_of(width, height, radius)),
{
    let dx = if x >= nx {
        x - nx
    } else {
        nx - x
    };
    let dy = if y >= ny {
        y - ny
    } else {
        ny - y
    };
    let d = dist_sq(x - nx, y - ny);
    assert(d == dx * dx + dy * dy && d >= 1 && d <= (dx + dy) * (dx + dy)) by (nonlinear_arith)
        requires
            d == (x - nx) * (x - nx) + (y - ny) * (y - ny),
            dx == x - nx || dx == nx - x,
            dy == y - ny || dy == ny - y,
            dx >= 0,
            dy >= 0,
            dx + dy >= 1,
    ;
    lemma_root_part(d);
    let m = root_part(d);
    assert(m <= dx + dy) by (nonlinear_arith)
        requires
            m >= 1,
            dx + dy >= 0,
            m * m <= (dx + dy) * (dx + dy),
    ;
    assert(dx <= span(radius, width));
    assert(dy <= span(radius, height));
    lemma_weight_in_class(d, reach_of(width, height, radius));
}

proof fn lemma_row_sum_bound(
    s: Seq<u8>,
    width: int,
    ch: int,
    cx: int,
    cy: int,
    ny: int,
    x0: int,
    x1: int,
    reach: nat,
)
    ensures
        row_sum(s, width, ch, cx, cy, ny, x0, x1, reach) <= 255 * row_weight(cx, cy, ny, x0, x1, reach),
    decreases x1 - x0,
{
    if x1 > x0 {
        lemma_row_sum_bound(s, width, ch, cx, cy, ny, x0, x1 - 1, reach);
        lemma_scaled(s[offset(width, x1 - 1, ny, ch)], neighbor_weight(cx, cy, x1 - 1, ny, reach));
    }
}

proof fn lemma_window_sum_bound(
    s: Seq<u8>,
    width: int,
    ch: int,
    cx: int,
    cy: int,
    x0: int,
    x1: int,
    y0: int,
    y1: int,
    reach: nat,
)
    ensures
        window_sum(s, width, ch, cx, cy, x0, x1, y0, y1, reach) <= 255 * window_weight(
            cx,
            cy,
            x0,
            x1,
            y0,
            y1,
            reach,
        ),
    decreases y1 - y0,
{
    if y1 > y0 {
        lemma_window_sum_bound(s, width, ch, cx, cy, x0, x1, y0, y1 - 1, reach);
        lemma_row_sum_bound(s, width, ch, cx, cy, y1 - 1, x0, x1, reach);
    }
}

/// A weighted mean of bytes is a byte: rounding is all that a pass needs,
/// and nothing is ever clamped.
pub proof fn lemma_mean_is_a_byte(
    s: Seq<u8>,
    width: int,
    height: int,
    radius: int,
    x: int,
    y: int,
    ch: int,
)
    requires
        0 <= x < width,
        0 <= y < height,
        radius >= 0,
    ensures
        0 <= blurred_channel(s, width, height, radius, x, y, ch) <= 255,
{
    let reach = reach_of(width, height, radius);
    let x0 = window_start(x, radius);
    let x1 = window_end(x, radius, width);
    let y0 = window_start(y, radius);
    let y1 = window_end(y, radius, height);
    lemma_window_sum_bound(s, width, ch, x, y, x0, x1, y0, y1, reach);
    lemma_window_weight_holds_center(x, y, x0, x1, y0, y1, reach);
    let sum = window_sum(s, width, ch, x, y, x0, x1, y0, y1, reach) as int;
    let total = window_weight(x, y, x0, x1, y0, y1, reach) as int;
    assert(0 <= (2 * sum + total) / (2 * total) <= 255) by (nonlinear_arith)
        requires
            total >= 1,
            0 <= sum <= 255 * total,
    ;
}

proof fn lemma_row_sum_constant(
    s: Seq<u8>,
    width: int,
    ch: int,
    cx: int,
    cy: int,
    ny: int,
    x0: int,
    x1: int,
    v: u8,
    reach: nat,
)
    requires
        forall|nx: int| x0 <= nx < x1 ==> s[#[trigger] offset(width, nx, ny, ch)] == v,
    ensures
        row_sum(s, width, ch, cx, cy, ny, x0, x1, reach) == v * row_weight(cx, cy, ny, x0, x1, reach),
    decreases x1 - x0,
{
    if x1 > x0 {
        lemma_row_sum_constant(s, width, ch, cx, cy, ny, x0, x1 - 1, v, reach);
        let rest = row_weight(cx, cy, ny, x0, x1 - 1, reach);
        let last = neighbor_weight(cx, cy, x1 - 1, ny, reach);
        assert(s[offset(width, x1 - 1, ny, ch)] == v);
        assert(v * rest + v * last == v * (rest + last)) by (nonlinear_arith);
        assert(row_weight(cx, cy, ny, x0, x1, reach) == rest + last);
        assert(row_sum(s, width, ch, cx, cy, ny, x0, x1, reach) == v * rest + v * last);
    } else {
        assert(row_weight(cx, cy, ny, x0, x1, reach) == 0);
        assert(v * 0 == 0);
    }
}

proof fn lemma_window_sum_constant(
    s: Seq<u8>,
    width: int,
    ch: int,
    cx: int,
    cy: int,
    x0: int,
    x1: int,
    y0: int,
    y1: int,
    v: u8,
    reach: nat,
)
    requires
        forall|nx: int, ny: int|
            x0 <= nx < x1 && y0 <= ny < y1 ==> s[#[trigger] offset(width, nx, ny, ch)] == v,
    ensures
        window_sum(s, width, ch, cx, cy, x0, x1, y0, y1, reach) == v * window_weight(
            cx,
            cy,
            x0,
            x1,
            y0,
            y1,
            reach,
        ),
    decreases y1 - y0,
{
    if y1 > y0 {
        lemma_window_sum_constant(s, width, ch, cx, cy, x0, x1, y0, y1 - 1, v, reach);
        lemma_row_sum_constant(s, width, ch, cx, cy, y1 - 1, x0, x1, v, reach);
        let rest = window_weight(cx, cy, x0, x1, y0, y1 - 1, reach);
        let last = row_weight(cx, cy, y1 - 1, x0, x1, reach);
        assert(v * rest + v * last == v * (rest + last)) by (nonlinear_arith);
        assert(window_weight(cx, cy, x0, x1, y0, y1, reach) == rest + last);
        assert(window_sum(s, width, ch, cx, cy, x0, x1, y0, y1, reach) == v * rest + v * last);
    } else {
        assert(window_weight(cx, cy, x0, x1, y0, y1, reach) == 0);
        assert(v * 0 == 0);
    }
}

proof fn lemma_rounded_div_of_multiple(v: int, t: int)
    by (nonlinear_arith)
    requires
        v >= 0,
        t > 0,
    ensures
        rounded_div(v * t, t) == v,
{
    assert(2 * (v * t) + t == v * (2 * t) + t);
    assert((v * (2 * t) + t) / (2 * t) == v);
}

/// Where a channel has one value `v` all over a pixel's neighbourhood, a
/// pass gives the pixel that value.
pub proof fn lemma_mean_of_constant(
    s: Seq<u8>,
    width: int,
    height: int,
    radius: int,
    x: int,
    y: int,
    ch: int,
    v: u8,
)
    requires
        0 <= x < width,
        0 <= y < height,
        radius >= 0,
        forall|nx: int, ny: int|
            window_start(x, radius) <= nx < window_end(x, radius, width) && window_start(y, radius)
                <= ny < window_end(y, radius, height) ==> s[#[trigger] offset(width, nx, ny, ch)]
                == v,
    ensures
        blurred_channel(s, width, height, radius, x, y, ch) == v,
{
    let reach = reach_of(width, height, radius);
    let x0 = window_start(x, radius);
    let x1 = window_end(x, radius, width);
    let y0 = window_start(y, radius);
    let y1 = window_end(y, radius, height);
    lemma_window_sum_constant(s, width, ch, x, y, x0, x1, y0, y1, v, reach);
    lemma_window_weight_holds_center(x, y, x0, x1, y0, y1, reach);
    lemma_rounded_div_of_multiple(v as int, window_weight(x, y, x0, x1, y0, y1, reach) as int);
}

/// A pass of radius zero changes nothing: every pixel's neighbourhood is the
/// pixel alone.
pub proof fn lemma_pass_of_radius_zero(s: Seq<u8>, width: int, height: int)
    requires
        width >= 0,
        height >= 0,
        s.len() == width * height * 4,
    ensures
        blur_pass(s, width, height, 0) == s,
{
    let t = blur_pass(s, width, height, 0);
    assert forall|i: int| 0 <= i < s.len() implies t[i] == s[i] by {
        lemma_index(width, height, i);
        let x = column_of(width, i);
        let y = row_of(width, i);
        let ch = channel_of(i);
        assert forall|nx: int, ny: int|
            window_start(x, 0) <= nx < window_end(x, 0, width) && window_start(y, 0) <= ny
                < window_end(y, 0, height) implies s[#[trigger] offset(width, nx, ny, ch)]
            == s[i] by {
            assert(nx == x && ny == y);
        }
        lemma_mean_of_constant(s, width, height, 0, x, y, ch, s[i]);
    }
    assert(t =~= s);
}

/// A blur of radius zero is the identity, however many passes it makes.
pub proof fn lemma_radius_zero_is_identity(s: Seq<u8>, width: int, height: int, iterations: nat)
    requires
        width >= 0,
        height >= 0,
        s.len() == width * height * 4,
    ensures
        blurred(s, width, height, 0, iterations) == s,
    decreases iterations,
{
    if iterations > 0 {
        lemma_radius_zero_is_identity(s, width, height, (iterations - 1) as nat);
        lemma_pass_of_radius_zero(s, width, height);
    }
}

/// Every pixel of the image has the same four channel values.
pub open spec fn is_uniform(s: Seq<u8>) -> bool {
    forall|i: int| 0 <= i < s.len() ==> #[trigger] s[i] == s[i % 4]
}

/// A pass leaves an image of one colour as it is.
pub proof fn lemma_pass_of_uniform(s: Seq<u8>, width: int, height: int, radius: int)
    requires
        width >= 0,
        height >= 0,
        radius >= 0,
        s.len() == width * height * 4,
        is_uniform(s),
    ensures
        blur_pass(s, width, height, radius) == s,
{
    let t = blur_pass(s, width, height, radius);
    assert forall|i: int| 0 <= i < s.len() implies t[i] == s[i] by {
        lemma_index(width, height, i);
        let x = column_of(width, i);
        let y = row_of(width, i);
        let ch = channel_of(i);
        assert forall|nx: int, ny: int|
            window_start(x, radius) <= nx < window_end(x, radius, width) && window_start(y, radius)
                <= ny < window_end(y, radius, height) implies s[#[trigger] offset(
                width,
                nx,
                ny,
                ch,
            )] == s[i] by {
            lemma_pixel_number(width, height, nx, ny);
            let j = offset(width, nx, ny, ch);
            assert(0 <= j < s.len());
            assert(j % 4 == ch);
            assert(s[j] == s[j % 4]);
            assert(s[i] == s[i % 4]);
        }
        lemma_mean_of_constant(s, width, height, radius, x, y, ch, s[i]);
    }
    assert(t =~= s);
}

/// A blur leaves an image of one colour as it is, whatever the radius and
/// the number of passes.
pub proof fn lemma_uniform_image_is_unchanged(
    s: Seq<u8>,
    width: int,
    height: int,
    radius: int,
    iterations: nat,
)
    requires
        width >= 0,
        height >= 0,
        radius >= 0,
        s.len() == width * height * 4,
        is_uniform(s),
    ensures
        blurred(s, width, height, radius, iterations) == s,
    decreases iterations,
{
    if iterations > 0 {
        lemma_uniform_image_is_unchanged(s, width, height, radius, (iterations - 1) as nat);
        lemma_pass_of_uniform(s, width, height, radius);
    }
}

/// Settings of the blur.
#[derive(Clone, Copy, Debug, PartialEq, Eq, Structural)]
pub struct BlurParams {
    /// How many rows and columns around a pixel count into its mean.
    pub radius: u32,
    /// How many passes the blur makes.
    pub iterations: u32,
}

impl Default for BlurParams {
    fn default() -> (params: Self)
        ensures
            params == Self::defaults(),
    {
        BlurParams { radius: 1, iterations: 1 }
    }
}

impl BlurParams {
    /// Radius one, one pass.
    pub open spec fn defaults() -> BlurParams {
        BlurParams { radius: 1, iterations: 1 }
    }

    /// The settings that a document gives: each one as given, or its
    /// default where the document leaves it out. No settings come of a
    /// member of the wrong type.
    pub open spec fn merged(radius: Setting<u32>, iterations: Setting<u32>) -> Option<BlurParams> {
        if radius is Invalid || iterations is Invalid {
            None
        } else {
            Some(
                BlurParams {
                    radius: match radius {
                        Setting::Given(r) => r,
                        _ => 1,
                    },
                    iterations: match iterations {
                        Setting::Given(n) => n,
                        _ => 1,
                    },
                },
            )
        }
    }

    /// Puts the two settings of a document together with the defaults.
    pub fn merge(radius: Setting<u32>, iterations: Setting<u32>) -> (params: Option<BlurParams>)
        ensures
            params == Self::merged(radius, iterations),
    {
        let radius: u32 = match radius {
            Setting::Absent => 1,
            Setting::Given(r) => r,
            Setting::Invalid => {
                return None;
            },
        };
        let iterations: u32 = match iterations {
            Setting::Absent => 1,
            Setting::Given(n) => n,
            Setting::Invalid => {
                return None;
            },
        };
        Some(BlurParams { radius, iterations })
    }

    /// The settings that the members of a document stand for.
    pub open spec fn of_members(members: Seq<(Seq<char>, Seq<char>)>) -> Option<BlurParams> {
        Self::merged(u32_setting(members, "radius"@), u32_setting(members, "iterations"@))
    }

    /// Reads the settings out of a document.
    pub fn from_document(document: &Document) -> (params: Option<BlurParams>)
        ensures
            params == Self::of_members(document@),
    {
        let radius = document.read_u32("radius");
        let iterations = document.read_u32("iterations");
        BlurParams::merge(radius, iterations)
    }

    /// The settings that a parameter text stands for. A text that is no
    /// JSON object, or that holds a setting of the wrong type, stands for
    /// the defaults as a whole.
    pub open spec fn decoded(text: Seq<char>) -> BlurParams {
        match json_object(text) {
            None => Self::defaults(),
            Some(members) => match Self::of_members(members) {
                Some(params) => params,
                None => Self::defaults(),
            },
        }
    }

    /// Decodes a parameter text. Decoding never fails: where the text
    /// cannot be used, the blur runs with its defaults.
    pub fn decode(text: &str) -> (params: BlurParams)
        ensures
            params == Self::decoded(text@),
    {
        match parse_object(text) {
            None => BlurParams::default(),
            Some(document) => match BlurParams::from_document(&document) {
                Some(params) => params,
                None => BlurParams::default(),
            },
        }
    }
}

/// The buffer after a call of [`process_image`]: blurred with the decoded
/// settings where the boundary lets the call through, untouched otherwise.
pub open spec fn processed(
    width: u32,
    height: u32,
    pixels: Seq<u8>,
    params: Option<Seq<u8>>,
) -> Seq<u8> {
    match validated(width, height, true, params is Some) {
        Err(_) => pixels,
        Ok(_) => {
            let settings = BlurParams::decoded(text_of(params->0));
            blurred(
                pixels,
                width as int,
                height as int,
                settings.radius as int,
                settings.iterations as nat,
            )
        },
    }
}

/// The blur filter's entry point.
///
/// An absent buffer or parameter text, an empty image and dimensions whose
/// byte count overflows each end the call at once, with the buffer as it
/// was. Otherwise the parameter bytes are read as UTF-8 JSON and the buffer
/// is blurred in place. The call reports no status: a rejected call shows
/// only in the untouched buffer.
pub fn process_image(width: u32, height: u32, rgba_data: Option<&mut [u8]>, params: Option<&[u8]>)
    requires
        rgba_data matches Some(data) ==> (validated(width, height, true, true) matches Ok(len)
            ==> data@.len() == len),
    ensures
        rgba_data matches Some(data) ==> final(data)@ == processed(
            width,
            height,
            data@,
            match params {
                Some(bytes) => Some(bytes@),
                None => None,
            },
        ),
        buffer_len(width as int, height as int) > usize::MAX ==> (rgba_data matches Some(data)
            ==> final(data)@ == data@),
{
    match (rgba_data, params) {
        (Some(data), Some(bytes)) => {
            if validate(width, height, true, true).is_ok() {
                let settings = BlurParams::decode(params_text(bytes));
                weighted_blur(
                    data,
                    width as usize,
                    height as usize,
                    settings.radius as usize,
                    settings.iterations,
                );
            }
        },
        _ => {},
    }
}

} // verus!
