//! The shading passes over a field of numbers: the gradient, made of
//! difference quotients, and the blur, made of weighted means of the cells
//! under a kernel.

use vstd::prelude::*;
use crate::scalar::{
    is_half, is_real_difference, is_real_product, is_real_quotient, is_real_sum, is_zero, Scalar,
};
use crate::table::{cell, cell_at, in_grid, offset};

verus! {

/// The difference quotient along one axis at one cell: the value at `plus`
/// less the value at `minus`, halved where the two lie two cells apart.
#[derive(Clone, Copy, Debug, PartialEq, Eq, Structural)]
pub struct Stencil {
    pub minus: usize,
    pub plus: usize,
    pub halved: bool,
}

/// The stencil at cell `i` of an axis of `n` cells: a forward difference at
/// the first cell, a backward difference at the last, a centred difference
/// in between. There is none where the axis has fewer than two cells or `i`
/// lies outside it.
pub open spec fn stencil_at(i: nat, n: nat) -> Option<Stencil> {
    if i >= n || n < 2 {
        None
    } else if i == 0 {
        Some(Stencil { minus: 0, plus: 1, halved: false })
    } else if i == n - 1 {
        Some(Stencil { minus: (i - 1) as usize, plus: i as usize, halved: false })
    } else {
        Some(Stencil { minus: (i - 1) as usize, plus: (i + 1) as usize, halved: true })
    }
}

/// Picks the stencil at cell `i` of an axis of `n` cells.
pub fn difference_stencil(i: usize, n: usize) -> (stencil: Option<Stencil>)
    ensures
        stencil == stencil_at(i as nat, n as nat),
{
    if i >= n || n < 2 {
        None
    } else if i == 0 {
        Some(Stencil { minus: 0, plus: 1, halved: false })
    } else if i == n - 1 {
        Some(Stencil { minus: i - 1, plus: i, halved: false })
    } else {
        Some(Stencil { minus: i - 1, plus: i + 1, halved: true })
    }
}

/// The part of a blur kernel that lies over the axis at one cell. The
/// kernel has `2 * radius + 1` taps and tap `radius` lies over the cell
/// itself. The taps `first_tap` to `last_tap` are used, and tap `first_tap`
/// lies over cell `first_cell`.
#[derive(Clone, Copy, Debug, PartialEq, Eq, Structural)]
pub struct Window {
    pub first_tap: usize,
    pub last_tap: usize,
    pub first_cell: usize,
}

/// The cell under tap `tap` of a kernel centred at cell `i`.
pub open spec fn cell_under(i: nat, radius: nat, tap: int) -> int {
    i + tap - radius
}

/// Tap `tap` of a kernel centred at cell `i` lies over a cell of the axis.
pub open spec fn tap_used(i: nat, n: nat, radius: nat, tap: int) -> bool {
    0 <= tap <= 2 * radius && 0 <= cell_under(i, radius, tap) < n
}

/// The window of a kernel of the given radius centred at cell `i` of an
/// axis of `n` cells: the taps beyond either end of the axis are left out.
pub open spec fn window_at(i: nat, n: nat, radius: nat) -> Window {
    let before = if i < radius {
        i
    } else {
        radius
    };
    let after = if n - 1 - i < radius {
        (n - 1 - i) as nat
    } else {
        radius
    };
    Window {
        first_tap: (radius - before) as usize,
        last_tap: (radius + after) as usize,
        first_cell: (i - before) as usize,
    }
}

/// The window holds exactly the taps that lie over the axis, the tap over
/// the cell itself among them, and its first tap lies over its first cell.
pub proof fn lemma_window_at(i: nat, n: nat, radius: nat, tap: int)
    requires
        i < n <= usize::MAX,
        radius <= u8::MAX,
    ensures
        tap_used(i, n, radius, tap) <==> window_at(i, n, radius).first_tap <= tap <= window_at(
            i,
            n,
            radius,
        ).last_tap,
        window_at(i, n, radius).first_tap <= radius <= window_at(i, n, radius).last_tap,
        window_at(i, n, radius).first_cell == cell_under(
            i,
            radius,
            window_at(i, n, radius).first_tap as int,
        ),
{
}

/// Finds the taps of a kernel of the given radius, centred at cell `i` of an
/// axis of `n` cells, that lie over the axis. Taps beyond either end of the
/// axis are left out; the tap over the cell itself is always used.
pub fn blur_window(i: usize, n: usize, radius: u8) -> (window: Window)
    requires
        i < n,
    ensures
        window == window_at(i as nat, n as nat, radius as nat),
{
    let r = radius as usize;
    let before = if i < r {
        i
    } else {
        r
    };
    let after = if n - 1 - i < r {
        n - 1 - i
    } else {
        r
    };
    Window { first_tap: r - before, last_tap: r + after, first_cell: i - before }
}

/// `slope` is the difference quotient of the values `plus` and `minus`:
/// their difference, halved where the stencil says so.
pub open spec fn is_slope<T: Scalar>(plus: T, minus: T, halved: bool, slope: T) -> bool {
    exists|rise: T| #[trigger]
        is_real_difference(plus, minus, rise) && if halved {
            is_half(rise, slope)
        } else {
            slope == rise
        }
}

/// `nabla` is the gradient of the field at column `x` of row `y`, where
/// both axes have a stencil there.
pub open spec fn is_nabla<T: Scalar>(
    field: Seq<T>,
    width: nat,
    height: nat,
    x: int,
    y: int,
    nabla: (T, T),
) -> bool {
    let along_x = stencil_at(x as nat, width)->0;
    let along_y = stencil_at(y as nat, height)->0;
    &&& is_slope(
        cell(field, width, along_x.plus as int, y),
        cell(field, width, along_x.minus as int, y),
        along_x.halved,
        nabla.0,
    )
    &&& is_slope(
        cell(field, width, x, along_y.plus as int),
        cell(field, width, x, along_y.minus as int),
        along_y.halved,
        nabla.1,
    )
}

/// The difference quotient of two values.
fn slope<T: Scalar>(plus: T, minus: T, halved: bool) -> (slope: T)
    ensures
        is_slope(plus, minus, halved, slope),
{
    let rise = plus.difference(minus);
    let slope = if halved {
        rise.half()
    } else {
        rise
    };
    assert(is_real_difference(plus, minus, rise));
    slope
}

/// The gradient of a field at column `x` of row `y`: forward and backward
/// differences at the borders, centred differences elsewhere. There is none
/// where the cell lies outside the field or an axis has fewer than two
/// cells.
pub fn discrete_nabla<T: Scalar>(
    field: &[T],
    width: usize,
    height: usize,
    x: usize,
    y: usize,
) -> (nabla: Option<(T, T)>)
    requires
        field.len() == width * height,
    ensures
        nabla is Some <==> stencil_at(x as nat, width as nat) is Some && stencil_at(
            y as nat,
            height as nat,
        ) is Some,
        nabla is Some ==> is_nabla(
            field@,
            width as nat,
            height as nat,
            x as int,
            y as int,
            nabla->0,
        ),
{
    let along_x = match difference_stencil(x, width) {
        Some(stencil) => stencil,
        None => {
            return None;
        },
    };
    let along_y = match difference_stencil(y, height) {
        Some(stencil) => stencil,
        None => {
            return None;
        },
    };
    let dx = slope(
        cell_at(field, width, height, along_x.plus, y),
        cell_at(field, width, height, along_x.minus, y),
        along_x.halved,
    );
    let dy = slope(
        cell_at(field, width, height, x, along_y.plus),
        cell_at(field, width, height, x, along_y.minus),
        along_y.halved,
    );
    Some((dx, dy))
}

/// A weighted value was added to a running sum: `after` is the sum of
/// `before` and the product of `value` and `weight`.
pub open spec fn is_weight_added<T: Scalar>(value: T, weight: T, before: T, after: T) -> bool {
    exists|part: T| #[trigger]
        is_real_product(value, weight, part) && is_real_sum(before, part, after)
}

/// The running sums of a weighted mean. `accs` holds the sums of the
/// weights and `sigmas` the sums of the weighted values, both starting with
/// 0 and taking the cells in ascending order.
pub open spec fn is_weighing<T: Scalar>(
    values: Seq<T>,
    weights: Seq<T>,
    sigmas: Seq<T>,
    accs: Seq<T>,
) -> bool {
    &&& weights.len() == values.len()
    &&& sigmas.len() == values.len() + 1
    &&& accs.len() == values.len() + 1
    &&& is_zero(sigmas[0])
    &&& is_zero(accs[0])
    &&& forall|t: int|
        0 <= t < values.len() ==> is_real_sum(accs[t], weights[t], #[trigger] accs[t + 1])
    &&& forall|t: int|
        0 <= t < values.len() ==> is_weight_added(
            values[t],
            weights[t],
            sigmas[t],
            #[trigger] sigmas[t + 1],
        )
}

/// `mean` is the weighted mean of the values: the sum of the weighted
/// values divided by the sum of the weights that were used.
pub open spec fn is_weighted_mean<T: Scalar>(values: Seq<T>, weights: Seq<T>, mean: T) -> bool {
    exists|sigmas: Seq<T>, accs: Seq<T>| #[trigger]
        is_weighing(values, weights, sigmas, accs) && is_real_quotient(
            sigmas[values.len() as int],
            accs[values.len() as int],
            mean,
        )
}

/// The values of the field under the window of the cell in column `x` of
/// row `y`, along its row or along its column.
pub open spec fn values_under<T>(
    field: Seq<T>,
    width: nat,
    height: nat,
    radius: nat,
    x: int,
    y: int,
    along_rows: bool,
) -> Seq<T> {
    if along_rows {
        let window = window_at(x as nat, width, radius);
        Seq::new(
            (window.last_tap - window.first_tap + 1) as nat,
            |t: int| cell(field, width, window.first_cell + t, y),
        )
    } else {
        let window = window_at(y as nat, height, radius);
        Seq::new(
            (window.last_tap - window.first_tap + 1) as nat,
            |t: int| cell(field, width, x, window.first_cell + t),
        )
    }
}

/// The weights of the kernel that lie over the field at the cell in column
/// `x` of row `y`, along its row or along its column.
pub open spec fn weights_over<T>(
    kernel: Seq<T>,
    width: nat,
    height: nat,
    radius: nat,
    x: int,
    y: int,
    along_rows: bool,
) -> Seq<T> {
    let window = if along_rows {
        window_at(x as nat, width, radius)
    } else {
        window_at(y as nat, height, radius)
    };
    kernel.subrange(window.first_tap as int, window.last_tap + 1)
}

/// `out` is the field blurred along its rows or along its columns: every
/// cell holds the weighted mean of the cells under its window.
pub open spec fn is_blurred<T: Scalar>(
    field: Seq<T>,
    width: nat,
    height: nat,
    kernel: Seq<T>,
    radius: nat,
    along_rows: bool,
    out: Seq<T>,
) -> bool {
    &&& out.len() == field.len()
    &&& forall|x: int, y: int|
        in_grid(width, height, x, y) ==> is_weighted_mean(
            values_under(field, width, height, radius, x, y, along_rows),
            weights_over(kernel, width, height, radius, x, y, along_rows),
            #[trigger] cell(out, width, x, y),
        )
}

/// The weighted mean of the cells under the window of one cell.
fn blur_cell<T: Scalar>(
    field: &[T],
    width: usize,
    height: usize,
    kernel: &[T],
    radius: u8,
    x: usize,
    y: usize,
    along_rows: bool,
) -> (mean: T)
    requires
        field.len() == width * height,
        kernel.len() == 2 * radius + 1,
        x < width,
        y < height,
    ensures
        is_weighted_mean(
            values_under(
                field@,
                width as nat,
                height as nat,
                radius as nat,
                x as int,
                y as int,
                along_rows,
            ),
            weights_over(
                kernel@,
                width as nat,
                height as nat,
                radius as nat,
                x as int,
                y as int,
                along_rows,
            ),
            mean,
        ),
{
    let window = if along_rows {
        blur_window(x, width, radius)
    } else {
        blur_window(y, height, radius)
    };
    let ghost values = values_under(
        field@,
        width as nat,
        height as nat,
        radius as nat,
        x as int,
        y as int,
        along_rows,
    );
    let ghost weights = weights_over(
        kernel@,
        width as nat,
        height as nat,
        radius as nat,
        x as int,
        y as int,
        along_rows,
    );
    let count = window.last_tap - window.first_tap + 1;
    let mut sigma = T::zero();
    let mut acc = T::zero();
    let ghost mut sigmas: Seq<T> = seq![sigma];
    let ghost mut accs: Seq<T> = seq![acc];
    let mut t: usize = 0;
    while t < count
        invariant
            field.len() == width * height,
            kernel.len() == 2 * radius + 1,
            x < width,
            y < height,
            window == if along_rows {
                window_at(x as nat, width as nat, radius as nat)
            } else {
                window_at(y as nat, height as nat, radius as nat)
            },
            count == window.last_tap - window.first_tap + 1,
            values == values_under(
                field@,
                width as nat,
                height as nat,
                radius as nat,
                x as int,
                y as int,
                along_rows,
            ),
            weights == weights_over(
                kernel@,
                width as nat,
                height as nat,
                radius as nat,
                x as int,
                y as int,
                along_rows,
            ),
            t <= count,
            sigmas.len() == t + 1,
            accs.len() == t + 1,
            sigmas[t as int] == sigma,
            accs[t as int] == acc,
            is_zero(sigmas[0]),
            is_zero(accs[0]),
            forall|k: int| 0 <= k < t ==> is_real_sum(accs[k], weights[k], #[trigger] accs[k + 1]),
            forall|k: int|
                0 <= k < t ==> is_weight_added(
                    values[k],
                    weights[k],
                    sigmas[k],
                    #[trigger] sigmas[k + 1],
                ),
        decreases count - t,
    {
        let weight = kernel[window.first_tap + t];
        let value = if along_rows {
            cell_at(field, width, height, window.first_cell + t, y)
        } else {
            cell_at(field, width, height, x, window.first_cell + t)
        };
        assert(weight == weights[t as int]);
        assert(value == values[t as int]);
        let next_acc = acc.sum(weight);
        let part = value.product(weight);
        let next_sigma = sigma.sum(part);
        proof {
            let old_sigmas = sigmas;
            let old_accs = accs;
            sigmas = old_sigmas.push(next_sigma);
            accs = old_accs.push(next_acc);
            assert(is_real_product(value, weight, part));
            assert forall|k: int| 0 <= k < t + 1 implies is_real_sum(
                accs[k],
                weights[k],
                #[trigger] accs[k + 1],
            ) by {
                if k < t {
                    assert(is_real_sum(old_accs[k], weights[k], old_accs[k + 1]));
                }
            }
            assert forall|k: int| 0 <= k < t + 1 implies is_weight_added(
                values[k],
                weights[k],
                sigmas[k],
                #[trigger] sigmas[k + 1],
            ) by {
                if k < t {
                    assert(is_weight_added(
                        values[k],
                        weights[k],
                        old_sigmas[k],
                        old_sigmas[k + 1],
                    ));
                }
            }
        }
        acc = next_acc;
        sigma = next_sigma;
        t += 1;
    }
    assert(is_weighing(values, weights, sigmas, accs));
    sigma.quotient(acc)
}

/// Blurs a field along its rows or along its columns.
fn blur_pass<T: Scalar>(
    field: &[T],
    width: usize,
    height: usize,
    kernel: &[T],
    radius: u8,
    along_rows: bool,
) -> (out: Vec<T>)
    requires
        field.len() == width * height,
        kernel.len() == 2 * radius + 1,
    ensures
        is_blurred(field@, width as nat, height as nat, kernel@, radius as nat, along_rows, out@),
{
    let ghost w = width as nat;
    let ghost h = height as nat;
    let ghost r = radius as nat;
    let mut out: Vec<T> = Vec::with_capacity(field.len());
    let mut y: usize = 0;
    while y < height
        invariant
            field.len() == width * height,
            kernel.len() == 2 * radius + 1,
            w == width,
            h == height,
            r == radius,
            y <= height,
            out@.len() == offset(w, 0, y as int),
            forall|i: int, j: int|
                in_grid(w, h, i, j) && j < y ==> is_weighted_mean(
                    values_under(field@, w, h, r, i, j, along_rows),
                    weights_over(kernel@, w, h, r, i, j, along_rows),
                    #[trigger] cell(out@, w, i, j),
                ),
        decreases height - y,
    {
        let mut x: usize = 0;
        while x < width
            invariant
                field.len() == width * height,
                kernel.len() == 2 * radius + 1,
                w == width,
                h == height,
                r == radius,
                y < height,
                x <= width,
                out@.len() == offset(w, x as int, y as int),
                forall|i: int, j: int|
                    in_grid(w, h, i, j) && (j < y || (j == y && i < x)) ==> is_weighted_mean(
                        values_under(field@, w, h, r, i, j, along_rows),
                        weights_over(kernel@, w, h, r, i, j, along_rows),
                        #[trigger] cell(out@, w, i, j),
                    ),
            decreases width - x,
        {
            let ghost before = out@;
            let mean = blur_cell(field, width, height, kernel, radius, x, y, along_rows);
            out.push(mean);
            proof {
                assert forall|i: int, j: int|
                    in_grid(w, h, i, j) && (j < y || (j == y && i < x
                        + 1)) implies is_weighted_mean(
                    values_under(field@, w, h, r, i, j, along_rows),
                    weights_over(kernel@, w, h, r, i, j, along_rows),
                    #[trigger] cell(out@, w, i, j),
                ) by {
                    if i == x && j == y {
                        assert(cell(out@, w, i, j) == mean);
                    } else {
                        lemma_cell_comes_before(w, i, j, x as int, y as int);
                        assert(cell(out@, w, i, j) == cell(before, w, i, j));
                    }
                }
            }
            x += 1;
        }
        assert(offset(w, width as int, y as int) == offset(w, 0, y + 1)) by (nonlinear_arith)
            requires
                w == width,
        ;
        y += 1;
    }
    assert(out@.len() == field@.len()) by (nonlinear_arith)
        requires
            out@.len() == offset(w, 0, height as int),
            field@.len() == width * height,
            w == width,
    ;
    out
}

/// A cell that comes before another one in the order of the rows has the
/// smaller position.
proof fn lemma_cell_comes_before(width: nat, i: int, j: int, x: int, y: int)
    requires
        0 <= i < width,
        0 <= x < width,
        0 <= j,
        0 <= y,
        j < y || (j == y && i < x),
    ensures
        0 <= offset(width, i, j) < offset(width, x, y),
{
    if j < y {
        assert(j * width + width <= y * width) by (nonlinear_arith)
            requires
                j + 1 <= y,
        ;
    }
    assert(0 <= j * width) by (nonlinear_arith)
        requires
            0 <= j,
    ;
}

/// Blurs a field with a kernel of `2 * radius + 1` weights: first along its
/// rows, then, when that pass is done, along its columns. Near the borders
/// each mean is taken over the weights that lie over the field.
pub fn gaussian_blur<T: Scalar>(
    map: &mut Vec<T>,
    width: usize,
    height: usize,
    kernel: &[T],
    radius: u8,
)
    requires
        old(map).len() == width * height,
        kernel.len() == 2 * radius + 1,
    ensures
        exists|buffer: Seq<T>| #[trigger]
            is_blurred(
                old(map)@,
                width as nat,
                height as nat,
                kernel@,
                radius as nat,
                true,
                buffer,
            ) && is_blurred(
                buffer,
                width as nat,
                height as nat,
                kernel@,
                radius as nat,
                false,
                final(map)@,
            ),
{
    let buffer = blur_pass(map.as_slice(), width, height, kernel, radius, true);
    let out = blur_pass(buffer.as_slice(), width, height, kernel, radius, false);
    *map = out;
}

} // verus!
