//! The pixels of one row: how its columns are shared between batches of
//! eight pixels and single pixels, and the computation of their root
//! indices.

use vstd::prelude::*;
use crate::complex8::{lemma_pack_keeps_order, lemma_unpack_keeps_order, Complex8};
use crate::scalar::Scalar;
use crate::solver::{
    color, is_color, is_newton_trace, is_newton_trace8, newton_raphson, newton_raphson8, Phase,
    PolyInfo, Solver,
};

verus! {

/// Number of pixels that a batch holds.
pub const LANES: usize = 8;

/// The plan for one row. Batch `k` takes the columns `8 * k` to
/// `8 * k + 7`. After the batches the columns from `scalar_from` to the end
/// of the row are taken one by one.
#[derive(Clone, Copy, Debug, PartialEq, Eq, Structural)]
pub struct RowPlan {
    pub batches: usize,
    pub scalar_from: usize,
}

/// The plan for a row of `width` columns. Without batches every column is
/// taken by itself. With batches, as many full batches as fit are taken
/// from the left, and the single pixels start seven columns before the end
/// of the last batch.
pub open spec fn planned(width: nat, batched: bool) -> RowPlan {
    if batched && width >= 8 {
        RowPlan { batches: (width / 8) as usize, scalar_from: (8 * (width / 8) - 7) as usize }
    } else {
        RowPlan { batches: 0, scalar_from: 0 }
    }
}

/// Column `x` is taken by one of the batches of the plan.
pub open spec fn in_batch(plan: RowPlan, x: int) -> bool {
    0 <= x < 8 * plan.batches
}

/// Column `x` of a row of `width` columns is taken as a single pixel.
pub open spec fn in_scalar(plan: RowPlan, width: nat, x: int) -> bool {
    plan.scalar_from <= x < width
}

/// Plans a row of `width` columns.
pub fn row_plan(width: usize, batched: bool) -> (plan: RowPlan)
    ensures
        plan == planned(width as nat, batched),
{
    if batched && width >= LANES {
        let batches = width / LANES;
        RowPlan { batches, scalar_from: LANES * batches - 7 }
    } else {
        RowPlan { batches: 0, scalar_from: 0 }
    }
}

/// Every batch of the plan lies inside the row, and every column of the
/// row is taken by a batch or as a single pixel.
pub proof fn lemma_plan_covers_row(width: nat, batched: bool, x: int)
    requires
        width <= usize::MAX,
        0 <= x < width,
    ensures
        8 * planned(width, batched).batches <= width,
        planned(width, batched).scalar_from <= width,
        in_batch(planned(width, batched), x) || in_scalar(planned(width, batched), width, x),
{
}

/// `z` holds the start points of the eight columns from `from` on, lane by
/// lane, as `start` gives them.
pub open spec fn is_batch_start<T, P: Fn(
    usize) -> (T, T)>(start: P, from: int, z: Complex8<T>,
) -> bool {
    forall|lane: int|
        0 <= lane < 8 ==> call_ensures(start, ((from + lane) as usize,), #[trigger] z@[lane])
}

/// `color` is the root index of column `x` taken as a single pixel: the
/// Newton iteration was run from the start point of the column, and the
/// final scan of its last iterate gave `color`.
pub open spec fn is_pixel_color<T: Scalar, P: Fn(usize) -> (T, T)>(
    start: P,
    x: int,
    info: PolyInfo<T>,
    solver: Solver<T>,
    color: usize,
) -> bool {
    exists|zs: Seq<(T, T)>, first: (T, T), last: (T, T), phase: Phase| #[trigger]
        is_newton_trace(zs, first, last, phase, info, solver) && call_ensures(
            start,
            (x as usize,),
            first,
        ) && is_color(last, info.roots@, solver.epsilon, color)
}

/// `color` is the root index of column `x` taken in a batch: the Newton
/// iteration of the batch was run from the start points of the eight
/// columns that begin at the multiple of eight below `x`, and the final
/// scan of the last iterate of the lane of `x` gave `color`.
pub open spec fn is_lane_color<T: Scalar, P: Fn(usize) -> (T, T)>(
    start: P,
    x: int,
    info: PolyInfo<T>,
    solver: Solver<T>,
    color: usize,
) -> bool {
    exists|zs: Seq<Complex8<T>>, first: Complex8<T>, last: Complex8<T>, phase: Phase| #[trigger]
        is_newton_trace8(zs, first, last, phase, info, solver) && is_batch_start(
            start,
            x - x % 8,
            first,
        ) && is_color(last@[x % 8], info.roots@, solver.epsilon, color)
}

/// Column `x` holds what the plan asks for: its root index as a single
/// pixel where the plan takes it so, and else its root index in its batch.
pub open spec fn is_row_color<T: Scalar, P: Fn(usize) -> (T, T)>(
    plan: RowPlan,
    start: P,
    x: int,
    info: PolyInfo<T>,
    solver: Solver<T>,
    color: usize,
) -> bool {
    if plan.scalar_from <= x {
        is_pixel_color(start, x, info, solver, color)
    } else {
        is_lane_color(start, x, info, solver, color)
    }
}

/// Root index of the pixel in column `x`.
fn pixel_color<T: Scalar, P: Fn(usize) -> (T, T)>(
    start: &P,
    x: usize,
    info: &PolyInfo<T>,
    solver: &Solver<T>,
) -> (color: usize)
    requires
        solver.stride > 0,
        call_requires(*start, (x,)),
    ensures
        is_pixel_color(*start, x as int, *info, *solver, color),
{
    let first = start(x);
    let last = newton_raphson(first, info, solver);
    color(last, info.roots.as_slice(), solver.epsilon)
}

/// Root indices of the eight pixels in the columns from `from` on.
fn batch_colors<T: Scalar, P: Fn(usize) -> (T, T)>(
    start: &P,
    from: usize,
    info: &PolyInfo<T>,
    solver: &Solver<T>,
) -> (colors: [usize; 8])
    requires
        solver.stride > 0,
        from % 8 == 0,
        from + 8 <= usize::MAX,
        forall|x: usize| from <= x < from + 8 ==> call_requires(*start, (x,)),
    ensures
        forall|lane: int|
            0 <= lane < 8 ==> is_lane_color(
                *start,
                from + lane,
                *info,
                *solver,
                #[trigger] colors[lane],
            ),
{
    let origin = start(from);
    let mut points = [origin;8];
    let mut lane: usize = 1;
    while lane < 8
        invariant
            1 <= lane <= 8,
            from + 8 <= usize::MAX,
            forall|x: usize| from <= x < from + 8 ==> call_requires(*start, (x,)),
            forall|k: int|
                0 <= k < lane ==> call_ensures(
                    *start,
                    ((from + k) as usize,),
                    #[trigger] points[k],
                ),
        decreases 8 - lane,
    {
        points[lane] = start(from + lane);
        lane += 1;
    }
    let first = Complex8::from(points);
    proof {
        lemma_pack_keeps_order(points);
        assert forall|k: int| 0 <= k < 8 implies call_ensures(
            *start,
            ((from + k) as usize,),
            #[trigger] first@[k],
        ) by {
            assert(first@[k] == points@[k]);
        }
    }
    let last = newton_raphson8(first, info, solver);
    let ends: [(T, T); 8] = last.into();
    proof {
        lemma_unpack_keeps_order(last);
    }
    let mut colors = [0usize;8];
    let mut lane: usize = 0;
    while lane < 8
        invariant
            lane <= 8,
            ends@ == last@,
            forall|k: int|
                0 <= k < lane ==> is_color(
                    last@[k],
                    info.roots@,
                    solver.epsilon,
                    #[trigger] colors[k],
                ),
        decreases 8 - lane,
    {
        assert(ends[lane as int] == ends@[lane as int]);
        colors[lane] = color(ends[lane], info.roots.as_slice(), solver.epsilon);
        lane += 1;
    }
    proof {
        let (zs, phase) = choose|zs: Seq<Complex8<T>>, phase: Phase| #[trigger]
            is_newton_trace8(zs, first, last, phase, *info, *solver);
        assert forall|k: int| 0 <= k < 8 implies is_lane_color(
            *start,
            from + k,
            *info,
            *solver,
            #[trigger] colors[k],
        ) by {
            assert((from + k) % 8 == k);
            assert(is_batch_start(*start, from as int, first));
            assert(is_newton_trace8(zs, first, last, phase, *info, *solver));
        }
    }
    colors
}

/// Computes the root indices of one row of pixels into `table`, which has
/// a cell for each column. `start` gives the start point of the pixel of a
/// column. First the batches of the plan are taken, then the single pixels,
/// which write over what a batch left in their columns.
pub fn calc_row<T: Scalar, P: Fn(usize) -> (T, T)>(
    table: &mut [usize],
    info: &PolyInfo<T>,
    solver: &Solver<T>,
    batched: bool,
    start: P,
)
    requires
        solver.stride > 0,
        forall|x: usize| x < old(table).len() ==> call_requires(start, (x,)),
    ensures
        final(table).len() == old(table).len(),
        forall|x: int|
            0 <= x < final(table).len() ==> is_row_color(
                planned(old(table)@.len(), batched),
                start,
                x,
                *info,
                *solver,
                #[trigger] final(table)@[x],
            ),
{
    let width = table.len();
    let plan = row_plan(width, batched);
    let mut k: usize = 0;
    while k < plan.batches
        invariant
            solver.stride > 0,
            plan == planned(width as nat, batched),
            table.len() == width,
            k <= plan.batches,
            8 * plan.batches <= width,
            forall|x: usize| x < width ==> call_requires(start, (x,)),
            forall|x: int|
                0 <= x < 8 * k ==> is_lane_color(start, x, *info, *solver, #[trigger] table@[x]),
        decreases plan.batches - k,
    {
        let from = LANES * k;
        let colors = batch_colors(&start, from, info, solver);
        let mut lane: usize = 0;
        while lane < LANES
            invariant
                table.len() == width,
                from == 8 * k,
                from + 8 <= width,
                lane <= 8,
                forall|l: int|
                    0 <= l < 8 ==> is_lane_color(
                        start,
                        from + l,
                        *info,
                        *solver,
                        #[trigger] colors[l],
                    ),
                forall|x: int|
                    0 <= x < from ==> is_lane_color(start, x, *info, *solver, #[trigger] table@[x]),
                forall|x: int| from <= x < from + lane ==> #[trigger] table@[x] == colors[x - from],
            decreases 8 - lane,
        {
            table[from + lane] = colors[lane];
            lane += 1;
        }
        assert forall|x: int| 0 <= x < 8 * (k + 1) implies is_lane_color(
            start,
            x,
            *info,
            *solver,
            #[trigger] table@[x],
        ) by {
            if x >= from {
                assert(table@[x] == colors[x - from]);
                assert(is_lane_color(start, from + (x - from), *info, *solver, colors[x - from]));
            }
        }
        k += 1;
    }
    let mut x: usize = plan.scalar_from;
    while x < width
        invariant
            solver.stride > 0,
            plan == planned(width as nat, batched),
            table.len() == width,
            plan.scalar_from <= x,
            plan.scalar_from <= 8 * plan.batches <= width,
            forall|x: usize| x < width ==> call_requires(start, (x,)),
            forall|i: int|
                0 <= i < plan.scalar_from ==> is_lane_color(
                    start,
                    i,
                    *info,
                    *solver,
                    #[trigger] table@[i],
                ),
            forall|i: int|
                plan.scalar_from <= i < x ==> is_pixel_color(
                    start,
                    i,
                    *info,
                    *solver,
                    #[trigger] table@[i],
                ),
        decreases width - x,
    {
        table[x] = pixel_color(&start, x, info, solver);
        x += 1;
    }
}

} // verus!
