//! Grids stored row by row, and the root-index table: one small integer per
//! pixel.

use vstd::prelude::*;

verus! {

/// Whether column `x` of row `y` lies inside a grid of `width` by `height` cells.
pub open spec fn in_grid(width: nat, height: nat, x: int, y: int) -> bool {
    0 <= x < width && 0 <= y < height
}

/// Position of column `x` of row `y` in a row-major table `width` cells wide.
pub open spec fn offset(width: nat, x: int, y: int) -> int {
    y * width + x
}

/// Value stored for column `x` of row `y`.
pub open spec fn cell<T>(table: Seq<T>, width: nat, x: int, y: int) -> T {
    table[offset(width, x, y)]
}

/// A cell inside the grid has a position inside the table.
pub proof fn lemma_offset_in_table(width: nat, height: nat, x: int, y: int)
    requires
        in_grid(width, height, x, y),
    ensures
        0 <= y * width <= offset(width, x, y) < width * height,
{
    assert(y * width + x < width * height) by (nonlinear_arith)
        requires
            0 <= x < width,
            0 <= y < height,
    ;
    assert(0 <= y * width) by (nonlinear_arith)
        requires
            0 <= y,
    ;
}

/// Two cells of the grid with the same position in the table are the same cell.
pub proof fn lemma_offset_injective(width: nat, x1: int, y1: int, x2: int, y2: int)
    requires
        0 <= x1 < width,
        0 <= x2 < width,
        0 <= y1,
        0 <= y2,
        offset(width, x1, y1) == offset(width, x2, y2),
    ensures
        x1 == x2,
        y1 == y2,
{
    if y1 < y2 {
        assert(y1 * width + width <= y2 * width) by (nonlinear_arith)
            requires
                y1 + 1 <= y2,
        ;
    }
    if y2 < y1 {
        assert(y2 * width + width <= y1 * width) by (nonlinear_arith)
            requires
                y2 + 1 <= y1,
        ;
    }
}

/// Reads the value stored for column `x` of row `y`.
pub fn cell_at<T: Copy>(table: &[T], width: usize, height: usize, x: usize, y: usize) -> (value: T)
    requires
        table.len() == width * height,
        x < width,
        y < height,
    ensures
        value == cell(table@, width as nat, x as int, y as int),
{
    proof {
        lemma_offset_in_table(width as nat, height as nat, x as int, y as int);
    }
    table[y * width + x]
}

/// The table with row `y` replaced by `row`.
pub open spec fn with_row(table: Seq<usize>, width: nat, y: int, row: Seq<usize>) -> Seq<usize> {
    Seq::new(
        table.len(),
        |i: int|
            if y * width <= i < y * width + width {
                row[i - y * width]
            } else {
                table[i]
            },
    )
}

/// Copies a finished row into the shared table. Only the cells of row `y`
/// change.
pub fn commit_row(table: &mut [usize], y: usize, row: &[usize], width: usize, height: usize)
    requires
        old(table).len() == width * height,
        row.len() == width,
        y < height,
    ensures
        final(table)@ == with_row(old(table)@, width as nat, y as int, row@),
{
    let ghost before = table@;
    assert(0 <= y * width && y * width + width <= width * height) by (nonlinear_arith)
        requires
            0 <= y < height,
            0 <= width,
    ;
    let base = y * width;
    let mut x: usize = 0;
    while x < width
        invariant
            x <= width,
            row.len() == width,
            base == y * width,
            base + width <= before.len() <= usize::MAX,
            table@.len() == before.len(),
            forall|i: int|
                0 <= i < before.len() ==> #[trigger] table@[i] == if base <= i < base + x {
                    row@[i - base]
                } else {
                    before[i]
                },
        decreases width - x,
    {
        table[base + x] = row[x];
        x += 1;
    }
    assert(table@ =~= with_row(before, width as nat, y as int, row@));
}

/// The table after the rows named in `order` were committed one after the
/// other, `rows[y]` as row `y`.
pub open spec fn commit_all(
    table: Seq<usize>,
    width: nat,
    rows: Seq<Seq<usize>>,
    order: Seq<int>,
) -> Seq<usize>
    decreases order.len(),
{
    if order.len() == 0 {
        table
    } else {
        with_row(
            commit_all(table, width, rows, order.drop_last()),
            width,
            order.last(),
            rows[order.last()],
        )
    }
}

/// `rows` holds one row of `width` cells for each of the `height` rows.
pub open spec fn rows_fit(rows: Seq<Seq<usize>>, width: nat, height: nat) -> bool {
    rows.len() == height && forall|y: int| 0 <= y < height ==> (#[trigger] rows[y]).len() == width
}

/// `order` names rows of the grid only.
pub open spec fn order_in_grid(order: Seq<int>, height: nat) -> bool {
    forall|k: int| 0 <= k < order.len() ==> 0 <= #[trigger] order[k] < height
}

/// After any run of commits a cell holds its row's value where the row was
/// committed, and what the table held before where it was not.
pub proof fn lemma_commit_all_cell(
    table: Seq<usize>,
    width: nat,
    height: nat,
    rows: Seq<Seq<usize>>,
    order: Seq<int>,
    x: int,
    y: int,
)
    requires
        table.len() == width * height,
        rows_fit(rows, width, height),
        order_in_grid(order, height),
        in_grid(width, height, x, y),
    ensures
        commit_all(table, width, rows, order).len() == table.len(),
        cell(commit_all(table, width, rows, order), width, x, y) == if order.contains(y) {
            rows[y][x]
        } else {
            cell(table, width, x, y)
        },
    decreases order.len(),
{
    lemma_offset_in_table(width, height, x, y);
    if order.len() > 0 {
        let earlier = order.drop_last();
        let last = order.last();
        lemma_commit_all_cell(table, width, height, rows, earlier, x, y);
        assert(order[order.len() - 1] == last);
        if last == y {
        } else {
            if y < last {
                assert(y * width + width <= last * width) by (nonlinear_arith)
                    requires
                        y + 1 <= last,
                ;
            } else {
                assert(last * width + width <= y * width) by (nonlinear_arith)
                    requires
                        last + 1 <= y,
                ;
            }
            if order.contains(y) {
                let k = choose|k: int| 0 <= k < order.len() && order[k] == y;
                assert(earlier[k] == y);
            }
            if earlier.contains(y) {
                let k = choose|k: int| 0 <= k < earlier.len() && earlier[k] == y;
                assert(order[k] == y);
            }
        }
    }
}

/// The order in which rows are committed does not show in the table: once
/// every row was committed, in whatever order and however often, each cell
/// holds its row's value, whatever the table held before.
pub proof fn lemma_commit_order_irrelevant(
    table: Seq<usize>,
    other_table: Seq<usize>,
    width: nat,
    height: nat,
    rows: Seq<Seq<usize>>,
    order: Seq<int>,
    other_order: Seq<int>,
)
    requires
        table.len() == width * height,
        other_table.len() == width * height,
        rows_fit(rows, width, height),
        order_in_grid(order, height),
        order_in_grid(other_order, height),
        forall|y: int| 0 <= y < height ==> order.contains(y) && other_order.contains(y),
    ensures
        commit_all(table, width, rows, order) == commit_all(
            other_table,
            width,
            rows,
            other_order,
        ),
{
    let a = commit_all(table, width, rows, order);
    let b = commit_all(other_table, width, rows, other_order);
    if height > 0 && width > 0 {
        lemma_commit_all_cell(table, width, height, rows, order, 0, 0);
        lemma_commit_all_cell(other_table, width, height, rows, other_order, 0, 0);
    } else {
        lemma_commit_all_len(table, width, rows, order);
        lemma_commit_all_len(other_table, width, rows, other_order);
        assert(width * height == 0) by (nonlinear_arith)
            requires
                width == 0 || height == 0,
        ;
    }
    assert forall|i: int| 0 <= i < a.len() implies a[i] == b[i] by {
        assert(width > 0) by (nonlinear_arith)
            requires
                0 <= i < width * height,
        ;
        let x = i % (width as int);
        let y = i / (width as int);
        vstd::arithmetic::div_mod::lemma_fundamental_div_mod(i, width as int);
        vstd::arithmetic::div_mod::lemma_mod_bound(i, width as int);
        assert(0 <= y < height) by (nonlinear_arith)
            requires
                0 <= i < width * height,
                i == width * y + x,
                0 <= x < width,
        ;
        assert(offset(width, x, y) == i) by (nonlinear_arith)
            requires
                i == width * y + x,
        ;
        lemma_commit_all_cell(table, width, height, rows, order, x, y);
        lemma_commit_all_cell(other_table, width, height, rows, other_order, x, y);
    }
    assert(a =~= b);
}

/// Commits keep the table's length.
pub proof fn lemma_commit_all_len(
    table: Seq<usize>,
    width: nat,
    rows: Seq<Seq<usize>>,
    order: Seq<int>,
)
    ensures
        commit_all(table, width, rows, order).len() == table.len(),
    decreases order.len(),
{
    if order.len() > 0 {
        lemma_commit_all_len(table, width, rows, order.drop_last());
    }
}

} // verus!
