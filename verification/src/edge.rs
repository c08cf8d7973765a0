//! Edges between basins: pixels with a neighbour of another root index.

use vstd::prelude::*;
use distance_transform::GenericGrid;
use crate::table::{cell, cell_at, in_grid, lemma_offset_in_table, lemma_offset_injective, offset};

verus! {

/// The neighbour at offset (`dx`, `dy`) of column `x`, row `y` lies inside
/// the grid and holds another value than that cell.
pub open spec fn differs(
    table: Seq<usize>,
    width: nat,
    height: nat,
    x: int,
    y: int,
    dx: int,
    dy: int,
) -> bool {
    in_grid(width, height, x + dx, y + dy) && cell(table, width, x + dx, y + dy) != cell(
        table,
        width,
        x,
        y,
    )
}

/// A cell is an edge when one of its up to eight neighbours inside the grid
/// holds another value.
pub open spec fn edge_at(table: Seq<usize>, width: nat, height: nat, x: int, y: int) -> bool {
    exists|dx: int, dy: int|
        -1 <= dx <= 1 && -1 <= dy <= 1 && #[trigger] differs(table, width, height, x, y, dx, dy)
}

/// Tells whether the pixel in column `x` of row `y` is an edge of the table.
pub fn is_edge(x: usize, y: usize, table: &[usize], width: usize, height: usize) -> (edge: bool)
    requires
        table.len() == width * height,
        x < width,
        y < height,
    ensures
        edge == edge_at(table@, width as nat, height as nat, x as int, y as int),
{
    let ghost t = table@;
    let ghost w = width as nat;
    let ghost h = height as nat;
    let ghost xi = x as int;
    let ghost yi = y as int;
    let color = cell_at(table, width, height, x, y);
    if x > 0 {
        if cell_at(table, width, height, x - 1, y) != color {
            assert(differs(t, w, h, xi, yi, -1, 0));
            return true;
        }
        if y > 0 {
            if cell_at(table, width, height, x - 1, y - 1) != color {
                assert(differs(t, w, h, xi, yi, -1, -1));
                return true;
            }
        }
        if y < height - 1 {
            if cell_at(table, width, height, x - 1, y + 1) != color {
                assert(differs(t, w, h, xi, yi, -1, 1));
                return true;
            }
        }
    }
    if x < width - 1 {
        if cell_at(table, width, height, x + 1, y) != color {
            assert(differs(t, w, h, xi, yi, 1, 0));
            return true;
        }
        if y > 0 {
            if cell_at(table, width, height, x + 1, y - 1) != color {
                assert(differs(t, w, h, xi, yi, 1, -1));
                return true;
            }
        }
        if y < height - 1 {
            if cell_at(table, width, height, x + 1, y + 1) != color {
                assert(differs(t, w, h, xi, yi, 1, 1));
                return true;
            }
        }
    }
    if y > 0 {
        if cell_at(table, width, height, x, y - 1) != color {
            assert(differs(t, w, h, xi, yi, 0, -1));
            return true;
        }
    }
    if y < height - 1 {
        if cell_at(table, width, height, x, y + 1) != color {
            assert(differs(t, w, h, xi, yi, 0, 1));
            return true;
        }
    }
    assert forall|dx: int, dy: int| -1 <= dx <= 1 && -1 <= dy <= 1 implies !differs(
        t,
        w,
        h,
        xi,
        yi,
        dx,
        dy,
    ) by {
        assert(dx == -1 || dx == 0 || dx == 1);
        assert(dy == -1 || dy == 0 || dy == 1);
    }
    false
}

/// The grid type of the `distance_transform` crate. Its fields are private:
/// what a grid of flags holds is spoken of through `grid_width`,
/// `grid_height` and `grid_cells`.
#[verifier::external_type_specification]
#[verifier::external_body]
#[verifier::reject_recursive_types(T)]
pub struct ExGenericGrid<T>(GenericGrid<T>);

/// Number of columns that a grid of flags was made with.
pub uninterp spec fn grid_width(grid: GenericGrid<bool>) -> nat;

/// Number of rows that a grid of flags was made with.
pub uninterp spec fn grid_height(grid: GenericGrid<bool>) -> nat;

/// The flags of a grid, row by row.
pub uninterp spec fn grid_cells(grid: GenericGrid<bool>) -> Seq<bool>;

/// `GenericGrid::new` at `bool`: a grid of `width` by `height` flags, none
/// of them set. The product of the two sides must fit the machine word.
#[verifier::external_body]
fn new_grid(width: usize, height: usize) -> (grid: GenericGrid<bool>)
    requires
        width * height <= usize::MAX,
    ensures
        grid_width(grid) == width,
        grid_height(grid) == height,
        grid_cells(grid) == Seq::new((width * height) as nat, |i: int| false),
{
    GenericGrid::new(width, height)
}

/// `GenericGrid::set` at `bool`: stores `value` for column `x` of row `y`
/// and leaves the sides and every other flag as they were. The position
/// must lie inside the grid.
#[verifier::external_body]
fn set_cell(grid: &mut GenericGrid<bool>, x: usize, y: usize, value: bool)
    requires
        x < grid_width(*old(grid)),
        y < grid_height(*old(grid)),
    ensures
        grid_width(*final(grid)) == grid_width(*old(grid)),
        grid_height(*final(grid)) == grid_height(*old(grid)),
        grid_cells(*final(grid)) == grid_cells(*old(grid)).update(
            offset(grid_width(*old(grid)), x as int, y as int),
            value,
        ),
{
    grid.set(x, y, value);
}

/// Builds the edge grid of a table: the flag of each cell says whether the
/// cell is an edge.
pub fn edge_map(table: &[usize], width: usize, height: usize) -> (edges: GenericGrid<bool>)
    requires
        table.len() == width * height,
    ensures
        grid_width(edges) == width,
        grid_height(edges) == height,
        grid_cells(edges).len() == width * height,
        forall|x: int, y: int|
            in_grid(width as nat, height as nat, x, y) ==> grid_cells(edges)[#[trigger] offset(
                width as nat,
                x,
                y,
            )] == edge_at(table@, width as nat, height as nat, x, y),
{
    let ghost w = width as nat;
    let ghost h = height as nat;
    let mut edges = new_grid(width, height);
    let mut y: usize = 0;
    while y < height
        invariant
            table.len() == width * height,
            w == width,
            h == height,
            y <= height,
            grid_width(edges) == w,
            grid_height(edges) == h,
            grid_cells(edges).len() == w * h,
            forall|i: int, j: int|
                in_grid(w, h, i, j) && j < y ==> grid_cells(edges)[#[trigger] offset(w, i, j)]
                    == edge_at(table@, w, h, i, j),
        decreases height - y,
    {
        let mut x: usize = 0;
        while x < width
            invariant
                table.len() == width * height,
                w == width,
                h == height,
                y < height,
                x <= width,
                grid_width(edges) == w,
                grid_height(edges) == h,
                grid_cells(edges).len() == w * h,
                forall|i: int, j: int|
                    in_grid(w, h, i, j) && (j < y || (j == y && i < x)) ==> grid_cells(
                        edges,
                    )[#[trigger] offset(w, i, j)] == edge_at(table@, w, h, i, j),
            decreases width - x,
        {
            let ghost before = grid_cells(edges);
            let flag = is_edge(x, y, table, width, height);
            set_cell(&mut edges, x, y, flag);
            proof {
                lemma_offset_in_table(w, h, x as int, y as int);
                assert forall|i: int, j: int|
                    in_grid(w, h, i, j) && (j < y || (j == y && i < x + 1)) implies grid_cells(
                    edges,
                )[#[trigger] offset(w, i, j)] == edge_at(table@, w, h, i, j) by {
                    lemma_offset_in_table(w, h, i, j);
                    if i == x && j == y {
                    } else {
                        if offset(w, i, j) == offset(w, x as int, y as int) {
                            lemma_offset_injective(w, i, j, x as int, y as int);
                        }
                        assert(grid_cells(edges)[offset(w, i, j)] == before[offset(w, i, j)]);
                    }
                }
            }
            x += 1;
        }
        y += 1;
    }
    edges
}

/// In a table that holds one value everywhere but in a single cell, the
/// edges are that cell and its neighbours, and nothing else. A grid of one
/// cell has no edge.
pub proof fn lemma_lone_pixel_edges(
    table: Seq<usize>,
    width: nat,
    height: nat,
    ground: usize,
    px: int,
    py: int,
    x: int,
    y: int,
)
    requires
        in_grid(width, height, px, py),
        in_grid(width, height, x, y),
        cell(table, width, px, py) != ground,
        forall|i: int, j: int|
            in_grid(width, height, i, j) && !(i == px && j == py) ==> #[trigger] cell(
                table,
                width,
                i,
                j,
            ) == ground,
    ensures
        edge_at(table, width, height, x, y) <==> (px - 1 <= x <= px + 1 && py - 1 <= y <= py + 1
            && (width > 1 || height > 1)),
{
    if edge_at(table, width, height, x, y) {
        let (dx, dy) = choose|dx: int, dy: int|
            -1 <= dx <= 1 && -1 <= dy <= 1 && #[trigger] differs(
                table,
                width,
                height,
                x,
                y,
                dx,
                dy,
            );
        assert(differs(table, width, height, x, y, dx, dy));
    }
    if px - 1 <= x <= px + 1 && py - 1 <= y <= py + 1 && (width > 1 || height > 1) {
        if x == px && y == py {
            if width > 1 {
                if px > 0 {
                    assert(differs(table, width, height, x, y, -1, 0));
                } else {
                    assert(differs(table, width, height, x, y, 1, 0));
                }
            } else {
                if py > 0 {
                    assert(differs(table, width, height, x, y, 0, -1));
                } else {
                    assert(differs(table, width, height, x, y, 0, 1));
                }
            }
        } else {
            assert(differs(table, width, height, x, y, px - x, py - y));
        }
    }
}

} // verus!
