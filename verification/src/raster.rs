//! The raster builder: scatters the cells of a layout into a dense grid.

use vstd::prelude::*;
use crate::error::TreeError;
use crate::layout::{in_box, Pixel};

verus! {

/// What a cell of the type raster holds where no halo was placed.
pub const TYPE_FILL: i8 = -1;

/// No two cells of `px` have both the row and the column in common.
pub open spec fn cells_distinct(px: Seq<Pixel>) -> bool {
    forall|i: int, j: int|
        0 <= i < j < px.len() ==> !((#[trigger] px[i]).snap == (#[trigger] px[j]).snap && px[i].col
            == px[j].col)
}

/// The cell at `i` of `px` lies in row `row` and column `col`.
pub open spec fn covers(px: Seq<Pixel>, i: int, row: int, col: int) -> bool {
    0 <= i < px.len() && px[i].snap == row && px[i].col == col
}

/// Some cell of `px` lies in row `row` and column `col`.
pub open spec fn covered(px: Seq<Pixel>, row: int, col: int) -> bool {
    exists|i: int| covers(px, i, row, col)
}

/// The places of the grid that `px` fills.
pub open spec fn filled_cells(px: Seq<Pixel>) -> Set<(int, int)> {
    Set::new(|at: (int, int)| covered(px, at.0, at.1))
}

/// The rows of a grid as sequences.
pub open spec fn rows_of<T>(grid: Vec<Vec<T>>) -> Seq<Seq<T>> {
    Seq::new(grid@.len(), |r: int| grid@[r]@)
}

/// `grid` has `n_rows` rows of `n_cols` places each.
pub open spec fn has_shape<T>(grid: Seq<Seq<T>>, n_rows: nat, n_cols: nat) -> bool {
    &&& grid.len() == n_rows
    &&& forall|r: int| 0 <= r < n_rows ==> (#[trigger] grid[r]).len() == n_cols
}

/// `grid` is the raster of the cells `px` with the values `values`: the
/// place of each cell holds the value of that cell, and every place that
/// no cell fills holds `fill`.
pub open spec fn is_raster<T>(
    grid: Seq<Seq<T>>,
    n_rows: nat,
    n_cols: nat,
    px: Seq<Pixel>,
    values: Seq<T>,
    fill: T,
) -> bool {
    &&& has_shape(grid, n_rows, n_cols)
    &&& forall|i: int|
        0 <= i < px.len() ==> grid[(#[trigger] px[i]).snap as int][px[i].col as int] == values[i]
    &&& forall|r: int, c: int|
        0 <= r < n_rows && 0 <= c < n_cols && !covered(px, r, c) ==> (#[trigger] grid[r][c])
            == fill
}

/// The cells `px` can be scattered into a raster of `n_rows` by `n_cols`
/// with `n_values` values: there is one value for each cell, every cell
/// lies in the raster, and no two cells fill one place.
pub open spec fn fits(px: Seq<Pixel>, n_values: nat, n_rows: nat, n_cols: nat) -> bool {
    n_values == px.len() && in_box(px, n_rows, n_cols) && cells_distinct(px)
}

/// A grid of `n_rows` by `n_cols` places that all hold `fill`.
pub fn filled_grid<T: Copy>(n_rows: usize, n_cols: usize, fill: T) -> (grid: Vec<Vec<T>>)
    ensures
        has_shape(rows_of(grid), n_rows as nat, n_cols as nat),
        forall|r: int, c: int|
            0 <= r < n_rows && 0 <= c < n_cols ==> (#[trigger] rows_of(grid)[r][c]) == fill,
{
    let mut grid: Vec<Vec<T>> = Vec::new();
    let mut r: usize = 0;
    while r < n_rows
        invariant
            r <= n_rows,
            grid@.len() == r,
            forall|q: int| 0 <= q < r ==> (#[trigger] grid@[q])@.len() == n_cols,
            forall|q: int, c: int| 0 <= q < r && 0 <= c < n_cols ==> (#[trigger] grid@[q]@[c]) == fill,
        decreases n_rows - r,
    {
        let mut row: Vec<T> = Vec::new();
        let mut c: usize = 0;
        while c < n_cols
            invariant
                c <= n_cols,
                row@.len() == c,
                forall|d: int| 0 <= d < c ==> (#[trigger] row@[d]) == fill,
            decreases n_cols - c,
        {
            row.push(fill);
            c += 1;
        }
        grid.push(row);
        r += 1;
    }
    grid
}

/// Whether the cells `pixels` fit a raster of `n_rows` by `n_cols` and
/// no two of them fill one place.
pub fn fills_distinct_cells(n_rows: usize, n_cols: usize, pixels: &Vec<Pixel>) -> (b: bool)
    ensures
        b == (in_box(pixels@, n_rows as nat, n_cols as nat) && cells_distinct(pixels@)),
{
    let ghost px = pixels@;
    let mut seen: Vec<Vec<bool>> = filled_grid(n_rows, n_cols, false);
    let n: usize = pixels.len();
    let mut i: usize = 0;
    while i < n
        invariant
            i <= n,
            n == pixels.len(),
            px == pixels@,
            has_shape(rows_of(seen), n_rows as nat, n_cols as nat),
            in_box(px.take(i as int), n_rows as nat, n_cols as nat),
            cells_distinct(px.take(i as int)),
            forall|r: int, c: int|
                0 <= r < n_rows && 0 <= c < n_cols ==> (#[trigger] rows_of(seen)[r][c]) == covered(
                    px.take(i as int),
                    r,
                    c,
                ),
        decreases n - i,
    {
        let here: Pixel = pixels[i];
        let ghost done = px.take(i as int);
        let ghost next = px.take(i + 1);
        assert(next =~= done.push(here));
        if here.snap >= n_rows || here.col >= n_cols {
            assert(!in_box(px, n_rows as nat, n_cols as nat)) by {
                assert(px[i as int] == here);
            }
            return false;
        }
        assert(rows_of(seen)[here.snap as int].len() == n_cols);
        if seen[here.snap][here.col] {
            assert(!cells_distinct(px)) by {
                assert(rows_of(seen)[here.snap as int][here.col as int]);
                let j = choose|j: int| covers(done, j, here.snap as int, here.col as int);
                assert(px[j] == done[j]);
                assert(px[i as int] == here);
            }
            return false;
        }
        let ghost before = rows_of(seen);
        seen[here.snap].set(here.col, true);
        proof {
            let after = rows_of(seen);
            assert(!covered(done, here.snap as int, here.col as int)) by {
                assert(!before[here.snap as int][here.col as int]);
            }
            assert forall|r: int| 0 <= r < n_rows implies (#[trigger] after[r]).len() == n_cols by {
                assert(before[r].len() == n_cols);
            }
            assert forall|a: int, b: int| 0 <= a < b < next.len() implies !((#[trigger] next[a]).snap
                == (#[trigger] next[b]).snap && next[a].col == next[b].col) by {
                if b == i {
                    if next[a].snap == here.snap && next[a].col == here.col {
                        assert(covers(done, a, here.snap as int, here.col as int));
                    }
                } else {
                    assert(next[a] == done[a] && next[b] == done[b]);
                }
            }
            assert forall|r: int, c: int| 0 <= r < n_rows && 0 <= c < n_cols implies (
            #[trigger] after[r][c]) == covered(next, r, c) by {
                if r == here.snap && c == here.col {
                    assert(covers(next, i as int, r, c));
                } else {
                    assert(after[r][c] == before[r][c]);
                    if covered(done, r, c) {
                        let j = choose|j: int| covers(done, j, r, c);
                        assert(covers(next, j, r, c));
                    }
                    if covered(next, r, c) {
                        let j = choose|j: int| covers(next, j, r, c);
                        assert(covers(done, j, r, c));
                    }
                }
            }
            assert forall|j: int| 0 <= j < next.len() implies (#[trigger] next[j]).snap < n_rows
                && next[j].col < n_cols by {
                if j < i {
                    assert(next[j] == done[j]);
                }
            }
        }
        i += 1;
    }
    assert(px.take(n as int) =~= px);
    true
}

/// Builds the raster of one field: a grid of `n_rows` by `n_cols` places
/// in which the place of each cell of `pixels` holds the value that
/// `values` has for that cell and every other place holds `fill`.
///
/// A list that does not fit is refused and nothing is overwritten: a
/// cell outside the grid, two cells on one place, or a list of values
/// that is not as long as the list of cells.
pub fn build_raster<T: Copy>(
    n_rows: usize,
    n_cols: usize,
    pixels: &Vec<Pixel>,
    values: &Vec<T>,
    fill: T,
) -> (r: Result<Vec<Vec<T>>, TreeError>)
    ensures
        fits(pixels@, values@.len(), n_rows as nat, n_cols as nat) ==> r is Ok && is_raster(
            rows_of(r->Ok_0),
            n_rows as nat,
            n_cols as nat,
            pixels@,
            values@,
            fill,
        ),
        !fits(pixels@, values@.len(), n_rows as nat, n_cols as nat) ==> r == Err::<
            Vec<Vec<T>>,
            TreeError,
        >(TreeError::ArrayShapeMismatch),
{
    let ghost px = pixels@;
    let n: usize = pixels.len();
    if values.len() != n || !fills_distinct_cells(n_rows, n_cols, pixels) {
        return Err(TreeError::ArrayShapeMismatch);
    }
    let mut grid: Vec<Vec<T>> = filled_grid(n_rows, n_cols, fill);
    let mut i: usize = 0;
    while i < n
        invariant
            i <= n,
            n == pixels.len(),
            n == values.len(),
            px == pixels@,
            cells_distinct(px),
            in_box(px, n_rows as nat, n_cols as nat),
            is_raster(
                rows_of(grid),
                n_rows as nat,
                n_cols as nat,
                px.take(i as int),
                values@.take(i as int),
                fill,
            ),
        decreases n - i,
    {
        let here: Pixel = pixels[i];
        let ghost done = px.take(i as int);
        let ghost next = px.take(i + 1);
        assert(next =~= done.push(here));
        let ghost before = rows_of(grid);
        assert(before[here.snap as int].len() == n_cols);
        let value: T = values[i];
        grid[here.snap].set(here.col, value);
        proof {
            let after = rows_of(grid);
            let vals = values@.take(i + 1);
            assert forall|r: int| 0 <= r < n_rows implies (#[trigger] after[r]).len() == n_cols by {
                assert(before[r].len() == n_cols);
            }
            assert forall|j: int| 0 <= j < next.len() implies after[(#[trigger] next[j]).snap as int][next[j].col as int]
                == vals[j] by {
                if j < i {
                    assert(next[j] == done[j]);
                    assert(px[j] == done[j] && px[i as int] == here);
                    assert(before[done[j].snap as int][done[j].col as int] == values@.take(
                        i as int,
                    )[j]);
                }
            }
            assert forall|r: int, c: int|
                0 <= r < n_rows && 0 <= c < n_cols && !covered(next, r, c) implies (
            #[trigger] after[r][c]) == fill by {
                if r == here.snap && c == here.col {
                    assert(covers(next, i as int, r, c));
                } else {
                    assert(after[r][c] == before[r][c]);
                    if covered(done, r, c) {
                        let j = choose|j: int| covers(done, j, r, c);
                        assert(covers(next, j, r, c));
                    }
                }
            }
        }
        i += 1;
    }
    assert(px.take(n as int) =~= px);
    assert(values@.take(n as int) =~= values@);
    Ok(grid)
}

/// The types of the cells, in the order of the cells.
pub open spec fn types_of(px: Seq<Pixel>) -> Seq<i8> {
    Seq::new(px.len(), |i: int| px[i].typ)
}

/// Builds the type raster: the place of each cell holds the type of the
/// cell and every other place holds [`TYPE_FILL`]. A list of cells that
/// does not fit is refused.
pub fn type_raster(n_rows: usize, n_cols: usize, pixels: &Vec<Pixel>) -> (r: Result<
    Vec<Vec<i8>>,
    TreeError,
>)
    ensures
        fits(pixels@, pixels@.len(), n_rows as nat, n_cols as nat) ==> r is Ok && is_raster(
            rows_of(r->Ok_0),
            n_rows as nat,
            n_cols as nat,
            pixels@,
            types_of(pixels@),
            TYPE_FILL,
        ),
        !fits(pixels@, pixels@.len(), n_rows as nat, n_cols as nat) ==> r == Err::<
            Vec<Vec<i8>>,
            TreeError,
        >(TreeError::ArrayShapeMismatch),
{
    let n: usize = pixels.len();
    let mut types: Vec<i8> = Vec::new();
    let mut i: usize = 0;
    while i < n
        invariant
            i <= n,
            n == pixels.len(),
            types@ == types_of(pixels@).take(i as int),
        decreases n - i,
    {
        types.push(pixels[i].typ);
        assert(types@ =~= types_of(pixels@).take(i + 1));
        i += 1;
    }
    assert(types@ =~= types_of(pixels@));
    build_raster(n_rows, n_cols, pixels, &types, TYPE_FILL)
}

/// A raster holds as many filled places as it was built from cells: no
/// place is written twice and no cell is dropped.
pub proof fn lemma_raster_coverage<T>(
    grid: Seq<Seq<T>>,
    n_rows: nat,
    n_cols: nat,
    px: Seq<Pixel>,
    values: Seq<T>,
    fill: T,
)
    requires
        fits(px, values.len(), n_rows, n_cols),
        is_raster(grid, n_rows, n_cols, px, values, fill),
    ensures
        filled_cells(px).finite(),
        filled_cells(px).len() == px.len(),
        forall|r: int, c: int|
            filled_cells(px).contains((r, c)) ==> 0 <= r < n_rows && 0 <= c < n_cols,
        forall|r: int, c: int|
            0 <= r < n_rows && 0 <= c < n_cols && !filled_cells(px).contains((r, c))
                ==> #[trigger] grid[r][c] == fill,
{
    lemma_pixel_coverage(px);
    assert forall|r: int, c: int| filled_cells(px).contains((r, c)) implies 0 <= r < n_rows && 0
        <= c < n_cols by {
        let i = choose|i: int| covers(px, i, r, c);
        assert(px[i].snap < n_rows);
    }
}

/// Cells that fill distinct places fill as many places as there are
/// cells: none is written twice and none is dropped.
pub proof fn lemma_pixel_coverage(px: Seq<Pixel>)
    requires
        cells_distinct(px),
    ensures
        filled_cells(px).finite(),
        filled_cells(px).len() == px.len(),
    decreases px.len(),
{
    if px.len() == 0 {
        assert(filled_cells(px) =~= Set::<(int, int)>::empty());
    } else {
        let most = px.drop_last();
        let last = px.last();
        let at = (last.snap as int, last.col as int);
        assert(cells_distinct(most)) by {
            assert forall|i: int, j: int| 0 <= i < j < most.len() implies !((#[trigger] most[i]).snap
                == (#[trigger] most[j]).snap && most[i].col == most[j].col) by {
                assert(most[i] == px[i] && most[j] == px[j]);
            }
        }
        lemma_pixel_coverage(most);
        assert(!filled_cells(most).contains(at)) by {
            if covered(most, at.0, at.1) {
                let j = choose|j: int| covers(most, j, at.0, at.1);
                assert(most[j] == px[j]);
                assert(px[px.len() - 1] == last);
            }
        }
        assert(filled_cells(px) =~= filled_cells(most).insert(at)) by {
            assert forall|c: (int, int)| filled_cells(px).contains(c) == filled_cells(most).insert(
                at,
            ).contains(c) by {
                if covered(px, c.0, c.1) {
                    let j = choose|j: int| covers(px, j, c.0, c.1);
                    if j < most.len() {
                        assert(covers(most, j, c.0, c.1));
                    }
                }
                if covered(most, c.0, c.1) {
                    let j = choose|j: int| covers(most, j, c.0, c.1);
                    assert(covers(px, j, c.0, c.1));
                }
                if c == at {
                    assert(covers(px, px.len() - 1, c.0, c.1));
                }
            }
        }
    }
}

} // verus!
