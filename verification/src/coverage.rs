//! Coverage of the raster: when the cells of a layout fill distinct
//! places, and how many places they fill.

use vstd::prelude::*;
use crate::forest::Forest;
use crate::ident::snap_of;
use crate::layout::{
    bounds, branch_top, column_limit, gap_pixels, lemma_placed_each_within, lemma_placed_within,
    normalised, own_pixel, placed, placed_each, ImageProps, Pixel,
};
use crate::lineage::{lemma_tree_of_branches, tree_of};
use crate::raster::{cells_distinct, covers, filled_cells, lemma_pixel_coverage};
use crate::siblings::siblings;
use crate::tree::{gapless, ids};

verus! {

/// The tree below `id` is upright: every first progenitor lies in an
/// earlier snapshot than its descendant, and no other progenitor lies
/// more than one snapshot before its descendant. In such a tree only the
/// edges along a column are bridged.
pub open spec fn upright(f: Forest, id: u64, depth: nat, limit: nat) -> bool
    decreases limit + 1 - depth, 0nat,
{
    depth > limit || f.progenitor(id) == id || siblings(f, id) is None || upright_each(
        f,
        id,
        siblings(f, id)->0,
        0,
        depth + 1,
        limit,
    )
}

/// The branches of `n` from position `from` of its progenitor list on
/// are upright and stand upright on `n`.
pub open spec fn upright_each(
    f: Forest,
    n: u64,
    sibs: Seq<u64>,
    from: nat,
    depth: nat,
    limit: nat,
) -> bool
    decreases limit + 1 - depth, sibs.len() - from + 1,
{
    from >= sibs.len() || {
        &&& from == 0 ==> snap_of(sibs[0]) < snap_of(n)
        &&& from > 0 ==> snap_of(sibs[from as int]) + 2 > snap_of(n)
        &&& upright(f, sibs[from as int], depth, limit)
        &&& upright_each(f, n, sibs, from + 1, depth, limit)
    }
}

/// No cell of `a` fills the place of a cell of `b`.
pub open spec fn cells_apart(a: Seq<Pixel>, b: Seq<Pixel>) -> bool {
    forall|i: int, j: int|
        0 <= i < a.len() && 0 <= j < b.len() ==> !((#[trigger] a[i]).snap == (#[trigger] b[j]).snap
            && a[i].col == b[j].col)
}

/// Every cell of `px` lies in column `col` at or below the snapshot
/// `top`, or in a column beyond `max_col`.
pub open spec fn cells_in_lane(px: Seq<Pixel>, col: nat, top: nat, max_col: nat) -> bool {
    forall|i: int|
        0 <= i < px.len() ==> ((#[trigger] px[i]).col == col && px[i].snap <= top) || px[i].col
            > max_col
}

/// Every cell of `px` lies in a column beyond `max_col`.
pub open spec fn cells_beyond(px: Seq<Pixel>, max_col: nat) -> bool {
    forall|i: int| 0 <= i < px.len() ==> (#[trigger] px[i]).col > max_col
}

/// Every cell of `px` lies in a column up to `max_col`.
pub open spec fn cells_upto(px: Seq<Pixel>, max_col: nat) -> bool {
    forall|i: int| 0 <= i < px.len() ==> (#[trigger] px[i]).col <= max_col
}

/// Lists of cells that fill distinct places, and lie apart, fill
/// distinct places together.
pub(crate) proof fn lemma_distinct_concat(a: Seq<Pixel>, b: Seq<Pixel>)
    requires
        cells_distinct(a),
        cells_distinct(b),
        cells_apart(a, b),
    ensures
        cells_distinct(a + b),
{
    let all = a + b;
    assert forall|i: int, j: int| 0 <= i < j < all.len() implies !((#[trigger] all[i]).snap == (
    #[trigger] all[j]).snap && all[i].col == all[j].col) by {
        if j < a.len() {
            assert(all[i] == a[i] && all[j] == a[j]);
        } else if i < a.len() {
            assert(all[i] == a[i] && all[j] == b[j - a.len()]);
        } else {
            assert(all[i] == b[i - a.len()] && all[j] == b[j - a.len()]);
        }
    }
}

/// The cells that bridge an edge fill distinct places of one column,
/// strictly between the snapshots of the two ends.
pub(crate) proof fn lemma_gap_cells(f: Forest, n: u64, q: u64, col: nat)
    requires
        col <= column_limit(),
    ensures
        cells_distinct(gap_pixels(f, n, q, col)),
        forall|i: int|
            0 <= i < gap_pixels(f, n, q, col).len() ==> {
                &&& (#[trigger] gap_pixels(f, n, q, col)[i]).col == col
                &&& snap_of(q) < gap_pixels(f, n, q, col)[i].snap < snap_of(n)
            },
        snap_of(q) + 2 > snap_of(n) ==> gap_pixels(f, n, q, col).len() == 0,
{
}

/// In an upright tree the layout keeps to its lane and fills distinct
/// places: the cells of the tree below `id` lie in the column of `id` at
/// or below the snapshot of `id`, or in columns opened for the tree, and
/// no two of them fill one place.
pub proof fn lemma_placed_distinct(
    f: Forest,
    id: u64,
    depth: nat,
    col: nat,
    max_col: nat,
    limit: nat,
)
    requires
        upright(f, id, depth, limit),
        placed(f, id, depth, col, max_col, limit) is Some,
        col <= max_col <= column_limit(),
    ensures
        cells_distinct(placed(f, id, depth, col, max_col, limit)->0.pixels),
        cells_in_lane(
            placed(f, id, depth, col, max_col, limit)->0.pixels,
            col,
            snap_of(id),
            max_col,
        ),
    decreases limit + 1 - depth, 0nat,
{
    let p = placed(f, id, depth, col, max_col, limit)->0;
    if f.progenitor(id) == id {
    } else {
        let sibs = siblings(f, id)->0;
        lemma_placed_each_distinct(f, id, sibs, 0, depth + 1, col, max_col, limit);
        let below = placed_each(f, id, sibs, 0, depth + 1, col, max_col, limit)->0;
        let own = own_pixel(f, id, col);
        assert(cells_distinct(seq![own]));
        assert(cells_apart(below.pixels, seq![own]));
        lemma_distinct_concat(below.pixels, seq![own]);
        assert(below.pixels.push(own) =~= below.pixels + seq![own]);
        assert forall|i: int| 0 <= i < p.pixels.len() implies ((#[trigger] p.pixels[i]).col == col
            && p.pixels[i].snap <= snap_of(id)) || p.pixels[i].col > max_col by {
            if i < below.pixels.len() {
                assert(p.pixels[i] == below.pixels[i]);
            }
        }
    }
}

/// The same, for the branches of one halo: the first branch shares the
/// column of the halo and lies strictly below it, and every other branch
/// lies in columns opened for it.
pub(crate) proof fn lemma_placed_each_distinct(
    f: Forest,
    n: u64,
    sibs: Seq<u64>,
    from: nat,
    depth: nat,
    col: nat,
    max_col: nat,
    limit: nat,
)
    requires
        upright_each(f, n, sibs, from, depth, limit),
        placed_each(f, n, sibs, from, depth, col, max_col, limit) is Some,
        col <= max_col <= column_limit(),
    ensures
        cells_distinct(placed_each(f, n, sibs, from, depth, col, max_col, limit)->0.pixels),
        from > 0 ==> cells_beyond(
            placed_each(f, n, sibs, from, depth, col, max_col, limit)->0.pixels,
            max_col,
        ),
        from == 0 && snap_of(n) > 0 ==> cells_in_lane(
            placed_each(f, n, sibs, from, depth, col, max_col, limit)->0.pixels,
            col,
            (snap_of(n) - 1) as nat,
            max_col,
        ),
        from == 0 && snap_of(n) == 0 ==> placed_each(
            f,
            n,
            sibs,
            from,
            depth,
            col,
            max_col,
            limit,
        )->0.pixels.len() == 0,
    decreases limit + 1 - depth, sibs.len() - from + 1,
{
    if from < sibs.len() {
        let top = branch_top(from, max_col);
        let branch_col = if from == 0 {
            col
        } else {
            top
        };
        let s = sibs[from as int];
        lemma_placed_within(f, s, depth, branch_col, top, limit);
        lemma_placed_distinct(f, s, depth, branch_col, top, limit);
        let here = placed(f, s, depth, branch_col, top, limit)->0;
        lemma_placed_each_within(f, n, sibs, from + 1, depth, col, here.max_col, limit);
        lemma_placed_each_distinct(f, n, sibs, from + 1, depth, col, here.max_col, limit);
        let rest = placed_each(f, n, sibs, from + 1, depth, col, here.max_col, limit)->0;
        let gap = gap_pixels(f, n, s, col);
        lemma_gap_cells(f, n, s, col);
        let all = here.pixels + gap + rest.pixels;
        assert(cells_apart(here.pixels, gap));
        lemma_distinct_concat(here.pixels, gap);
        let front = here.pixels + gap;
        assert(cells_upto(front, here.max_col)) by {
            assert forall|i: int| 0 <= i < front.len() implies (#[trigger] front[i]).col
                <= here.max_col by {
                if i < here.pixels.len() {
                    assert(front[i] == here.pixels[i]);
                } else {
                    assert(front[i] == gap[i - here.pixels.len()]);
                }
            }
        }
        assert(cells_apart(front, rest.pixels));
        lemma_distinct_concat(front, rest.pixels);
        if from > 0 {
            assert forall|i: int| 0 <= i < all.len() implies (#[trigger] all[i]).col > max_col by {
                if i < here.pixels.len() {
                    assert(all[i] == here.pixels[i]);
                } else if i < front.len() {
                    assert(all[i] == gap[i - here.pixels.len()]);
                } else {
                    assert(all[i] == rest.pixels[i - front.len()]);
                }
            }
        } else {
            assert forall|i: int| 0 <= i < all.len() implies ((#[trigger] all[i]).col == col
                && all[i].snap <= snap_of(n) - 1) || all[i].col > max_col by {
                if i < here.pixels.len() {
                    assert(all[i] == here.pixels[i]);
                } else if i < front.len() {
                    assert(all[i] == gap[i - here.pixels.len()]);
                } else {
                    assert(all[i] == rest.pixels[i - front.len()]);
                }
            }
        }
    }
}

/// A forest that holds a tree without skipped snapshots below a halo is
/// upright below that halo.
pub proof fn lemma_gapless_upright(f: Forest, id: u64, depth: nat, limit: nat)
    requires
        tree_of(f, id, depth, limit) is Some,
        gapless(tree_of(f, id, depth, limit)->0),
    ensures
        upright(f, id, depth, limit),
    decreases limit + 1 - depth, 0nat,
{
    if f.progenitor(id) != id {
        let t = tree_of(f, id, depth, limit)->0;
        let sibs = siblings(f, id)->0;
        lemma_tree_of_branches(f, id, depth, limit);
        assert forall|j: int| 0 <= j < sibs.len() implies (#[trigger] tree_of(
            f,
            sibs[j],
            depth + 1,
            limit,
        )) is Some && gapless(tree_of(f, sibs[j], depth + 1, limit)->0) && snap_of(sibs[j]) + 1
            == snap_of(id) by {
            assert(tree_of(f, sibs[j], depth + 1, limit) == Some(t.branches[j]));
            assert(t.branches[j].id == ids(t.branches)[j]);
        }
        lemma_gapless_upright_each(f, id, sibs, 0, depth + 1, limit);
    }
}

/// The same, for the progenitors of one halo.
pub(crate) proof fn lemma_gapless_upright_each(
    f: Forest,
    n: u64,
    sibs: Seq<u64>,
    from: nat,
    depth: nat,
    limit: nat,
)
    requires
        forall|j: int|
            from <= j < sibs.len() ==> {
                &&& (#[trigger] tree_of(f, sibs[j], depth, limit)) is Some
                &&& gapless(tree_of(f, sibs[j], depth, limit)->0)
                &&& snap_of(sibs[j]) + 1 == snap_of(n)
            },
    ensures
        upright_each(f, n, sibs, from, depth, limit),
    decreases limit + 1 - depth, sibs.len() - from + 1,
{
    if from < sibs.len() {
        assert(tree_of(f, sibs[from as int], depth, limit) is Some);
        lemma_gapless_upright(f, sibs[from as int], depth, limit);
        lemma_gapless_upright_each(f, n, sibs, from + 1, depth, limit);
    }
}

/// Counting rows from a snapshot at or before every cell keeps distinct
/// places distinct.
pub(crate) proof fn lemma_normalised_distinct(px: Seq<Pixel>, first: nat)
    requires
        cells_distinct(px),
        forall|i: int| 0 <= i < px.len() ==> first <= (#[trigger] px[i]).snap,
    ensures
        cells_distinct(normalised(px, first)),
{
    let shifted = normalised(px, first);
    assert forall|i: int, j: int| 0 <= i < j < shifted.len() implies !((#[trigger] shifted[i]).snap
        == (#[trigger] shifted[j]).snap && shifted[i].col == shifted[j].col) by {
        assert(px[i].snap != px[j].snap || px[i].col != px[j].col);
    }
}

/// The layout of an upright tree fills as many places of its raster as
/// it has cells: no place is written twice and no cell is dropped.
pub proof fn lemma_layout_coverage(f: Forest, id: u64, props: ImageProps)
    requires
        upright(f, id, 0, f.snapshot_count()),
        placed(f, id, 0, 0, 0, f.snapshot_count()) is Some,
        bounds(placed(f, id, 0, 0, 0, f.snapshot_count())->0.pixels, props),
    ensures
        ({
            let laid = placed(f, id, 0, 0, 0, f.snapshot_count())->0.pixels;
            let cells = normalised(laid, props.first_snap as nat);
            &&& cells_distinct(cells)
            &&& filled_cells(cells).finite()
            &&& filled_cells(cells).len() == laid.len()
        }),
{
    let laid = placed(f, id, 0, 0, 0, f.snapshot_count())->0.pixels;
    lemma_placed_distinct(f, id, 0, 0, 0, f.snapshot_count());
    lemma_normalised_distinct(laid, props.first_snap as nat);
    lemma_pixel_coverage(normalised(laid, props.first_snap as nat));
}

} // verus!
