//! The per-tree driver: reorder, lay out, build.

use vstd::prelude::*;
use crate::error::TreeError;
use crate::forest::{Forest, HaloProps};
use crate::layout::{bounds, normalised, own_pixel, place_pixels, placed, ImageProps, Pixel};
use crate::coverage::{lemma_gapless_upright, lemma_normalised_distinct, lemma_placed_distinct};
use crate::lineage::{lemma_reordered_once, once, tree_of};
use crate::raster::{
    cells_distinct, filled_cells, is_raster, lemma_pixel_coverage, rows_of, type_raster, types_of,
    TYPE_FILL,
};
use crate::reorder::{lemma_same_halos_contains, reorder_progenitors, reordered};
use crate::tree::{gapless, lemma_ordered_gapless};

verus! {

/// The image of one tree: its bounding box, its cells in the order they
/// were placed, with rows counted from the first snapshot of the tree,
/// and its type raster.
#[derive(Debug, PartialEq, Eq)]
pub struct TreeImage {
    pub image_props: ImageProps,
    pub pixels: Vec<Pixel>,
    pub types: Vec<Vec<i8>>,
}

/// The forest after the tree of `id` was reordered.
pub open spec fn reordered_forest(f: Forest, id: u64) -> Forest {
    reordered(f, id, 0, f.snapshot_count()).forest
}

/// The cells of the tree of `id` as the layout places them once the tree
/// was reordered; `None` where the forest is corrupt.
pub open spec fn laid_out(f: Forest, id: u64) -> Option<Seq<Pixel>> {
    if reordered(f, id, 0, f.snapshot_count()).depth is None {
        None
    } else {
        match placed(reordered_forest(f, id), id, 0, 0, 0, f.snapshot_count()) {
            None => None,
            Some(p) => Some(p.pixels),
        }
    }
}

/// A tree of one halo is an image of one cell: reordering leaves the
/// forest alone and reaches depth 0, and the layout is the cell of the
/// halo itself, in column 0, which fills a raster of one row and one
/// column.
pub proof fn lemma_single_halo(f: Forest, id: u64, props: ImageProps)
    requires
        f.progenitor(id) == id,
        bounds(seq![own_pixel(f, id, 0)], props),
    ensures
        reordered(f, id, 0, f.snapshot_count()).depth == Some(0nat),
        reordered_forest(f, id) == f,
        laid_out(f, id) == Some(seq![own_pixel(f, id, 0)]),
        cells_distinct(seq![own_pixel(f, id, 0)]),
        props.n_rows == 1,
        props.n_cols == 1,
        normalised(seq![own_pixel(f, id, 0)], props.first_snap as nat) == seq![
            Pixel { snap: 0, ..own_pixel(f, id, 0) },
        ],
{
    let cells = seq![own_pixel(f, id, 0)];
    assert(cells[0] == own_pixel(f, id, 0));
    assert(normalised(cells, props.first_snap as nat) =~= seq![
        Pixel { snap: 0, ..own_pixel(f, id, 0) },
    ]);
}

/// A tree that skips no snapshot, and in which no halo occurs twice, has
/// an image: once it is laid out, which only fails for want of columns,
/// no two of its cells fall on one place, and its raster holds as many
/// filled places as it has cells.
pub proof fn lemma_gapless_tree_has_image(f: Forest, id: u64)
    requires
        f.wf(),
        f.contains(id),
        tree_of(f, id, 0, f.snapshot_count()) is Some,
        once(tree_of(f, id, 0, f.snapshot_count())->0),
        gapless(tree_of(f, id, 0, f.snapshot_count())->0),
        placed(reordered_forest(f, id), id, 0, 0, 0, f.snapshot_count()) is Some,
    ensures
        laid_out(f, id) is Some,
        cells_distinct(laid_out(f, id)->0),
        filled_cells(laid_out(f, id)->0).finite(),
        filled_cells(laid_out(f, id)->0).len() == laid_out(f, id)->0.len(),
{
    let limit = f.snapshot_count();
    let t = tree_of(f, id, 0, limit)->0;
    let g = reordered_forest(f, id);
    lemma_reordered_once(f, id, 0, limit);
    lemma_ordered_gapless(t, 0);
    lemma_gapless_upright(g, id, 0, limit);
    lemma_placed_distinct(g, id, 0, 0, 0, limit);
    lemma_pixel_coverage(laid_out(f, id)->0);
}

/// Processes the tree of the final descendant `id`: reorders it, lays it
/// out and builds its type raster.
///
/// The forest is left reordered, also where a later step fails. A
/// corrupt forest is reported as such; a layout in which two cells fall
/// on one place is refused as a shape mismatch.
pub fn tree_image(id: u64, halo_props: &mut HaloProps) -> (r: Result<TreeImage, TreeError>)
    requires
        old(halo_props)@.wf(),
        old(halo_props)@.contains(id),
    ensures
        final(halo_props)@ == reordered_forest(old(halo_props)@, id),
        final(halo_props)@.wf(),
        final(halo_props)@.same_halos(old(halo_props)@),
        match laid_out(old(halo_props)@, id) {
            None => r == Err::<TreeImage, TreeError>(TreeError::CorruptForestError),
            Some(laid) => if cells_distinct(laid) {
                &&& r is Ok
                &&& bounds(laid, r->Ok_0.image_props)
                &&& r->Ok_0.pixels@ == normalised(laid, r->Ok_0.image_props.first_snap as nat)
                &&& is_raster(
                    rows_of(r->Ok_0.types),
                    r->Ok_0.image_props.n_rows as nat,
                    r->Ok_0.image_props.n_cols as nat,
                    r->Ok_0.pixels@,
                    types_of(r->Ok_0.pixels@),
                    TYPE_FILL,
                )
            } else {
                r == Err::<TreeImage, TreeError>(TreeError::ArrayShapeMismatch)
            },
        },
{
    let ghost before = halo_props@;
    match reorder_progenitors(id, 0, halo_props) {
        Err(e) => {
            return Err(e);
        },
        Ok(_) => {},
    }
    proof {
        lemma_same_halos_contains(before, halo_props@);
    }
    let (pixels, image_props) = match place_pixels(id, halo_props) {
        Err(e) => {
            return Err(e);
        },
        Ok(placed) => placed,
    };
    let ghost laid = laid_out(before, id)->0;
    proof {
        if cells_distinct(laid) {
            lemma_normalised_distinct(laid, image_props.first_snap as nat);
        } else {
            let (i, j) = choose|i: int, j: int|
                0 <= i < j < laid.len() && laid[i].snap == laid[j].snap && laid[i].col
                    == laid[j].col;
            assert(pixels@[i].snap == pixels@[j].snap && pixels@[i].col == pixels@[j].col);
        }
    }
    match type_raster(image_props.n_rows, image_props.n_cols, &pixels) {
        Err(e) => Err(e),
        Ok(types) => Ok(TreeImage { image_props, pixels, types }),
    }
}

} // verus!
