//! The raster layout engine: a depth-first walk that gives every halo of
//! a tree a row and a column, and bridges the snapshots that a branch
//! skips.

use vstd::prelude::*;
use crate::error::TreeError;
use crate::forest::{Forest, HaloProps};
use crate::ident::{id_to_snap, snap_of};
use crate::siblings::{
    all_contained, collect_siblings, lemma_chain_contained, lemma_siblings_are_chain, siblings,
};

verus! {

/// One cell of a tree's raster.
///
/// A cell shows the halo `upper` at its own snapshot, or a point on the
/// edge from `upper` down to its progenitor `lower`. Its mass and its
/// displacement are those of `lower` moved `rise / span` of the way to
/// those of `upper`; its type is that of `upper`.
#[derive(Debug, Clone, Copy, PartialEq, Eq, Structural)]
pub struct Pixel {
    /// The row: a snapshot, counted from the first snapshot of the tree
    /// once the list is normalised.
    pub snap: usize,
    /// The column.
    pub col: usize,
    /// The type of `upper`.
    pub typ: i8,
    /// The later end of the edge; the halo itself for a halo's own cell.
    pub upper: u64,
    /// The earlier end of the edge; the halo itself for a halo's own cell.
    pub lower: u64,
    /// The snapshots between `lower` and this cell, this cell counted.
    pub rise: usize,
    /// The snapshots between `lower` and `upper`, `upper` counted; 1 for
    /// a halo's own cell.
    pub span: usize,
}

/// The bounding box of a tree's raster.
#[derive(Debug, Clone, Copy, PartialEq, Eq, Structural)]
pub struct ImageProps {
    pub first_snap: usize,
    pub last_snap: usize,
    pub n_rows: usize,
    pub n_cols: usize,
}

/// The greatest column that the walk may open: one below the greatest
/// `usize`, so that the number of columns can be counted.
pub open spec fn column_limit() -> nat {
    (usize::MAX - 1) as nat
}

/// The cell of the halo `id` itself, in column `col`.
pub open spec fn own_pixel(f: Forest, id: u64, col: nat) -> Pixel {
    Pixel {
        snap: snap_of(id) as usize,
        col: col as usize,
        typ: f.halo_type(id),
        upper: id,
        lower: id,
        rise: 0,
        span: 1,
    }
}

/// The cells that bridge the edge from `n` down to its progenitor `q`,
/// in column `col`: one for every snapshot strictly between the two, in
/// rising order. There is none where `q` is not at least two snapshots
/// before `n`.
pub open spec fn gap_pixels(f: Forest, n: u64, q: u64, col: nat) -> Seq<Pixel> {
    let hi = snap_of(n);
    let lo = snap_of(q);
    if lo + 1 < hi {
        Seq::new(
            (hi - lo - 1) as nat,
            |j: int|
                Pixel {
                    snap: (lo + 1 + j) as usize,
                    col: col as usize,
                    typ: f.halo_type(n),
                    upper: n,
                    lower: q,
                    rise: (j + 1) as usize,
                    span: (hi - lo) as usize,
                },
        )
    } else {
        Seq::empty()
    }
}

/// What a walk gives: the cells in the order they were placed, and the
/// greatest column opened so far.
pub struct Placed {
    pub pixels: Seq<Pixel>,
    pub max_col: nat,
}

/// Places the tree below `id`, which stands `depth` levels below the
/// root and in column `col`, when `max_col` is the greatest column
/// opened so far.
///
/// The branches are placed in list order: the first progenitor in the
/// column of `id`, every other progenitor in a newly opened column, each
/// followed by the cells that bridge its edge to `id`, in the column of
/// `id`. The cell of `id` comes last. There is no placement where the
/// forest is corrupt: where a halo stands deeper than there are
/// snapshots, a progenitor list does not close, or the columns run out.
pub open spec fn placed(
    f: Forest,
    id: u64,
    depth: nat,
    col: nat,
    max_col: nat,
    limit: nat,
) -> Option<Placed>
    decreases limit + 1 - depth, 0nat,
{
    if depth > limit {
        None
    } else if f.progenitor(id) == id {
        Some(Placed { pixels: seq![own_pixel(f, id, col)], max_col })
    } else {
        match siblings(f, id) {
            None => None,
            Some(sibs) => match placed_each(f, id, sibs, 0, depth + 1, col, max_col, limit) {
                None => None,
                Some(below) => Some(
                    Placed {
                        pixels: below.pixels.push(own_pixel(f, id, col)),
                        max_col: below.max_col,
                    },
                ),
            },
        }
    }
}

/// Places the branches of `n` from position `from` of its progenitor
/// list `sibs` on, each at `depth`.
pub open spec fn placed_each(
    f: Forest,
    n: u64,
    sibs: Seq<u64>,
    from: nat,
    depth: nat,
    col: nat,
    max_col: nat,
    limit: nat,
) -> Option<Placed>
    decreases limit + 1 - depth, sibs.len() - from + 1,
{
    if from >= sibs.len() {
        Some(Placed { pixels: Seq::empty(), max_col })
    } else if from > 0 && max_col + 1 > column_limit() {
        None
    } else {
        let top = if from == 0 {
            max_col
        } else {
            max_col + 1
        };
        let branch_col = if from == 0 {
            col
        } else {
            top
        };
        match placed(f, sibs[from as int], depth, branch_col, top, limit) {
            None => None,
            Some(here) => match placed_each(
                f,
                n,
                sibs,
                from + 1,
                depth,
                col,
                here.max_col,
                limit,
            ) {
                None => None,
                Some(rest) => Some(
                    Placed {
                        pixels: here.pixels + gap_pixels(f, n, sibs[from as int], col)
                            + rest.pixels,
                        max_col: rest.max_col,
                    },
                ),
            },
        }
    }
}

/// The layout stops at a progenitor list that does not close: there is
/// no placement of the tree below a halo whose list the walk cannot
/// finish.
pub proof fn lemma_unclosed_list_stops_layout(
    f: Forest,
    id: u64,
    depth: nat,
    col: nat,
    max_col: nat,
    limit: nat,
)
    requires
        f.progenitor(id) != id,
        siblings(f, id) is None,
    ensures
        placed(f, id, depth, col, max_col, limit) is None,
{
}

/// `rest` with `done` put before its cells.
pub open spec fn after_pixels(done: Seq<Pixel>, rest: Option<Placed>) -> Option<Placed> {
    match rest {
        None => None,
        Some(r) => Some(Placed { pixels: done + r.pixels, max_col: r.max_col }),
    }
}

/// The column in which the branch at position `from` is placed, when
/// `max_col` is the greatest column opened before it.
pub open spec fn branch_top(from: nat, max_col: nat) -> nat {
    if from == 0 {
        max_col
    } else {
        max_col + 1
    }
}

/// Placing the branches from position `from` on is placing the branch at
/// `from`, bridging its edge, and placing the branches after it.
proof fn lemma_placed_each_step(
    f: Forest,
    n: u64,
    sibs: Seq<u64>,
    from: nat,
    depth: nat,
    col: nat,
    max_col: nat,
    limit: nat,
    done: Seq<Pixel>,
)
    requires
        from < sibs.len(),
        !(from > 0 && max_col + 1 > column_limit()),
    ensures
        ({
            let top = branch_top(from, max_col);
            let branch_col = if from == 0 {
                col
            } else {
                top
            };
            let whole = after_pixels(
                done,
                placed_each(f, n, sibs, from, depth, col, max_col, limit),
            );
            match placed(f, sibs[from as int], depth, branch_col, top, limit) {
                None => whole is None,
                Some(here) => whole == after_pixels(
                    done + here.pixels + gap_pixels(f, n, sibs[from as int], col),
                    placed_each(f, n, sibs, from + 1, depth, col, here.max_col, limit),
                ),
            }
        }),
{
    let top = branch_top(from, max_col);
    let branch_col = if from == 0 {
        col
    } else {
        top
    };
    match placed(f, sibs[from as int], depth, branch_col, top, limit) {
        None => {},
        Some(here) => {
            let gap = gap_pixels(f, n, sibs[from as int], col);
            match placed_each(f, n, sibs, from + 1, depth, col, here.max_col, limit) {
                None => {},
                Some(r) => {
                    assert(done + (here.pixels + gap + r.pixels) =~= done + here.pixels + gap
                        + r.pixels);
                },
            }
        },
    }
}

/// Appends to `pixels` the cells that bridge the edge from `a_id` down
/// to its progenitor `b_id`, in column `col`.
pub fn lerp(a_id: u64, b_id: u64, col: usize, halo_props: &HaloProps, pixels: &mut Vec<Pixel>)
    requires
        halo_props@.wf(),
        halo_props@.contains(a_id),
    ensures
        final(pixels)@ == old(pixels)@ + gap_pixels(halo_props@, a_id, b_id, col as nat),
{
    let ghost gap = gap_pixels(halo_props@, a_id, b_id, col as nat);
    let hi: usize = id_to_snap(a_id);
    let lo: usize = id_to_snap(b_id);
    if lo >= hi || hi - lo < 2 {
        assert(old(pixels)@ + gap =~= old(pixels)@);
        return ;
    }
    let typ: i8 = halo_props.halo_type(a_id);
    let span: usize = hi - lo;
    let mut snap: usize = lo + 1;
    while snap < hi
        invariant
            lo < snap <= hi,
            span == hi - lo,
            hi == snap_of(a_id),
            lo == snap_of(b_id),
            typ == halo_props@.halo_type(a_id),
            gap == gap_pixels(halo_props@, a_id, b_id, col as nat),
            gap.len() == hi - lo - 1,
            pixels@ == old(pixels)@ + gap.take(snap - lo - 1),
        decreases hi - snap,
    {
        let ghost before = pixels@;
        pixels.push(Pixel { snap, col, typ, upper: a_id, lower: b_id, rise: snap - lo, span });
        proof {
            let j = snap - lo - 1;
            assert(gap.take(j + 1) =~= gap.take(j).push(gap[j]));
            assert(pixels@ =~= old(pixels)@ + gap.take(j + 1));
        }
        snap += 1;
    }
    assert(gap.take(gap.len() as int) =~= gap);
}

/// Places the tree below `id` and appends its cells to `pixels`. `id`
/// stands `depth` levels below the root and in column `col`; `max_col`
/// is the greatest column opened so far and is moved on.
pub fn walk_and_place_pixels(
    id: u64,
    depth: u32,
    pixels: &mut Vec<Pixel>,
    col: usize,
    max_col: &mut usize,
    halo_props: &HaloProps,
) -> (r: Result<(), TreeError>)
    requires
        halo_props@.wf(),
        halo_props@.contains(id),
    ensures
        match placed(
            halo_props@,
            id,
            depth as nat,
            col as nat,
            *old(max_col) as nat,
            halo_props@.snapshot_count(),
        ) {
            Some(p) => {
                &&& r == Ok::<(), TreeError>(())
                &&& final(pixels)@ == old(pixels)@ + p.pixels
                &&& *final(max_col) == p.max_col
            },
            None => r == Err::<(), TreeError>(TreeError::CorruptForestError),
        },
    decreases halo_props@.snapshot_count() + 1 - depth,
{
    let ghost f = halo_props@;
    let ghost limit = f.snapshot_count();
    let ghost prior = old(pixels)@;
    let ghost opened = *old(max_col) as nat;
    if depth as usize > halo_props.snapshot_count() {
        return Err(TreeError::CorruptForestError);
    }
    let snap: usize = id_to_snap(id);
    let typ: i8 = halo_props.halo_type(id);
    let first: u64 = halo_props.progenitor(id);
    if first == id {
        pixels.push(Pixel { snap, col, typ, upper: id, lower: id, rise: 0, span: 1 });
        assert(pixels@ =~= prior + seq![own_pixel(f, id, col as nat)]);
        return Ok(());
    }
    let sibs: Vec<u64> = match collect_siblings(id, halo_props) {
        Ok(sibs) => sibs,
        Err(e) => {
            return Err(e);
        },
    };
    let ghost s0 = sibs@;
    proof {
        lemma_siblings_are_chain(f, id);
        lemma_chain_contained(f, id, s0);
    }
    let n: usize = sibs.len();
    let mut k: usize = 0;
    let ghost mut done: Seq<Pixel> = Seq::empty();
    assert(prior + done =~= prior);
    while k < n
        invariant
            k <= n,
            n == sibs.len(),
            s0 == sibs@,
            f == halo_props@,
            f.wf(),
            f.contains(id),
            f.progenitor(id) != id,
            siblings(f, id) == Some(s0),
            opened == *old(max_col),
            limit == f.snapshot_count(),
            depth as nat <= limit <= crate::forest::MAX_SNAPSHOTS,
            all_contained(f, s0),
            pixels@ == prior + done,
            placed_each(f, id, s0, 0, depth as nat + 1, col as nat, opened, limit) == after_pixels(
                done,
                placed_each(f, id, s0, k as nat, depth as nat + 1, col as nat, *max_col as nat, limit),
            ),
        decreases n - k,
    {
        let ghost mc = *max_col;
        let branch_col: usize = if k == 0 {
            col
        } else {
            if *max_col >= usize::MAX - 1 {
                return Err(TreeError::CorruptForestError);
            }
            *max_col += 1;
            *max_col
        };
        let ghost top = *max_col as nat;
        proof {
            lemma_placed_each_step(
                f,
                id,
                s0,
                k as nat,
                depth as nat + 1,
                col as nat,
                mc as nat,
                limit,
                done,
            );
        }
        match walk_and_place_pixels(sibs[k], depth + 1, pixels, branch_col, max_col, halo_props) {
            Err(e) => {
                return Err(e);
            },
            Ok(()) => {},
        }
        lerp(id, sibs[k], col, halo_props, pixels);
        proof {
            let here = placed(f, s0[k as int], depth as nat + 1, branch_col as nat, top, limit)->0;
            let grown = done + here.pixels + gap_pixels(f, id, s0[k as int], col as nat);
            assert(pixels@ =~= prior + grown);
            done = grown;
        }
        k += 1;
    }
    pixels.push(Pixel { snap, col, typ, upper: id, lower: id, rise: 0, span: 1 });
    proof {
        assert(done + Seq::<Pixel>::empty() =~= done);
        assert(pixels@ =~= prior + done.push(own_pixel(f, id, col as nat)));
    }
    Ok(())
}

/// The greatest snapshot that an identifier can name.
pub open spec fn last_snapshot() -> nat {
    (u64::MAX / crate::ident::SNAP_FACTOR) as nat
}

/// Every cell of `px` lies in a snapshot that an identifier can name and
/// in a column up to `max_col`.
pub open spec fn cells_within(px: Seq<Pixel>, max_col: nat) -> bool {
    forall|i: int|
        0 <= i < px.len() ==> (#[trigger] px[i]).snap <= last_snapshot() && px[i].col <= max_col
}

/// A placement opens columns upwards only, stays below the column limit,
/// holds at least the cell of the halo it started at, and keeps every
/// cell in a column that it has opened.
pub proof fn lemma_placed_within(
    f: Forest,
    id: u64,
    depth: nat,
    col: nat,
    max_col: nat,
    limit: nat,
)
    requires
        placed(f, id, depth, col, max_col, limit) is Some,
        col <= max_col <= column_limit(),
    ensures
        max_col <= placed(f, id, depth, col, max_col, limit)->0.max_col <= column_limit(),
        placed(f, id, depth, col, max_col, limit)->0.pixels.len() >= 1,
        placed(f, id, depth, col, max_col, limit)->0.pixels.last() == own_pixel(f, id, col),
        cells_within(
            placed(f, id, depth, col, max_col, limit)->0.pixels,
            placed(f, id, depth, col, max_col, limit)->0.max_col,
        ),
    decreases limit + 1 - depth, 0nat,
{
    let p = placed(f, id, depth, col, max_col, limit)->0;
    if f.progenitor(id) == id {
    } else {
        let sibs = siblings(f, id)->0;
        lemma_placed_each_within(f, id, sibs, 0, depth + 1, col, max_col, limit);
        let below = placed_each(f, id, sibs, 0, depth + 1, col, max_col, limit)->0;
        assert forall|i: int| 0 <= i < p.pixels.len() implies (#[trigger] p.pixels[i]).snap
            <= last_snapshot() && p.pixels[i].col <= p.max_col by {
            if i < below.pixels.len() {
                assert(p.pixels[i] == below.pixels[i]);
            }
        }
    }
}

/// The same, for the branches of one halo.
pub(crate) proof fn lemma_placed_each_within(
    f: Forest,
    n: u64,
    sibs: Seq<u64>,
    from: nat,
    depth: nat,
    col: nat,
    max_col: nat,
    limit: nat,
)
    requires
        placed_each(f, n, sibs, from, depth, col, max_col, limit) is Some,
        col <= max_col <= column_limit(),
    ensures
        max_col <= placed_each(f, n, sibs, from, depth, col, max_col, limit)->0.max_col
            <= column_limit(),
        cells_within(
            placed_each(f, n, sibs, from, depth, col, max_col, limit)->0.pixels,
            placed_each(f, n, sibs, from, depth, col, max_col, limit)->0.max_col,
        ),
    decreases limit + 1 - depth, sibs.len() - from + 1,
{
    if from < sibs.len() {
        let top = branch_top(from, max_col);
        let branch_col = if from == 0 {
            col
        } else {
            top
        };
        lemma_placed_within(f, sibs[from as int], depth, branch_col, top, limit);
        let here = placed(f, sibs[from as int], depth, branch_col, top, limit)->0;
        lemma_placed_each_within(f, n, sibs, from + 1, depth, col, here.max_col, limit);
        let rest = placed_each(f, n, sibs, from + 1, depth, col, here.max_col, limit)->0;
        let gap = gap_pixels(f, n, sibs[from as int], col);
        let all = here.pixels + gap + rest.pixels;
        assert forall|i: int| 0 <= i < all.len() implies (#[trigger] all[i]).snap
            <= last_snapshot() && all[i].col <= rest.max_col by {
            if i < here.pixels.len() {
                assert(all[i] == here.pixels[i]);
            } else if i < here.pixels.len() + gap.len() {
                assert(all[i] == gap[i - here.pixels.len()]);
            } else {
                assert(all[i] == rest.pixels[i - here.pixels.len() - gap.len()]);
            }
        }
    }
}

/// `props` is the bounding box of the cells `px`: the first and the last
/// snapshot and the number of columns are attained, and no cell lies
/// outside them.
pub open spec fn bounds(px: Seq<Pixel>, props: ImageProps) -> bool {
    &&& forall|i: int|
        0 <= i < px.len() ==> props.first_snap <= (#[trigger] px[i]).snap <= props.last_snap
            && px[i].col < props.n_cols
    &&& exists|i: int| 0 <= i < px.len() && (#[trigger] px[i]).snap == props.first_snap
    &&& exists|i: int| 0 <= i < px.len() && (#[trigger] px[i]).snap == props.last_snap
    &&& exists|i: int| 0 <= i < px.len() && (#[trigger] px[i]).col + 1 == props.n_cols
    &&& props.n_rows == props.last_snap - props.first_snap + 1
}

/// The cells `px` with every row counted from the snapshot `first`.
pub open spec fn normalised(px: Seq<Pixel>, first: nat) -> Seq<Pixel> {
    Seq::new(px.len(), |i: int| Pixel { snap: (px[i].snap - first) as usize, ..px[i] })
}

/// Every cell of `px` lies in a raster of `n_rows` by `n_cols`.
pub open spec fn in_box(px: Seq<Pixel>, n_rows: nat, n_cols: nat) -> bool {
    forall|i: int| 0 <= i < px.len() ==> (#[trigger] px[i]).snap < n_rows && px[i].col < n_cols
}

/// Lays out the tree of the final descendant `id`: its cells in the
/// order they were placed, with rows counted from the first snapshot of
/// the tree, and the bounding box.
pub fn place_pixels(id: u64, halo_props: &HaloProps) -> (r: Result<
    (Vec<Pixel>, ImageProps),
    TreeError,
>)
    requires
        halo_props@.wf(),
        halo_props@.contains(id),
    ensures
        match placed(halo_props@, id, 0, 0, 0, halo_props@.snapshot_count()) {
            Some(p) => {
                &&& r is Ok
                &&& bounds(p.pixels, r->Ok_0.1)
                &&& r->Ok_0.0@ == normalised(p.pixels, r->Ok_0.1.first_snap as nat)
                &&& in_box(r->Ok_0.0@, r->Ok_0.1.n_rows as nat, r->Ok_0.1.n_cols as nat)
            },
            None => r == Err::<(Vec<Pixel>, ImageProps), TreeError>(
                TreeError::CorruptForestError,
            ),
        },
{
    let mut pixels: Vec<Pixel> = Vec::new();
    let mut max_col: usize = 0;
    match walk_and_place_pixels(id, 0, &mut pixels, 0, &mut max_col, halo_props) {
        Err(e) => {
            return Err(e);
        },
        Ok(()) => {},
    }
    let ghost p = placed(halo_props@, id, 0, 0, 0, halo_props@.snapshot_count())->0;
    proof {
        lemma_placed_within(halo_props@, id, 0, 0, 0, halo_props@.snapshot_count());
        assert(pixels@ =~= p.pixels);
    }
    let n: usize = pixels.len();
    let mut first_snap: usize = pixels[0].snap;
    let mut last_snap: usize = pixels[0].snap;
    let mut widest: usize = pixels[0].col;
    let mut i: usize = 1;
    while i < n
        invariant
            1 <= i <= n,
            n == pixels.len(),
            pixels@ == p.pixels,
            cells_within(p.pixels, p.max_col),
            p.max_col <= column_limit(),
            forall|j: int|
                0 <= j < i ==> first_snap <= (#[trigger] pixels@[j]).snap <= last_snap
                    && pixels@[j].col <= widest,
            exists|j: int| 0 <= j < i && (#[trigger] pixels@[j]).snap == first_snap,
            exists|j: int| 0 <= j < i && (#[trigger] pixels@[j]).snap == last_snap,
            exists|j: int| 0 <= j < i && (#[trigger] pixels@[j]).col == widest,
        decreases n - i,
    {
        let here: Pixel = pixels[i];
        if here.snap < first_snap {
            first_snap = here.snap;
        }
        if here.snap > last_snap {
            last_snap = here.snap;
        }
        if here.col > widest {
            widest = here.col;
        }
        i += 1;
    }
    let props = ImageProps {
        first_snap,
        last_snap,
        n_rows: last_snap - first_snap + 1,
        n_cols: widest + 1,
    };
    let mut i: usize = 0;
    while i < n
        invariant
            i <= n,
            n == pixels.len(),
            n == p.pixels.len(),
            forall|j: int| 0 <= j < n ==> first_snap <= (#[trigger] p.pixels[j]).snap,
            forall|j: int|
                0 <= j < i ==> #[trigger] pixels@[j] == normalised(p.pixels, first_snap as nat)[j],
            forall|j: int| i <= j < n ==> #[trigger] pixels@[j] == p.pixels[j],
        decreases n - i,
    {
        let here: Pixel = pixels[i];
        pixels.set(
            i,
            Pixel {
                snap: here.snap - first_snap,
                col: here.col,
                typ: here.typ,
                upper: here.upper,
                lower: here.lower,
                rise: here.rise,
                span: here.span,
            },
        );
        i += 1;
    }
    assert(pixels@ =~= normalised(p.pixels, first_snap as nat));
    Ok((pixels, props))
}

} // verus!
