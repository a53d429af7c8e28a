use gen_tree_images::{
    build_raster, fills_distinct_cells, lerp, place_pixels, reorder_progenitors, tree_image,
    type_raster, walk_and_place_pixels, HaloProps, ImageProps, Pixel, TreeError,
};

const FACTOR: u64 = 1_000_000_000_000;

fn id(snap: u64, ind: u64) -> u64 {
    snap * FACTOR + ind + 1
}

fn store(progenitors: Vec<Vec<u64>>, next: Vec<Vec<u64>>, types: Vec<Vec<i8>>) -> HaloProps {
    let mut store = HaloProps::new(progenitors.len());
    for ((p, n), t) in progenitors.into_iter().zip(next).zip(types) {
        store.push_snapshot(p, n, t).unwrap();
    }
    assert!(store.is_well_formed());
    store
}

fn own(snap: usize, col: usize, typ: i8, halo: u64) -> Pixel {
    Pixel { snap, col, typ, upper: halo, lower: halo, rise: 0, span: 1 }
}

/// The value of a field at a cell: that of the lower end moved
/// `rise / span` of the way to that of the upper end.
fn blend(lower: f32, upper: f32, pixel: &Pixel) -> f32 {
    lower + (upper - lower) * (pixel.rise as f32 / pixel.span as f32)
}

/// A root with two progenitors, the second of which has a progenitor of
/// its own.
fn two_branches() -> HaloProps {
    let (c, a, b, r) = (id(1, 0), id(2, 0), id(2, 1), id(3, 0));
    store(
        vec![vec![], vec![c], vec![a, c], vec![a]],
        vec![vec![], vec![c], vec![b, a], vec![r]],
        vec![vec![], vec![3], vec![1, 2], vec![0]],
    )
}

#[test]
fn a_single_halo_is_a_raster_of_one_cell() {
    let h = id(3, 0);
    let mut f = store(
        vec![vec![], vec![], vec![], vec![h]],
        vec![vec![], vec![], vec![], vec![h]],
        vec![vec![], vec![], vec![], vec![1]],
    );
    assert_eq!(reorder_progenitors(h, 0, &mut f), Ok(0));
    let (pixels, props) = place_pixels(h, &f).unwrap();
    assert_eq!(pixels, vec![own(0, 0, 1, h)]);
    assert_eq!(props, ImageProps { first_snap: 3, last_snap: 3, n_rows: 1, n_cols: 1 });
    assert!(fills_distinct_cells(props.n_rows, props.n_cols, &pixels));
    assert_eq!(type_raster(props.n_rows, props.n_cols, &pixels), Ok(vec![vec![1]]));

    let mass: f32 = 12.5;
    let position: [f32; 3] = [1.0, 2.0, 3.0];
    let root_position = position;
    let masses: Vec<f32> = pixels.iter().map(|p| blend(mass, mass, p)).collect();
    let displacement = position
        .iter()
        .zip(root_position.iter())
        .map(|(a, b)| (a - b) * (a - b))
        .sum::<f32>()
        .sqrt();
    let displacements: Vec<f32> = pixels.iter().map(|p| blend(displacement, displacement, p)).collect();
    assert_eq!(pixels[0].upper, h);
    assert_eq!(pixels[0].lower, h);
    assert_eq!(
        build_raster(props.n_rows, props.n_cols, &pixels, &masses, 0.0),
        Ok(vec![vec![12.5]])
    );
    assert_eq!(
        build_raster(props.n_rows, props.n_cols, &pixels, &displacements, 0.0),
        Ok(vec![vec![0.0]])
    );
}

#[test]
fn the_main_branch_keeps_column_zero() {
    let (c, b, a) = (id(0, 0), id(1, 0), id(2, 0));
    let f = store(
        vec![vec![c], vec![c], vec![b]],
        vec![vec![c], vec![b], vec![a]],
        vec![vec![7], vec![8], vec![9]],
    );
    let (pixels, props) = place_pixels(a, &f).unwrap();
    assert_eq!(pixels, vec![own(0, 0, 7, c), own(1, 0, 8, b), own(2, 0, 9, a)]);
    assert_eq!(props, ImageProps { first_snap: 0, last_snap: 2, n_rows: 3, n_cols: 1 });
}

#[test]
fn a_sibling_opens_a_column() {
    let (c, a, b, r) = (id(1, 0), id(2, 0), id(2, 1), id(3, 0));
    let mut f = two_branches();
    // before reordering the leaf a is the first progenitor
    let (pixels, props) = place_pixels(r, &f).unwrap();
    assert_eq!(pixels, vec![own(1, 0, 1, a), own(0, 1, 3, c), own(1, 1, 2, b), own(2, 0, 0, r)]);
    assert_eq!(props, ImageProps { first_snap: 1, last_snap: 3, n_rows: 3, n_cols: 2 });

    assert_eq!(reorder_progenitors(r, 0, &mut f), Ok(2));
    let (pixels, props) = place_pixels(r, &f).unwrap();
    assert_eq!(pixels, vec![own(0, 0, 3, c), own(1, 0, 2, b), own(1, 1, 1, a), own(2, 0, 0, r)]);
    assert_eq!(props, ImageProps { first_snap: 1, last_snap: 3, n_rows: 3, n_cols: 2 });
    assert!(fills_distinct_cells(props.n_rows, props.n_cols, &pixels));
    assert_eq!(
        type_raster(props.n_rows, props.n_cols, &pixels),
        Ok(vec![vec![3, -1], vec![2, 1], vec![0, -1]])
    );
}

#[test]
fn columns_are_counted_over_the_whole_walk() {
    // r has the progenitors m and q; m has the progenitors d1 and d2
    let (d1, d2, m, q, r) = (id(0, 0), id(0, 1), id(1, 0), id(1, 1), id(2, 0));
    let f = store(
        vec![vec![d1, d2], vec![d1, q], vec![m]],
        vec![vec![d2, d1], vec![q, m], vec![r]],
        vec![vec![0, 0], vec![0, 0], vec![0]],
    );
    let (pixels, props) = place_pixels(r, &f).unwrap();
    assert_eq!(
        pixels,
        vec![own(0, 0, 0, d1), own(0, 1, 0, d2), own(1, 0, 0, m), own(1, 2, 0, q), own(2, 0, 0, r)]
    );
    assert_eq!(props, ImageProps { first_snap: 0, last_snap: 2, n_rows: 3, n_cols: 3 });
}

#[test]
fn a_skipped_snapshot_is_bridged() {
    let (q, n) = (id(5, 0), id(8, 0));
    let f = store(
        vec![vec![], vec![], vec![], vec![], vec![], vec![q], vec![], vec![], vec![q]],
        vec![vec![], vec![], vec![], vec![], vec![], vec![q], vec![], vec![], vec![n]],
        vec![vec![], vec![], vec![], vec![], vec![], vec![0], vec![], vec![], vec![1]],
    );
    let (pixels, props) = place_pixels(n, &f).unwrap();
    assert_eq!(props, ImageProps { first_snap: 5, last_snap: 8, n_rows: 4, n_cols: 1 });
    assert_eq!(
        pixels,
        vec![
            own(0, 0, 0, q),
            Pixel { snap: 1, col: 0, typ: 1, upper: n, lower: q, rise: 1, span: 3 },
            Pixel { snap: 2, col: 0, typ: 1, upper: n, lower: q, rise: 2, span: 3 },
            own(3, 0, 1, n),
        ]
    );

    let mass_of = |halo: u64| -> f32 {
        if halo == q {
            10.0
        } else {
            20.0
        }
    };
    let masses: Vec<f32> =
        pixels.iter().map(|p| blend(mass_of(p.lower), mass_of(p.upper), p)).collect();
    assert_eq!(masses[0], 10.0);
    assert!((masses[1] - 13.333333).abs() < 1e-4);
    assert!((masses[2] - 16.666667).abs() < 1e-4);
    assert_eq!(masses[3], 20.0);
    assert_eq!(pixels[1].typ, f.halo_type(n));
    assert_eq!(pixels[2].typ, f.halo_type(n));

    assert!(fills_distinct_cells(props.n_rows, props.n_cols, &pixels));
    let raster = build_raster(props.n_rows, props.n_cols, &pixels, &masses, 0.0).unwrap();
    assert_eq!(raster.len(), 4);
    assert_eq!(raster[0], vec![10.0]);
    assert!((raster[1][0] - 13.333333).abs() < 1e-4);
    assert!((raster[2][0] - 16.666667).abs() < 1e-4);
    assert_eq!(raster[3], vec![20.0]);
}

#[test]
fn lerp_bridges_strictly_between_the_ends() {
    let (q, n) = (id(1, 0), id(4, 0));
    let f = store(
        vec![vec![], vec![q], vec![], vec![], vec![q]],
        vec![vec![], vec![q], vec![], vec![], vec![n]],
        vec![vec![], vec![4], vec![], vec![], vec![6]],
    );
    let mut pixels = vec![own(9, 9, 9, q)];
    lerp(n, q, 2, &f, &mut pixels);
    assert_eq!(
        pixels,
        vec![
            own(9, 9, 9, q),
            Pixel { snap: 2, col: 2, typ: 6, upper: n, lower: q, rise: 1, span: 3 },
            Pixel { snap: 3, col: 2, typ: 6, upper: n, lower: q, rise: 2, span: 3 },
        ]
    );
}

#[test]
fn lerp_adds_nothing_without_a_gap() {
    let (c, b, a) = (id(0, 0), id(1, 0), id(2, 0));
    let f = store(
        vec![vec![c], vec![c], vec![b]],
        vec![vec![c], vec![b], vec![a]],
        vec![vec![7], vec![8], vec![9]],
    );
    let mut pixels: Vec<Pixel> = Vec::new();
    lerp(a, b, 0, &f, &mut pixels);
    lerp(b, c, 0, &f, &mut pixels);
    lerp(a, a, 0, &f, &mut pixels);
    lerp(c, a, 0, &f, &mut pixels);
    assert_eq!(pixels, Vec::<Pixel>::new());
    lerp(a, c, 0, &f, &mut pixels);
    assert_eq!(pixels, vec![Pixel { snap: 1, col: 0, typ: 9, upper: a, lower: c, rise: 1, span: 2 }]);
}

#[test]
fn a_bridged_sibling_edge_lies_in_the_column_of_the_descendant() {
    // r has the first progenitor p, one snapshot back, and the sibling q, three back
    let (q, p, r) = (id(0, 0), id(2, 0), id(3, 0));
    let f = store(
        vec![vec![q], vec![], vec![p], vec![p]],
        vec![vec![p], vec![], vec![q], vec![r]],
        vec![vec![1], vec![], vec![2], vec![3]],
    );
    let (pixels, props) = place_pixels(r, &f).unwrap();
    assert_eq!(props, ImageProps { first_snap: 0, last_snap: 3, n_rows: 4, n_cols: 2 });
    assert_eq!(
        pixels,
        vec![
            own(2, 0, 2, p),
            own(0, 1, 1, q),
            Pixel { snap: 1, col: 0, typ: 3, upper: r, lower: q, rise: 1, span: 3 },
            Pixel { snap: 2, col: 0, typ: 3, upper: r, lower: q, rise: 2, span: 3 },
            own(3, 0, 3, r),
        ]
    );
    // the bridge meets the first progenitor: the cells are not distinct
    assert!(!fills_distinct_cells(props.n_rows, props.n_cols, &pixels));
}

#[test]
fn the_walk_appends_and_moves_the_column_counter() {
    let (c, a, b, r) = (id(1, 0), id(2, 0), id(2, 1), id(3, 0));
    let f = two_branches();
    let mut pixels = vec![own(5, 5, 5, r)];
    let mut max_col: usize = 7;
    assert_eq!(walk_and_place_pixels(r, 0, &mut pixels, 4, &mut max_col, &f), Ok(()));
    assert_eq!(max_col, 8);
    assert_eq!(
        pixels,
        vec![own(5, 5, 5, r), own(2, 4, 1, a), own(1, 8, 3, c), own(2, 8, 2, b), own(3, 4, 0, r)]
    );
}

#[test]
fn the_walk_stops_when_the_columns_run_out() {
    let r = id(3, 0);
    let f = two_branches();
    let mut pixels: Vec<Pixel> = Vec::new();
    let mut max_col: usize = usize::MAX - 1;
    assert_eq!(
        walk_and_place_pixels(r, 0, &mut pixels, 0, &mut max_col, &f),
        Err(TreeError::CorruptForestError)
    );
    let mut pixels: Vec<Pixel> = Vec::new();
    let mut max_col: usize = usize::MAX - 2;
    assert_eq!(walk_and_place_pixels(r, 0, &mut pixels, 0, &mut max_col, &f), Ok(()));
    assert_eq!(max_col, usize::MAX - 1);
}

#[test]
fn a_list_that_never_closes_stops_the_layout() {
    let (z, p, a, r) = (id(0, 0), id(1, 0), id(1, 1), id(2, 0));
    let f = store(
        vec![vec![z], vec![p, a], vec![p]],
        vec![vec![z], vec![a, z], vec![r]],
        vec![vec![0], vec![0, 0], vec![0]],
    );
    assert_eq!(place_pixels(r, &f), Err(TreeError::CorruptForestError));
}

#[test]
fn a_tree_deeper_than_the_snapshots_stops_the_layout() {
    let (y, x) = (id(0, 0), id(1, 0));
    let f = store(vec![vec![x], vec![y]], vec![vec![y], vec![x]], vec![vec![0], vec![0]]);
    assert_eq!(place_pixels(x, &f), Err(TreeError::CorruptForestError));
}

#[test]
fn a_list_that_ends_at_the_descendant_is_laid_out() {
    let (c, a, b, r) = (id(1, 0), id(2, 0), id(2, 1), id(3, 0));
    let f = store(
        vec![vec![], vec![c], vec![a, c], vec![a]],
        vec![vec![], vec![c], vec![b, r], vec![r]],
        vec![vec![], vec![3], vec![1, 2], vec![0]],
    );
    let (pixels, props) = place_pixels(r, &f).unwrap();
    assert_eq!(pixels, vec![own(1, 0, 1, a), own(0, 1, 3, c), own(1, 1, 2, b), own(2, 0, 0, r)]);
    assert_eq!(props.n_cols, 2);
}

#[test]
fn a_tree_is_reordered_laid_out_and_built() {
    let (c, a, b, r) = (id(1, 0), id(2, 0), id(2, 1), id(3, 0));
    let mut f = two_branches();
    let image = tree_image(r, &mut f).unwrap();
    assert_eq!(
        image.image_props,
        ImageProps { first_snap: 1, last_snap: 3, n_rows: 3, n_cols: 2 }
    );
    assert_eq!(
        image.pixels,
        vec![own(0, 0, 3, c), own(1, 0, 2, b), own(1, 1, 1, a), own(2, 0, 0, r)]
    );
    assert_eq!(image.types, vec![vec![3, -1], vec![2, 1], vec![0, -1]]);
    assert_eq!(f.progenitor(r), b);
    assert_eq!(f.next_progenitor(b), a);
    assert_eq!(f.next_progenitor(a), b);
}

#[test]
fn a_corrupt_forest_gives_no_image() {
    let (z, p, a, r) = (id(0, 0), id(1, 0), id(1, 1), id(2, 0));
    let mut f = store(
        vec![vec![z], vec![p, a], vec![p]],
        vec![vec![z], vec![a, z], vec![r]],
        vec![vec![0], vec![0, 0], vec![0]],
    );
    assert_eq!(tree_image(r, &mut f), Err(TreeError::CorruptForestError));
}

#[test]
fn a_layout_with_two_cells_on_one_place_gives_no_image() {
    let (q, p, r) = (id(0, 0), id(2, 0), id(3, 0));
    let mut f = store(
        vec![vec![q], vec![], vec![p], vec![p]],
        vec![vec![p], vec![], vec![q], vec![r]],
        vec![vec![1], vec![], vec![2], vec![3]],
    );
    assert_eq!(tree_image(r, &mut f), Err(TreeError::ArrayShapeMismatch));
}
