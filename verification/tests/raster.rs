use gen_tree_images::{build_raster, fills_distinct_cells, type_raster, Pixel, TreeError};

fn cell(snap: usize, col: usize, typ: i8) -> Pixel {
    Pixel { snap, col, typ, upper: 1, lower: 1, rise: 0, span: 1 }
}

#[test]
fn cells_are_scattered_and_the_rest_is_filled() {
    let pixels = vec![cell(0, 0, 1), cell(2, 1, 0), cell(1, 2, 1)];
    let values: Vec<u32> = vec![10, 20, 30];
    assert_eq!(
        build_raster(3, 3, &pixels, &values, 0),
        Ok(vec![vec![10, 0, 0], vec![0, 0, 30], vec![0, 20, 0]])
    );
    assert_eq!(
        build_raster(3, 4, &pixels, &values, 9),
        Ok(vec![vec![10, 9, 9, 9], vec![9, 9, 30, 9], vec![9, 20, 9, 9]])
    );
}

#[test]
fn a_cell_may_hold_the_fill_value() {
    let pixels = vec![cell(0, 0, 1), cell(0, 1, 0)];
    let values: Vec<f32> = vec![0.0, 2.5];
    assert_eq!(build_raster(1, 2, &pixels, &values, 0.0), Ok(vec![vec![0.0, 2.5]]));
}

#[test]
fn no_cells_give_a_filled_raster() {
    let pixels: Vec<Pixel> = Vec::new();
    let values: Vec<i8> = Vec::new();
    assert_eq!(build_raster(2, 2, &pixels, &values, -1), Ok(vec![vec![-1, -1], vec![-1, -1]]));
    assert_eq!(build_raster(0, 5, &pixels, &values, -1), Ok(Vec::<Vec<i8>>::new()));
    assert_eq!(build_raster(2, 0, &pixels, &values, -1), Ok(vec![vec![], vec![]]));
}

#[test]
fn a_cell_outside_the_raster_is_refused() {
    let values: Vec<u32> = vec![1, 2];
    assert_eq!(
        build_raster(2, 2, &vec![cell(0, 0, 0), cell(2, 0, 0)], &values, 0),
        Err(TreeError::ArrayShapeMismatch)
    );
    assert_eq!(
        build_raster(2, 2, &vec![cell(0, 0, 0), cell(1, 2, 0)], &values, 0),
        Err(TreeError::ArrayShapeMismatch)
    );
    assert_eq!(
        build_raster(0, 0, &vec![cell(0, 0, 0), cell(1, 1, 0)], &values, 0),
        Err(TreeError::ArrayShapeMismatch)
    );
}

#[test]
fn values_must_match_the_cells() {
    let pixels = vec![cell(0, 0, 0), cell(1, 0, 0)];
    assert_eq!(
        build_raster(2, 2, &pixels, &vec![1u32], 0),
        Err(TreeError::ArrayShapeMismatch)
    );
    assert_eq!(
        build_raster(2, 2, &pixels, &vec![1u32, 2, 3], 0),
        Err(TreeError::ArrayShapeMismatch)
    );
}

#[test]
fn the_type_raster_marks_empty_places() {
    let pixels = vec![cell(0, 0, 1), cell(1, 1, 0), cell(1, 0, 1)];
    assert_eq!(type_raster(2, 2, &pixels), Ok(vec![vec![1, -1], vec![1, 0]]));
    assert_eq!(type_raster(1, 2, &pixels), Err(TreeError::ArrayShapeMismatch));
}

#[test]
fn two_cells_on_one_place_are_refused() {
    let pixels = vec![cell(0, 0, 0), cell(1, 1, 1), cell(0, 0, 1)];
    assert_eq!(
        build_raster(2, 2, &pixels, &vec![1u32, 2, 3], 0),
        Err(TreeError::ArrayShapeMismatch)
    );
    assert_eq!(type_raster(2, 2, &pixels), Err(TreeError::ArrayShapeMismatch));
}

#[test]
fn distinct_cells_are_told_from_shared_ones() {
    assert!(fills_distinct_cells(2, 2, &vec![cell(0, 0, 0), cell(0, 1, 0), cell(1, 0, 0)]));
    assert!(!fills_distinct_cells(2, 2, &vec![cell(0, 0, 0), cell(0, 1, 0), cell(0, 0, 1)]));
    assert!(!fills_distinct_cells(2, 2, &vec![cell(0, 0, 0), cell(2, 1, 0)]));
    assert!(!fills_distinct_cells(2, 2, &vec![cell(0, 2, 0)]));
    assert!(fills_distinct_cells(0, 0, &Vec::new()));
}

#[test]
fn as_many_places_are_filled_as_there_are_cells() {
    let pixels = vec![cell(0, 0, 0), cell(2, 1, 0), cell(1, 2, 0), cell(2, 2, 0)];
    assert!(fills_distinct_cells(3, 3, &pixels));
    let ones: Vec<usize> = vec![1; pixels.len()];
    let raster = build_raster(3, 3, &pixels, &ones, 0).unwrap();
    let filled: usize = raster.iter().map(|row| row.iter().sum::<usize>()).sum();
    assert_eq!(filled, pixels.len());
}
