use gen_tree_images::{build_raster, place_pixels, reorder_progenitors, HaloProps};

const FACTOR: u64 = 1_000_000_000_000;

fn id(snap: u64, ind: u64) -> u64 {
    snap * FACTOR + ind + 1
}

/// A forest of three trees over five snapshots; the halos of snapshot 4
/// are the final descendants.
fn read_halos() -> (Vec<u64>, HaloProps) {
    let progenitors: Vec<Vec<u64>> = vec![
        // snapshot 0: leaves
        vec![id(0, 0), id(0, 1), id(0, 2)],
        // snapshot 1
        vec![id(0, 0), id(1, 1), id(0, 2), id(1, 3)],
        // snapshot 2
        vec![id(1, 0), id(2, 1), id(1, 2)],
        // snapshot 3
        vec![id(2, 0), id(2, 2), id(3, 2)],
        // snapshot 4: the final descendants
        vec![id(3, 0), id(3, 1), id(4, 2)],
    ];
    let next_progenitors: Vec<Vec<u64>> = vec![
        vec![id(0, 1), id(0, 0), id(0, 2)],
        vec![id(1, 1), id(1, 0), id(1, 3), id(1, 2)],
        vec![id(2, 1), id(2, 0), id(2, 2)],
        vec![id(3, 2), id(3, 1), id(3, 0)],
        vec![id(4, 0), id(4, 1), id(4, 2)],
    ];
    let mut store = HaloProps::new(progenitors.len());
    for (p, n) in progenitors.into_iter().zip(next_progenitors) {
        let types = vec![0; p.len()];
        store.push_snapshot(p, n, types).unwrap();
    }
    assert!(store.is_well_formed());
    (vec![id(4, 0), id(4, 1), id(4, 2)], store)
}

#[test]
fn pixel_counts() {
    let (final_descendants, mut halo_props) = read_halos();
    for id in final_descendants.into_iter() {
        reorder_progenitors(id, 0, &mut halo_props).unwrap();
        let (pixels, image_props) = place_pixels(id, &halo_props).unwrap();
        let ones: Vec<usize> = vec![1; pixels.len()];
        let test_image =
            build_raster(image_props.n_rows, image_props.n_cols, &pixels, &ones, 0).unwrap();
        let sum: usize = test_image.iter().map(|row| row.iter().sum::<usize>()).sum();
        assert!(sum == pixels.len(), "ID = {id} failed sanity check!");
    }
}
