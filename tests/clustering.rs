use indexmap::IndexSet;
use raster::par::dual_clustering;
use raster::{cluster_tiles, map_to_tiles, par, pop_neighbors, Tile, TileSet};

fn set_of(tiles: &[Tile]) -> TileSet {
    tiles.iter().cloned().collect()
}

fn truncate(points: &[(f64, f64)], scalar: f64) -> Vec<Tile> {
    points.iter().map(|(x, y)| ((x * scalar) as i32, (y * scalar) as i32)).collect()
}

fn scaled_splits(min: i32, max: i32, scalar: f64, nr_slices: usize) -> Vec<i32> {
    par::split_lines(min, max, nr_slices).iter().map(|s| (*s as f64 * scalar) as i32).collect()
}

// A fixed pseudo-random point set: clusters of points around a few centres.
fn sample_points(n: usize, seed: u64, spread: f64) -> Vec<(f64, f64)> {
    let mut state = seed;
    let mut next = move || {
        state = state.wrapping_mul(6364136223846793005).wrapping_add(1442695040888963407);
        ((state >> 33) as f64) / ((1u64 << 31) as f64)
    };
    let mut points = Vec::new();
    for i in 0..n {
        let cx = -170.0 + 34.0 * ((i % 11) as f64);
        let cy = -80.0 + 16.0 * ((i % 7) as f64);
        points.push((cx + next() * spread, cy + next() * spread));
    }
    points
}

fn same_clusters(a: &Vec<TileSet>, b: &Vec<TileSet>) -> bool {
    a.len() == b.len() && a.iter().all(|c| b.iter().any(|d| d == c))
}

#[test]
fn test_mapping() {
    let points = vec![(1., 23.22), (1.05, 23.28)];
    let scalar = 10f64.powf(1.);
    assert_eq!(scalar, 10.);
    let truth: TileSet = [(10, 232)].iter().cloned().collect();
    assert_eq!(map_to_tiles(&truncate(&points, scalar), 2), truth);
}

#[test]
fn mapping_to_empty() {
    let points = vec![(1., 23.22), (1.05, 23.28)];
    let scalar = 10f64.powf(1.);
    let truth = IndexSet::new();
    assert_eq!(map_to_tiles(&truncate(&points, scalar), 3), truth);
}

#[test]
fn who_are_my_neighbors() {
    let tile = (2, 5);
    let mut tiles = set_of(&[(3, 5), (0, 5), (2, 4), (1, 4)]);
    let truth = vec![(3, 5), (2, 4), (1, 4)];
    let result = pop_neighbors(tile, &mut tiles);
    assert_eq!(result, truth);
}

#[test]
fn no_neighbors() {
    let tile = (2, 5);
    let mut tiles = IndexSet::new();
    let result = pop_neighbors(tile, &mut tiles);
    assert_eq!(result, Vec::new());
}

#[test]
fn clustering() {
    let input = set_of(&[(0, 0), (-1, 0), (-1, -1), (0, -1), (5, 0), (5, 1), (5, 2)]);
    let output: Vec<TileSet> = vec![
        set_of(&[(0, 0), (-1, 0), (-1, -1), (0, -1)]),
        set_of(&[(5, 0), (5, 1), (5, 2)]),
    ];
    let res = cluster_tiles(input, 1);
    assert_eq!(res.len(), output.len());
    for o in output {
        assert!(res.iter().any(|set| *set == o));
    }
}

#[test]
fn map_to_tile_slices2() {
    let points = vec![(-100., 23.22), (-1., 23.28), (50., 23.28), (100., 23.28)];
    let precision = 5.;
    let threshold = 1;
    let scalar = 10f64.powf(precision);
    let tiles_in = truncate(&points, scalar);
    let tiles = par::map_to_tiles(&tiles_in, threshold, 4);
    let tile_slices = par::split_vertically(tiles, &scaled_splits(-180, 180, scalar, 4));
    let tiles = map_to_tiles(&tiles_in, threshold);
    assert_eq!(tiles.len(), tile_slices.iter().map(|(_, x, _)| x.len()).sum::<usize>());
    let union = tile_slices.iter().fold(IndexSet::new(), |acc, (_, x, _)| &acc | x);
    assert_eq!(tiles, union);
}

#[test]
fn left_right_edge_case() {
    let slices = vec![
        (i32::MIN, set_of(&[(-2, 0)]), -2),
        (-1, set_of(&[(-1, 0), (0, 0), (0, -2)]), 0),
        (1, set_of(&[(1, 1), (2, 1), (1, -2)]), 2),
        (3, set_of(&[]), i32::MAX),
    ];
    let clusters2 = par::cluster_tiles(slices, 2);
    let regular_input = set_of(&[(-2, 0), (-1, 0), (0, 0), (0, -2), (1, 1), (2, 1), (1, -2)]);
    let clusters1 = cluster_tiles(regular_input, 2);
    assert_eq!(clusters1.len(), clusters2.len());
    for c in clusters2 {
        assert!(clusters1.iter().any(|set| *set == c));
    }
}

#[test]
fn join_right_to_left_n_right_to_right() {
    let left: Vec<TileSet> = vec![];
    let left_right: Vec<TileSet> = vec![set_of(&[(-2, 1), (-1, 1)])];
    let right: Vec<TileSet> = vec![set_of(&[(0, 0)]), set_of(&[(0, 2)])];
    let (lr, rlrr) = par::join_clusters(left, right, left_right, 2);
    let long_cluster = set_of(&[(-2, 1), (-1, 1), (0, 0), (0, 2)]);
    assert_eq!(lr.len(), 0);
    assert_eq!(rlrr.len(), 1);
    assert_eq!(long_cluster.len(), rlrr[0].len());
    for o in rlrr[0].clone() {
        assert!(long_cluster.iter().any(|set| *set == o));
    }
}

#[test]
fn zip_the_clusters() {
    let xs: Vec<TileSet> = vec![
        vec![(-1, 4), (-1, 3)],
        vec![(-1, -1)],
        vec![(-1, -3)],
        vec![(-1, -5)],
    ]
    .into_iter()
    .map(|list| list.iter().cloned().collect())
    .collect();
    let ys: Vec<TileSet> = vec![
        vec![(0, 5), (0, 4)],
        vec![(0, 1), (1, 1), (1, 0), (1, -1)],
        vec![(0, -3), (0, -4), (0, -5)],
    ]
    .into_iter()
    .map(|list| list.iter().cloned().collect())
    .collect();
    let new_cluster = dual_clustering::join_clusters(xs, ys, 4);
    assert_eq!(new_cluster.len(), 3);
}

#[test]
fn zip_the_clusters2() {
    let xs: Vec<TileSet> = vec![
        vec![(-1, 2680001), (-1, 2680000)],
        vec![(-1, -5700000), (-1, -5700001)],
    ]
    .into_iter()
    .map(|list| list.iter().cloned().collect())
    .collect();
    let ys: Vec<TileSet> = vec![
        vec![(0, 2679998), (0, 2679999), (0, 2680000), (0, 2680001)],
        vec![(0, -5700000), (0, -5699999), (1, -5700000)],
        vec![(0, 5989997), (1, 5989998), (0, 5989999), (1, 5990000), (0, 5990001), (0, 5990000), (0, 5989998)],
        vec![(0, -5130000), (0, -5129999), (0, -5129998), (0, -5129997)],
        vec![(0, -4729999), (1, -4729998), (2, -4729997), (0, -4730000), (0, -4730001)],
        vec![(0, -999999), (0, -1000000), (0, -1000001), (0, -999998)],
        vec![(0, 7289999), (0, 7289998), (0, 7290000), (1, 7290001), (1, 7290002)],
        vec![(0, -1040000), (1, -1039999), (0, -1039998), (0, -1040001), (0, -1039999)],
        vec![(0, 7979999), (0, 7979998), (0, 7980000), (0, 7980001)],
        vec![(0, -2580000), (1, -2579999), (0, -2580001), (0, -2579999)],
        vec![(0, -6740000), (0, -6739999), (0, -6739998), (0, -6739997)],
        vec![(0, 4700000), (0, 4699999), (0, 4699998), (0, 4699997), (0, 4700001)],
        vec![(0, -3030000), (0, -3030001), (0, -3029999), (0, -3029998), (1, -3030000)],
        vec![(0, -3130000), (0, -3130001), (1, -3130000)],
        vec![(0, -2749998), (0, -2749999), (1, -2750000), (0, -2750001), (0, -2750000)],
        vec![(0, -6159999), (0, -6160000), (0, -6160001), (0, -6159998)],
        vec![(0, 3640000), (1, 3640001), (0, 3639999), (0, 3639998), (0, 3640001)],
    ]
    .into_iter()
    .map(|list| list.iter().cloned().collect())
    .collect();
    let new_cluster = dual_clustering::join_clusters(xs, ys, 4);
    assert_eq!(new_cluster.len(), 16);
}

// The next tests run on fixed pseudo-random point sets clustered around a
// grid of centres.

#[test]
fn par_eq_test() {
    let points = sample_points(2000, 7, 0.0002);
    let tiles_in = truncate(&points, 10f64.powf(4.));
    let tiles_seq = map_to_tiles(&tiles_in, 5);
    assert!(!tiles_seq.is_empty());
    let tiles_par: TileSet = par::map_to_tiles(&tiles_in, 5, 4).into_iter().collect();
    assert_eq!(tiles_seq, tiles_par);
}

#[test]
fn test_two_core_map_to_tiles_slices() {
    let points = sample_points(2000, 11, 0.00002);
    let tiles_in = truncate(&points, 10f64.powf(5.));
    let threshold = 5;
    let (left, right) = dual_clustering::map_to_tile_slices(&tiles_in, threshold, 4);
    let tiles = map_to_tiles(&tiles_in, threshold);
    assert!(!left.is_empty() && !right.is_empty());
    let intersect = &left & &right;
    assert_eq!(intersect, IndexSet::new());
    assert_eq!(tiles.len(), left.len() + right.len());
    let union = &left | &right;
    assert_eq!(tiles, union);
}

#[test]
fn test_n_core_map_to_tiles_slices() {
    let points = sample_points(2000, 13, 0.00005);
    let scalar = 10f64.powf(5.);
    let tiles_in = truncate(&points, scalar);
    let threshold = 1;
    let tiles = par::map_to_tiles(&tiles_in, threshold, 4);
    let tile_slices = par::split_vertically(tiles, &scaled_splits(-180, 180, scalar, 4));
    let tiles = map_to_tiles(&tiles_in, threshold);
    assert_eq!(tiles.len(), tile_slices.iter().map(|(_, x, _)| x.len()).sum::<usize>());
    let union = tile_slices.iter().fold(IndexSet::new(), |acc, (_, x, _)| &acc | x);
    assert_eq!(tiles, union);
}

#[test]
fn test_total_para_raster() {
    let points = sample_points(3000, 17, 0.0002);
    let scalar = 10f64.powf(4.);
    let tiles_in = truncate(&points, scalar);
    let (threshold, min_cluster_size, nr_cores) = (5, 4, 4);
    let tiles = par::map_to_tiles(&tiles_in, threshold, nr_cores);
    let slices = par::split_vertically(tiles, &scaled_splits(-180, 180, scalar, nr_cores));
    let clusters_par = par::cluster_tiles(slices, min_cluster_size);
    let clusters_seq = cluster_tiles(map_to_tiles(&tiles_in, threshold), min_cluster_size);
    assert!(!clusters_seq.is_empty());
    assert_eq!(clusters_par.len(), clusters_seq.len());
    for c in clusters_par {
        assert!(clusters_seq.iter().any(|set| *set == c));
    }
}

#[test]
fn test_total_duo_raster() {
    let points = sample_points(3000, 19, 0.0002);
    let tiles_in = truncate(&points, 10f64.powf(4.));
    let (threshold, min_cluster_size, nr_cores) = (5, 4, 4);
    let (left_tiles, right_tiles) = dual_clustering::map_to_tile_slices(&tiles_in, threshold, nr_cores);
    let clusters_par = dual_clustering::cluster_tiles(left_tiles, right_tiles, min_cluster_size);
    let clusters_seq = cluster_tiles(map_to_tiles(&tiles_in, threshold), min_cluster_size);
    assert!(!clusters_seq.is_empty());
    assert_eq!(clusters_par.len(), clusters_seq.len());
    for c in clusters_par {
        assert!(clusters_seq.iter().any(|set| *set == c));
    }
}

#[test]
fn parity_across_strip_counts() {
    let points = sample_points(4000, 23, 0.001);
    let scalar = 10f64.powf(3.5);
    let tiles_in = truncate(&points, scalar);
    let seq = cluster_tiles(map_to_tiles(&tiles_in, 2), 3);
    assert!(seq.len() >= 10);
    for k in [1usize, 2, 4, 8] {
        let tiles = par::map_to_tiles(&tiles_in, 2, k);
        let slices = par::split_vertically(tiles, &scaled_splits(-180, 180, scalar, k));
        let clusters = par::cluster_tiles(slices, 3);
        assert!(same_clusters(&seq, &clusters));
    }
}
