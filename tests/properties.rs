use indexmap::IndexSet;
use raster::par::{self, dual_clustering};
use raster::{cluster_tiles, is_cluster_neighbors, is_neighbors, map_to_tiles, Raster, Tile, TileSet};

fn set_of(tiles: &[Tile]) -> TileSet {
    tiles.iter().cloned().collect()
}

#[test]
fn projection_keeps_only_dense_tiles() {
    let tiles = vec![(1, 1), (1, 1), (1, 1), (2, 2), (2, 2), (3, 3)];
    assert_eq!(map_to_tiles(&tiles, 2), set_of(&[(1, 1), (2, 2)]));
    assert_eq!(map_to_tiles(&tiles, 3), set_of(&[(1, 1)]));
    assert_eq!(map_to_tiles(&tiles, 1), set_of(&[(1, 1), (2, 2), (3, 3)]));
    assert_eq!(map_to_tiles(&vec![], 1), IndexSet::new());
}

#[test]
fn one_point_per_tile_above_threshold_one_gives_nothing() {
    let tiles = vec![(0, 0), (1, 0), (5, 5), (-3, 2)];
    let kept = map_to_tiles(&tiles, 2);
    assert!(kept.is_empty());
    assert!(cluster_tiles(kept, 1).is_empty());
}

#[test]
fn all_points_in_one_tile() {
    let tiles = vec![(4, 4); 10];
    let kept = map_to_tiles(&tiles, 5);
    assert_eq!(kept, set_of(&[(4, 4)]));
    let once = cluster_tiles(kept.clone(), 1);
    assert_eq!(once, vec![set_of(&[(4, 4)])]);
    assert!(cluster_tiles(kept, 2).is_empty());
}

#[test]
fn sequential_clusters_use_diagonals() {
    let input = set_of(&[(0, 0), (1, 1), (2, 2), (10, 10), (12, 10)]);
    let res = cluster_tiles(input, 1);
    assert_eq!(res.len(), 3);
    assert!(res.iter().any(|c| *c == set_of(&[(0, 0), (1, 1), (2, 2)])));
    assert!(res.iter().any(|c| *c == set_of(&[(10, 10)])));
    assert!(res.iter().any(|c| *c == set_of(&[(12, 10)])));
}

#[test]
fn neighbours_of_a_tile() {
    let tiles = set_of(&[(3, 3), (7, 7)]);
    assert!(is_neighbors((2, 2), &tiles));
    assert!(!is_neighbors((5, 5), &tiles));
    assert!(!is_neighbors((3, 3), &set_of(&[(3, 3)])));
    assert!(is_cluster_neighbors(&set_of(&[(0, 0), (5, 5)]), &set_of(&[(6, 6)])));
    assert!(!is_cluster_neighbors(&set_of(&[(0, 0)]), &set_of(&[(2, 0)])));
    assert!(!is_neighbors((i32::MAX, i32::MAX), &set_of(&[(i32::MIN, i32::MIN)])));
}

#[test]
fn slice_clusters_cover_the_strip() {
    let tiles = set_of(&[(0, 0), (1, 0), (3, 5), (5, 5), (4, 9), (3, 9), (4, 2)]);
    let (interior, (left, both, right)) = par::cluster_slice(tiles.clone(), 1, 0, 5);
    assert_eq!(both.len(), 0);
    assert_eq!(left, vec![set_of(&[(0, 0), (1, 0)])]);
    assert_eq!(right, vec![set_of(&[(5, 5)])]);
    assert_eq!(interior.len(), 3);
    let mut union = IndexSet::new();
    let mut count = 0;
    for c in interior.iter().chain(left.iter()).chain(right.iter()) {
        count += c.len();
        union = &union | c;
    }
    assert_eq!(count, tiles.len());
    assert_eq!(union, tiles);
}

#[test]
fn slice_keeps_small_edge_clusters() {
    let tiles = set_of(&[(0, 0), (2, 0), (3, 3), (0, 7), (1, 7), (2, 7)]);
    let (interior, (left, both, right)) = par::cluster_slice(tiles, 5, 0, 2);
    assert!(interior.is_empty());
    assert_eq!(left, vec![set_of(&[(0, 0)])]);
    assert_eq!(right, vec![set_of(&[(2, 0)])]);
    assert_eq!(both, vec![set_of(&[(0, 7), (1, 7), (2, 7)])]);
}

#[test]
fn split_lines_are_evenly_spaced() {
    assert_eq!(par::split_lines(-180, 180, 4), vec![-90, 0, 90]);
    assert_eq!(par::split_lines(-180, 180, 1), Vec::<i64>::new());
    assert_eq!(par::split_lines(-180, 180, 7), vec![-129, -78, -27, 24, 75, 126]);
    assert_eq!(par::split_lines(i32::MIN, i32::MAX, 2), vec![-1]);
}

#[test]
fn splitter_partitions_the_tiles() {
    let tiles = vec![(-5, 0), (-1, 3), (0, 0), (4, 4), (9, 1), (10, 10), (i32::MAX - 1, 0)];
    let strips = par::split_vertically(tiles.clone(), &vec![0, 10]);
    assert_eq!(strips.len(), 3);
    assert_eq!((strips[0].0, strips[0].2), (i32::MIN, -1));
    assert_eq!((strips[1].0, strips[1].2), (0, 9));
    assert_eq!((strips[2].0, strips[2].2), (10, i32::MAX));
    assert_eq!(strips[0].1, set_of(&[(-5, 0), (-1, 3)]));
    assert_eq!(strips[1].1, set_of(&[(0, 0), (4, 4), (9, 1)]));
    assert_eq!(strips[2].1, set_of(&[(10, 10), (i32::MAX - 1, 0)]));
    let one = par::split_vertically(tiles.clone(), &vec![]);
    assert_eq!(one.len(), 1);
    assert_eq!(one[0].1, tiles.iter().cloned().collect::<TileSet>());
}

#[test]
fn dual_split_partitions_by_sign() {
    let tiles = vec![(-1, 0), (-1, 0), (0, 0), (0, 0), (3, 1), (3, 1), (-7, 2)];
    let (left, right) = dual_clustering::map_to_tile_slices(&tiles, 2, 3);
    assert_eq!(left, set_of(&[(-1, 0)]));
    assert_eq!(right, set_of(&[(0, 0), (3, 1)]));
    assert!((&left & &right).is_empty());
    assert_eq!(&left | &right, map_to_tiles(&tiles, 2));
}

#[test]
fn batches_cover_the_points_in_order() {
    let tiles: Vec<Tile> = (0..10).map(|i| (i, -i)).collect();
    let batches = par::batch_data(&tiles, 3);
    assert_eq!(batches.len(), 4);
    assert_eq!(batches[0], vec![(0, 0), (1, -1), (2, -2)]);
    assert_eq!(batches[3], vec![(9, -9)]);
    assert_eq!(batches.concat(), tiles);
}

#[test]
fn counts_are_summed_over_batches() {
    let tiles = vec![(1, 1), (2, 2), (1, 1), (2, 2), (1, 1), (3, 3)];
    let kept: TileSet = par::map_to_tiles(&tiles, 3, 3).into_iter().collect();
    assert_eq!(kept, set_of(&[(1, 1)]));
    let kept: TileSet = par::map_to_tiles(&tiles, 2, 6).into_iter().collect();
    assert_eq!(kept, set_of(&[(1, 1), (2, 2)]));
}

#[test]
fn long_chain_across_all_borders_is_one_cluster() {
    let tiles: Vec<Tile> = (-30..30).map(|x| (x, 0)).collect();
    let strips = par::split_vertically(tiles.clone(), &vec![-20, -10, 0, 10, 20]);
    let clusters = par::cluster_tiles(strips, 4);
    assert_eq!(clusters.len(), 1);
    assert_eq!(clusters[0], tiles.iter().cloned().collect::<TileSet>());
}

#[test]
fn small_halves_joined_reach_min_size() {
    let tiles = vec![(-2, 0), (-1, 0), (0, 1), (1, 1)];
    let strips = par::split_vertically(tiles.clone(), &vec![0]);
    let clusters = par::cluster_tiles(strips, 4);
    assert_eq!(clusters, vec![tiles.iter().cloned().collect::<TileSet>()]);
    let strips = par::split_vertically(tiles, &vec![0]);
    assert!(par::cluster_tiles(strips, 5).is_empty());
}

#[test]
fn one_strip_matches_sequential() {
    let input = set_of(&[(0, 0), (-1, 0), (5, 5), (6, 6), (9, 0)]);
    let seq = cluster_tiles(input.clone(), 2);
    let strips = par::split_vertically(input.iter().cloned().collect(), &vec![]);
    let par_res = par::cluster_tiles(strips, 2);
    assert_eq!(seq.len(), 2);
    assert_eq!(par_res.len(), seq.len());
    for c in &par_res {
        assert!(seq.iter().any(|d| d == c));
    }
    assert!(par::cluster_tiles(vec![(i32::MIN, IndexSet::new(), i32::MAX)], 1).is_empty());
}

#[test]
fn chain_through_a_strip_touching_both_edges() {
    // a U shape: it leaves strip 1 to the right, comes back through strip 2
    let tiles = vec![(0, 0), (1, 0), (2, 0), (2, 1), (2, 2), (1, 2), (0, 2), (-1, 2), (-2, 2), (5, 5)];
    let strips = par::split_vertically(tiles.clone(), &vec![0, 2]);
    let clusters = par::cluster_tiles(strips, 2);
    assert_eq!(clusters.len(), 1);
    assert_eq!(clusters[0].len(), 9);
}

#[test]
fn join_emits_unjoined_left_clusters() {
    let left = vec![set_of(&[(-1, 0), (-1, 1)]), set_of(&[(-1, 9)])];
    let right = vec![set_of(&[(0, 20)])];
    let (joined, carried) = par::join_clusters(left, right, vec![], 1);
    assert!(carried.is_empty());
    assert_eq!(joined.len(), 3);
}

#[test]
fn variant_from_flags() {
    assert_eq!(Raster::from_flags(false, false), Raster::Sequential);
    assert_eq!(Raster::from_flags(false, true), Raster::SeqPrime);
    assert_eq!(Raster::from_flags(true, false), Raster::Par);
    assert_eq!(Raster::from_flags(true, true), Raster::ParPrime);
    assert!(Raster::ParPrime.is_par() && Raster::ParPrime.is_prime());
    assert!(!Raster::Sequential.is_par() && !Raster::Sequential.is_prime());
}

#[test]
fn strips_clustered_one_by_one_then_joined() {
    let tiles: Vec<Tile> = vec![(-3, 0), (-2, 1), (-1, 1), (0, 0), (1, 0), (2, 0), (8, 8), (9, 9), (-9, -9)];
    let strips = par::split_vertically(tiles.clone(), &vec![-1, 2]);
    let results: Vec<par::SliceClusters> = strips
        .into_iter()
        .map(|(left, set, right)| par::cluster_slice(set, 2, left, right))
        .collect();
    let joined = par::join_slices(results, 2);
    let seq = cluster_tiles(tiles.iter().cloned().collect(), 2);
    assert_eq!(seq.len(), 2);
    assert_eq!(joined.len(), seq.len());
    for c in &joined {
        assert!(seq.iter().any(|d| d == c));
    }
}

#[test]
fn one_worker_projection_matches_sequential() {
    let tiles = vec![(1, 1), (2, 2), (1, 1), (3, 3), (1, 1), (2, 2)];
    let kept: TileSet = par::map_to_tiles(&tiles, 2, 1).into_iter().collect();
    assert_eq!(kept, map_to_tiles(&tiles, 2));
}

#[test]
fn coinciding_split_lines_leave_empty_strips() {
    let tiles = vec![(-5, 0), (-1, 1), (0, 0), (3, 1), (4, 0), (5, 1), (9, 9)];
    let strips = par::split_vertically(tiles.clone(), &vec![0, 0, 5]);
    assert_eq!(strips.len(), 4);
    assert_eq!((strips[1].0, strips[1].2), (0, -1));
    assert!(strips[1].1.is_empty());
    assert_eq!(strips[0].1, set_of(&[(-5, 0), (-1, 1)]));
    assert_eq!(strips[2].1, set_of(&[(0, 0), (3, 1), (4, 0)]));
    assert_eq!(strips[3].1, set_of(&[(5, 1), (9, 9)]));
    let kept = par::drop_empty_strips(strips);
    assert_eq!(kept.len(), 3);
    assert_eq!((kept[1].0, kept[1].2), (0, 4));
    let strips = par::split_vertically(tiles.clone(), &vec![0, 0, 5]);
    let clusters = par::cluster_tiles(strips, 2);
    let seq = cluster_tiles(tiles.iter().cloned().collect(), 2);
    assert_eq!(clusters.len(), seq.len());
    for c in &clusters {
        assert!(seq.iter().any(|d| d == c));
    }
}

#[test]
fn many_strips_with_zero_step() {
    let lines = par::split_lines(-180, 180, 400);
    assert_eq!(lines.len(), 399);
    assert!(lines.iter().all(|l| *l == -180));
    let splits: Vec<i32> = lines.iter().map(|l| *l as i32 * 10).collect();
    let tiles: Vec<Tile> = vec![(-1801, 0), (-1800, 0), (-1799, 1), (0, 0), (1, 1)];
    let strips = par::split_vertically(tiles.clone(), &splits);
    assert_eq!(strips.len(), 400);
    assert_eq!(strips[0].1, set_of(&[(-1801, 0)]));
    assert_eq!(strips[399].1, set_of(&[(-1800, 0), (-1799, 1), (0, 0), (1, 1)]));
    let clusters = par::cluster_tiles(strips, 2);
    let seq = cluster_tiles(tiles.iter().cloned().collect(), 2);
    assert_eq!(clusters.len(), 2);
    for c in &clusters {
        assert!(seq.iter().any(|d| d == c));
    }
}
