use raster::par;
use raster::prime::{self, TileMap};
use raster::{Tile, TileSet};

fn keys(m: &TileMap) -> TileSet {
    m.keys().cloned().collect()
}

fn set_of(tiles: &[Tile]) -> TileSet {
    tiles.iter().cloned().collect()
}

#[test]
fn prime_projection_keeps_point_indices() {
    let tiles = vec![(1, 1), (2, 2), (1, 1), (3, 3), (1, 1), (2, 2)];
    let m = prime::map_to_tiles(&tiles, 2);
    assert_eq!(keys(&m), set_of(&[(1, 1), (2, 2)]));
    assert_eq!(m[&(1, 1)], vec![0, 2, 4]);
    assert_eq!(m[&(2, 2)], vec![1, 5]);
    let m = prime::map_to_tiles(&tiles, 4);
    assert!(m.is_empty());
}

#[test]
fn prime_clusters_carry_their_points() {
    let tiles = vec![(0, 0), (0, 0), (1, 1), (1, 1), (9, 9), (9, 9)];
    let m = prime::map_to_tiles(&tiles, 2);
    let clusters = prime::cluster_tiles(m, 2);
    assert_eq!(clusters.len(), 1);
    assert_eq!(keys(&clusters[0]), set_of(&[(0, 0), (1, 1)]));
    assert_eq!(clusters[0][&(0, 0)], vec![0, 1]);
    assert_eq!(clusters[0][&(1, 1)], vec![2, 3]);
}

#[test]
fn prime_batched_projection_matches() {
    let tiles = vec![(1, 1), (2, 2), (1, 1), (3, 3), (1, 1), (2, 2)];
    let a = prime::map_to_tiles(&tiles, 2);
    let b = prime::par::map_to_tiles(&tiles, 2, 3);
    assert_eq!(keys(&a), keys(&b));
    for (t, v) in a.iter() {
        assert_eq!(&b[t], v);
    }
}

#[test]
fn prime_strips_match_plain_clustering() {
    let tiles: Vec<Tile> = vec![(-3, 0), (-3, 0), (-2, 0), (-2, 0), (-1, 1), (-1, 1), (0, 1), (0, 1), (7, 7), (7, 7)];
    let m = prime::par::map_to_tiles(&tiles, 2, 2);
    let strips = prime::par::split_vertically(m, &vec![-1, 5]);
    assert_eq!(strips.len(), 3);
    assert_eq!(keys(&strips[0].1), set_of(&[(-3, 0), (-2, 0)]));
    assert_eq!(keys(&strips[1].1), set_of(&[(-1, 1), (0, 1)]));
    assert_eq!(keys(&strips[2].1), set_of(&[(7, 7)]));
    let clusters = prime::par::cluster_tiles(strips, 3);
    assert_eq!(clusters.len(), 1);
    assert_eq!(keys(&clusters[0]), set_of(&[(-3, 0), (-2, 0), (-1, 1), (0, 1)]));
    assert_eq!(clusters[0][&(-1, 1)], vec![4, 5]);
    let plain = par::cluster_tiles(par::split_vertically(tiles, &vec![-1, 5]), 3);
    assert_eq!(plain.len(), 1);
}
