//! Clustering in two halves, split at column zero: the special case of two
//! strips, whose single border lies between columns -1 and 0.

use vstd::prelude::*;
use crate::tiles::{Tile, TileSet, tile_set, new_tile_set, insert_tile};
use crate::components::{significant_components, pairwise_disjoint};
use crate::cluster::cluster_sets;
use crate::projection::significant;
use crate::par::{Strip, well_formed_strips, tiles_from, border_pieces, joined_components};
use crate::par::join;
use crate::par::batches;

verus! {

/// Projects points, given as the tiles they fell into, onto the significant
/// tiles in batches of `len / nr_threads` points, and splits those at column
/// zero: the tiles left of it, then the others. The two halves share no
/// tile and together hold every significant tile.
pub fn map_to_tile_slices(tiles: &Vec<Tile>, threshold: usize, nr_threads: usize) -> (r: (TileSet, TileSet))
    requires
        1 <= nr_threads <= tiles@.len(),
    ensures
        tile_set(r.0).disjoint(tile_set(r.1)),
        tile_set(r.0).union(tile_set(r.1)) == significant(tiles@, threshold as nat),
        forall|t: Tile| #[trigger] tile_set(r.0).contains(t) ==> t.0 < 0,
        forall|t: Tile| #[trigger] tile_set(r.1).contains(t) ==> t.0 >= 0,
        tile_set(r.0).finite(),
        tile_set(r.1).finite(),
{
    let kept = batches::map_to_tiles(tiles, threshold, nr_threads);
    let mut tiles_left = new_tile_set();
    let mut tiles_right = new_tile_set();
    let mut i: usize = 0;
    while i < kept.len()
        invariant
            i <= kept@.len(),
            tile_set(tiles_left) == kept@.subrange(0, i as int).to_set().filter(|t: Tile| t.0 < 0),
            tile_set(tiles_right) == kept@.subrange(0, i as int).to_set().filter(|t: Tile| t.0 >= 0),
        decreases kept@.len() - i,
    {
        let t = kept[i];
        let ghost a = kept@.subrange(0, i as int);
        let ghost b = kept@.subrange(0, i + 1);
        if t.0 < 0 {
            insert_tile(&mut tiles_left, t);
        } else {
            insert_tile(&mut tiles_right, t);
        }
        proof {
            assert forall|x: Tile| b.contains(x) <==> a.contains(x) || x == t by {
                if b.contains(x) {
                    let k = choose|k: int| 0 <= k < b.len() && b[k] == x;
                    if k < a.len() {
                        assert(a[k] == x);
                    }
                }
                if a.contains(x) {
                    let k = choose|k: int| 0 <= k < a.len() && a[k] == x;
                    assert(b[k] == x);
                }
                if x == t {
                    assert(b[i as int] == x);
                }
            }
            assert(tile_set(tiles_left) =~= b.to_set().filter(|t: Tile| t.0 < 0));
            assert(tile_set(tiles_right) =~= b.to_set().filter(|t: Tile| t.0 >= 0));
        }
        i += 1;
    }
    proof {
        assert(kept@.subrange(0, kept@.len() as int) =~= kept@);
        assert(tile_set(tiles_left).union(tile_set(tiles_right)) =~= significant(tiles@, threshold as nat));
    }
    (tiles_left, tiles_right)
}

/// Joins the clusters that meet at column zero: those of `left_clusters`
/// lie left of it, those of `right_clusters` right of it. Returns the joined
/// clusters with at least `min_cluster_size` tiles.
pub fn join_clusters(left_clusters: Vec<TileSet>, right_clusters: Vec<TileSet>, min_cluster_size: usize) -> (r: Vec<TileSet>)
    requires
        border_pieces(left_clusters@, right_clusters@, Seq::empty()),
    ensures
        cluster_sets(r@).to_set() == joined_components(left_clusters@, right_clusters@, Seq::empty(), min_cluster_size as nat),
        pairwise_disjoint(cluster_sets(r@)),
{
    let none: Vec<TileSet> = Vec::new();
    proof {
        assert(none@ =~= Seq::<TileSet>::empty());
    }
    let (clusters, _) = join::join_clusters(left_clusters, right_clusters, none, min_cluster_size);
    clusters
}

/// Clusters tiles split at column zero: `left_tiles` lie left of it,
/// `right_tiles` right of it, none in the outermost columns of the plane.
/// Returns the components of all the tiles with at least
/// `min_cluster_size` tiles.
pub fn cluster_tiles(left_tiles: TileSet, right_tiles: TileSet, min_cluster_size: usize) -> (r: Vec<TileSet>)
    requires
        tile_set(left_tiles).finite(),
        tile_set(right_tiles).finite(),
        forall|t: Tile| #[trigger] tile_set(left_tiles).contains(t) ==> i32::MIN < t.0 < 0,
        forall|t: Tile| #[trigger] tile_set(right_tiles).contains(t) ==> 0 <= t.0 < i32::MAX,
    ensures
        cluster_sets(r@).to_set() == significant_components(tile_set(left_tiles).union(tile_set(right_tiles)), min_cluster_size as nat),
        pairwise_disjoint(cluster_sets(r@)),
{
    let ghost all = tile_set(left_tiles).union(tile_set(right_tiles));
    let mut slices: Vec<Strip> = Vec::new();
    slices.push((i32::MIN, left_tiles, -1));
    slices.push((0, right_tiles, i32::MAX));
    proof {
        let st = slices@;
        assert(well_formed_strips(st));
        assert forall|t: Tile| tiles_from(st, 0).contains(t) <==> all.contains(t) by {
            if all.contains(t) {
                if tile_set(st[0].1).contains(t) {
                } else {
                    assert(tile_set(st[1].1).contains(t));
                }
            }
        }
        assert(tiles_from(st, 0) =~= all);
    }
    crate::par::cluster_tiles(slices, min_cluster_size)
}

} // verus!
