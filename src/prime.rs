//! Clustering that keeps the points: each tile carries the indices of the
//! points that fell into it, and each cluster carries those of its tiles.

pub mod par;

use vstd::prelude::*;
use crate::tiles::{Tile, TileSet, tile_set, contains_tile, tiles_to_vec};
use crate::components::{significant_components, pairwise_disjoint};
use crate::cluster::cluster_sets;
use crate::projection::{significant, count_in};

verus! {

/// Tiles with the indices of the points that fell into them, in insertion
/// order of the tiles.
pub type TileMap = indexmap::IndexMap<Tile, Vec<usize>>;

#[verifier::external_type_specification]
#[verifier::external_body]
#[verifier::reject_recursive_types(K)]
#[verifier::reject_recursive_types(V)]
#[verifier::reject_recursive_types(S)]
pub struct ExIndexMap<K, V, S>(indexmap::IndexMap<K, V, S>);

/// The point indices that a map holds for each of its tiles.
pub uninterp spec fn tile_points(m: indexmap::IndexMap<(i32, i32), Vec<usize>>) -> Map<(i32, i32), Seq<usize>>;

/// Relies on `IndexMap::new`: a new map is empty.
#[verifier::external_body]
pub(crate) fn new_tile_map() -> (r: TileMap)
    ensures
        tile_points(r).dom() == Set::<Tile>::empty(),
{
    indexmap::IndexMap::new()
}

/// Relies on `IndexMap::insert`: `t` maps to `v` afterwards.
#[verifier::external_body]
pub(crate) fn insert_points(m: &mut TileMap, t: Tile, v: Vec<usize>)
    ensures
        tile_points(*final(m)) == tile_points(*old(m)).insert(t, v@),
{
    m.insert(t, v);
}

/// Relies on `IndexMap::swap_remove`: takes the indices of `t` out of the
/// map, if it holds them.
#[verifier::external_body]
pub(crate) fn take_points(m: &mut TileMap, t: Tile) -> (r: Option<Vec<usize>>)
    ensures
        tile_points(*final(m)) == tile_points(*old(m)).remove(t),
        match r {
            Some(v) => tile_points(*old(m)).contains_key(t) && v@ == tile_points(*old(m))[t],
            None => !tile_points(*old(m)).contains_key(t),
        },
{
    m.swap_remove(&t)
}

/// `i` joins the indices of `t`, which start out empty.
pub(crate) fn push_point(m: &mut TileMap, t: Tile, i: usize)
    ensures
        tile_points(*final(m)) == tile_points(*old(m)).insert(t, (if tile_points(*old(m)).contains_key(t) {
            tile_points(*old(m))[t]
        } else {
            Seq::empty()
        }).push(i)),
{
    let ghost m0 = tile_points(*m);
    let mut points = match take_points(m, t) {
        Some(v) => v,
        None => Vec::new(),
    };
    points.push(i);
    insert_points(m, t, points);
    proof {
        assert(tile_points(*m) =~= m0.insert(t, (if m0.contains_key(t) { m0[t] } else { Seq::empty() }).push(i)));
    }
}

/// Relies on `IndexMap::keys`: the tiles of the map.
#[verifier::external_body]
pub(crate) fn map_keys(m: &TileMap) -> (r: TileSet)
    ensures
        tile_set(r) == tile_points(*m).dom(),
{
    m.keys().cloned().collect()
}

/// The indices of the points of `s` that fell into `t`, in order.
pub open spec fn points_in(s: Seq<Tile>, t: Tile) -> Seq<usize>
    decreases s.len(),
{
    if s.len() == 0 {
        Seq::empty()
    } else if s.last() == t {
        points_in(s.drop_last(), t).push((s.len() - 1) as usize)
    } else {
        points_in(s.drop_last(), t)
    }
}

proof fn lemma_points_count(s: Seq<Tile>, t: Tile)
    ensures
        points_in(s, t).len() == count_in(s, t),
    decreases s.len(),
{
    if s.len() > 0 {
        lemma_points_count(s.drop_last(), t);
    }
}

/// Groups the indices of the points, given as the tiles they fell into, by
/// tile, for the tiles of `kept`.
pub(crate) fn group_points(tiles: &Vec<Tile>, kept: &TileSet) -> (r: TileMap)
    ensures
        forall|t: Tile| #[trigger] tile_points(r).contains_key(t) <==> tile_set(*kept).contains(t) && count_in(tiles@, t) > 0,
        forall|t: Tile| #[trigger] tile_points(r).contains_key(t) ==> tile_points(r)[t] == points_in(tiles@, t),
{
    let mut tile_map = new_tile_map();
    let mut i: usize = 0;
    while i < tiles.len()
        invariant
            i <= tiles@.len(),
            forall|t: Tile| #[trigger] tile_points(tile_map).contains_key(t) <==> tile_set(*kept).contains(t) && count_in(tiles@.subrange(0, i as int), t) > 0,
            forall|t: Tile| #[trigger] tile_points(tile_map).contains_key(t) ==> tile_points(tile_map)[t] == points_in(tiles@.subrange(0, i as int), t),
        decreases tiles@.len() - i,
    {
        let p = tiles[i];
        let ghost pre = tiles@.subrange(0, i as int);
        let ghost post = tiles@.subrange(0, i + 1);
        proof {
            assert(post.drop_last() =~= pre);
            assert(post.last() == p);
        }
        if contains_tile(kept, p) {
            push_point(&mut tile_map, p, i);
            proof {
                assert forall|t: Tile| #[trigger] tile_points(tile_map).contains_key(t) implies tile_points(tile_map)[t] == points_in(post, t) by {
                    if t == p {
                        lemma_points_count(pre, t);
                        if !tile_set(*kept).contains(t) || count_in(pre, t) == 0 {
                            assert(points_in(pre, t) =~= Seq::<usize>::empty());
                        }
                    }
                }
            }
        }
        proof {
            assert forall|t: Tile| #[trigger] tile_points(tile_map).contains_key(t) <==> tile_set(*kept).contains(t) && count_in(post, t) > 0 by {
                assert(count_in(post, t) == count_in(pre, t) + if post.last() == t { 1nat } else { 0nat });
            }
        }
        i += 1;
    }
    proof {
        assert(tiles@.subrange(0, tiles@.len() as int) =~= tiles@);
    }
    tile_map
}

/// Projects points, given as the tiles they fell into, onto the significant
/// tiles, each with the indices of its points in order.
pub fn map_to_tiles(tiles: &Vec<Tile>, threshold: usize) -> (r: TileMap)
    ensures
        tile_points(r).dom() == significant(tiles@, threshold as nat),
        forall|t: Tile| #[trigger] tile_points(r).contains_key(t) ==> tile_points(r)[t] == points_in(tiles@, t),
{
    let kept = crate::projection::map_to_tiles(tiles, threshold);
    let tile_map = group_points(tiles, &kept);
    proof {
        assert(tile_points(tile_map).dom() =~= significant(tiles@, threshold as nat));
    }
    tile_map
}

/// The tiles of each map of `ms`, in order.
pub open spec fn map_sets(ms: Seq<TileMap>) -> Seq<Set<Tile>> {
    ms.map_values(|m: TileMap| tile_points(m).dom())
}

/// Gives each cluster of `clusters` the point indices of its tiles, taking
/// them out of `source`.
pub(crate) fn attach_points(clusters: &Vec<TileSet>, source: &mut TileMap) -> (r: Vec<TileMap>)
    requires
        pairwise_disjoint(cluster_sets(clusters@)),
        forall|k: int| 0 <= k < clusters@.len() ==> tile_set(#[trigger] clusters@[k]).subset_of(tile_points(*old(source)).dom()),
    ensures
        map_sets(r@) == cluster_sets(clusters@),
        forall|k: int, t: Tile| 0 <= k < r@.len() && #[trigger] tile_points(r@[k]).contains_key(t) ==> tile_points(r@[k])[t] == tile_points(*old(source))[t],
{
    let ghost src = tile_points(*source);
    let mut out: Vec<TileMap> = Vec::new();
    let mut k: usize = 0;
    while k < clusters.len()
        invariant
            k <= clusters@.len(),
            out@.len() == k,
            pairwise_disjoint(cluster_sets(clusters@)),
            forall|j: int| 0 <= j < clusters@.len() ==> tile_set(#[trigger] clusters@[j]).subset_of(src.dom()),
            forall|j: int| 0 <= j < k ==> tile_points(#[trigger] out@[j]).dom() == tile_set(clusters@[j]),
            forall|j: int, t: Tile| 0 <= j < k && #[trigger] tile_points(out@[j]).contains_key(t) ==> tile_points(out@[j])[t] == src[t],
            forall|t: Tile| #[trigger] tile_points(*source).contains_key(t) ==> src.contains_key(t) && tile_points(*source)[t] == src[t],
            forall|j: int, t: Tile| k <= j < clusters@.len() && #[trigger] tile_set(clusters@[j]).contains(t) ==> tile_points(*source).contains_key(t),
        decreases clusters@.len() - k,
    {
        let members = tiles_to_vec(&clusters[k]);
        let mut cluster = new_tile_map();
        let mut i: usize = 0;
        proof {
            assert(cluster_sets(clusters@)[k as int] == tile_set(clusters@[k as int]));
            assert forall|m: int| 0 <= m < members@.len() implies tile_points(*source).contains_key(#[trigger] members@[m]) by {
                assert(members@.contains(members@[m]));
                assert(members@.to_set().contains(members@[m]));
                assert(tile_set(clusters@[k as int]).contains(members@[m]));
            }
            assert(members@.subrange(0, 0).to_set() =~= Set::<Tile>::empty());
        }
        while i < members.len()
            invariant
                k < clusters@.len(),
                i <= members@.len(),
                members@.to_set() == tile_set(clusters@[k as int]),
                members@.no_duplicates(),
                tile_points(cluster).dom() == members@.subrange(0, i as int).to_set(),
                forall|t: Tile| #[trigger] tile_points(cluster).contains_key(t) ==> tile_points(cluster)[t] == src[t],
                forall|t: Tile| #[trigger] tile_points(*source).contains_key(t) ==> src.contains_key(t) && tile_points(*source)[t] == src[t],
                forall|m: int| i <= m < members@.len() ==> tile_points(*source).contains_key(#[trigger] members@[m]),
                forall|j: int, t: Tile| k < j < clusters@.len() && #[trigger] tile_set(clusters@[j]).contains(t) ==> tile_points(*source).contains_key(t),
                pairwise_disjoint(cluster_sets(clusters@)),
            decreases members@.len() - i,
        {
            let t = members[i];
            let ghost before = tile_points(*source);
            match take_points(source, t) {
                Some(v) => {
                    insert_points(&mut cluster, t, v);
                },
                None => {},
            }
            proof {
                let a = members@.subrange(0, i as int);
                let b = members@.subrange(0, i + 1);
                assert(b =~= a.push(t));
                assert forall|x: Tile| b.to_set().contains(x) <==> a.to_set().contains(x) || x == t by {
                    if b.contains(x) {
                        let q = choose|q: int| 0 <= q < b.len() && b[q] == x;
                        if q < a.len() {
                            assert(a[q] == x);
                        }
                    }
                    if a.contains(x) {
                        let q = choose|q: int| 0 <= q < a.len() && a[q] == x;
                        assert(b[q] == x);
                    }
                    if x == t {
                        assert(b[i as int] == x);
                    }
                }
                assert(tile_points(cluster).dom() =~= b.to_set());
                assert forall|m: int| i + 1 <= m < members@.len() implies tile_points(*source).contains_key(#[trigger] members@[m]) by {
                    assert(members@[m] != members@[i as int]);
                    assert(before.contains_key(members@[m]));
                }
                assert forall|j: int, x: Tile| k < j < clusters@.len() && #[trigger] tile_set(clusters@[j]).contains(x) implies tile_points(*source).contains_key(x) by {
                    assert(before.contains_key(x));
                    if x == t {
                        assert(members@.to_set().contains(t));
                        assert(cluster_sets(clusters@)[j] == tile_set(clusters@[j]));
                        assert(cluster_sets(clusters@)[k as int].disjoint(cluster_sets(clusters@)[j]));
                    }
                }
            }
            i += 1;
        }
        proof {
            assert(members@.subrange(0, members@.len() as int) =~= members@);
        }
        let ghost before_out = out@;
        out.push(cluster);
        proof {
            assert forall|j: int| 0 <= j < k + 1 implies tile_points(#[trigger] out@[j]).dom() == tile_set(clusters@[j]) by {
                if j < k {
                    assert(out@[j] == before_out[j]);
                }
            }
            assert forall|j: int, t: Tile| 0 <= j < k + 1 && #[trigger] tile_points(out@[j]).contains_key(t) implies tile_points(out@[j])[t] == src[t] by {
                if j < k {
                    assert(out@[j] == before_out[j]);
                }
            }
        }
        k += 1;
    }
    proof {
        assert(map_sets(out@) =~= cluster_sets(clusters@));
    }
    out
}

/// Clusters the tiles of `tiles` and keeps the clusters with at least
/// `min_cluster_size` tiles, each with the point indices of its tiles.
pub fn cluster_tiles(tiles: TileMap, min_cluster_size: usize) -> (r: Vec<TileMap>)
    requires
        tile_points(tiles).dom().finite(),
    ensures
        map_sets(r@).to_set() == significant_components(tile_points(tiles).dom(), min_cluster_size as nat),
        pairwise_disjoint(map_sets(r@)),
        forall|k: int, t: Tile| 0 <= k < r@.len() && #[trigger] tile_points(r@[k]).contains_key(t) ==> tile_points(r@[k])[t] == tile_points(tiles)[t],
{
    let keys = map_keys(&tiles);
    let clusters = crate::cluster::cluster_tiles(keys, min_cluster_size);
    let mut to_visit = tiles;
    proof {
        assert forall|k: int| 0 <= k < clusters@.len() implies tile_set(#[trigger] clusters@[k]).subset_of(tile_points(to_visit).dom()) by {
            assert(cluster_sets(clusters@).contains(cluster_sets(clusters@)[k]));
            assert(cluster_sets(clusters@).to_set().contains(cluster_sets(clusters@)[k]));
            assert(cluster_sets(clusters@)[k] == tile_set(clusters@[k]));
            assert(significant_components(tile_points(to_visit).dom(), min_cluster_size as nat).contains(tile_set(clusters@[k])));
        }
    }
    attach_points(&clusters, &mut to_visit)
}

} // verus!
