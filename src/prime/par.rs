//! Strip by strip clustering that keeps the points.

use vstd::prelude::*;
use crate::tiles::{Tile, TileSet, tile_set, new_tile_set, insert_tile, tiles_to_vec};
use crate::components::{significant_components, pairwise_disjoint};
use crate::cluster::cluster_sets;
use crate::projection::{significant, count_in};
use crate::par::{Strip, in_strip, strip_left, strip_right, valid_splits, split_of, chained_strips, tiles_from, lemma_split_partition};
use crate::prime::{TileMap, tile_points, points_in, map_sets, new_tile_map, insert_points, take_points, map_keys, group_points, attach_points};

verus! {

/// A strip whose tiles carry the indices of their points.
pub type PointStrip = (i32, TileMap, i32);

/// Projects points, given as the tiles they fell into, onto the significant
/// tiles as the workers of the parallel projection do (batches of
/// `len / nr_threads` points, counts summed per tile), each tile with the
/// indices of its points in order.
pub fn map_to_tiles(tiles: &Vec<Tile>, threshold: usize, nr_threads: usize) -> (r: TileMap)
    requires
        1 <= nr_threads <= tiles@.len(),
    ensures
        tile_points(r).dom() == significant(tiles@, threshold as nat),
        forall|t: Tile| #[trigger] tile_points(r).contains_key(t) ==> tile_points(r)[t] == points_in(tiles@, t),
{
    let kept_tiles = crate::par::map_to_tiles(tiles, threshold, nr_threads);
    let mut kept = new_tile_set();
    let mut i: usize = 0;
    while i < kept_tiles.len()
        invariant
            i <= kept_tiles@.len(),
            tile_set(kept) == kept_tiles@.subrange(0, i as int).to_set(),
        decreases kept_tiles@.len() - i,
    {
        insert_tile(&mut kept, kept_tiles[i]);
        proof {
            let a = kept_tiles@.subrange(0, i as int);
            let b = kept_tiles@.subrange(0, i + 1);
            assert forall|x: Tile| b.to_set().contains(x) <==> a.to_set().contains(x) || x == kept_tiles@[i as int] by {
                if b.contains(x) {
                    let q = choose|q: int| 0 <= q < b.len() && b[q] == x;
                    if q < a.len() {
                        assert(a[q] == x);
                    }
                }
                if a.contains(x) {
                    let q = choose|q: int| 0 <= q < a.len() && a[q] == x;
                    assert(b[q] == x);
                }
                if x == kept_tiles@[i as int] {
                    assert(b[i as int] == x);
                }
            }
            assert(tile_set(kept) =~= b.to_set());
        }
        i += 1;
    }
    proof {
        assert(kept_tiles@.subrange(0, kept_tiles@.len() as int) =~= kept_tiles@);
    }
    let tile_map = group_points(tiles, &kept);
    proof {
        assert(tile_points(tile_map).dom() =~= significant(tiles@, threshold as nat));
    }
    tile_map
}

/// Distributes the tiles of `tiles`, with their points, over the strips that
/// the split lines cut, as the plain splitter does.
pub fn split_vertically(tiles: TileMap, splits: &Vec<i32>) -> (r: Vec<PointStrip>)
    requires
        valid_splits(splits@),
    ensures
        r@.len() == splits@.len() + 1,
        forall|i: int| 0 <= i < r@.len() ==> (#[trigger] r@[i]).0 == strip_left(splits@, i) && r@[i].2 == strip_right(splits@, i)
            && tile_points(r@[i].1).dom() == tile_points(tiles).dom().filter(|t: Tile| in_strip(splits@, i, t)),
        forall|i: int, t: Tile| 0 <= i < r@.len() && #[trigger] tile_points(r@[i].1).contains_key(t) ==> tile_points(r@[i].1)[t] == tile_points(tiles)[t],
{
    let ghost src = tile_points(tiles);
    let keys = map_keys(&tiles);
    let key_list = tiles_to_vec(&keys);
    let mut plain = crate::par::split_vertically(key_list, splits);
    let ghost st = plain@;
    proof {
        lemma_split_partition(st, key_list@, splits@);
    }
    let n = plain.len();
    let mut sets: Vec<TileSet> = Vec::new();
    let mut bounds: Vec<(i32, i32)> = Vec::new();
    let mut j: usize = 0;
    while plain.len() > 0
        invariant
            n == st.len(),
            j + plain@.len() == n,
            plain@ == st.subrange(j as int, n as int),
            sets@.len() == j,
            bounds@.len() == j,
            forall|k: int| 0 <= k < j ==> #[trigger] tile_set(sets@[k]) == tile_set(st[k].1) && bounds@[k] == (st[k].0, st[k].2),
        decreases plain@.len(),
    {
        let (l, s, r) = plain.remove(0);
        proof {
            assert(plain@ =~= st.subrange(j + 1, n as int));
        }
        sets.push(s);
        bounds.push((l, r));
        j += 1;
    }
    let mut source = tiles;
    proof {
        assert forall|p: int, q: int| 0 <= p < sets@.len() && 0 <= q < sets@.len() && p != q implies (#[trigger] cluster_sets(sets@)[p]).disjoint(#[trigger] cluster_sets(sets@)[q]) by {
            assert(cluster_sets(sets@)[p] == tile_set(st[p].1));
            assert(cluster_sets(sets@)[q] == tile_set(st[q].1));
        }
        assert forall|k: int| 0 <= k < sets@.len() implies tile_set(#[trigger] sets@[k]).subset_of(tile_points(source).dom()) by {
            assert forall|t: Tile| tile_set(sets@[k]).contains(t) implies tile_points(source).dom().contains(t) by {
                assert(key_list@.to_set().contains(t));
            }
        }
    }
    let mut maps = attach_points(&sets, &mut source);
    let mut out: Vec<PointStrip> = Vec::new();
    let mut k: usize = 0;
    let ghost ms = maps@;
    proof {
        assert(sets@.len() == n);
        assert(map_sets(ms).len() == ms.len());
        assert(cluster_sets(sets@).len() == sets@.len());
        assert(maps@ =~= ms.subrange(0, n as int));
    }
    while maps.len() > 0
        invariant
            n == st.len(),
            n == splits@.len() + 1,
            ms.len() == n,
            bounds@.len() == n,
            k + maps@.len() == n,
            maps@ == ms.subrange(k as int, n as int),
            out@.len() == k,
            map_sets(ms) == cluster_sets(sets@),
            forall|q: int| 0 <= q < n ==> #[trigger] tile_set(sets@[q]) == tile_set(st[q].1) && bounds@[q] == (st[q].0, st[q].2),
            forall|q: int| 0 <= q < k ==> (#[trigger] out@[q]).1 == ms[q] && out@[q].0 == bounds@[q].0 && out@[q].2 == bounds@[q].1,
        decreases maps@.len(),
    {
        let m = maps.remove(0);
        proof {
            assert(maps@ =~= ms.subrange(k + 1, n as int));
        }
        let (l, r) = bounds[k];
        out.push((l, m, r));
        k += 1;
    }
    proof {
        assert forall|i: int| 0 <= i < out@.len() implies (#[trigger] out@[i]).0 == strip_left(splits@, i) && out@[i].2 == strip_right(splits@, i)
            && tile_points(out@[i].1).dom() == src.dom().filter(|t: Tile| in_strip(splits@, i, t)) by {
            assert(map_sets(ms)[i] == cluster_sets(sets@)[i]);
            assert(tile_points(ms[i]).dom() == tile_set(st[i].1));
            assert forall|t: Tile| tile_set(st[i].1).contains(t) <==> src.dom().filter(|t: Tile| in_strip(splits@, i, t)).contains(t) by {
                assert(key_list@.to_set().contains(t) <==> src.dom().contains(t));
            }
            assert(tile_points(out@[i].1).dom() =~= src.dom().filter(|t: Tile| in_strip(splits@, i, t)));
        }
    }
    out
}

/// Point strips side by side from `i32::MIN` to `i32::MAX`, each tile within
/// its strip's columns and none in the outermost two columns of the plane;
/// a strip may be left without a column where two split lines coincide.
pub open spec fn well_formed_point_strips(st: Seq<PointStrip>) -> bool {
    &&& st.len() >= 1
    &&& st[0].0 == i32::MIN
    &&& st[st.len() - 1].2 == i32::MAX
    &&& forall|j: int| 0 <= j < st.len() ==> (#[trigger] st[j]).0 <= st[j].2 + 1 && tile_points(st[j].1).dom().finite()
    &&& forall|j: int| 0 <= j < st.len() - 1 ==> #[trigger] st[j + 1].0 == st[j].2 + 1
    &&& forall|j: int, t: Tile| 0 <= j < st.len() && #[trigger] tile_points(st[j].1).contains_key(t)
        ==> st[j].0 <= t.0 <= st[j].2 && i32::MIN < t.0 < i32::MAX
}

/// The tiles of all the point strips.
pub open spec fn point_tiles(st: Seq<PointStrip>) -> Set<Tile> {
    Set::new(|t: Tile| exists|j: int| 0 <= j < st.len() && #[trigger] tile_points(st[j].1).contains_key(t))
}

/// Clusters point strips as the plain strips are clustered. Returns the
/// components of all the tiles with at least `min_cluster_size` tiles, each
/// with the point indices of its tiles.
pub fn cluster_tiles(slices: Vec<PointStrip>, min_cluster_size: usize) -> (r: Vec<TileMap>)
    requires
        well_formed_point_strips(slices@),
    ensures
        map_sets(r@).to_set() == significant_components(point_tiles(slices@), min_cluster_size as nat),
        pairwise_disjoint(map_sets(r@)),
        forall|k: int, t: Tile| 0 <= k < r@.len() && #[trigger] tile_points(r@[k]).contains_key(t)
            ==> exists|j: int| 0 <= j < slices@.len() && tile_points(slices@[j].1).contains_key(t) && tile_points(r@[k])[t] == tile_points(slices@[j].1)[t],
{
    let ghost st = slices@;
    let n = slices.len();
    let mut slices = slices;
    let mut merged = new_tile_map();
    let mut plain: Vec<Strip> = Vec::new();
    let mut j: usize = 0;
    while slices.len() > 0
        invariant
            well_formed_point_strips(st),
            n == st.len(),
            j + slices@.len() == n,
            slices@ == st.subrange(j as int, n as int),
            plain@.len() == j,
            forall|q: int| 0 <= q < j ==> (#[trigger] plain@[q]).0 == st[q].0 && plain@[q].2 == st[q].2 && tile_set(plain@[q].1) == tile_points(st[q].1).dom(),
            forall|t: Tile| #[trigger] tile_points(merged).contains_key(t) <==> exists|q: int| 0 <= q < j && tile_points(st[q].1).contains_key(t),
            forall|t: Tile| #[trigger] tile_points(merged).contains_key(t) ==> exists|q: int| 0 <= q < j && tile_points(st[q].1).contains_key(t) && tile_points(merged)[t] == tile_points(st[q].1)[t],
        decreases slices@.len(),
    {
        let (l, m, r) = slices.remove(0);
        proof {
            assert(slices@ =~= st.subrange(j + 1, n as int));
            assert(m == st[j as int].1);
        }
        let keys = map_keys(&m);
        let list = tiles_to_vec(&keys);
        let mut m = m;
        let ghost m0 = tile_points(m);
        let ghost mg0 = tile_points(merged);
        let mut i: usize = 0;
        while i < list.len()
            invariant
                well_formed_point_strips(st),
                j < n,
                n == st.len(),
                m0 == tile_points(st[j as int].1),
                i <= list@.len(),
                list@.to_set() == m0.dom(),
                list@.no_duplicates(),
                forall|q: int| i <= q < list@.len() ==> tile_points(m).contains_key(#[trigger] list@[q]),
                forall|t: Tile| #[trigger] tile_points(m).contains_key(t) ==> m0.contains_key(t) && tile_points(m)[t] == m0[t],
                forall|t: Tile| #[trigger] tile_points(merged).contains_key(t) <==> mg0.contains_key(t) || list@.subrange(0, i as int).contains(t),
                forall|t: Tile| #[trigger] tile_points(merged).contains_key(t) ==> (mg0.contains_key(t) && tile_points(merged)[t] == mg0[t]) || (m0.contains_key(t) && tile_points(merged)[t] == m0[t]),
            decreases list@.len() - i,
        {
            let t = list[i];
            let ghost before = tile_points(m);
            match take_points(&mut m, t) {
                Some(v) => {
                    insert_points(&mut merged, t, v);
                },
                None => {},
            }
            proof {
                let a = list@.subrange(0, i as int);
                let b = list@.subrange(0, i + 1);
                assert(b =~= a.push(t));
                assert forall|x: Tile| b.contains(x) <==> a.contains(x) || x == t by {
                    if b.contains(x) {
                        let q = choose|q: int| 0 <= q < b.len() && b[q] == x;
                        if q < a.len() {
                            assert(a[q] == x);
                        }
                    }
                    if a.contains(x) {
                        let q = choose|q: int| 0 <= q < a.len() && a[q] == x;
                        assert(b[q] == x);
                    }
                    if x == t {
                        assert(b[i as int] == x);
                    }
                }
                assert forall|q: int| i + 1 <= q < list@.len() implies tile_points(m).contains_key(#[trigger] list@[q]) by {
                    assert(list@[q] != list@[i as int]);
                    assert(before.contains_key(list@[q]));
                }
            }
            i += 1;
        }
        proof {
            assert(list@.subrange(0, list@.len() as int) =~= list@);
            assert forall|t: Tile| #[trigger] tile_points(merged).contains_key(t) <==> exists|q: int| 0 <= q < j + 1 && tile_points(st[q].1).contains_key(t) by {
                if list@.contains(t) {
                    assert(list@.to_set().contains(t));
                }
                if tile_points(st[j as int].1).contains_key(t) {
                    assert(list@.to_set().contains(t));
                }
            }
            assert forall|t: Tile| #[trigger] tile_points(merged).contains_key(t) implies exists|q: int| 0 <= q < j + 1 && tile_points(st[q].1).contains_key(t) && tile_points(merged)[t] == tile_points(st[q].1)[t] by {
                if mg0.contains_key(t) && tile_points(merged)[t] == mg0[t] {
                    let q = choose|q: int| 0 <= q < j && tile_points(st[q].1).contains_key(t) && mg0[t] == tile_points(st[q].1)[t];
                } else {
                    assert(tile_points(st[j as int].1).contains_key(t));
                }
            }
        }
        let ghost pb = plain@;
        plain.push((l, keys, r));
        proof {
            assert forall|q: int| 0 <= q < j + 1 implies (#[trigger] plain@[q]).0 == st[q].0 && plain@[q].2 == st[q].2 && tile_set(plain@[q].1) == tile_points(st[q].1).dom() by {
                if q < j {
                    assert(plain@[q] == pb[q]);
                }
            }
        }
        j += 1;
    }
    proof {
        let ps = plain@;
        assert forall|q: int| 0 <= q < ps.len() implies (#[trigger] ps[q]).0 <= ps[q].2 + 1 && tile_set(ps[q].1).finite() by {
            assert(st[q].0 <= st[q].2 + 1);
        }
        assert forall|q: int| 0 <= q < ps.len() - 1 implies #[trigger] ps[q + 1].0 == ps[q].2 + 1 by {
            assert(st[q + 1].0 == st[q].2 + 1);
        }
        assert forall|q: int, t: Tile| 0 <= q < ps.len() && #[trigger] tile_set(ps[q].1).contains(t) implies ps[q].0 <= t.0 <= ps[q].2 && i32::MIN < t.0 < i32::MAX by {
            assert(tile_points(st[q].1).contains_key(t));
        }
        assert(chained_strips(ps));
        assert forall|t: Tile| tiles_from(ps, 0).contains(t) <==> point_tiles(st).contains(t) by {
            if tiles_from(ps, 0).contains(t) {
                let q = choose|q: int| 0 <= q < ps.len() && tile_set(ps[q].1).contains(t);
                assert(tile_points(st[q].1).contains_key(t));
            }
            if point_tiles(st).contains(t) {
                let q = choose|q: int| 0 <= q < st.len() && tile_points(st[q].1).contains_key(t);
                assert(tile_set(ps[q].1).contains(t));
            }
        }
        assert(tiles_from(ps, 0) =~= point_tiles(st));
    }
    let clusters = crate::par::cluster_tiles(plain, min_cluster_size);
    proof {
        assert forall|k: int| 0 <= k < clusters@.len() implies tile_set(#[trigger] clusters@[k]).subset_of(tile_points(merged).dom()) by {
            assert(cluster_sets(clusters@).contains(cluster_sets(clusters@)[k]));
            assert(cluster_sets(clusters@).to_set().contains(cluster_sets(clusters@)[k]));
            assert(cluster_sets(clusters@)[k] == tile_set(clusters@[k]));
            assert forall|t: Tile| tile_set(clusters@[k]).contains(t) implies tile_points(merged).dom().contains(t) by {
                assert(point_tiles(st).contains(t));
            }
        }
    }
    let ghost mg = tile_points(merged);
    let r = attach_points(&clusters, &mut merged);
    proof {
        assert(map_sets(r@) == cluster_sets(clusters@));
        assert forall|k: int, t: Tile| 0 <= k < r@.len() && #[trigger] tile_points(r@[k]).contains_key(t)
            implies exists|j: int| 0 <= j < st.len() && tile_points(st[j].1).contains_key(t) && tile_points(r@[k])[t] == tile_points(st[j].1)[t] by {
            assert(map_sets(r@)[k] == tile_points(r@[k]).dom());
            assert(cluster_sets(clusters@)[k] == tile_set(clusters@[k]));
            assert(mg.contains_key(t));
        }
    }
    r
}

} // verus!
