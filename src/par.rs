//! Clustering strip by strip: the plane is cut into vertical strips, each
//! strip is clustered on its own, and the clusters that reach a border
//! between strips are joined across it.

mod join;
mod sweep;
mod batches;
pub mod dual_clustering;

pub use join::{join_clusters, union_of, are_pieces, pairwise_apart, border_pieces, border_tiles, joined_components, carried_components};
pub use sweep::{well_formed_strips, chained_strips, tiles_from};
pub use batches::{batch_data, merge_counts, map_to_tiles, batches_of, batch_size};

use vstd::prelude::*;
use crate::tiles::{
    Tile, TileSet, tile_set, adjacent, sets_touch, new_tile_set, insert_tile, pop_tile,
    tile_count, is_cluster_neighbors,
};
use crate::components::{
    connected, closed_in, is_component, pairwise_disjoint, significant_components, lemma_component_unique,
};
use crate::par::sweep::{
    strip_classes, strip_interior, interiors, interiors_upto, front_ok, emitted_ok, step_context,
    lemma_border_pieces, lemma_step_front, lemma_step_emitted, lemma_step_disjoint,
    lemma_sweep_start, lemma_sweep_end, lemma_tiles_from_split, lemma_strips_disjoint,
};
use crate::cluster::{cluster_sets, reaches_column, flood_fill};

verus! {

/// A strip: its left edge column, its tiles, its right edge column.
pub type Strip = (i32, TileSet, i32);

/// Split lines never decrease, and the first lies above `i32::MIN`. Equal
/// lines leave the strips between them without a column.
pub open spec fn valid_splits(splits: Seq<i32>) -> bool {
    &&& forall|i: int, j: int| 0 <= i <= j < splits.len() ==> splits[i] <= splits[j]
    &&& splits.len() > 0 ==> splits[0] > i32::MIN
}

/// The left edge of strip `i` for the given split lines.
pub open spec fn strip_left(splits: Seq<i32>, i: int) -> i32 {
    if i == 0 { i32::MIN } else { splits[i - 1] }
}

/// The right edge of strip `i` for the given split lines.
pub open spec fn strip_right(splits: Seq<i32>, i: int) -> i32 {
    if i == splits.len() { i32::MAX } else { (splits[i] - 1) as i32 }
}

/// The distance between two split lines: `(|min| + |max|) / k`, rounded
/// toward zero.
pub open spec fn split_step(min: i32, max: i32, k: int) -> int {
    ((if min < 0 { -min } else { min as int }) + (if max < 0 { -max } else { max as int })) / k
}

/// The split lines, before scaling, that cut `[min, max]` into `nr_slices`
/// strips: `min + i * step` for `i` in `1..nr_slices`, where `step` is
/// `(|min| + |max|) / nr_slices` rounded toward zero. None for fewer than two
/// strips.
pub fn split_lines(min: i32, max: i32, nr_slices: usize) -> (r: Vec<i64>)
    ensures
        nr_slices < 2 ==> r@.len() == 0,
        nr_slices >= 2 ==> r@.len() == nr_slices - 1,
        forall|i: int| 0 <= i < r@.len() ==> #[trigger] r@[i] == min + (i + 1) * split_step(
            min,
            max,
            nr_slices as int,
        ),
{
    let mut lines: Vec<i64> = Vec::new();
    if nr_slices < 2 {
        return lines;
    }
    let width: i128 = (if max < 0 { -(max as i128) } else { max as i128 }) + (if min < 0 { -(min as i128) } else { min as i128 });
    let step: i128 = width / (nr_slices as i128);
    assert(step == split_step(min, max, nr_slices as int));
    assert(0 <= (step as int) * (nr_slices as int) <= width as int) by (nonlinear_arith)
        requires step as int == (width as int) / (nr_slices as int), width >= 0, nr_slices >= 2;
    let mut i: usize = 1;
    while i < nr_slices
        invariant
            1 <= i <= nr_slices,
            0 <= width <= 0x1_0000_0000,
            0 <= step,
            (step as int) * (nr_slices as int) <= width as int,
            step == split_step(min, max, nr_slices as int),
            lines@.len() == i - 1,
            forall|j: int| 0 <= j < lines@.len() ==> #[trigger] lines@[j] == min + (j + 1) * step,
        decreases nr_slices - i,
    {
        assert(0 <= (i as int) * (step as int) <= (step as int) * (nr_slices as int)) by (nonlinear_arith)
            requires i < nr_slices, step >= 0;
        lines.push((min as i128 + i as i128 * step) as i64);
        i += 1;
    }
    lines
}

/// Tile `t` lies within the columns of strip `i`.
pub open spec fn in_strip(splits: Seq<i32>, i: int, t: Tile) -> bool {
    strip_left(splits, i) <= t.0 <= strip_right(splits, i)
}

/// `strip` is strip `j` of the split lines and holds the tiles of `tiles`
/// that lie within its columns.
spec fn strip_holds(strip: Strip, splits: Seq<i32>, j: int, tiles: Seq<Tile>) -> bool {
    &&& strip.0 == strip_left(splits, j)
    &&& strip.2 == strip_right(splits, j)
    &&& tile_set(strip.1).finite()
    &&& forall|t: Tile| tile_set(strip.1).contains(t) <==> tiles.contains(t) && in_strip(splits, j, t)
}

/// `strips` are the strips that `splits` cut, each holding the tiles of
/// `all` within its columns.
pub open spec fn split_of(strips: Seq<Strip>, all: Seq<Tile>, splits: Seq<i32>) -> bool {
    &&& strips.len() == splits.len() + 1
    &&& forall|i: int| 0 <= i < strips.len() ==> (#[trigger] strips[i]).0 == strip_left(splits, i)
        && strips[i].2 == strip_right(splits, i)
        && tile_set(strips[i].1).finite()
        && tile_set(strips[i].1) == all.to_set().filter(|t: Tile| in_strip(splits, i, t))
}

/// Distributes `all_tiles` over the strips that the split lines cut: strip
/// `i` runs from `splits[i - 1]` to `splits[i] - 1`, the first from
/// `i32::MIN` and the last to `i32::MAX`; a tile goes to the first strip
/// whose line lies above its column. Where lines coincide the strips between
/// them have no column and stay empty. With no split lines there is one
/// strip, which holds every tile.
pub fn split_vertically(all_tiles: Vec<Tile>, splits: &Vec<i32>) -> (r: Vec<Strip>)
    requires
        valid_splits(splits@),
    ensures
        split_of(r@, all_tiles@, splits@),
{
    let n = splits.len();
    let mut strips: Vec<Strip> = Vec::new();
    let mut i: usize = 0;
    while i < n
        invariant
            n == splits@.len(),
            i <= n,
            valid_splits(splits@),
            strips@.len() == i,
            forall|j: int| 0 <= j < i ==> (#[trigger] strips@[j]).0 == strip_left(splits@, j)
                && strips@[j].2 == strip_right(splits@, j)
                && tile_set(strips@[j].1) == Set::<Tile>::empty(),
        decreases n - i,
    {
        let left_bound = if i == 0 { i32::MIN } else { splits[i - 1] };
        strips.push((left_bound, new_tile_set(), splits[i] - 1));
        i += 1;
    }
    let left_bound = if n == 0 { i32::MIN } else { splits[n - 1] };
    strips.push((left_bound, new_tile_set(), i32::MAX));
    let mut k: usize = 0;
    while k < all_tiles.len()
        invariant
            n == splits@.len(),
            valid_splits(splits@),
            k <= all_tiles@.len(),
            strips@.len() == n + 1,
            forall|j: int| 0 <= j <= n ==> strip_holds(#[trigger] strips@[j], splits@, j, all_tiles@.subrange(0, k as int)),
        decreases all_tiles.len() - k,
    {
        let x = all_tiles[k];
        let mut i: usize = 0;
        while i < n && x.0 >= splits[i]
            invariant
                n == splits@.len(),
                i <= n,
                forall|j: int| 0 <= j < i ==> x.0 >= #[trigger] splits@[j],
            decreases n - i,
        {
            i += 1;
        }
        let ghost before = strips@;
        insert_tile(&mut strips[i].1, x);
        proof {
            let pre = all_tiles@.subrange(0, k as int);
            let post = all_tiles@.subrange(0, k + 1);
            assert(post =~= pre.push(x));
            assert(in_strip(splits@, i as int, x));
            assert forall|t: Tile| post.contains(t) <==> pre.contains(t) || t == x by {
                if post.contains(t) {
                    let m = choose|m: int| 0 <= m < post.len() && post[m] == t;
                    if m < pre.len() {
                        assert(pre[m] == t);
                    }
                }
                if pre.contains(t) {
                    let m = choose|m: int| 0 <= m < pre.len() && pre[m] == t;
                    assert(post[m] == t);
                }
                if t == x {
                    assert(post[k as int] == t);
                }
            }
            assert forall|j: int| 0 <= j <= n implies strip_holds(#[trigger] strips@[j], splits@, j, post) by {
                assert(strip_holds(before[j], splits@, j, pre));
                if j == i {
                    assert(tile_set(strips@[j].1) == tile_set(before[j].1).insert(x));
                    assert(strips@[j].0 == before[j].0);
                    assert(strips@[j].2 == before[j].2);
                    assert forall|t: Tile| tile_set(strips@[j].1).contains(t) <==> post.contains(t) && in_strip(splits@, j, t) by {
                        if t != x {
                            assert(tile_set(before[j].1).contains(t) <==> pre.contains(t) && in_strip(splits@, j, t));
                        }
                    }
                    assert(tile_set(strips@[j].1).finite());
                    assert(strips@[j].0 == strip_left(splits@, j));
                    assert(strips@[j].2 == strip_right(splits@, j));
                    assert(strip_holds(strips@[j], splits@, j, post));
                } else {
                    assert(strips@[j] == before[j]);
                    if in_strip(splits@, j, x) {
                        if j < i {
                            assert(x.0 >= splits@[j]);
                        } else {
                            assert(splits@[i as int] <= splits@[j - 1]);
                        }
                    }
                    assert forall|t: Tile| tile_set(strips@[j].1).contains(t) <==> post.contains(t) && in_strip(splits@, j, t) by {
                        assert(tile_set(before[j].1).contains(t) <==> pre.contains(t) && in_strip(splits@, j, t));
                    }
                    assert(tile_set(strips@[j].1).finite());
                    assert(strips@[j].0 == strip_left(splits@, j));
                    assert(strips@[j].2 == strip_right(splits@, j));
                    assert(strip_holds(strips@[j], splits@, j, post));
                }
            }
        }
        k += 1;
    }
    proof {
        assert(all_tiles@.subrange(0, all_tiles@.len() as int) =~= all_tiles@);
        assert forall|j: int| 0 <= j < strips@.len() implies tile_set((#[trigger] strips@[j]).1) == all_tiles@.to_set().filter(|t: Tile| in_strip(splits@, j, t)) by {
            assert(strip_holds(strips@[j], splits@, j, all_tiles@));
            let f = all_tiles@.to_set().filter(|t: Tile| in_strip(splits@, j, t));
            assert forall|t: Tile| tile_set(strips@[j].1).contains(t) == f.contains(t) by {
                assert(all_tiles@.to_set().contains(t) == all_tiles@.contains(t));
            }
            assert(tile_set(strips@[j].1) =~= f);
        }
    }
    strips
}

proof fn lemma_strip_found(splits: Seq<i32>, t: Tile, i: int)
    requires
        valid_splits(splits),
        0 <= i <= splits.len(),
        i > 0 ==> splits[i - 1] <= t.0,
    ensures
        exists|j: int| 0 <= j <= splits.len() && #[trigger] in_strip(splits, j, t),
    decreases splits.len() - i,
{
    if i == splits.len() || t.0 < splits[i] {
        assert(in_strip(splits, i, t));
    } else {
        lemma_strip_found(splits, t, i + 1);
    }
}

/// The strips that the split lines cut hold every tile once: no tile lies in
/// two strips, and each lies in one.
pub proof fn lemma_strips_partition(splits: Seq<i32>, t: Tile)
    requires
        valid_splits(splits),
    ensures
        exists|i: int| 0 <= i <= splits.len() && #[trigger] in_strip(splits, i, t),
        forall|i: int, j: int|
            0 <= i <= splits.len() && 0 <= j <= splits.len() && #[trigger] in_strip(splits, i, t)
                && #[trigger] in_strip(splits, j, t) ==> i == j,
{
    let n = splits.len() as int;
    lemma_strip_found(splits, t, 0);
    assert forall|i: int, j: int|
        0 <= i <= n && 0 <= j <= n && #[trigger] in_strip(splits, i, t) && #[trigger] in_strip(splits, j, t) implies i == j by {
        if i < j {
            assert(splits[i] <= splits[j - 1]);
        } else if j < i {
            assert(splits[j] <= splits[i - 1]);
        }
    }
}

/// The components of `s` with the given edge contacts.
pub open spec fn edge_components(s: Set<Tile>, left: i32, right: i32, on_left: bool, on_right: bool) -> Set<Set<Tile>> {
    Set::new(|c: Set<Tile>| is_component(c, s) && reaches_column(c, left) == on_left
        && reaches_column(c, right) == on_right)
}

/// Every tile of `s` lies in some component of `s`.
pub open spec fn covered_by_components(s: Set<Tile>) -> bool {
    forall|t: Tile| s.contains(t) ==> exists|c: Set<Tile>| #[trigger] is_component(c, s) && c.contains(t)
}

/// Clusters the tiles of one strip whose edge columns are `left_edge` and
/// `right_edge`. Returns the clusters that reach neither edge and have at
/// least `min_cluster_size` tiles, then, whatever their size, those that
/// reach the left edge only, both edges, and the right edge only.
pub fn cluster_slice(tiles: TileSet, min_cluster_size: usize, left_edge: i32, right_edge: i32) -> (r: (
    Vec<TileSet>,
    (Vec<TileSet>, Vec<TileSet>, Vec<TileSet>),
))
    requires
        tile_set(tiles).finite(),
    ensures
        cluster_sets(r.0@).to_set() == edge_components(tile_set(tiles), left_edge, right_edge, false, false).filter(
            |c: Set<Tile>| c.len() >= min_cluster_size),
        cluster_sets(r.1.0@).to_set() == edge_components(tile_set(tiles), left_edge, right_edge, true, false),
        cluster_sets(r.1.1@).to_set() == edge_components(tile_set(tiles), left_edge, right_edge, true, true),
        cluster_sets(r.1.2@).to_set() == edge_components(tile_set(tiles), left_edge, right_edge, false, true),
        pairwise_disjoint(cluster_sets(r.0@)),
        pairwise_disjoint(cluster_sets(r.1.0@)),
        pairwise_disjoint(cluster_sets(r.1.1@)),
        pairwise_disjoint(cluster_sets(r.1.2@)),
        covered_by_components(tile_set(tiles)),
{
    let ghost all = tile_set(tiles);
    let mut to_visit = tiles;
    let mut clusters: Vec<TileSet> = Vec::new();
    let mut left_clusters: Vec<TileSet> = Vec::new();
    let mut right_clusters: Vec<TileSet> = Vec::new();
    let mut left_right_clusters: Vec<TileSet> = Vec::new();
    loop
        invariant
            all.finite(),
            tile_set(to_visit).subset_of(all),
            closed_in(all.difference(tile_set(to_visit)), all),
            forall|t: Tile| all.contains(t) && !tile_set(to_visit).contains(t) ==> exists|c: Set<Tile>| #[trigger] is_component(c, all) && c.contains(t) && c.disjoint(tile_set(to_visit)),
            slice_state(clusters@, all, tile_set(to_visit), left_edge, right_edge, false, false, min_cluster_size as nat),
            slice_state(left_clusters@, all, tile_set(to_visit), left_edge, right_edge, true, false, 0),
            slice_state(left_right_clusters@, all, tile_set(to_visit), left_edge, right_edge, true, true, 0),
            slice_state(right_clusters@, all, tile_set(to_visit), left_edge, right_edge, false, true, 0),
        ensures
            tile_set(to_visit) == Set::<Tile>::empty(),
            forall|t: Tile| all.contains(t) && !tile_set(to_visit).contains(t) ==> exists|c: Set<Tile>| #[trigger] is_component(c, all) && c.contains(t) && c.disjoint(tile_set(to_visit)),
            slice_state(clusters@, all, tile_set(to_visit), left_edge, right_edge, false, false, min_cluster_size as nat),
            slice_state(left_clusters@, all, tile_set(to_visit), left_edge, right_edge, true, false, 0),
            slice_state(left_right_clusters@, all, tile_set(to_visit), left_edge, right_edge, true, true, 0),
            slice_state(right_clusters@, all, tile_set(to_visit), left_edge, right_edge, false, true, 0),
        decreases tile_set(to_visit).len(),
    {
        let ghost w = tile_set(to_visit);
        let x = match pop_tile(&mut to_visit) {
            None => break,
            Some(x) => x,
        };
        let (cluster, is_left_edge_cluster, is_right_edge_cluster) = flood_fill(x, &mut to_visit, left_edge, right_edge);
        let ghost k = tile_set(cluster);
        let ghost wf = tile_set(to_visit);
        proof {
            lemma_new_component(all, w, wf, k, x);
            vstd::set_lib::lemma_len_subset(wf, w.remove(x));
            assert forall|t: Tile| all.contains(t) && !wf.contains(t) implies exists|c: Set<Tile>| #[trigger] is_component(c, all) && c.contains(t) && c.disjoint(wf) by {
                if k.contains(t) {
                    assert(is_component(k, all) && k.contains(t) && k.disjoint(wf));
                } else {
                    let c = choose|c: Set<Tile>| #[trigger] is_component(c, all) && c.contains(t) && c.disjoint(w);
                    assert(c.disjoint(wf));
                }
            }
        }
        if is_left_edge_cluster && is_right_edge_cluster {
            proof { lemma_slice_state_push(left_right_clusters@, cluster, all, w, wf, left_edge, right_edge, true, true, 0); }
            proof { lemma_slice_state_keep(clusters@, k, all, w, wf, left_edge, right_edge, false, false, min_cluster_size as nat); }
            proof { lemma_slice_state_keep(left_clusters@, k, all, w, wf, left_edge, right_edge, true, false, 0); }
            proof { lemma_slice_state_keep(right_clusters@, k, all, w, wf, left_edge, right_edge, false, true, 0); }
            left_right_clusters.push(cluster);
        } else if is_left_edge_cluster {
            proof { lemma_slice_state_push(left_clusters@, cluster, all, w, wf, left_edge, right_edge, true, false, 0); }
            proof { lemma_slice_state_keep(clusters@, k, all, w, wf, left_edge, right_edge, false, false, min_cluster_size as nat); }
            proof { lemma_slice_state_keep(left_right_clusters@, k, all, w, wf, left_edge, right_edge, true, true, 0); }
            proof { lemma_slice_state_keep(right_clusters@, k, all, w, wf, left_edge, right_edge, false, true, 0); }
            left_clusters.push(cluster);
        } else if is_right_edge_cluster {
            proof { lemma_slice_state_push(right_clusters@, cluster, all, w, wf, left_edge, right_edge, false, true, 0); }
            proof { lemma_slice_state_keep(clusters@, k, all, w, wf, left_edge, right_edge, false, false, min_cluster_size as nat); }
            proof { lemma_slice_state_keep(left_right_clusters@, k, all, w, wf, left_edge, right_edge, true, true, 0); }
            proof { lemma_slice_state_keep(left_clusters@, k, all, w, wf, left_edge, right_edge, true, false, 0); }
            right_clusters.push(cluster);
        } else {
            proof { lemma_slice_state_keep(left_clusters@, k, all, w, wf, left_edge, right_edge, true, false, 0); }
            proof { lemma_slice_state_keep(left_right_clusters@, k, all, w, wf, left_edge, right_edge, true, true, 0); }
            proof { lemma_slice_state_keep(right_clusters@, k, all, w, wf, left_edge, right_edge, false, true, 0); }
            if tile_count(&cluster) >= min_cluster_size {
                proof { lemma_slice_state_push(clusters@, cluster, all, w, wf, left_edge, right_edge, false, false, min_cluster_size as nat); }
                clusters.push(cluster);
            } else {
                proof { lemma_slice_state_keep(clusters@, k, all, w, wf, left_edge, right_edge, false, false, min_cluster_size as nat); }
            }
        }
    }
    proof {
        lemma_slice_state_done(clusters@, all, left_edge, right_edge, false, false, min_cluster_size as nat);
        lemma_slice_state_done(left_clusters@, all, left_edge, right_edge, true, false, 0);
        lemma_slice_state_done(left_right_clusters@, all, left_edge, right_edge, true, true, 0);
        lemma_slice_state_done(right_clusters@, all, left_edge, right_edge, false, true, 0);
        assert(edge_components(all, left_edge, right_edge, true, false).filter(|c: Set<Tile>| c.len() >= 0nat) =~= edge_components(all, left_edge, right_edge, true, false));
        assert(edge_components(all, left_edge, right_edge, true, true).filter(|c: Set<Tile>| c.len() >= 0nat) =~= edge_components(all, left_edge, right_edge, true, true));
        assert(edge_components(all, left_edge, right_edge, false, true).filter(|c: Set<Tile>| c.len() >= 0nat) =~= edge_components(all, left_edge, right_edge, false, true));
    }
    (clusters, (left_clusters, left_right_clusters, right_clusters))
}

/// `c` is among the clusters that clustering strip `s` returns: a
/// component that reaches neither edge and has at least `m` tiles, or one
/// that reaches an edge.
pub open spec fn slice_cluster(s: Set<Tile>, left: i32, right: i32, m: nat, c: Set<Tile>) -> bool {
    ||| edge_components(s, left, right, false, false).contains(c) && c.len() >= m
    ||| edge_components(s, left, right, true, false).contains(c)
    ||| edge_components(s, left, right, true, true).contains(c)
    ||| edge_components(s, left, right, false, true).contains(c)
}

/// With `min_cluster_size` at most one, the clusters of a strip's four
/// classes cover its tiles: every tile lies in one of them, and clusters
/// that differ share no tile.
pub proof fn lemma_slice_covers(s: Set<Tile>, left: i32, right: i32, m: nat)
    requires
        covered_by_components(s),
        m <= 1,
    ensures
        forall|t: Tile| s.contains(t) <==> exists|c: Set<Tile>| c.contains(t) && #[trigger] slice_cluster(s, left, right, m, c),
        forall|c: Set<Tile>, d: Set<Tile>| #[trigger] slice_cluster(s, left, right, m, c) && #[trigger] slice_cluster(s, left, right, m, d) && c != d ==> c.disjoint(d),
{
    assert forall|t: Tile| s.contains(t) <==> exists|c: Set<Tile>| c.contains(t) && #[trigger] slice_cluster(s, left, right, m, c) by {
        if s.contains(t) {
            let c = choose|c: Set<Tile>| #[trigger] is_component(c, s) && c.contains(t);
            assert(edge_components(s, left, right, reaches_column(c, left), reaches_column(c, right)).contains(c));
            assert(c.len() >= m);
            assert(slice_cluster(s, left, right, m, c));
        }
        if exists|c: Set<Tile>| c.contains(t) && #[trigger] slice_cluster(s, left, right, m, c) {
            let c = choose|c: Set<Tile>| c.contains(t) && #[trigger] slice_cluster(s, left, right, m, c);
            assert(is_component(c, s));
        }
    }
    assert forall|c: Set<Tile>, d: Set<Tile>| #[trigger] slice_cluster(s, left, right, m, c) && #[trigger] slice_cluster(s, left, right, m, d) && c != d implies c.disjoint(d) by {
        assert(is_component(c, s) && is_component(d, s));
        if !c.disjoint(d) {
            let t = choose|t: Tile| c.contains(t) && d.contains(t);
            lemma_component_unique(c, d, s, t);
        }
    }
}

/// The clusters found so far of one edge class: components of `all` off the
/// tiles still to visit, pairwise disjoint, and each component of the class
/// that has been visited among them.
spec fn slice_state(cs: Seq<TileSet>, all: Set<Tile>, rest: Set<Tile>, left: i32, right: i32, on_left: bool, on_right: bool, m: nat) -> bool {
    &&& forall|i: int| #![trigger cs[i]] 0 <= i < cs.len() ==> edge_components(all, left, right, on_left, on_right).contains(tile_set(cs[i]))
        && tile_set(cs[i]).len() >= m && tile_set(cs[i]).disjoint(rest)
    &&& pairwise_disjoint(cluster_sets(cs))
    &&& forall|c: Set<Tile>, t: Tile| #![trigger edge_components(all, left, right, on_left, on_right).contains(c), c.contains(t)]
        edge_components(all, left, right, on_left, on_right).contains(c) && c.len() >= m && c.contains(t) && !rest.contains(t)
            ==> cluster_sets(cs).contains(c)
}

/// The cluster grown from `x` out of the unvisited tiles `w` is a component.
proof fn lemma_new_component(all: Set<Tile>, w: Set<Tile>, wf: Set<Tile>, k: Set<Tile>, x: Tile)
    requires
        all.finite(),
        w.subset_of(all),
        w.contains(x),
        closed_in(all.difference(w), all),
        k.finite(),
        k.contains(x),
        connected(k),
        forall|t: Tile| #[trigger] k.contains(t) && t != x ==> w.remove(x).contains(t),
        wf == w.remove(x).difference(k),
        forall|a: Tile, b: Tile| k.contains(a) && wf.contains(b) ==> !#[trigger] adjacent(a, b),
    ensures
        is_component(k, all),
        k.subset_of(w),
        wf.subset_of(w.remove(x)),
        closed_in(all.difference(wf), all),
{
    let done0 = all.difference(w);
    assert(k.subset_of(all));
    assert(closed_in(k, all)) by {
        assert forall|a: Tile, b: Tile| k.contains(a) && all.contains(b) && !k.contains(b) implies !#[trigger] adjacent(a, b) by {
            if !wf.contains(b) {
                assert(done0.contains(b));
                assert(!done0.contains(a));
                assert(!adjacent(b, a));
            }
        }
    }
    vstd::set_lib::lemma_set_subset_finite(all, k);
    assert(k.len() > 0) by {
        assert(k.contains(x));
    }
    assert(closed_in(all.difference(wf), all)) by {
        assert forall|a: Tile, b: Tile| all.difference(wf).contains(a) && all.contains(b) && !all.difference(wf).contains(b) implies !#[trigger] adjacent(a, b) by {
            if !k.contains(a) {
                assert(done0.contains(a));
            }
        }
    }
}

proof fn lemma_slice_state_push(cs: Seq<TileSet>, c: TileSet, all: Set<Tile>, w: Set<Tile>, wf: Set<Tile>, left: i32, right: i32, on_left: bool, on_right: bool, m: nat)
    requires
        slice_state(cs, all, w, left, right, on_left, on_right, m),
        edge_components(all, left, right, on_left, on_right).contains(tile_set(c)),
        tile_set(c).len() >= m,
        tile_set(c).subset_of(w),
        wf.subset_of(w),
        wf.disjoint(tile_set(c)),
        forall|t: Tile| w.contains(t) && !wf.contains(t) ==> tile_set(c).contains(t),
    ensures
        slice_state(cs.push(c), all, wf, left, right, on_left, on_right, m),
{
    let k = tile_set(c);
    let n = cs.push(c);
    assert forall|i: int| 0 <= i < cs.len() implies #[trigger] n[i] == cs[i] by {}
    assert forall|i: int| 0 <= i < cs.len() implies tile_set(#[trigger] cs[i]).disjoint(k) by {}
    assert forall|i: int, j: int| 0 <= i < n.len() && 0 <= j < n.len() && i != j implies (#[trigger] cluster_sets(n)[i]).disjoint(#[trigger] cluster_sets(n)[j]) by {
        if i < cs.len() && j < cs.len() {
            assert(cluster_sets(cs)[i] == cluster_sets(n)[i]);
            assert(cluster_sets(cs)[j] == cluster_sets(n)[j]);
        }
    }
    let ec = edge_components(all, left, right, on_left, on_right);
    assert forall|d: Set<Tile>, t: Tile| #![trigger ec.contains(d), d.contains(t)]
        ec.contains(d) && d.len() >= m && d.contains(t) && !wf.contains(t) implies cluster_sets(n).contains(d) by {
        if k.contains(t) {
            lemma_component_unique(d, k, all, t);
            assert(cluster_sets(n)[cs.len() as int] == d);
        } else {
            assert(cluster_sets(cs).contains(d));
            let i = choose|i: int| 0 <= i < cluster_sets(cs).len() && cluster_sets(cs)[i] == d;
            assert(cluster_sets(n)[i] == d);
        }
    }
}

proof fn lemma_slice_state_keep(cs: Seq<TileSet>, k: Set<Tile>, all: Set<Tile>, w: Set<Tile>, wf: Set<Tile>, left: i32, right: i32, on_left: bool, on_right: bool, m: nat)
    requires
        slice_state(cs, all, w, left, right, on_left, on_right, m),
        is_component(k, all),
        !(edge_components(all, left, right, on_left, on_right).contains(k) && k.len() >= m),
        wf.subset_of(w),
        forall|t: Tile| w.contains(t) && !wf.contains(t) ==> k.contains(t),
    ensures
        slice_state(cs, all, wf, left, right, on_left, on_right, m),
{
    let ec = edge_components(all, left, right, on_left, on_right);
    assert forall|d: Set<Tile>, t: Tile| #![trigger ec.contains(d), d.contains(t)]
        ec.contains(d) && d.len() >= m && d.contains(t) && !wf.contains(t) implies cluster_sets(cs).contains(d) by {
        if k.contains(t) {
            lemma_component_unique(d, k, all, t);
        }
    }
}

proof fn lemma_slice_state_done(cs: Seq<TileSet>, all: Set<Tile>, left: i32, right: i32, on_left: bool, on_right: bool, m: nat)
    requires
        slice_state(cs, all, Set::<Tile>::empty(), left, right, on_left, on_right, m),
    ensures
        cluster_sets(cs).to_set() == edge_components(all, left, right, on_left, on_right).filter(|c: Set<Tile>| c.len() >= m),
        pairwise_disjoint(cluster_sets(cs)),
{
    let ec = edge_components(all, left, right, on_left, on_right);
    let sc = cluster_sets(cs);
    assert forall|c: Set<Tile>| sc.to_set().contains(c) <==> ec.filter(|c: Set<Tile>| c.len() >= m).contains(c) by {
        if sc.contains(c) {
            let i = choose|i: int| 0 <= i < sc.len() && sc[i] == c;
            assert(tile_set(cs[i]) == c);
        }
        if ec.contains(c) && c.len() >= m {
            let t = c.choose();
            assert(c.contains(t));
        }
    }
    assert(sc.to_set() =~= ec.filter(|c: Set<Tile>| c.len() >= m));
}

/// What clustering one strip returns: its clusters that reach neither edge
/// and are large enough, then those that reach the left edge only, both
/// edges, and the right edge only.
pub type SliceClusters = (Vec<TileSet>, (Vec<TileSet>, Vec<TileSet>, Vec<TileSet>));

/// `res` is what clustering strip `k` of `st` with `m` gives.
pub open spec fn slice_result(st: Seq<Strip>, k: int, res: SliceClusters, m: nat) -> bool {
    &&& cluster_sets(res.0@).to_set() == strip_interior(st, k).filter(|c: Set<Tile>| c.len() >= m)
    &&& pairwise_disjoint(cluster_sets(res.0@))
    &&& strip_classes(st, k, cluster_sets(res.1.0@), cluster_sets(res.1.1@), cluster_sets(res.1.2@))
}

/// `rs` is what clustering each of the strips `st`, two or more, gives.
pub open spec fn slices_clustered(st: Seq<Strip>, rs: Seq<SliceClusters>, m: nat) -> bool {
    &&& well_formed_strips(st)
    &&& st.len() >= 2
    &&& rs.len() == st.len()
    &&& forall|k: int| 0 <= k < st.len() ==> slice_result(st, k, #[trigger] rs[k], m)
}

/// Stitches the clusters of strips that were clustered one by one: the
/// interiors of all strips, then, border by border from right to left, the
/// clusters that reach a border joined across it. Whatever strips gave
/// `results`, returns the components of all their tiles with at least
/// `min_cluster_size` tiles.
pub fn join_slices(results: Vec<SliceClusters>, min_cluster_size: usize) -> (r: Vec<TileSet>)
    requires
        exists|st: Seq<Strip>| slices_clustered(st, results@, min_cluster_size as nat),
    ensures
        forall|st: Seq<Strip>| #[trigger] slices_clustered(st, results@, min_cluster_size as nat) ==>
            cluster_sets(r@).to_set() == significant_components(tiles_from(st, 0), min_cluster_size as nat)
            && pairwise_disjoint(cluster_sets(r@)),
{
    let ghost rs0 = results@;
    let ghost m = min_cluster_size as nat;
    let ghost st0 = choose|st: Seq<Strip>| slices_clustered(st, rs0, m);
    let n = results.len();
    let mut results = results;
    let mut clusters: Vec<TileSet> = Vec::new();
    let mut left_edges: Vec<Vec<TileSet>> = Vec::new();
    let mut left_right_edges: Vec<Vec<TileSet>> = Vec::new();
    let mut right_edges: Vec<Vec<TileSet>> = Vec::new();
    let mut j: usize = 0;
    proof {
        assert forall|st: Seq<Strip>| #[trigger] slices_clustered(st, rs0, m) implies cluster_sets(clusters@).to_set() == interiors_upto(st, 0, m) by {
            assert(cluster_sets(clusters@).to_set() =~= interiors_upto(st, 0, m));
        }
    }
    while results.len() > 0
        invariant
            slices_clustered(st0, rs0, m),
            m == min_cluster_size as nat,
            n == rs0.len(),
            j + results@.len() == n,
            results@ == rs0.subrange(j as int, n as int),
            left_edges@.len() == j,
            left_right_edges@.len() == j,
            right_edges@.len() == j,
            forall|k: int| 0 <= k < j ==> #[trigger] left_edges@[k] == rs0[k].1.0 && left_right_edges@[k] == rs0[k].1.1 && right_edges@[k] == rs0[k].1.2,
            forall|st: Seq<Strip>| #[trigger] slices_clustered(st, rs0, m) ==> cluster_sets(clusters@).to_set() == interiors_upto(st, j as int, m)
                && pairwise_disjoint(cluster_sets(clusters@)),
        decreases results@.len(),
    {
        let ghost before = results@;
        let res = results.remove(0);
        let ghost rj = res;
        let (mut interior, (l, both, r)) = res;
        proof {
            assert(before[0] == rs0[j as int]);
            assert(rj == rs0[j as int]);
            assert(l == rj.1.0 && both == rj.1.1 && r == rj.1.2 && interior == rj.0);
            assert(results@ =~= rs0.subrange(j + 1, n as int));
        }
        let ghost c0 = cluster_sets(clusters@);
        let ghost ci = cluster_sets(interior@);
        let ghost le = left_edges@;
        let ghost lre = left_right_edges@;
        let ghost re = right_edges@;
        clusters.append(&mut interior);
        left_edges.push(l);
        left_right_edges.push(both);
        right_edges.push(r);
        proof {
            assert(cluster_sets(clusters@) =~= c0 + ci);
            assert(left_edges@[j as int] == rs0[j as int].1.0);
            assert(left_right_edges@[j as int] == rs0[j as int].1.1);
            assert(right_edges@[j as int] == rs0[j as int].1.2);
            assert forall|k: int| 0 <= k <= j implies #[trigger] left_edges@[k] == rs0[k].1.0 && left_right_edges@[k] == rs0[k].1.1 && right_edges@[k] == rs0[k].1.2 by {
                if k < j {
                    assert(left_edges@[k] == le[k]);
                    assert(left_right_edges@[k] == lre[k]);
                    assert(right_edges@[k] == re[k]);
                }
            }
            assert forall|st: Seq<Strip>| #[trigger] slices_clustered(st, rs0, m) implies cluster_sets(clusters@).to_set() == interiors_upto(st, j + 1, m)
                && pairwise_disjoint(cluster_sets(clusters@)) by {
                assert(slice_result(st, j as int, rs0[j as int], m));
                lemma_interiors_grow(st, j as int, m, c0, ci);
            }
        }
        j += 1;
    }
    let ghost le0 = left_edges@;
    let ghost lre0 = left_right_edges@;
    let ghost re0 = right_edges@;
    proof {
        assert(j == n);
        assert forall|k: int| 0 <= k < n implies #[trigger] le0[k] == rs0[k].1.0 && lre0[k] == rs0[k].1.1 && re0[k] == rs0[k].1.2 by {
            assert(left_edges@[k] == rs0[k].1.0);
        }
    }
    // the last strip reaches no right edge: no tile lies in column i32::MAX
    let _ = right_edges.pop();
    let _ = left_right_edges.pop();
    let mut trans: Vec<TileSet> = Vec::new();
    proof {
        let k = (n - 1) as int;
        assert forall|st: Seq<Strip>| #[trigger] slices_clustered(st, rs0, m) implies
            front_ok(cluster_sets(le0[k]@) + cluster_sets(trans@), tiles_from(st, k), st[k].0)
            && covered_by_components(tiles_from(st, k))
            && emitted_ok(cluster_sets(clusters@), st, tiles_from(st, k), st[k].0, m) by {
            assert(slice_result(st, k, rs0[k], m));
            assert(interiors_upto(st, n as int, m) == interiors(st, m));
            assert(cluster_sets(le0[k]@) + cluster_sets(trans@) =~= cluster_sets(le0[k]@));
            lemma_sweep_start(st, m, cluster_sets(le0[k]@), cluster_sets(lre0[k]@), cluster_sets(re0[k]@), cluster_sets(clusters@));
        }
    }
    while right_edges.len() > 0
        invariant
            slices_clustered(st0, rs0, m),
            m == min_cluster_size as nat,
            n == rs0.len(),
            le0.len() == n,
            lre0.len() == n,
            re0.len() == n,
            forall|k: int| 0 <= k < n ==> #[trigger] le0[k] == rs0[k].1.0 && lre0[k] == rs0[k].1.1 && re0[k] == rs0[k].1.2,
            right_edges@.len() < n,
            left_edges@.len() == right_edges@.len() + 1,
            left_right_edges@.len() == right_edges@.len(),
            left_edges@ == le0.subrange(0, left_edges@.len() as int),
            left_right_edges@ == lre0.subrange(0, right_edges@.len() as int),
            right_edges@ == re0.subrange(0, right_edges@.len() as int),
            forall|st: Seq<Strip>| #[trigger] slices_clustered(st, rs0, m) ==>
                front_ok(cluster_sets(le0[right_edges@.len() as int]@) + cluster_sets(trans@), tiles_from(st, right_edges@.len() as int), st[right_edges@.len() as int].0)
                && covered_by_components(tiles_from(st, right_edges@.len() as int))
                && emitted_ok(cluster_sets(clusters@), st, tiles_from(st, right_edges@.len() as int), st[right_edges@.len() as int].0, m),
        decreases right_edges@.len(),
    {
        let ghost i = right_edges@.len() as int;
        let right = right_edges.pop().unwrap();
        let mut left = left_edges.pop().unwrap();
        let ghost fl = cluster_sets(left@);
        let ghost ft = cluster_sets(trans@);
        left.append(&mut trans);
        let left_right = left_right_edges.pop().unwrap();
        proof {
            assert(le0[i - 1] == rs0[i - 1].1.0);
            assert(le0[i] == rs0[i].1.0);
            assert(right == re0[i - 1]);
            assert(left_right == lre0[i - 1]);
            assert(fl == cluster_sets(le0[i]@));
            assert(cluster_sets(left@) =~= fl + ft);
            assert(left_edges@ =~= le0.subrange(0, i));
            assert(slices_clustered(st0, rs0, m));
            assert(slice_result(st0, i - 1, rs0[i - 1], m));
            lemma_border_pieces(st0, i, cluster_sets(right@), cluster_sets(left_right@), cluster_sets(left@));
        }
        let ghost rs = cluster_sets(right@);
        let ghost lrs = cluster_sets(left_right@);
        let ghost fs = cluster_sets(left@);
        let (mut joined_clusters, transient) = join_clusters(right, left, left_right, min_cluster_size);
        let ghost es = cluster_sets(clusters@);
        let ghost js = cluster_sets(joined_clusters@);
        let ghost ts = cluster_sets(transient@);
        trans = transient;
        clusters.append(&mut joined_clusters);
        proof {
            assert(cluster_sets(clusters@) =~= es + js);
            assert forall|st: Seq<Strip>| #[trigger] slices_clustered(st, rs0, m) implies
                front_ok(cluster_sets(le0[i - 1]@) + cluster_sets(trans@), tiles_from(st, i - 1), st[i - 1].0)
                && covered_by_components(tiles_from(st, i - 1))
                && emitted_ok(cluster_sets(clusters@), st, tiles_from(st, i - 1), st[i - 1].0, m) by {
                assert(slice_result(st, i - 1, rs0[i - 1], m));
                assert(step_context(st, i, m, rs, lrs, fs, cluster_sets(le0[i - 1]@), js, ts, es));
                lemma_step_front(st, i, m, rs, lrs, fs, cluster_sets(le0[i - 1]@), js, ts, es);
                lemma_step_emitted(st, i, m, rs, lrs, fs, cluster_sets(le0[i - 1]@), js, ts, es);
                lemma_step_disjoint(st, i, m, rs, lrs, fs, cluster_sets(le0[i - 1]@), js, ts, es);
            }
        }
    }
    proof {
        assert forall|st: Seq<Strip>| #[trigger] slices_clustered(st, rs0, m) implies
            cluster_sets(clusters@).to_set() == significant_components(tiles_from(st, 0), m) by {
            lemma_sweep_end(st, m, cluster_sets(le0[0]@) + cluster_sets(trans@), cluster_sets(clusters@));
        }
        lemma_sweep_end(st0, m, cluster_sets(le0[0]@) + cluster_sets(trans@), cluster_sets(clusters@));
        assert(cluster_sets(trans@).len() == 0);
    }
    // clusters still carried at the left edge of the plane: there are none
    while trans.len() > 0
        invariant
            trans@.len() == 0,
            forall|st: Seq<Strip>| #[trigger] slices_clustered(st, rs0, m) ==>
                cluster_sets(clusters@).to_set() == significant_components(tiles_from(st, 0), m)
                && pairwise_disjoint(cluster_sets(clusters@)),
        decreases trans@.len(),
    {
        let c = trans.pop().unwrap();
        if tile_count(&c) >= min_cluster_size {
            clusters.push(c);
        }
    }
    clusters
}

/// Leaves out the strips without a column, which hold no tile; the strips
/// left lie side by side again.
pub fn drop_empty_strips(strips: Vec<Strip>) -> (r: Vec<Strip>)
    requires
        chained_strips(strips@),
    ensures
        well_formed_strips(r@),
        tiles_from(r@, 0) == tiles_from(strips@, 0),
{
    let ghost st = strips@;
    let n = strips.len();
    let mut strips = strips;
    let mut out: Vec<Strip> = Vec::new();
    let mut j: usize = 0;
    while strips.len() > 0
        invariant
            chained_strips(st),
            n == st.len(),
            j + strips@.len() == n,
            strips@ == st.subrange(j as int, n as int),
            out@.len() > 0 ==> out@[0].0 == i32::MIN,
            j < n && out@.len() == 0 ==> st[j as int].0 == i32::MIN,
            j < n && out@.len() > 0 ==> st[j as int].0 == out@[out@.len() - 1].2 + 1,
            j > 0 && st[j - 1].0 <= st[j - 1].2 ==> out@.len() > 0 && out@[out@.len() - 1] == st[j - 1],
            forall|k: int| 0 <= k < out@.len() ==> (#[trigger] out@[k]).0 <= out@[k].2 && tile_set(out@[k].1).finite(),
            forall|k: int| 0 <= k < out@.len() - 1 ==> #[trigger] out@[k + 1].0 == out@[k].2 + 1,
            forall|k: int, t: Tile| 0 <= k < out@.len() && #[trigger] tile_set(out@[k].1).contains(t)
                ==> out@[k].0 <= t.0 <= out@[k].2 && i32::MIN < t.0 < i32::MAX,
            forall|t: Tile| tiles_from(out@, 0).contains(t) <==> exists|q: int| 0 <= q < j && #[trigger] tile_set(st[q].1).contains(t),
        decreases strips@.len(),
    {
        let ghost before = strips@;
        let ghost ob = out@;
        let s = strips.remove(0);
        let ghost gs = s;
        proof {
            assert(before[0] == st[j as int]);
            assert(gs == st[j as int]);
            assert(strips@ =~= st.subrange(j + 1, n as int));
        }
        if s.0 <= s.2 {
            out.push(s);
            proof {
                assert(out@[out@.len() - 1] == gs);
                assert forall|k: int| 0 <= k < ob.len() implies #[trigger] out@[k] == ob[k] by {}
                assert forall|t: Tile| tiles_from(out@, 0).contains(t) <==> exists|q: int| 0 <= q < j + 1 && #[trigger] tile_set(st[q].1).contains(t) by {
                    if tiles_from(out@, 0).contains(t) {
                        let k = choose|k: int| 0 <= k < out@.len() && tile_set(out@[k].1).contains(t);
                        if k < ob.len() {
                            assert(tiles_from(ob, 0).contains(t));
                        } else {
                            assert(tile_set(st[j as int].1).contains(t));
                        }
                    }
                    if exists|q: int| 0 <= q < j + 1 && #[trigger] tile_set(st[q].1).contains(t) {
                        let q = choose|q: int| 0 <= q < j + 1 && #[trigger] tile_set(st[q].1).contains(t);
                        if q < j {
                            assert(tiles_from(ob, 0).contains(t));
                            let k = choose|k: int| 0 <= k < ob.len() && tile_set(ob[k].1).contains(t);
                            assert(tile_set(out@[k].1).contains(t));
                        } else {
                            assert(tile_set(out@[ob.len() as int].1).contains(t));
                        }
                    }
                }
            }
        } else {
            proof {
                assert forall|t: Tile| !tile_set(st[j as int].1).contains(t) by {}
                assert forall|t: Tile| tiles_from(out@, 0).contains(t) <==> exists|q: int| 0 <= q < j + 1 && #[trigger] tile_set(st[q].1).contains(t) by {
                    if exists|q: int| 0 <= q < j + 1 && #[trigger] tile_set(st[q].1).contains(t) {
                        let q = choose|q: int| 0 <= q < j + 1 && #[trigger] tile_set(st[q].1).contains(t);
                        assert(q < j);
                    }
                }
            }
        }
        proof {
            if j + 1 < n {
                assert(st[j + 1].0 == st[j as int].2 + 1);
            }
        }
        j += 1;
    }
    proof {
        assert(st[n - 1].0 <= st[n - 1].2);
        assert(tiles_from(out@, 0) =~= tiles_from(st, 0)) by {
            assert forall|t: Tile| tiles_from(st, 0).contains(t) implies tiles_from(out@, 0).contains(t) by {
                let q = choose|q: int| 0 <= q < n && tile_set(st[q].1).contains(t);
            }
        }
    }
    out
}

/// Clusters the tiles of strips that lie side by side: each strip on its
/// own, then, border by border from right to left, the clusters that reach
/// a border are joined across it, in chains over as many borders as they
/// span. Strips without a column are left out first. Returns the
/// components of all the tiles with at least `min_cluster_size` tiles, as
/// clustering them in one sweep would.
pub fn cluster_tiles(slices: Vec<Strip>, min_cluster_size: usize) -> (r: Vec<TileSet>)
    requires
        chained_strips(slices@),
    ensures
        cluster_sets(r@).to_set() == significant_components(tiles_from(slices@, 0), min_cluster_size as nat),
        pairwise_disjoint(cluster_sets(r@)),
{
    let slices = drop_empty_strips(slices);
    let ghost st = slices@;
    let ghost m = min_cluster_size as nat;
    let n = slices.len();
    let mut slices = slices;
    if n < 2 {
        proof {
            lemma_tiles_from_split(st, 0);
        }
        match slices.pop() {
            Some((_, tiles, _)) => {
                proof {
                    assert(tiles_from(st, 0) =~= tile_set(tiles));
                }
                return crate::cluster::cluster_tiles(tiles, min_cluster_size);
            },
            None => {
                return Vec::new();
            },
        }
    }
    let mut results: Vec<SliceClusters> = Vec::new();
    let mut j: usize = 0;
    while slices.len() > 0
        invariant
            well_formed_strips(st),
            m == min_cluster_size as nat,
            n == st.len(),
            j + slices@.len() == n,
            slices@ == st.subrange(j as int, n as int),
            results@.len() == j,
            forall|k: int| 0 <= k < j ==> slice_result(st, k, #[trigger] results@[k], m),
        decreases slices@.len(),
    {
        let ghost before = slices@;
        let ghost rb = results@;
        let (left, tiles, right) = slices.remove(0);
        proof {
            assert(before[0] == st[j as int]);
            assert(slices@ =~= st.subrange(j + 1, n as int));
        }
        let res = cluster_slice(tiles, min_cluster_size, left, right);
        results.push(res);
        proof {
            assert forall|k: int| 0 <= k < j + 1 implies slice_result(st, k, #[trigger] results@[k], m) by {
                if k < j {
                    assert(results@[k] == rb[k]);
                }
            }
        }
        j += 1;
    }
    proof {
        assert(slices_clustered(st, results@, m));
    }
    join_slices(results, min_cluster_size)
}

/// Appending the interiors of strip `j` to those of the strips before it
/// gives the interiors of the strips up to `j`, still without a shared tile.
proof fn lemma_interiors_grow(st: Seq<Strip>, j: int, m: nat, c0: Seq<Set<Tile>>, ci: Seq<Set<Tile>>)
    requires
        well_formed_strips(st),
        0 <= j < st.len(),
        c0.to_set() == interiors_upto(st, j, m),
        pairwise_disjoint(c0),
        ci.to_set() == strip_interior(st, j).filter(|c: Set<Tile>| c.len() >= m),
        pairwise_disjoint(ci),
    ensures
        (c0 + ci).to_set() == interiors_upto(st, j + 1, m),
        pairwise_disjoint(c0 + ci),
{
    let a = c0 + ci;
    assert forall|x: Set<Tile>| #[trigger] a.contains(x) <==> c0.contains(x) || ci.contains(x) by {
        if a.contains(x) {
            let i = choose|i: int| 0 <= i < a.len() && a[i] == x;
            if i < c0.len() {
                assert(c0[i] == x);
            } else {
                assert(ci[i - c0.len()] == x);
            }
        }
        if c0.contains(x) {
            let i = choose|i: int| 0 <= i < c0.len() && c0[i] == x;
            assert(a[i] == x);
        }
        if ci.contains(x) {
            let i = choose|i: int| 0 <= i < ci.len() && ci[i] == x;
            assert(a[i + c0.len()] == x);
        }
    }
    assert forall|x: Set<Tile>| a.to_set().contains(x) <==> interiors_upto(st, j + 1, m).contains(x) by {
        if c0.contains(x) {
            assert(c0.to_set().contains(x));
        }
        if ci.contains(x) {
            assert(ci.to_set().contains(x));
        }
        if interiors_upto(st, j + 1, m).contains(x) {
            let k = choose|k: int| 0 <= k < j + 1 && #[trigger] strip_interior(st, k).contains(x) && x.len() >= m;
            if k < j {
                assert(interiors_upto(st, j, m).contains(x));
                assert(c0.to_set().contains(x));
            } else {
                assert(ci.to_set().contains(x));
            }
        }
    }
    assert(a.to_set() =~= interiors_upto(st, j + 1, m));
    assert forall|p: int, q: int| 0 <= p < a.len() && 0 <= q < a.len() && p != q implies (#[trigger] a[p]).disjoint(#[trigger] a[q]) by {
        if p < c0.len() && q < c0.len() {
            assert(a[p] == c0[p] && a[q] == c0[q]);
        } else if p >= c0.len() && q >= c0.len() {
            assert(a[p] == ci[p - c0.len()] && a[q] == ci[q - c0.len()]);
        } else {
            let (x, y) = if p < c0.len() { (a[p], a[q]) } else { (a[q], a[p]) };
            assert(c0.contains(x));
            assert(ci.contains(y));
            assert(c0.to_set().contains(x));
            assert(ci.to_set().contains(y));
            let k = choose|k: int| 0 <= k < j && #[trigger] strip_interior(st, k).contains(x) && x.len() >= m;
            lemma_strips_disjoint(st, k, j);
            assert forall|t: Tile| x.contains(t) implies !y.contains(t) by {
                assert(tile_set(st[k].1).contains(t));
            }
        }
    }
}

/// The strips that split lines cut hold the tiles they were given, each
/// tile in exactly one strip.
pub proof fn lemma_split_partition(strips: Seq<Strip>, all: Seq<Tile>, splits: Seq<i32>)
    requires
        valid_splits(splits),
        split_of(strips, all, splits),
    ensures
        tiles_from(strips, 0) == all.to_set(),
        forall|i: int, j: int| 0 <= i < strips.len() && 0 <= j < strips.len() && i != j
            ==> tile_set((#[trigger] strips[i]).1).disjoint(tile_set((#[trigger] strips[j]).1)),
{
    assert forall|t: Tile| tiles_from(strips, 0).contains(t) <==> all.to_set().contains(t) by {
        if all.to_set().contains(t) {
            lemma_strips_partition(splits, t);
            let i = choose|i: int| 0 <= i <= splits.len() && #[trigger] in_strip(splits, i, t);
            assert(strips[i].0 == strip_left(splits, i));
            assert(tile_set(strips[i].1).contains(t));
        }
        if tiles_from(strips, 0).contains(t) {
            let i = choose|i: int| 0 <= i < strips.len() && tile_set(strips[i].1).contains(t);
            assert(strips[i].0 == strip_left(splits, i));
        }
    }
    assert(tiles_from(strips, 0) =~= all.to_set());
    assert forall|i: int, j: int| 0 <= i < strips.len() && 0 <= j < strips.len() && i != j
        implies tile_set((#[trigger] strips[i]).1).disjoint(tile_set((#[trigger] strips[j]).1)) by {
        assert forall|t: Tile| tile_set(strips[i].1).contains(t) implies !tile_set(strips[j].1).contains(t) by {
            lemma_strips_partition(splits, t);
        }
    }
}

/// Clustering the strips that split lines cut gives the same clusters as
/// clustering all the tiles in one sweep: the strips are chained, and
/// the components with at least `m` tiles are the same, whenever no tile
/// lies in column `i32::MIN` or `i32::MAX`.
pub proof fn lemma_strips_cluster_alike(strips: Seq<Strip>, all: Seq<Tile>, splits: Seq<i32>, m: nat)
    requires
        valid_splits(splits),
        split_of(strips, all, splits),
        forall|t: Tile| #[trigger] all.contains(t) ==> i32::MIN < t.0 < i32::MAX,
    ensures
        chained_strips(strips),
        significant_components(tiles_from(strips, 0), m) == significant_components(all.to_set(), m),
{
    lemma_split_partition(strips, all, splits);
    let n = splits.len() as int;
    assert(strips[0].0 == i32::MIN);
    assert(strips[n].2 == i32::MAX);
    assert forall|j: int| 0 <= j < strips.len() implies (#[trigger] strips[j]).0 <= strips[j].2 + 1 && tile_set(strips[j].1).finite() by {
        if j > 0 && j < n {
            assert(splits[j - 1] <= splits[j]);
        }
    }
    assert forall|j: int| 0 <= j < strips.len() - 1 implies #[trigger] strips[j + 1].0 == strips[j].2 + 1 by {
        assert(strips[j + 1].0 == strip_left(splits, j + 1));
        assert(strips[j].2 == strip_right(splits, j));
    }
    assert forall|j: int, t: Tile| 0 <= j < strips.len() && #[trigger] tile_set(strips[j].1).contains(t)
        implies strips[j].0 <= t.0 <= strips[j].2 && i32::MIN < t.0 < i32::MAX by {
        assert(all.to_set().contains(t));
    }
}

} // verus!
