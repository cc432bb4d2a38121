//! Sequential clustering: flood fill over the Moore neighbourhood.

use vstd::prelude::*;
use crate::tiles::{
    Tile, TileSet, tile_set, adjacent, new_tile_set, insert_tile, pop_tile, pop_neighbors, tile_count,
};
use crate::components::{
    connected, closed_in, is_component, significant_components, pairwise_disjoint,
    lemma_singleton_connected, lemma_star_connected, lemma_component_unique,
};

verus! {

/// The tiles of each set of `cs`, in order.
pub open spec fn cluster_sets(cs: Seq<TileSet>) -> Seq<Set<Tile>> {
    cs.map_values(|c: TileSet| tile_set(c))
}

/// Some tile of `c` lies in column `col`.
pub open spec fn reaches_column(c: Set<Tile>, col: i32) -> bool {
    exists|t: Tile| c.contains(t) && t.0 == col
}

proof fn lemma_concat_no_dup(a: Seq<Tile>, b: Seq<Tile>)
    requires
        a.no_duplicates(),
        b.no_duplicates(),
        forall|n: Tile| a.contains(n) ==> !b.contains(n),
    ensures
        (a + b).no_duplicates(),
        forall|n: Tile| #[trigger] (a + b).contains(n) <==> a.contains(n) || b.contains(n),
{
    let ab = a + b;
    assert forall|n: Tile| #[trigger] ab.contains(n) <==> a.contains(n) || b.contains(n) by {
        if ab.contains(n) {
            let i = choose|i: int| 0 <= i < ab.len() && ab[i] == n;
            if i < a.len() {
                assert(a[i] == n);
            } else {
                assert(b[i - a.len()] == n);
            }
        }
        if a.contains(n) {
            let i = choose|i: int| 0 <= i < a.len() && a[i] == n;
            assert(ab[i] == n);
        }
        if b.contains(n) {
            let i = choose|i: int| 0 <= i < b.len() && b[i] == n;
            assert(ab[i + a.len()] == n);
        }
    }
    assert forall|i: int, j: int| 0 <= i < ab.len() && 0 <= j < ab.len() && i != j implies ab[i]
        != ab[j] by {
        if i < a.len() && j >= a.len() {
            assert(a.contains(ab[i]));
            assert(b.contains(ab[j]));
        }
        if j < a.len() && i >= a.len() {
            assert(a.contains(ab[j]));
            assert(b.contains(ab[i]));
        }
    }
}

proof fn lemma_reaches_insert(c: Set<Tile>, p: Tile, col: i32)
    ensures
        reaches_column(c.insert(p), col) == (reaches_column(c, col) || p.0 == col),
{
    if reaches_column(c, col) {
        let t = choose|t: Tile| c.contains(t) && t.0 == col;
        assert(c.insert(p).contains(t));
    }
    if p.0 == col {
        assert(c.insert(p).contains(p));
    }
    if reaches_column(c.insert(p), col) {
        let t = choose|t: Tile| c.insert(p).contains(t) && t.0 == col;
        if t != p {
            assert(c.contains(t));
        }
    }
}

proof fn lemma_drop_last_no_dup(q: Seq<Tile>)
    requires
        q.len() > 0,
        q.no_duplicates(),
    ensures
        q.drop_last().no_duplicates(),
        forall|n: Tile| #[trigger] q.drop_last().contains(n) <==> q.contains(n) && n != q.last(),
{
    let d = q.drop_last();
    assert forall|n: Tile| #[trigger] d.contains(n) <==> q.contains(n) && n != q.last() by {
        if d.contains(n) {
            let i = choose|i: int| 0 <= i < d.len() && d[i] == n;
            assert(q[i] == n);
        }
        if q.contains(n) && n != q.last() {
            let i = choose|i: int| 0 <= i < q.len() && q[i] == n;
            assert(d[i] == n);
        }
    }
}

/// Grows the cluster of `start` by flood fill, taking each tile that it
/// reaches out of `to_visit`; also tells whether the cluster reaches the
/// columns `left_edge` and `right_edge`.
pub(crate) fn flood_fill(start: Tile, to_visit: &mut TileSet, left_edge: i32, right_edge: i32) -> (r:
    (TileSet, bool, bool))
    requires
        tile_set(*old(to_visit)).finite(),
        !tile_set(*old(to_visit)).contains(start),
    ensures
        tile_set(r.0).finite(),
        tile_set(r.0).contains(start),
        connected(tile_set(r.0)),
        forall|t: Tile| #[trigger]
            tile_set(r.0).contains(t) && t != start ==> tile_set(*old(to_visit)).contains(t),
        tile_set(*final(to_visit)) == tile_set(*old(to_visit)).difference(tile_set(r.0)),
        forall|a: Tile, b: Tile|
            tile_set(r.0).contains(a) && tile_set(*final(to_visit)).contains(b) ==> !#[trigger] adjacent(
                a,
                b,
            ),
        r.1 == reaches_column(tile_set(r.0), left_edge),
        r.2 == reaches_column(tile_set(r.0), right_edge),
{
    let ghost w0 = tile_set(*to_visit);
    let mut cluster = new_tile_set();
    let mut on_left = false;
    let mut on_right = false;
    let mut to_check: Vec<Tile> = Vec::new();
    to_check.push(start);
    let ghost mut seen: Set<Tile> = set![start];
    proof {
        lemma_singleton_connected(start);
        assert(to_check@[0] == start);
    }
    while to_check.len() > 0
        invariant
            w0.finite(),
            !w0.contains(start),
            tile_set(cluster).finite(),
            tile_set(cluster).subset_of(w0.insert(start)),
            forall|n: Tile|
                #[trigger] seen.contains(n) <==> tile_set(cluster).contains(n) || to_check@.contains(
                    n,
                ),
            seen.contains(start),
            connected(seen),
            to_check@.no_duplicates(),
            forall|n: Tile| #[trigger] to_check@.contains(n) ==> !tile_set(cluster).contains(n),
            forall|n: Tile| #[trigger] seen.contains(n) ==> !tile_set(*to_visit).contains(n),
            forall|n: Tile| #[trigger]
                w0.contains(n) ==> tile_set(*to_visit).contains(n) || seen.contains(n),
            forall|n: Tile| #[trigger] seen.contains(n) && n != start ==> w0.contains(n),
            forall|n: Tile| #[trigger] tile_set(*to_visit).contains(n) ==> w0.contains(n),
            forall|a: Tile, b: Tile|
                tile_set(cluster).contains(a) && tile_set(*to_visit).contains(b) ==> !#[trigger] adjacent(
                    a,
                    b,
                ),
            on_left == reaches_column(tile_set(cluster), left_edge),
            on_right == reaches_column(tile_set(cluster), right_edge),
        decreases w0.len() + 1 - tile_set(cluster).len(),
    {
        let ghost q0 = to_check@;
        let ghost c0 = tile_set(cluster);
        let ghost v0 = tile_set(*to_visit);
        let p = to_check.pop().unwrap();
        proof {
            lemma_drop_last_no_dup(q0);
            assert(q0.contains(p));
        }
        on_left = on_left || p.0 == left_edge;
        on_right = on_right || p.0 == right_edge;
        insert_tile(&mut cluster, p);
        proof {
            lemma_reaches_insert(c0, p, left_edge);
            lemma_reaches_insert(c0, p, right_edge);
        }
        let found = pop_neighbors(p, to_visit);
        let ghost q1 = to_check@;
        let mut k: usize = 0;
        while k < found.len()
            invariant
                k <= found.len(),
                to_check@ == q1 + found@.subrange(0, k as int),
            decreases found.len() - k,
        {
            to_check.push(found[k]);
            k += 1;
            proof {
                assert(to_check@ =~= q1 + found@.subrange(0, k as int));
            }
        }
        proof {
            assert(found@.subrange(0, found@.len() as int) =~= found@);
            let nb = found@.to_set();
            assert forall|n: Tile| q1.contains(n) implies !found@.contains(n) by {
                assert(found@.to_set().contains(n) ==> v0.contains(n));
                assert(seen.contains(n));
            }
            lemma_concat_no_dup(q1, found@);
            assert forall|n: Tile| #[trigger] to_check@.contains(n) implies !tile_set(cluster).contains(n) by {
                if found@.contains(n) {
                    assert(nb.contains(n));
                    assert(v0.contains(n));
                    assert(!seen.contains(n));
                }
            }
            assert forall|t: Tile| #[trigger] nb.contains(t) implies adjacent(p, t) by {}
            lemma_star_connected(seen, p, nb);
            seen = seen.union(nb);
            assert forall|a: Tile, b: Tile|
                tile_set(cluster).contains(a) && tile_set(*to_visit).contains(b) implies !#[trigger] adjacent(
                a,
                b,
            ) by {
                if a == p {
                    if adjacent(a, b) {
                        assert(nb.contains(b));
                    }
                } else {
                    assert(c0.contains(a));
                }
            }
            assert forall|n: Tile| #[trigger]
                w0.contains(n) implies tile_set(*to_visit).contains(n) || seen.contains(n) by {
                if !tile_set(*to_visit).contains(n) && v0.contains(n) {
                    assert(nb.contains(n));
                }
            }
            assert forall|n: Tile| #[trigger] seen.contains(n) && n != start implies w0.contains(
                n,
            ) by {
                if nb.contains(n) {
                    assert(v0.contains(n));
                }
            }
            assert(seen.contains(p));
            assert(p == start || w0.contains(p));
            assert(tile_set(cluster).subset_of(w0.insert(start)));
            assert(w0.insert(start).finite());
            vstd::set_lib::lemma_len_subset(tile_set(cluster), w0.insert(start));
        }
    }
    proof {
        assert(tile_set(cluster) =~= seen);
        assert(tile_set(*to_visit) =~= w0.difference(tile_set(cluster)));
    }
    (cluster, on_left, on_right)
}

/// Groups `tiles` into their connected components and keeps those with at
/// least `min_cluster_size` tiles.
pub fn cluster_tiles(tiles: TileSet, min_cluster_size: usize) -> (r: Vec<TileSet>)
    requires
        tile_set(tiles).finite(),
    ensures
        cluster_sets(r@).to_set() == significant_components(
            tile_set(tiles),
            min_cluster_size as nat,
        ),
        pairwise_disjoint(cluster_sets(r@)),
{
    let ghost all = tile_set(tiles);
    let mut to_visit = tiles;
    let mut clusters: Vec<TileSet> = Vec::new();
    loop
        invariant
            all.finite(),
            tile_set(to_visit).subset_of(all),
            closed_in(all.difference(tile_set(to_visit)), all),
            forall|i: int| #![trigger clusters@[i]]
                0 <= i < clusters@.len() ==> is_component(tile_set(clusters@[i]), all)
                    && tile_set(clusters@[i]).len() >= min_cluster_size
                    && tile_set(clusters@[i]).disjoint(tile_set(to_visit)),
            pairwise_disjoint(cluster_sets(clusters@)),
            forall|c: Set<Tile>, t: Tile|
                #![trigger is_component(c, all), c.contains(t)]
                is_component(c, all) && c.len() >= min_cluster_size && c.contains(t)
                    && !tile_set(to_visit).contains(t) ==> cluster_sets(clusters@).contains(c),
        ensures
            tile_set(to_visit) == Set::<Tile>::empty(),
            forall|i: int| #![trigger clusters@[i]]
                0 <= i < clusters@.len() ==> is_component(tile_set(clusters@[i]), all)
                    && tile_set(clusters@[i]).len() >= min_cluster_size,
            pairwise_disjoint(cluster_sets(clusters@)),
            forall|c: Set<Tile>, t: Tile|
                #![trigger is_component(c, all), c.contains(t)]
                is_component(c, all) && c.len() >= min_cluster_size && c.contains(t)
                    && !tile_set(to_visit).contains(t) ==> cluster_sets(clusters@).contains(c),
        decreases tile_set(to_visit).len(),
    {
        let ghost w = tile_set(to_visit);
        let x = match pop_tile(&mut to_visit) {
            None => break,
            Some(x) => x,
        };
        let (cluster, _, _) = flood_fill(x, &mut to_visit, i32::MIN, i32::MAX);
        let ghost k = tile_set(cluster);
        let ghost wf = tile_set(to_visit);
        proof {
            let done0 = all.difference(w);
            assert(k.subset_of(all));
            assert(closed_in(k, all)) by {
                assert forall|a: Tile, b: Tile|
                    k.contains(a) && all.contains(b) && !k.contains(b) implies !#[trigger] adjacent(
                    a,
                    b,
                ) by {
                    if !wf.contains(b) {
                        assert(done0.contains(b));
                        assert(w.contains(a));
                        assert(!done0.contains(a));
                        assert(!adjacent(b, a));
                    }
                }
            }
            vstd::set_lib::lemma_set_subset_finite(all, k);
            assert(k.len() > 0) by {
                assert(k.contains(x));
            }
            assert(is_component(k, all));
            assert(closed_in(all.difference(wf), all)) by {
                assert forall|a: Tile, b: Tile|
                    all.difference(wf).contains(a) && all.contains(b) && !all.difference(wf).contains(b)
                    implies !#[trigger] adjacent(a, b) by {
                    if !k.contains(a) {
                        assert(done0.contains(a));
                    }
                }
            }
        }
        let ghost old_cl = clusters@;
        proof {
            assert(k.subset_of(w));
            assert forall|i: int| 0 <= i < old_cl.len() implies tile_set(
                #[trigger] old_cl[i],
            ).disjoint(k) && tile_set(old_cl[i]).disjoint(wf) by {
                assert(tile_set(old_cl[i]).disjoint(w));
            }
        }
        if tile_count(&cluster) >= min_cluster_size {
            clusters.push(cluster);
        }
        proof {
            assert forall|i: int| 0 <= i < old_cl.len() implies #[trigger] clusters@[i] == old_cl[i] by {}
            assert forall|i: int, j: int|
                0 <= i < clusters@.len() && 0 <= j < clusters@.len() && i != j implies (#[trigger] cluster_sets(clusters@)[i]).disjoint(
                #[trigger] cluster_sets(clusters@)[j],
            ) by {
                assert(cluster_sets(clusters@)[i] == tile_set(clusters@[i]));
                assert(cluster_sets(clusters@)[j] == tile_set(clusters@[j]));
                if i < old_cl.len() && j < old_cl.len() {
                    assert(cluster_sets(old_cl)[i] == tile_set(clusters@[i]));
                    assert(cluster_sets(old_cl)[j] == tile_set(clusters@[j]));
                }
            }
            assert forall|c: Set<Tile>, t: Tile|
                #![trigger is_component(c, all), c.contains(t)]
                is_component(c, all) && c.len() >= min_cluster_size && c.contains(t)
                    && !wf.contains(t) implies cluster_sets(clusters@).contains(c) by {
                if k.contains(t) {
                    lemma_component_unique(c, k, all, t);
                    let n = (clusters@.len() - 1) as int;
                    assert(cluster_sets(clusters@)[n] == k);
                } else {
                    assert(!w.contains(t));
                    assert(cluster_sets(old_cl).contains(c));
                    let i = choose|i: int| 0 <= i < cluster_sets(old_cl).len() && cluster_sets(old_cl)[i] == c;
                    assert(cluster_sets(clusters@)[i] == c);
                }
            }
            vstd::set_lib::lemma_len_subset(wf, w.remove(x));
        }
    }
    proof {
        let cs = cluster_sets(clusters@);
        let sc = significant_components(all, min_cluster_size as nat);
        assert forall|c: Set<Tile>| cs.to_set().contains(c) <==> sc.contains(c) by {
            if cs.contains(c) {
                let i = choose|i: int| 0 <= i < cs.len() && cs[i] == c;
                assert(tile_set(clusters@[i]) == c);
            }
            if sc.contains(c) {
                let t = c.choose();
                assert(c.contains(t));
            }
        }
        assert(cs.to_set() =~= sc);
    }
    clusters
}

} // verus!
