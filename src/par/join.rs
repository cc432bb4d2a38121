//! Joining the clusters that meet at one border between two strips.

use vstd::prelude::*;
use crate::tiles::{
    Tile, TileSet, tile_set, adjacent, sets_touch, new_tile_set, insert_tile, tiles_to_vec,
    is_cluster_neighbors, extend_tiles,
};
use crate::components::{
    connected, closed_in, is_component, pairwise_disjoint, lemma_union_connected, lemma_component_unique,
};
use crate::tiles::tile_count;
use crate::par::covered_by_components;
use crate::cluster::cluster_sets;

verus! {

/// All tiles of the sets in `cs`.
pub open spec fn union_of(cs: Seq<Set<Tile>>) -> Set<Tile> {
    Set::new(|t: Tile| exists|p: Set<Tile>| #![trigger cs.contains(p), p.contains(t)] cs.contains(p) && p.contains(t))
}

/// Finite, nonempty, connected sets with no tile in common.
pub open spec fn are_pieces(cs: Seq<Set<Tile>>) -> bool {
    &&& forall|i: int| 0 <= i < cs.len() ==> (#[trigger] cs[i]).finite() && cs[i].len() > 0 && connected(cs[i])
    &&& pairwise_disjoint(cs)
}

/// No two sets of `cs` touch.
pub open spec fn pairwise_apart(cs: Seq<Set<Tile>>) -> bool {
    forall|i: int, j: int| 0 <= i < cs.len() && 0 <= j < cs.len() && i != j ==> !sets_touch(#[trigger] cs[i], #[trigger] cs[j])
}

/// The pieces on the two sides of a border: those of `pa` on one side (of
/// which `plr` also reach the next border), those of `pb` on the other.
spec fn join_context(pa: Seq<Set<Tile>>, plr: Seq<Set<Tile>>, pb: Seq<Set<Tile>>) -> bool {
    &&& forall|p: Set<Tile>| #![trigger pa.contains(p)] #![trigger pb.contains(p)]
        pa.contains(p) || pb.contains(p) ==> p.finite() && p.len() > 0 && connected(p)
    &&& forall|p: Set<Tile>, q: Set<Tile>| #![trigger pa.contains(p), pa.contains(q)] #![trigger pa.contains(p), pb.contains(q)]
        #![trigger pb.contains(p), pa.contains(q)] #![trigger pb.contains(p), pb.contains(q)]
        (pa.contains(p) || pb.contains(p)) && (pa.contains(q) || pb.contains(q)) && p != q ==> p.disjoint(q)
    &&& forall|p: Set<Tile>, q: Set<Tile>| #![trigger pa.contains(p), pa.contains(q)]
        pa.contains(p) && pa.contains(q) && p != q ==> !sets_touch(p, q)
    &&& forall|p: Set<Tile>, q: Set<Tile>| #![trigger pb.contains(p), pb.contains(q)]
        pb.contains(p) && pb.contains(q) && p != q ==> !sets_touch(p, q)
    &&& forall|p: Set<Tile>| #[trigger] plr.contains(p) ==> pa.contains(p)
    &&& forall|p: Set<Tile>| #[trigger] pa.contains(p) ==> !pb.contains(p)
    &&& forall|p: Set<Tile>| #![trigger pa.contains(p)] #![trigger pb.contains(p)]
        (pa.contains(p) || pb.contains(p)) && !plr.contains(p) ==> p.disjoint(union_of(plr))
}

/// The sets of `list` are distinct and drawn from `family`.
spec fn drawn_from(list: Seq<TileSet>, family: Seq<Set<Tile>>) -> bool {
    &&& cluster_sets(list).no_duplicates()
    &&& forall|p: Set<Tile>| #[trigger] cluster_sets(list).contains(p) ==> family.contains(p)
}

/// The tiles still to be joined.
spec fn remaining(left: Seq<TileSet>, left_right: Seq<TileSet>, right: Seq<TileSet>) -> Set<Tile> {
    union_of(cluster_sets(left)).union(union_of(cluster_sets(left_right))).union(union_of(cluster_sets(right)))
}

proof fn lemma_union_of_split(all: Seq<Set<Tile>>, a: Seq<Set<Tile>>, b: Seq<Set<Tile>>)
    requires
        forall|p: Set<Tile>| #[trigger] all.contains(p) <==> a.contains(p) || b.contains(p),
    ensures
        union_of(all) == union_of(a).union(union_of(b)),
{
    assert forall|t: Tile| union_of(all).contains(t) <==> union_of(a).union(union_of(b)).contains(t) by {
        if union_of(all).contains(t) {
            let p = choose|p: Set<Tile>| all.contains(p) && p.contains(t);
            if a.contains(p) {
                assert(union_of(a).contains(t));
            } else {
                assert(union_of(b).contains(t));
            }
        }
        if union_of(a).contains(t) {
            let p = choose|p: Set<Tile>| a.contains(p) && p.contains(t);
            assert(all.contains(p));
        }
        if union_of(b).contains(t) {
            let p = choose|p: Set<Tile>| b.contains(p) && p.contains(t);
            assert(all.contains(p));
        }
    }
    assert(union_of(all) =~= union_of(a).union(union_of(b)));
}

proof fn lemma_union_of_push(s: Seq<Set<Tile>>, p: Set<Tile>)
    ensures
        union_of(s.push(p)) == union_of(s).union(p),
{
    assert forall|q: Set<Tile>| #[trigger] s.push(p).contains(q) <==> s.contains(q) || seq![p].contains(q) by {
        if s.push(p).contains(q) {
            let i = choose|i: int| 0 <= i < s.push(p).len() && s.push(p)[i] == q;
            if i < s.len() {
                assert(s[i] == q);
            } else {
                assert(seq![p][0] == q);
            }
        }
        if s.contains(q) {
            let i = choose|i: int| 0 <= i < s.len() && s[i] == q;
            assert(s.push(p)[i] == q);
        }
        if seq![p].contains(q) {
            assert(s.push(p)[s.len() as int] == q);
        }
    }
    lemma_union_of_split(s.push(p), s, seq![p]);
    assert forall|t: Tile| union_of(seq![p]).contains(t) <==> p.contains(t) by {
        if p.contains(t) {
            assert(seq![p][0] == p);
            assert(seq![p].contains(p));
        }
    }
    assert(union_of(seq![p]) =~= p);
}

proof fn lemma_union_of_drop_last(s: Seq<Set<Tile>>)
    requires
        s.len() > 0,
    ensures
        union_of(s) == union_of(s.drop_last()).union(s.last()),
{
    assert(s =~= s.drop_last().push(s.last()));
    lemma_union_of_push(s.drop_last(), s.last());
}

/// Takes out of `list` the sets that touch `visit` and returns them.
fn take_touching(list: &mut Vec<TileSet>, visit: &TileSet) -> (touching: Vec<TileSet>)
    requires
        cluster_sets(old(list)@).no_duplicates(),
    ensures
        cluster_sets(final(list)@).no_duplicates(),
        cluster_sets(touching@).no_duplicates(),
        forall|p: Set<Tile>| #[trigger] cluster_sets(touching@).contains(p) <==> cluster_sets(old(list)@).contains(p) && sets_touch(p, tile_set(*visit)),
        forall|p: Set<Tile>| #[trigger] cluster_sets(final(list)@).contains(p) <==> cluster_sets(old(list)@).contains(p) && !sets_touch(p, tile_set(*visit)),
        touching@.len() + final(list)@.len() == old(list)@.len(),
{
    let ghost orig = cluster_sets(list@);
    let ghost v = tile_set(*visit);
    let mut touching: Vec<TileSet> = Vec::new();
    let mut rest: Vec<TileSet> = Vec::new();
    while list.len() > 0
        invariant
            orig.no_duplicates(),
            cluster_sets(list@) == orig.subrange(0, list@.len() as int),
            list@.len() <= orig.len(),
            cluster_sets(touching@).no_duplicates(),
            cluster_sets(rest@).no_duplicates(),
            forall|p: Set<Tile>| #[trigger] cluster_sets(touching@).contains(p) <==> orig.subrange(list@.len() as int, orig.len() as int).contains(p) && sets_touch(p, v),
            forall|p: Set<Tile>| #[trigger] cluster_sets(rest@).contains(p) <==> orig.subrange(list@.len() as int, orig.len() as int).contains(p) && !sets_touch(p, v),
            touching@.len() + rest@.len() + list@.len() == orig.len(),
            v == tile_set(*visit),
        decreases list@.len(),
    {
        let ghost n = list@.len() as int;
        let ghost t0 = cluster_sets(touching@);
        let ghost r0 = cluster_sets(rest@);
        let ghost lb = list@;
        let c = list.pop().unwrap();
        let ghost p = tile_set(c);
        proof {
            assert(cluster_sets(lb)[n - 1] == tile_set(lb[n - 1]));
            assert(orig.subrange(0, n)[n - 1] == orig[n - 1]);
            assert(orig[n - 1] == p);
            assert(cluster_sets(list@) =~= orig.subrange(0, n - 1));
            assert forall|q: Set<Tile>| #[trigger] orig.subrange(n - 1, orig.len() as int).contains(q) <==> orig.subrange(n, orig.len() as int).contains(q) || q == p by {
                let a = orig.subrange(n - 1, orig.len() as int);
                let b = orig.subrange(n, orig.len() as int);
                if a.contains(q) {
                    let i = choose|i: int| 0 <= i < a.len() && a[i] == q;
                    if i > 0 {
                        assert(b[i - 1] == q);
                    }
                }
                if b.contains(q) {
                    let i = choose|i: int| 0 <= i < b.len() && b[i] == q;
                    assert(a[i + 1] == q);
                }
                if q == p {
                    assert(a[0] == q);
                }
            }
            assert(!orig.subrange(n, orig.len() as int).contains(p)) by {
                if orig.subrange(n, orig.len() as int).contains(p) {
                    let i = choose|i: int| 0 <= i < orig.len() - n && orig.subrange(n, orig.len() as int)[i] == p;
                    assert(orig[n + i] == orig[n - 1]);
                }
            }
        }
        if is_cluster_neighbors(&c, visit) {
            touching.push(c);
            proof {
                assert(cluster_sets(touching@) =~= t0.push(p));
                assert forall|q: Set<Tile>| #[trigger] t0.push(p).contains(q) <==> t0.contains(q) || q == p by {
                    if t0.push(p).contains(q) {
                        let i = choose|i: int| 0 <= i < t0.push(p).len() && t0.push(p)[i] == q;
                        if i < t0.len() {
                            assert(t0[i] == q);
                        }
                    }
                    if t0.contains(q) {
                        let i = choose|i: int| 0 <= i < t0.len() && t0[i] == q;
                        assert(t0.push(p)[i] == q);
                    }
                    if q == p {
                        assert(t0.push(p)[t0.len() as int] == q);
                    }
                }
                assert forall|i: int, j: int| 0 <= i < j < t0.push(p).len() implies t0.push(p)[i] != t0.push(p)[j] by {
                    if j == t0.len() {
                        assert(t0.contains(t0[i]));
                    }
                }
            }
        } else {
            rest.push(c);
            proof {
                assert(cluster_sets(rest@) =~= r0.push(p));
                assert forall|q: Set<Tile>| #[trigger] r0.push(p).contains(q) <==> r0.contains(q) || q == p by {
                    if r0.push(p).contains(q) {
                        let i = choose|i: int| 0 <= i < r0.push(p).len() && r0.push(p)[i] == q;
                        if i < r0.len() {
                            assert(r0[i] == q);
                        }
                    }
                    if r0.contains(q) {
                        let i = choose|i: int| 0 <= i < r0.len() && r0[i] == q;
                        assert(r0.push(p)[i] == q);
                    }
                    if q == p {
                        assert(r0.push(p)[r0.len() as int] == q);
                    }
                }
                assert forall|i: int, j: int| 0 <= i < j < r0.push(p).len() implies r0.push(p)[i] != r0.push(p)[j] by {
                    if j == r0.len() {
                        assert(r0.contains(r0[i]));
                    }
                }
            }
        }
    }
    proof {
        assert(orig.subrange(0, orig.len() as int) =~= orig);
    }
    *list = rest;
    touching
}

/// The tiles of each piece on the stack, in order.
spec fn stack_sets(s: Seq<(bool, TileSet)>) -> Seq<Set<Tile>> {
    s.map_values(|e: (bool, TileSet)| tile_set(e.1))
}

proof fn lemma_concat<A>(a: Seq<A>, b: Seq<A>)
    ensures
        forall|x: A| #[trigger] (a + b).contains(x) <==> a.contains(x) || b.contains(x),
        a.no_duplicates() && b.no_duplicates() && (forall|x: A| a.contains(x) ==> !b.contains(x))
            ==> (a + b).no_duplicates(),
{
    let ab = a + b;
    assert forall|x: A| #[trigger] ab.contains(x) <==> a.contains(x) || b.contains(x) by {
        if ab.contains(x) {
            let i = choose|i: int| 0 <= i < ab.len() && ab[i] == x;
            if i < a.len() {
                assert(a[i] == x);
            } else {
                assert(b[i - a.len()] == x);
            }
        }
        if a.contains(x) {
            let i = choose|i: int| 0 <= i < a.len() && a[i] == x;
            assert(ab[i] == x);
        }
        if b.contains(x) {
            let i = choose|i: int| 0 <= i < b.len() && b[i] == x;
            assert(ab[i + a.len()] == x);
        }
    }
    if a.no_duplicates() && b.no_duplicates() && (forall|x: A| a.contains(x) ==> !b.contains(x)) {
        assert forall|i: int, j: int| 0 <= i < ab.len() && 0 <= j < ab.len() && i != j implies ab[i] != ab[j] by {
            if i < a.len() && j >= a.len() {
                assert(a.contains(ab[i]));
                assert(b.contains(ab[j]));
            }
            if j < a.len() && i >= a.len() {
                assert(a.contains(ab[j]));
                assert(b.contains(ab[i]));
            }
        }
    }
}

/// Pushes each of `pieces` on the stack, marked with `side`.
fn push_all(stack: &mut Vec<(bool, TileSet)>, pieces: Vec<TileSet>, side: bool)
    requires
        cluster_sets(pieces@).no_duplicates(),
    ensures
        final(stack)@.len() == old(stack)@.len() + pieces@.len(),
        stack_sets(final(stack)@) == stack_sets(old(stack)@) + stack_sets(final(stack)@).subrange(
            old(stack)@.len() as int,
            final(stack)@.len() as int,
        ),
        forall|i: int| 0 <= i < old(stack)@.len() ==> #[trigger] final(stack)@[i] == old(stack)@[i],
        forall|i: int| old(stack)@.len() <= i < final(stack)@.len() ==> (#[trigger] final(stack)@[i]).0 == side,
        forall|q: Set<Tile>| #[trigger] stack_sets(final(stack)@).subrange(old(stack)@.len() as int, final(stack)@.len() as int).contains(q) <==> cluster_sets(pieces@).contains(q),
        stack_sets(final(stack)@).subrange(old(stack)@.len() as int, final(stack)@.len() as int).no_duplicates(),
{
    let ghost s0 = stack@;
    let ghost orig = cluster_sets(pieces@);
    let mut pieces = pieces;
    while pieces.len() > 0
        invariant
            orig.no_duplicates(),
            cluster_sets(pieces@) == orig.subrange(0, pieces@.len() as int),
            pieces@.len() <= orig.len(),
            stack@.len() == s0.len() + orig.len() - pieces@.len(),
            forall|i: int| 0 <= i < s0.len() ==> #[trigger] stack@[i] == s0[i],
            forall|i: int| s0.len() <= i < stack@.len() ==> (#[trigger] stack@[i]).0 == side,
            forall|i: int| s0.len() <= i < stack@.len() ==> #[trigger] stack_sets(stack@)[i] == orig[orig.len() - 1 - (i - s0.len())],
        decreases pieces@.len(),
    {
        let ghost pb = pieces@;
        let c = pieces.pop().unwrap();
        proof {
            assert(cluster_sets(pb)[pb.len() - 1] == tile_set(c));
            assert(orig.subrange(0, pb.len() as int)[pb.len() - 1] == orig[pb.len() - 1]);
            assert(cluster_sets(pieces@) =~= orig.subrange(0, pieces@.len() as int));
        }
        let ghost sb = stack@;
        stack.push((side, c));
        proof {
            assert forall|i: int| s0.len() <= i < stack@.len() implies #[trigger] stack_sets(stack@)[i] == orig[orig.len() - 1 - (i - s0.len())] by {
                if i < sb.len() {
                    assert(stack@[i] == sb[i]);
                    assert(stack_sets(sb)[i] == orig[orig.len() - 1 - (i - s0.len())]);
                } else {
                    assert(stack@[i] == (side, c));
                }
            }
        }
    }
    proof {
        let n0 = s0.len() as int;
        let sf = stack_sets(stack@);
        let tail = sf.subrange(n0, stack@.len() as int);
        assert(stack_sets(s0) + tail =~= sf);
        assert forall|i: int| 0 <= i < tail.len() implies #[trigger] tail[i] == orig[orig.len() - 1 - i] by {
            assert(tail[i] == sf[i + n0]);
        }
        assert forall|q: Set<Tile>| #[trigger] tail.contains(q) <==> orig.contains(q) by {
            if tail.contains(q) {
                let i = choose|i: int| 0 <= i < tail.len() && tail[i] == q;
                assert(orig[orig.len() - 1 - i] == q);
            }
            if orig.contains(q) {
                let j = choose|j: int| 0 <= j < orig.len() && orig[j] == q;
                assert(tail[orig.len() - 1 - j] == q);
            }
        }
        assert forall|i: int, j: int| 0 <= i < tail.len() && 0 <= j < tail.len() && i != j implies tail[i] != tail[j] by {
            assert(tail[i] == orig[orig.len() - 1 - i]);
            assert(tail[j] == orig[orig.len() - 1 - j]);
        }
    }
}

/// The three lists hold distinct pieces of their sides.
spec fn lists_ok(left: Seq<TileSet>, left_right: Seq<TileSet>, right: Seq<TileSet>, pa: Seq<Set<Tile>>, plr: Seq<Set<Tile>>, pb: Seq<Set<Tile>>) -> bool {
    &&& drawn_from(left, pa)
    &&& forall|p: Set<Tile>| #[trigger] cluster_sets(left).contains(p) ==> !plr.contains(p)
    &&& drawn_from(left_right, plr)
    &&& drawn_from(right, pb)
}

/// Some piece of `tl` is one of `plr`.
spec fn took_both(tl: Seq<Set<Tile>>, plr: Seq<Set<Tile>>) -> bool {
    exists|q: Set<Tile>| tl.contains(q) && plr.contains(q)
}

/// Connected pieces that each touch `v`, a part of the connected set `s`,
/// join `s` in a connected union.
proof fn lemma_connect_all(s: Set<Tile>, v: Set<Tile>, ns: Seq<Set<Tile>>)
    requires
        connected(s),
        v.subset_of(s),
        forall|q: Set<Tile>| #[trigger] ns.contains(q) ==> connected(q) && sets_touch(q, v),
    ensures
        connected(s.union(union_of(ns))),
    decreases ns.len(),
{
    if ns.len() == 0 {
        assert(union_of(ns) =~= Set::<Tile>::empty());
        assert(s.union(union_of(ns)) =~= s);
    } else {
        let d = ns.drop_last();
        assert forall|q: Set<Tile>| #[trigger] d.contains(q) implies connected(q) && sets_touch(q, v) by {
            let i = choose|i: int| 0 <= i < d.len() && d[i] == q;
            assert(ns[i] == q);
            assert(ns.contains(q));
        }
        lemma_connect_all(s, v, d);
        lemma_union_of_drop_last(ns);
        let last = ns.last();
        assert(ns.contains(last));
        let (x, y) = choose|x: Tile, y: Tile| last.contains(x) && v.contains(y) && adjacent(x, y);
        lemma_union_connected(s.union(union_of(d)), last, y, x);
        assert(s.union(union_of(d)).union(last) =~= s.union(union_of(ns)));
    }
}

/// Grows from `start` the group of pieces that touch one another in a chain
/// across the border, taking them out of the three lists. Returns the
/// group's tiles and whether it took a piece of `left_right`.
fn join_group(
    start: TileSet,
    left: &mut Vec<TileSet>,
    left_right: &mut Vec<TileSet>,
    right: &mut Vec<TileSet>,
    Ghost(pa): Ghost<Seq<Set<Tile>>>,
    Ghost(plr): Ghost<Seq<Set<Tile>>>,
    Ghost(pb): Ghost<Seq<Set<Tile>>>,
) -> (r: (TileSet, bool))
    requires
        join_context(pa, plr, pb),
        lists_ok(old(left)@, old(left_right)@, old(right)@, pa, plr, pb),
        pb.contains(tile_set(start)),
        tile_set(start).disjoint(remaining(old(left)@, old(left_right)@, old(right)@)),
    ensures
        lists_ok(final(left)@, final(left_right)@, final(right)@, pa, plr, pb),
        final(left)@.len() + final(left_right)@.len() + final(right)@.len() <= old(left)@.len() + old(left_right)@.len() + old(right)@.len(),
        tile_set(r.0).finite(),
        tile_set(r.0).len() > 0,
        connected(tile_set(r.0)),
        tile_set(start).subset_of(tile_set(r.0)),
        tile_set(r.0).disjoint(remaining(final(left)@, final(left_right)@, final(right)@)),
        tile_set(r.0).union(remaining(final(left)@, final(left_right)@, final(right)@)) == tile_set(start).union(remaining(old(left)@, old(left_right)@, old(right)@)),
        forall|a: Tile, b: Tile| tile_set(r.0).contains(a) && remaining(final(left)@, final(left_right)@, final(right)@).contains(b) ==> !#[trigger] adjacent(a, b),
        r.1 == !tile_set(r.0).disjoint(union_of(plr)),
{
    let ghost s0 = tile_set(start);
    let ghost free = s0.union(remaining(left@, left_right@, right@));
    let ghost lrt = union_of(plr);
    let ghost total = left@.len() + left_right@.len() + right@.len();
    let mut cluster = new_tile_set();
    let mut joined_both = false;
    let mut to_visit: Vec<(bool, TileSet)> = Vec::new();
    to_visit.push((false, start));
    let ghost mut seen: Set<Tile> = s0;
    proof {
        assert(stack_sets(to_visit@) =~= seq![s0]);
        assert(seq![s0] =~= Seq::<Set<Tile>>::empty().push(s0));
        lemma_union_of_push(Seq::<Set<Tile>>::empty(), s0);
        assert(union_of(Seq::<Set<Tile>>::empty()) =~= Set::<Tile>::empty());
        assert(union_of(stack_sets(to_visit@)) =~= s0);
        assert(s0.disjoint(lrt)) by {
            assert(!pa.contains(s0));
            assert(!plr.contains(s0));
        }
    }
    while to_visit.len() > 0
        invariant
            join_context(pa, plr, pb),
            lrt == union_of(plr),
            lists_ok(left@, left_right@, right@, pa, plr, pb),
            left@.len() + left_right@.len() + right@.len() <= total,
            tile_set(cluster).finite(),
            stack_sets(to_visit@).no_duplicates(),
            forall|i: int| 0 <= i < to_visit@.len() ==> ((#[trigger] to_visit@[i]).0 ==> pa.contains(stack_sets(to_visit@)[i])) && (!to_visit@[i].0 ==> pb.contains(stack_sets(to_visit@)[i])),
            tile_set(cluster).disjoint(union_of(stack_sets(to_visit@))),
            seen == tile_set(cluster).union(union_of(stack_sets(to_visit@))),
            seen.union(remaining(left@, left_right@, right@)) == free,
            seen.disjoint(remaining(left@, left_right@, right@)),
            connected(seen),
            s0.subset_of(seen),
            s0.finite(),
            s0.len() > 0,
            forall|a: Tile, b: Tile| tile_set(cluster).contains(a) && remaining(left@, left_right@, right@).contains(b) ==> !#[trigger] adjacent(a, b),
            joined_both == !seen.disjoint(lrt),
        decreases 2 * (left@.len() + left_right@.len() + right@.len()) + to_visit@.len(),
    {
        let ghost ss0 = stack_sets(to_visit@);
        let ghost st0 = to_visit@;
        let ghost k0 = tile_set(cluster);
        let ghost l0 = cluster_sets(left@);
        let ghost lr0 = cluster_sets(left_right@);
        let ghost r0 = cluster_sets(right@);
        let ghost rem0 = remaining(left@, left_right@, right@);
        let (go_right, visit) = to_visit.pop().unwrap();
        let ghost v = tile_set(visit);
        let ghost ss1 = stack_sets(to_visit@);
        let ghost n1 = ss1.len();
        proof {
            assert(ss1 =~= ss0.drop_last());
            assert(ss0.last() == v);
            lemma_union_of_drop_last(ss0);
            assert(ss0.contains(v));
            assert(st0[st0.len() - 1] == (go_right, visit));
            assert(go_right ==> pa.contains(v));
            assert(!go_right ==> pb.contains(v));
            assert(v.finite() && v.len() > 0 && connected(v));
            assert forall|q: Set<Tile>| #[trigger] ss1.contains(q) implies q.disjoint(v) && (pa.contains(q) || pb.contains(q)) by {
                let i = choose|i: int| 0 <= i < ss1.len() && ss1[i] == q;
                assert(ss0[i] == q);
                assert(to_visit@[i] == st0[i]);
                assert(st0[i].0 ==> pa.contains(ss0[i]));
            }
            assert(union_of(ss1).disjoint(v)) by {
                assert forall|t: Tile| union_of(ss1).contains(t) implies !v.contains(t) by {
                    let q = choose|q: Set<Tile>| ss1.contains(q) && q.contains(t);
                }
            }
            assert forall|a: Tile| v.contains(a) implies seen.contains(a) by {
                assert(union_of(ss0).contains(a));
            }
        }
        let ghost flag0 = joined_both;
        let touched = if go_right {
            let t = take_touching(right, &visit);
            proof {
                lemma_union_of_split(r0, cluster_sets(right@), cluster_sets(t@));
                assert(cluster_sets(left@) == l0);
                assert(cluster_sets(left_right@) == lr0);
                assert forall|q: Set<Tile>| #[trigger] cluster_sets(left@).contains(q) || cluster_sets(left_right@).contains(q) implies !sets_touch(q, v) by {
                    assert(pa.contains(q));
                    if q == v {
                        let t = q.choose();
                        assert(q.contains(t));
                        assert(union_of(cluster_sets(left@)).contains(t) || union_of(cluster_sets(left_right@)).contains(t));
                        assert(rem0.contains(t));
                    }
                }
            }
            t
        } else {
            let mut t1 = take_touching(left, &visit);
            let mut t2 = take_touching(left_right, &visit);
            if t2.len() > 0 {
                joined_both = true;
            }
            let ghost c1 = cluster_sets(t1@);
            let ghost c2 = cluster_sets(t2@);
            proof {
                lemma_union_of_split(l0, cluster_sets(left@), c1);
                lemma_union_of_split(lr0, cluster_sets(left_right@), c2);
                assert(cluster_sets(right@) == r0);
                assert forall|q: Set<Tile>| #[trigger] cluster_sets(right@).contains(q) implies !sets_touch(q, v) by {
                    assert(pb.contains(q));
                    if q == v {
                        let t = q.choose();
                        assert(q.contains(t));
                        assert(union_of(cluster_sets(right@)).contains(t));
                        assert(rem0.contains(t));
                    }
                }
                lemma_concat(c1, c2);
                assert forall|q: Set<Tile>| c1.contains(q) implies !c2.contains(q) by {
                    assert(!plr.contains(q));
                }
                lemma_union_of_split(c1 + c2, c1, c2);
                if t2@.len() > 0 {
                    assert(c2.contains(c2[0]));
                    assert(plr.contains(c2[0]));
                    let t = c2[0].choose();
                    assert(pa.contains(c2[0]));
                    assert(c2[0].contains(t));
                    assert(lrt.contains(t));
                }
            }
            t1.append(&mut t2);
            proof {
                assert(cluster_sets(t1@) =~= c1 + c2);
                if c2.len() > 0 {
                    assert(c2.contains(c2[0]));
                    assert((c1 + c2).contains(c2[0]));
                }
                assert(took_both(c1 + c2, plr) == (c2.len() > 0)) by {
                    if took_both(c1 + c2, plr) {
                        let q = choose|q: Set<Tile>| (c1 + c2).contains(q) && plr.contains(q);
                        assert(!c1.contains(q));
                        assert(c2.contains(q));
                    }
                }
            }
            t1
        };
        let ghost tl = cluster_sets(touched@);
        let ghost rem1 = remaining(left@, left_right@, right@);
        proof {
            if go_right {
                assert(!took_both(tl, plr)) by {
                    if took_both(tl, plr) {
                        let q = choose|q: Set<Tile>| tl.contains(q) && plr.contains(q);
                        assert(pb.contains(q));
                        assert(pa.contains(q));
                    }
                }
            }
            assert(joined_both == (flag0 || took_both(tl, plr)));
            assert(rem0 =~= rem1.union(union_of(tl)));
            assert forall|q: Set<Tile>| #[trigger] tl.contains(q) implies sets_touch(q, v) && connected(q) && q.disjoint(lrt) == !plr.contains(q)
                && (go_right ==> pb.contains(q)) && (!go_right ==> pa.contains(q)) && q.subset_of(rem0) by {
                if plr.contains(q) {
                    let t = q.choose();
                    assert(pa.contains(q));
                    assert(q.contains(t));
                    assert(lrt.contains(t));
                }
                assert forall|t: Tile| q.contains(t) implies rem0.contains(t) by {
                    assert(union_of(tl).contains(t));
                }
            }
            assert forall|t: Tile| rem1.contains(t) implies !union_of(tl).contains(t) by {
                if union_of(tl).contains(t) {
                    let q = choose|q: Set<Tile>| tl.contains(q) && q.contains(t);
                    if union_of(cluster_sets(left@)).contains(t) {
                        let p = choose|p: Set<Tile>| cluster_sets(left@).contains(p) && p.contains(t);
                        assert(p != q ==> p.disjoint(q));
                    } else if union_of(cluster_sets(left_right@)).contains(t) {
                        let p = choose|p: Set<Tile>| cluster_sets(left_right@).contains(p) && p.contains(t);
                        assert(pa.contains(p));
                        assert(p != q ==> p.disjoint(q));
                    } else {
                        let p = choose|p: Set<Tile>| cluster_sets(right@).contains(p) && p.contains(t);
                        assert(p != q ==> p.disjoint(q));
                    }
                }
            }
            assert forall|q: Set<Tile>| #[trigger] ss1.contains(q) implies !tl.contains(q) by {
                if tl.contains(q) {
                    let t = q.choose();
                    assert(q.contains(t));
                    assert(union_of(ss1).contains(t));
                    assert(seen.contains(t));
                    assert(rem0.contains(t));
                }
            }
            lemma_connect_all(seen, v, tl);
        }
        push_all(&mut to_visit, touched, !go_right);
        extend_tiles(&mut cluster, visit);
        proof {
            let ss2 = stack_sets(to_visit@);
            let tail = ss2.subrange(n1 as int, ss2.len() as int);
            lemma_concat(ss1, tail);
            lemma_union_of_split(ss2, ss1, tail);
            lemma_union_of_split(tail, tl, Seq::<Set<Tile>>::empty());
            assert(union_of(Seq::<Set<Tile>>::empty()) =~= Set::<Tile>::empty());
            assert(union_of(tail) =~= union_of(tl));
            assert forall|i: int| 0 <= i < to_visit@.len() implies ((#[trigger] to_visit@[i]).0 ==> pa.contains(stack_sets(to_visit@)[i])) && (!to_visit@[i].0 ==> pb.contains(stack_sets(to_visit@)[i])) by {
                if i < n1 {
                    assert(to_visit@[i] == st0[i]);
                    assert(ss2[i] == ss0[i]);
                } else {
                    assert(tail[i - n1] == ss2[i]);
                    assert(tail.contains(ss2[i]));
                }
            }
            seen = seen.union(union_of(tl));
            assert(tile_set(cluster) =~= k0.union(v));
            assert(seen =~= tile_set(cluster).union(union_of(ss2)));
            assert(seen.union(rem1) =~= free);
            assert forall|a: Tile, b: Tile| tile_set(cluster).contains(a) && rem1.contains(b) implies !#[trigger] adjacent(a, b) by {
                if v.contains(a) {
                    if union_of(cluster_sets(left@)).contains(b) {
                        let q = choose|q: Set<Tile>| cluster_sets(left@).contains(q) && q.contains(b);
                        assert(!sets_touch(q, v));
                        assert(!adjacent(b, a));
                    } else if union_of(cluster_sets(left_right@)).contains(b) {
                        let q = choose|q: Set<Tile>| cluster_sets(left_right@).contains(q) && q.contains(b);
                        assert(!sets_touch(q, v));
                        assert(!adjacent(b, a));
                    } else {
                        let q = choose|q: Set<Tile>| cluster_sets(right@).contains(q) && q.contains(b);
                        assert(!sets_touch(q, v));
                        assert(!adjacent(b, a));
                    }
                } else {
                    assert(rem0.contains(b));
                }
            }
            assert(!union_of(tl).disjoint(lrt) == took_both(tl, plr)) by {
                if took_both(tl, plr) {
                    let q = choose|q: Set<Tile>| tl.contains(q) && plr.contains(q);
                    assert(!q.disjoint(lrt));
                    let t = choose|t: Tile| q.contains(t) && lrt.contains(t);
                    assert(union_of(tl).contains(t));
                }
                if !union_of(tl).disjoint(lrt) {
                    let t = choose|t: Tile| union_of(tl).contains(t) && lrt.contains(t);
                    let q = choose|q: Set<Tile>| tl.contains(q) && q.contains(t);
                    assert(!q.disjoint(lrt));
                }
            }
        }
    }
    proof {
        assert(union_of(stack_sets(to_visit@)) =~= Set::<Tile>::empty());
        assert(seen =~= tile_set(cluster));
        vstd::set_lib::lemma_len_subset(s0, seen);
        vstd::set_lib::lemma_set_subset_finite(tile_set(cluster), s0);
    }
    (cluster, joined_both)
}

/// The tiles of the clusters that meet at a border.
pub open spec fn border_tiles(left: Seq<TileSet>, right: Seq<TileSet>, left_right: Seq<TileSet>) -> Set<Tile> {
    union_of(cluster_sets(left) + cluster_sets(left_right) + cluster_sets(right))
}

/// The components of the border's tiles that hold no tile of a cluster of
/// `left_right` and have at least `m` tiles.
pub open spec fn joined_components(left: Seq<TileSet>, right: Seq<TileSet>, left_right: Seq<TileSet>, m: nat) -> Set<Set<Tile>> {
    Set::new(|c: Set<Tile>| is_component(c, border_tiles(left, right, left_right))
        && c.disjoint(union_of(cluster_sets(left_right))) && c.len() >= m)
}

/// The components of the border's tiles that hold a tile of a cluster of
/// `left_right`.
pub open spec fn carried_components(left: Seq<TileSet>, right: Seq<TileSet>, left_right: Seq<TileSet>) -> Set<Set<Tile>> {
    Set::new(|c: Set<Tile>| is_component(c, border_tiles(left, right, left_right))
        && !c.disjoint(union_of(cluster_sets(left_right))))
}

/// What the clusters at a border must be: finite, nonempty, connected and
/// disjoint, and no two on the same side touching.
pub open spec fn border_pieces(left: Seq<TileSet>, right: Seq<TileSet>, left_right: Seq<TileSet>) -> bool {
    &&& are_pieces(cluster_sets(left) + cluster_sets(left_right) + cluster_sets(right))
    &&& pairwise_apart(cluster_sets(left) + cluster_sets(left_right))
    &&& pairwise_apart(cluster_sets(right))
}

proof fn lemma_context(left: Seq<TileSet>, right: Seq<TileSet>, left_right: Seq<TileSet>)
    requires
        border_pieces(left, right, left_right),
    ensures
        join_context(cluster_sets(left) + cluster_sets(left_right), cluster_sets(left_right), cluster_sets(right)),
        lists_ok(left, left_right, right, cluster_sets(left) + cluster_sets(left_right), cluster_sets(left_right), cluster_sets(right)),
        remaining(left, left_right, right) == border_tiles(left, right, left_right),
{
    let l = cluster_sets(left);
    let lr = cluster_sets(left_right);
    let r = cluster_sets(right);
    let pa = l + lr;
    let all = pa + r;
    lemma_concat(l, lr);
    lemma_concat(pa, r);
    assert forall|i: int| 0 <= i < all.len() implies (#[trigger] all[i]).finite() && all[i].len() > 0 && connected(all[i]) by {}
    // each set of `all` at two places would meet itself
    assert forall|i: int, j: int| 0 <= i < all.len() && 0 <= j < all.len() && i != j implies all[i] != all[j] by {
        assert(all[i].disjoint(all[j]));
        let t = all[i].choose();
        assert(all[i].contains(t));
    }
    assert forall|p: Set<Tile>| #[trigger] pa.contains(p) implies exists|i: int| 0 <= i < pa.len() && all[i] == p by {
        let i = choose|i: int| 0 <= i < pa.len() && pa[i] == p;
        assert(all[i] == p);
    }
    assert forall|p: Set<Tile>| #[trigger] r.contains(p) implies exists|i: int| pa.len() <= i < all.len() && all[i] == p by {
        let i = choose|i: int| 0 <= i < r.len() && r[i] == p;
        assert(all[i + pa.len()] == p);
    }
    assert forall|p: Set<Tile>| #[trigger] lr.contains(p) implies exists|i: int| l.len() <= i < pa.len() && pa[i] == p by {
        let i = choose|i: int| 0 <= i < lr.len() && lr[i] == p;
        assert(pa[i + l.len()] == p);
    }
    assert forall|p: Set<Tile>| #[trigger] l.contains(p) implies exists|i: int| 0 <= i < l.len() && pa[i] == p by {
        let i = choose|i: int| 0 <= i < l.len() && l[i] == p;
        assert(pa[i] == p);
    }
    assert forall|p: Set<Tile>| #![trigger pa.contains(p)] #![trigger r.contains(p)]
        pa.contains(p) || r.contains(p) implies p.finite() && p.len() > 0 && connected(p) by {
        assert(all.contains(p));
        let i = choose|i: int| 0 <= i < all.len() && all[i] == p;
    }
    assert forall|p: Set<Tile>, q: Set<Tile>| (pa.contains(p) || r.contains(p)) && (pa.contains(q) || r.contains(q)) && p != q implies p.disjoint(q) by {
        assert(all.contains(p));
        assert(all.contains(q));
        let i = choose|i: int| 0 <= i < all.len() && all[i] == p;
        let j = choose|j: int| 0 <= j < all.len() && all[j] == q;
    }
    assert forall|p: Set<Tile>, q: Set<Tile>| pa.contains(p) && pa.contains(q) && p != q implies !sets_touch(p, q) by {
        let i = choose|i: int| 0 <= i < pa.len() && pa[i] == p;
        let j = choose|j: int| 0 <= j < pa.len() && pa[j] == q;
    }
    assert forall|p: Set<Tile>, q: Set<Tile>| r.contains(p) && r.contains(q) && p != q implies !sets_touch(p, q) by {
        let i = choose|i: int| 0 <= i < r.len() && r[i] == p;
        let j = choose|j: int| 0 <= j < r.len() && r[j] == q;
    }
    assert forall|p: Set<Tile>| #[trigger] pa.contains(p) implies !r.contains(p) by {
        let i = choose|i: int| 0 <= i < pa.len() && all[i] == p;
        if r.contains(p) {
            let j = choose|j: int| pa.len() <= j < all.len() && all[j] == p;
        }
    }
    assert forall|p: Set<Tile>| #[trigger] l.contains(p) implies !lr.contains(p) by {
        let i = choose|i: int| 0 <= i < l.len() && pa[i] == p;
        if lr.contains(p) {
            let j = choose|j: int| l.len() <= j < pa.len() && pa[j] == p;
            assert(all[i] == all[j]);
        }
    }
    assert forall|p: Set<Tile>| #![trigger pa.contains(p)] #![trigger r.contains(p)]
        (pa.contains(p) || r.contains(p)) && !lr.contains(p) implies p.disjoint(union_of(lr)) by {
        assert forall|t: Tile| p.contains(t) implies !union_of(lr).contains(t) by {
            if union_of(lr).contains(t) {
                let q = choose|q: Set<Tile>| lr.contains(q) && q.contains(t);
                assert(pa.contains(q));
                assert(p != q);
            }
        }
    }
    assert(l.no_duplicates()) by {
        assert forall|i: int, j: int| 0 <= i < l.len() && 0 <= j < l.len() && i != j implies l[i] != l[j] by {
            assert(all[i] == l[i]);
            assert(all[j] == l[j]);
        }
    }
    assert(lr.no_duplicates()) by {
        assert forall|i: int, j: int| 0 <= i < lr.len() && 0 <= j < lr.len() && i != j implies lr[i] != lr[j] by {
            assert(all[i + l.len()] == lr[i]);
            assert(all[j + l.len()] == lr[j]);
        }
    }
    assert(r.no_duplicates()) by {
        assert forall|i: int, j: int| 0 <= i < r.len() && 0 <= j < r.len() && i != j implies r[i] != r[j] by {
            assert(all[i + pa.len()] == r[i]);
            assert(all[j + pa.len()] == r[j]);
        }
    }
    lemma_union_of_split(pa, l, lr);
    lemma_union_of_split(all, pa, r);
    assert(remaining(left, left_right, right) =~= border_tiles(left, right, left_right));
}

/// The clusters found so far at a border: components of `u` off the tiles
/// `rem` still to be joined, split by whether they hold a tile of `lrt`, and
/// every visited component among them when it is to be kept.
spec fn join_state(clusters: Seq<TileSet>, carried: Seq<TileSet>, u: Set<Tile>, rem: Set<Tile>, lrt: Set<Tile>, m: nat) -> bool {
    &&& rem.subset_of(u)
    &&& closed_in(u.difference(rem), u)
    &&& forall|i: int| #![trigger clusters[i]] 0 <= i < clusters.len() ==> is_component(tile_set(clusters[i]), u)
        && tile_set(clusters[i]).disjoint(lrt) && tile_set(clusters[i]).len() >= m && tile_set(clusters[i]).disjoint(rem)
    &&& forall|i: int| #![trigger carried[i]] 0 <= i < carried.len() ==> is_component(tile_set(carried[i]), u)
        && !tile_set(carried[i]).disjoint(lrt) && tile_set(carried[i]).disjoint(rem)
    &&& pairwise_disjoint(cluster_sets(clusters))
    &&& pairwise_disjoint(cluster_sets(carried))
    &&& forall|c: Set<Tile>, t: Tile| #![trigger is_component(c, u), c.contains(t)]
        is_component(c, u) && c.contains(t) && !rem.contains(t) ==>
            (c.disjoint(lrt) && c.len() >= m ==> cluster_sets(clusters).contains(c))
            && (!c.disjoint(lrt) ==> cluster_sets(carried).contains(c))
    &&& forall|t: Tile| u.contains(t) && !rem.contains(t) ==> exists|c: Set<Tile>| #[trigger] is_component(c, u) && c.contains(t)
}

/// A component `k` of `u`, made of tiles that were still to be joined, is
/// found: it leaves the remaining tiles and goes to one list or the other,
/// or to neither.
proof fn lemma_join_state_add(clusters: Seq<TileSet>, carried: Seq<TileSet>, u: Set<Tile>, rem: Set<Tile>, rem2: Set<Tile>, lrt: Set<Tile>, m: nat, k: TileSet, clusters2: Seq<TileSet>, carried2: Seq<TileSet>)
    requires
        join_state(clusters, carried, u, rem, lrt, m),
        is_component(tile_set(k), u),
        tile_set(k).subset_of(rem),
        rem2 == rem.difference(tile_set(k)),
        !tile_set(k).disjoint(lrt) ==> carried2 == carried.push(k) && clusters2 == clusters,
        tile_set(k).disjoint(lrt) && tile_set(k).len() >= m ==> clusters2 == clusters.push(k) && carried2 == carried,
        tile_set(k).disjoint(lrt) && tile_set(k).len() < m ==> clusters2 == clusters && carried2 == carried,
    ensures
        join_state(clusters2, carried2, u, rem2, lrt, m),
{
    let kk = tile_set(k);
    assert(closed_in(u.difference(rem2), u)) by {
        assert forall|a: Tile, b: Tile| u.difference(rem2).contains(a) && u.contains(b) && !u.difference(rem2).contains(b) implies !#[trigger] adjacent(a, b) by {
            if !kk.contains(a) {
                assert(u.difference(rem).contains(a));
            }
        }
    }
    assert forall|i: int| 0 <= i < clusters.len() implies #[trigger] tile_set(clusters[i]).disjoint(kk) by {}
    assert forall|i: int| 0 <= i < carried.len() implies #[trigger] tile_set(carried[i]).disjoint(kk) by {}
    assert forall|i: int, j: int| 0 <= i < clusters2.len() && 0 <= j < clusters2.len() && i != j implies (#[trigger] cluster_sets(clusters2)[i]).disjoint(#[trigger] cluster_sets(clusters2)[j]) by {
        assert(cluster_sets(clusters2)[i] == tile_set(clusters2[i]));
        assert(cluster_sets(clusters2)[j] == tile_set(clusters2[j]));
        if i < clusters.len() && j < clusters.len() {
            assert(clusters2[i] == clusters[i]);
            assert(clusters2[j] == clusters[j]);
            assert(cluster_sets(clusters)[i] == tile_set(clusters[i]));
            assert(cluster_sets(clusters)[j] == tile_set(clusters[j]));
        }
    }
    assert forall|i: int, j: int| 0 <= i < carried2.len() && 0 <= j < carried2.len() && i != j implies (#[trigger] cluster_sets(carried2)[i]).disjoint(#[trigger] cluster_sets(carried2)[j]) by {
        assert(cluster_sets(carried2)[i] == tile_set(carried2[i]));
        assert(cluster_sets(carried2)[j] == tile_set(carried2[j]));
        if i < carried.len() && j < carried.len() {
            assert(carried2[i] == carried[i]);
            assert(carried2[j] == carried[j]);
            assert(cluster_sets(carried)[i] == tile_set(carried[i]));
            assert(cluster_sets(carried)[j] == tile_set(carried[j]));
        }
    }
    assert forall|i: int| #![trigger clusters2[i]] 0 <= i < clusters2.len() implies is_component(tile_set(clusters2[i]), u)
        && tile_set(clusters2[i]).disjoint(lrt) && tile_set(clusters2[i]).len() >= m && tile_set(clusters2[i]).disjoint(rem2) by {
        if i < clusters.len() {
            assert(clusters2[i] == clusters[i]);
        }
    }
    assert forall|i: int| #![trigger carried2[i]] 0 <= i < carried2.len() implies is_component(tile_set(carried2[i]), u)
        && !tile_set(carried2[i]).disjoint(lrt) && tile_set(carried2[i]).disjoint(rem2) by {
        if i < carried.len() {
            assert(carried2[i] == carried[i]);
        }
    }
    assert forall|c: Set<Tile>, t: Tile| #![trigger is_component(c, u), c.contains(t)]
        is_component(c, u) && c.contains(t) && !rem2.contains(t) implies
            (c.disjoint(lrt) && c.len() >= m ==> cluster_sets(clusters2).contains(c))
            && (!c.disjoint(lrt) ==> cluster_sets(carried2).contains(c)) by {
        if kk.contains(t) {
            lemma_component_unique(c, kk, u, t);
            if c.disjoint(lrt) && c.len() >= m {
                assert(cluster_sets(clusters2)[clusters.len() as int] == c);
            }
            if !c.disjoint(lrt) {
                assert(cluster_sets(carried2)[carried.len() as int] == c);
            }
        } else {
            if c.disjoint(lrt) && c.len() >= m {
                assert(cluster_sets(clusters).contains(c));
                let i = choose|i: int| 0 <= i < cluster_sets(clusters).len() && cluster_sets(clusters)[i] == c;
                assert(clusters2[i] == clusters[i]);
                assert(cluster_sets(clusters2)[i] == c);
            }
            if !c.disjoint(lrt) {
                assert(cluster_sets(carried).contains(c));
                let i = choose|i: int| 0 <= i < cluster_sets(carried).len() && cluster_sets(carried)[i] == c;
                assert(carried2[i] == carried[i]);
                assert(cluster_sets(carried2)[i] == c);
            }
        }
    }
    assert forall|t: Tile| u.contains(t) && !rem2.contains(t) implies exists|c: Set<Tile>| #[trigger] is_component(c, u) && c.contains(t) by {
        if kk.contains(t) {
            assert(is_component(kk, u) && kk.contains(t));
        }
    }
}

/// Once only clusters of `kept` remain, each is a component, and the lists
/// hold exactly the components to keep.
proof fn lemma_join_final(clusters: Seq<TileSet>, carried: Seq<TileSet>, kept: Seq<TileSet>, u: Set<Tile>, pa: Seq<Set<Tile>>, plr: Seq<Set<Tile>>, pb: Seq<Set<Tile>>, lrt: Set<Tile>, m: nat)
    requires
        join_context(pa, plr, pb),
        lrt == union_of(plr),
        drawn_from(kept, plr),
        join_state(clusters, carried, u, union_of(cluster_sets(kept)), lrt, m),
    ensures
        cluster_sets(clusters).to_set() == Set::new(|c: Set<Tile>| is_component(c, u) && c.disjoint(lrt) && c.len() >= m),
        cluster_sets(kept + carried).to_set() == Set::new(|c: Set<Tile>| is_component(c, u) && !c.disjoint(lrt)),
        pairwise_disjoint(cluster_sets(clusters)),
        pairwise_disjoint(cluster_sets(kept + carried)),
        covered_by_components(u),
{
    let ks = cluster_sets(kept);
    let rem = union_of(ks);
    assert forall|p: Set<Tile>| #[trigger] ks.contains(p) implies is_component(p, u) && !p.disjoint(lrt) by {
        assert(pa.contains(p));
        assert(p.subset_of(u)) by {
            assert forall|t: Tile| p.contains(t) implies u.contains(t) by {
                assert(rem.contains(t));
            }
        }
        assert(closed_in(p, u)) by {
            assert forall|a: Tile, b: Tile| p.contains(a) && u.contains(b) && !p.contains(b) implies !#[trigger] adjacent(a, b) by {
                assert(rem.contains(a));
                if rem.contains(b) {
                    let q = choose|q: Set<Tile>| ks.contains(q) && q.contains(b);
                    assert(pa.contains(q));
                    assert(!sets_touch(p, q));
                } else {
                    assert(u.difference(rem).contains(b));
                    assert(!adjacent(b, a));
                }
            }
        }
        let t = p.choose();
        assert(p.contains(t));
        assert(lrt.contains(t));
    }
    let all = cluster_sets(kept + carried);
    let cs = cluster_sets(carried);
    assert(all =~= ks + cs);
    lemma_concat(ks, cs);
    assert forall|i: int, j: int| 0 <= i < all.len() && 0 <= j < all.len() && i != j implies (#[trigger] all[i]).disjoint(#[trigger] all[j]) by {
        if i < ks.len() && j < ks.len() {
            assert(ks.contains(all[i]));
            assert(ks.contains(all[j]));
            assert(plr.contains(all[i]) && pa.contains(all[i]));
            assert(plr.contains(all[j]) && pa.contains(all[j]));
        } else if i >= ks.len() && j >= ks.len() {
            assert(cs[i - ks.len()] == all[i]);
            assert(cs[j - ks.len()] == all[j]);
        } else if i < ks.len() {
            assert(ks.contains(all[i]));
            assert(all[i].subset_of(rem)) by {
                assert forall|t: Tile| all[i].contains(t) implies rem.contains(t) by {}
            }
            assert(tile_set(carried[j - ks.len()]).disjoint(rem));
        } else {
            assert(ks.contains(all[j]));
            assert(all[j].subset_of(rem)) by {
                assert forall|t: Tile| all[j].contains(t) implies rem.contains(t) by {}
            }
            assert(tile_set(carried[i - ks.len()]).disjoint(rem));
        }
    }
    let jc = Set::new(|c: Set<Tile>| is_component(c, u) && c.disjoint(lrt) && c.len() >= m);
    assert forall|c: Set<Tile>| cluster_sets(clusters).to_set().contains(c) <==> jc.contains(c) by {
        if cluster_sets(clusters).contains(c) {
            let i = choose|i: int| 0 <= i < cluster_sets(clusters).len() && cluster_sets(clusters)[i] == c;
            assert(tile_set(clusters[i]) == c);
        }
        if jc.contains(c) {
            let t = c.choose();
            assert(c.contains(t));
            if rem.contains(t) {
                let q = choose|q: Set<Tile>| ks.contains(q) && q.contains(t);
                assert(lrt.contains(t)) by {
                    assert(plr.contains(q));
                }
            }
        }
    }
    assert(cluster_sets(clusters).to_set() =~= jc);
    let cc = Set::new(|c: Set<Tile>| is_component(c, u) && !c.disjoint(lrt));
    assert forall|c: Set<Tile>| all.to_set().contains(c) <==> cc.contains(c) by {
        if all.contains(c) {
            if ks.contains(c) {
            } else {
                let i = choose|i: int| 0 <= i < cs.len() && cs[i] == c;
                assert(tile_set(carried[i]) == c);
            }
        }
        if cc.contains(c) {
            let t = c.choose();
            assert(c.contains(t));
            if rem.contains(t) {
                let q = choose|q: Set<Tile>| ks.contains(q) && q.contains(t);
                lemma_component_unique(c, q, u, t);
                assert(all.contains(q));
            } else {
                assert(cs.contains(c));
                assert(all.contains(c));
            }
        }
    }
    assert(all.to_set() =~= cc);
    assert forall|t: Tile| u.contains(t) implies exists|c: Set<Tile>| #[trigger] is_component(c, u) && c.contains(t) by {
        if rem.contains(t) {
            let q = choose|q: Set<Tile>| ks.contains(q) && q.contains(t);
            assert(is_component(q, u));
        }
    }
}

/// Joins the clusters that meet at a border: `left_clusters` and
/// `left_right_clusters` lie on one side of it, `right_clusters` on the
/// other, and those of `left_right_clusters` also reach a further border on
/// their own side. Clusters that touch are joined, in chains as long as they
/// go. Returns the joined clusters that hold no part of
/// `left_right_clusters` and have at least `min_cluster_size` tiles, and then
/// those that hold such a part, whatever their size, to be joined again at
/// the further border.
pub fn join_clusters(
    left_clusters: Vec<TileSet>,
    right_clusters: Vec<TileSet>,
    left_right_clusters: Vec<TileSet>,
    min_cluster_size: usize,
) -> (r: (Vec<TileSet>, Vec<TileSet>))
    requires
        border_pieces(left_clusters@, right_clusters@, left_right_clusters@),
    ensures
        cluster_sets(r.0@).to_set() == joined_components(left_clusters@, right_clusters@, left_right_clusters@, min_cluster_size as nat),
        cluster_sets(r.1@).to_set() == carried_components(left_clusters@, right_clusters@, left_right_clusters@),
        pairwise_disjoint(cluster_sets(r.0@)),
        pairwise_disjoint(cluster_sets(r.1@)),
        covered_by_components(border_tiles(left_clusters@, right_clusters@, left_right_clusters@)),
{
    let ghost pa = cluster_sets(left_clusters@) + cluster_sets(left_right_clusters@);
    let ghost plr = cluster_sets(left_right_clusters@);
    let ghost pb = cluster_sets(right_clusters@);
    let ghost u = border_tiles(left_clusters@, right_clusters@, left_right_clusters@);
    let ghost lrt = union_of(plr);
    let ghost m = min_cluster_size as nat;
    proof {
        lemma_context(left_clusters@, right_clusters@, left_right_clusters@);
    }
    let mut clusters: Vec<TileSet> = Vec::new();
    let mut new_left_right_clusters: Vec<TileSet> = Vec::new();
    let mut left_right = left_right_clusters;
    let mut left = left_clusters;
    let mut right = right_clusters;
    proof {
        assert(u.difference(remaining(left@, left_right@, right@)) =~= Set::<Tile>::empty());
    }
    while right.len() > 0
        invariant
            join_context(pa, plr, pb),
            lrt == union_of(plr),
            m == min_cluster_size as nat,
            lists_ok(left@, left_right@, right@, pa, plr, pb),
            join_state(clusters@, new_left_right_clusters@, u, remaining(left@, left_right@, right@), lrt, m),
        decreases left@.len() + left_right@.len() + right@.len(),
    {
        let ghost rem0 = remaining(left@, left_right@, right@);
        let ghost r0 = cluster_sets(right@);
        let start = right.pop().unwrap();
        let ghost st = tile_set(start);
        proof {
            assert(r0 =~= cluster_sets(right@).push(st));
            assert(r0[r0.len() - 1] == st);
            assert(r0.contains(st));
            lemma_union_of_push(cluster_sets(right@), st);
            assert(cluster_sets(right@) =~= r0.drop_last());
            assert forall|q: Set<Tile>| #[trigger] cluster_sets(right@).contains(q) implies r0.contains(q) && q != st by {
                let i = choose|i: int| 0 <= i < cluster_sets(right@).len() && cluster_sets(right@)[i] == q;
                assert(r0[i] == q);
            }
            assert(cluster_sets(right@).no_duplicates());
            assert(st.disjoint(remaining(left@, left_right@, right@))) by {
                assert forall|t: Tile| st.contains(t) implies !remaining(left@, left_right@, right@).contains(t) by {
                    if union_of(cluster_sets(left@)).contains(t) {
                        let q = choose|q: Set<Tile>| cluster_sets(left@).contains(q) && q.contains(t);
                        assert(pa.contains(q));
                    }
                    if union_of(cluster_sets(left_right@)).contains(t) {
                        let q = choose|q: Set<Tile>| cluster_sets(left_right@).contains(q) && q.contains(t);
                        assert(pa.contains(q));
                    }
                    if union_of(cluster_sets(right@)).contains(t) {
                        let q = choose|q: Set<Tile>| cluster_sets(right@).contains(q) && q.contains(t);
                    }
                }
            }
            assert(rem0 =~= st.union(remaining(left@, left_right@, right@)));
        }
        let (cluster, is_left_and_right) = join_group(start, &mut left, &mut left_right, &mut right, Ghost(pa), Ghost(plr), Ghost(pb));
        let ghost k = tile_set(cluster);
        let ghost rem1 = remaining(left@, left_right@, right@);
        proof {
            assert(k.subset_of(rem0));
            assert(rem1 =~= rem0.difference(k));
            assert(closed_in(k, u)) by {
                assert forall|a: Tile, b: Tile| k.contains(a) && u.contains(b) && !k.contains(b) implies !#[trigger] adjacent(a, b) by {
                    if !rem1.contains(b) {
                        assert(u.difference(rem0).contains(b));
                        assert(!u.difference(rem0).contains(a));
                        assert(!adjacent(b, a));
                    }
                }
            }
            assert(is_component(k, u));
        }
        let ghost c0 = clusters@;
        let ghost n0 = new_left_right_clusters@;
        if is_left_and_right {
            new_left_right_clusters.push(cluster);
            proof { assert(new_left_right_clusters@ == n0.push(cluster)); assert(clusters@ == c0); }
        } else if tile_count(&cluster) >= min_cluster_size {
            clusters.push(cluster);
            proof { assert(new_left_right_clusters@ == n0); assert(clusters@ == c0.push(cluster)); }
        } else {
            proof { assert(new_left_right_clusters@ == n0); assert(clusters@ == c0); assert(k.len() < m); }
        }
        proof {
            lemma_join_state_add(c0, n0, u, rem0, rem1, lrt, m, cluster, clusters@, new_left_right_clusters@);
        }
    }
    while left.len() > 0
        invariant
            join_context(pa, plr, pb),
            lrt == union_of(plr),
            m == min_cluster_size as nat,
            lists_ok(left@, left_right@, right@, pa, plr, pb),
            right@.len() == 0,
            join_state(clusters@, new_left_right_clusters@, u, remaining(left@, left_right@, right@), lrt, m),
        decreases left@.len(),
    {
        let ghost rem0 = remaining(left@, left_right@, right@);
        let ghost l0 = cluster_sets(left@);
        let c = left.pop().unwrap();
        let ghost k = tile_set(c);
        proof {
            assert(l0 =~= cluster_sets(left@).push(k));
            assert(l0[l0.len() - 1] == k);
            assert(l0.contains(k));
            lemma_union_of_push(cluster_sets(left@), k);
            assert forall|q: Set<Tile>| #[trigger] cluster_sets(left@).contains(q) implies l0.contains(q) && q != k by {
                let i = choose|i: int| 0 <= i < cluster_sets(left@).len() && cluster_sets(left@)[i] == q;
                assert(l0[i] == q);
            }
            assert(cluster_sets(left@).no_duplicates()) by {
                assert forall|i: int, j: int| 0 <= i < cluster_sets(left@).len() && 0 <= j < cluster_sets(left@).len() && i != j implies cluster_sets(left@)[i] != cluster_sets(left@)[j] by {
                    assert(cluster_sets(left@)[i] == l0[i]);
                    assert(cluster_sets(left@)[j] == l0[j]);
                }
            }
            assert(pa.contains(k));
            assert(!plr.contains(k));
            assert(k.disjoint(lrt));
            let rem1 = remaining(left@, left_right@, right@);
            assert(union_of(cluster_sets(right@)) =~= Set::<Tile>::empty());
            assert forall|t: Tile| k.contains(t) implies !rem1.contains(t) by {
                if union_of(cluster_sets(left@)).contains(t) {
                    let q = choose|q: Set<Tile>| cluster_sets(left@).contains(q) && q.contains(t);
                    assert(pa.contains(q));
                }
                if union_of(cluster_sets(left_right@)).contains(t) {
                    let q = choose|q: Set<Tile>| cluster_sets(left_right@).contains(q) && q.contains(t);
                    assert(pa.contains(q));
                }
            }
            assert(rem1 =~= rem0.difference(k));
            assert(k.subset_of(rem0)) by {
                assert forall|t: Tile| k.contains(t) implies rem0.contains(t) by {
                    assert(union_of(l0).contains(t));
                }
            }
            assert(closed_in(k, u)) by {
                assert forall|a: Tile, b: Tile| k.contains(a) && u.contains(b) && !k.contains(b) implies !#[trigger] adjacent(a, b) by {
                    if rem1.contains(b) {
                        if union_of(cluster_sets(left@)).contains(b) {
                            let q = choose|q: Set<Tile>| cluster_sets(left@).contains(q) && q.contains(b);
                            assert(pa.contains(q));
                            assert(!sets_touch(k, q));
                        } else {
                            let q = choose|q: Set<Tile>| cluster_sets(left_right@).contains(q) && q.contains(b);
                            assert(pa.contains(q));
                            assert(k != q);
                            assert(!sets_touch(k, q));
                        }
                    } else {
                        assert(u.difference(rem0).contains(b));
                        assert(!u.difference(rem0).contains(a));
                        assert(!adjacent(b, a));
                    }
                }
            }
            assert(k.subset_of(u));
            assert(is_component(k, u));
        }
        let ghost c0 = clusters@;
        if tile_count(&c) >= min_cluster_size {
            clusters.push(c);
            proof { assert(clusters@ == c0.push(c)); }
        } else {
            proof { assert(clusters@ == c0); assert(k.len() < m); }
        }
        proof {
            lemma_join_state_add(c0, new_left_right_clusters@, u, rem0, remaining(left@, left_right@, right@), lrt, m, c, clusters@, new_left_right_clusters@);
        }
    }
    let ghost kept = left_right@;
    let ghost carried = new_left_right_clusters@;
    proof {
        assert(remaining(left@, left_right@, right@) =~= union_of(cluster_sets(kept))) by {
            assert(union_of(cluster_sets(left@)) =~= Set::<Tile>::empty());
            assert(union_of(cluster_sets(right@)) =~= Set::<Tile>::empty());
        }
    }
    left_right.append(&mut new_left_right_clusters);
    proof {
        assert(left_right@ =~= kept + carried);
        lemma_join_final(clusters@, carried, kept, u, pa, plr, pb, lrt, m);
    }
    (clusters, left_right)
}

} // verus!
