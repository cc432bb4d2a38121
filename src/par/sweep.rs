//! Strips as a whole: the facts that let clusters found strip by strip be
//! stitched into the components of all the tiles.

use vstd::prelude::*;
use crate::tiles::{Tile, tile_set, adjacent, sets_touch};
use crate::components::{connected, closed_in, is_component, pairwise_disjoint, significant_components, lemma_component_unique};
use crate::cluster::reaches_column;
use crate::par::{Strip, edge_components, covered_by_components};
use crate::par::join::{union_of, are_pieces, pairwise_apart};

verus! {

/// Strips side by side from `i32::MIN` to `i32::MAX`, each tile within its
/// strip's columns and none in the outermost two columns of the plane.
pub open spec fn well_formed_strips(st: Seq<Strip>) -> bool {
    &&& st.len() >= 1
    &&& st[0].0 == i32::MIN
    &&& st[st.len() - 1].2 == i32::MAX
    &&& forall|j: int| 0 <= j < st.len() ==> (#[trigger] st[j]).0 <= st[j].2 && tile_set(st[j].1).finite()
    &&& forall|j: int| 0 <= j < st.len() - 1 ==> #[trigger] st[j + 1].0 == st[j].2 + 1
    &&& forall|j: int, t: Tile| 0 <= j < st.len() && #[trigger] tile_set(st[j].1).contains(t)
        ==> st[j].0 <= t.0 <= st[j].2 && i32::MIN < t.0 < i32::MAX
}

/// Strips side by side from `i32::MIN` to `i32::MAX` as split lines cut
/// them: as in `well_formed_strips`, but a strip may be left without a column
/// (its left edge one past its right edge) where two split lines coincide.
pub open spec fn chained_strips(st: Seq<Strip>) -> bool {
    &&& st.len() >= 1
    &&& st[0].0 == i32::MIN
    &&& st[st.len() - 1].2 == i32::MAX
    &&& forall|j: int| 0 <= j < st.len() ==> (#[trigger] st[j]).0 <= st[j].2 + 1 && tile_set(st[j].1).finite()
    &&& forall|j: int| 0 <= j < st.len() - 1 ==> #[trigger] st[j + 1].0 == st[j].2 + 1
    &&& forall|j: int, t: Tile| 0 <= j < st.len() && #[trigger] tile_set(st[j].1).contains(t)
        ==> st[j].0 <= t.0 <= st[j].2 && i32::MIN < t.0 < i32::MAX
}

/// The tiles of strips `i` onward.
pub open spec fn tiles_from(st: Seq<Strip>, i: int) -> Set<Tile> {
    Set::new(|t: Tile| exists|j: int| i <= j < st.len() && #[trigger] tile_set(st[j].1).contains(t))
}

/// The components of strip `j` that reach neither of its edges.
pub open spec fn strip_interior(st: Seq<Strip>, j: int) -> Set<Set<Tile>> {
    edge_components(tile_set(st[j].1), st[j].0, st[j].2, false, false)
}

/// The components of any strip before strip `n` that reach neither of its
/// edges and have at least `m` tiles.
pub open spec fn interiors_upto(st: Seq<Strip>, n: int, m: nat) -> Set<Set<Tile>> {
    Set::new(|c: Set<Tile>| exists|j: int| 0 <= j < n && #[trigger] strip_interior(st, j).contains(c) && c.len() >= m)
}

/// The components of any strip that reach neither of its edges and have at
/// least `m` tiles.
pub open spec fn interiors(st: Seq<Strip>, m: nat) -> Set<Set<Tile>> {
    interiors_upto(st, st.len() as int, m)
}

/// What clustering strip `k` gave: its clusters that reach its left edge
/// only, both edges, and its right edge only, each list without repeats.
pub open spec fn strip_classes(st: Seq<Strip>, k: int, l: Seq<Set<Tile>>, lr: Seq<Set<Tile>>, r: Seq<Set<Tile>>) -> bool {
    &&& l.to_set() == edge_components(tile_set(st[k].1), st[k].0, st[k].2, true, false)
    &&& lr.to_set() == edge_components(tile_set(st[k].1), st[k].0, st[k].2, true, true)
    &&& r.to_set() == edge_components(tile_set(st[k].1), st[k].0, st[k].2, false, true)
    &&& pairwise_disjoint(l)
    &&& pairwise_disjoint(lr)
    &&& pairwise_disjoint(r)
    &&& covered_by_components(tile_set(st[k].1))
}

pub proof fn lemma_columns_ordered(st: Seq<Strip>, j: int, k: int)
    requires
        well_formed_strips(st),
        0 <= j < k < st.len(),
    ensures
        st[j].2 < st[k].0,
        k > j + 1 ==> st[j].2 + 1 < st[k].0,
    decreases k - j,
{
    assert(st[j + 1].0 == st[j].2 + 1);
    if k > j + 1 {
        lemma_columns_ordered(st, j + 1, k);
        assert(st[j + 1].0 <= st[j + 1].2);
    }
}

/// Tiles of two strips touch only across the border of neighbouring strips.
pub proof fn lemma_cross(st: Seq<Strip>, j: int, k: int, a: Tile, b: Tile)
    requires
        well_formed_strips(st),
        0 <= j < st.len(),
        0 <= k < st.len(),
        j != k,
        tile_set(st[j].1).contains(a),
        tile_set(st[k].1).contains(b),
        adjacent(a, b),
    ensures
        j < k ==> k == j + 1 && a.0 == st[j].2 && b.0 == st[k].0,
        k < j ==> j == k + 1 && b.0 == st[k].2 && a.0 == st[j].0,
{
    if j < k {
        lemma_columns_ordered(st, j, k);
    } else {
        lemma_columns_ordered(st, k, j);
    }
}

/// Two strips hold no tile in common.
pub proof fn lemma_strips_disjoint(st: Seq<Strip>, j: int, k: int)
    requires
        well_formed_strips(st),
        0 <= j < st.len(),
        0 <= k < st.len(),
        j != k,
    ensures
        tile_set(st[j].1).disjoint(tile_set(st[k].1)),
{
    if j < k {
        lemma_columns_ordered(st, j, k);
    } else {
        lemma_columns_ordered(st, k, j);
    }
}

/// The tiles from strip `i` on are those of strip `i` and those from the
/// next strip on.
pub proof fn lemma_tiles_from_split(st: Seq<Strip>, i: int)
    requires
        well_formed_strips(st),
        0 <= i < st.len(),
    ensures
        tiles_from(st, i) == tile_set(st[i].1).union(tiles_from(st, i + 1)),
        tile_set(st[i].1).disjoint(tiles_from(st, i + 1)),
        forall|t: Tile| #[trigger] tiles_from(st, i + 1).contains(t) ==> t.0 > st[i].2,
        tiles_from(st, st.len() as int) == Set::<Tile>::empty(),
{
    assert forall|t: Tile| tiles_from(st, i).contains(t) <==> tile_set(st[i].1).union(tiles_from(st, i + 1)).contains(t) by {
        if tiles_from(st, i).contains(t) {
            let j = choose|j: int| i <= j < st.len() && tile_set(st[j].1).contains(t);
            if j > i {
                assert(tiles_from(st, i + 1).contains(t));
            }
        }
        if tiles_from(st, i + 1).contains(t) {
            let j = choose|j: int| i + 1 <= j < st.len() && tile_set(st[j].1).contains(t);
        }
    }
    assert(tiles_from(st, i) =~= tile_set(st[i].1).union(tiles_from(st, i + 1)));
    assert forall|t: Tile| #[trigger] tiles_from(st, i + 1).contains(t) implies t.0 > st[i].2 by {
        let j = choose|j: int| i + 1 <= j < st.len() && tile_set(st[j].1).contains(t);
        lemma_columns_ordered(st, i, j);
    }
    assert(tiles_from(st, st.len() as int) =~= Set::<Tile>::empty());
}

/// Distinct components of one set do not touch.
pub proof fn lemma_components_apart(c: Set<Tile>, d: Set<Tile>, s: Set<Tile>)
    requires
        is_component(c, s),
        is_component(d, s),
        c != d,
    ensures
        c.disjoint(d),
        !sets_touch(c, d),
{
    assert(c.disjoint(d)) by {
        if !c.disjoint(d) {
            let t = choose|t: Tile| c.contains(t) && d.contains(t);
            lemma_component_unique(c, d, s, t);
        }
    }
    if sets_touch(c, d) {
        let (x, y) = choose|x: Tile, y: Tile| c.contains(x) && d.contains(y) && adjacent(x, y);
        assert(s.contains(y));
        assert(!c.contains(y));
    }
}

/// A connected part of `u` that meets a component of `u` lies within it.
pub proof fn lemma_within_component(q: Set<Tile>, c: Set<Tile>, u: Set<Tile>, t: Tile)
    requires
        connected(q),
        q.subset_of(u),
        is_component(c, u),
        q.contains(t),
        c.contains(t),
    ensures
        q.subset_of(c),
{
    let w = q.intersect(c);
    assert(closed_in(w, q)) by {
        assert forall|a: Tile, b: Tile| w.contains(a) && q.contains(b) && !w.contains(b) implies !#[trigger] adjacent(a, b) by {
            assert(u.contains(b));
        }
    }
    assert(w.contains(t));
    assert(w == q);
}

/// A component of strip `j`'s tiles that reaches neither edge of the strip
/// is a component of the tiles from any strip `i <= j` on.
pub proof fn lemma_interior_component(st: Seq<Strip>, i: int, j: int, e: Set<Tile>)
    requires
        well_formed_strips(st),
        0 <= i <= j < st.len(),
        strip_interior(st, j).contains(e),
    ensures
        is_component(e, tiles_from(st, i)),
{
    let s = tiles_from(st, i);
    let p = tile_set(st[j].1);
    assert(e.subset_of(s)) by {
        assert forall|t: Tile| e.contains(t) implies s.contains(t) by {
            assert(p.contains(t));
        }
    }
    assert(closed_in(e, s)) by {
        assert forall|a: Tile, b: Tile| e.contains(a) && s.contains(b) && !e.contains(b) implies !#[trigger] adjacent(a, b) by {
            if adjacent(a, b) {
                let k = choose|k: int| i <= k < st.len() && tile_set(st[k].1).contains(b);
                if k == j {
                } else {
                    lemma_cross(st, j, k, a, b);
                    assert(reaches_column(e, st[j].2) || reaches_column(e, st[j].0));
                }
            }
        }
    }
}

/// `t` lies in a component of `x` that reaches column `col`.
pub open spec fn in_edge_piece(x: Set<Tile>, col: i32, t: Tile) -> bool {
    exists|c: Set<Tile>| #[trigger] is_component(c, x) && reaches_column(c, col) && c.contains(t)
}

/// The pieces that meet at the border between `p`, whose edge columns are
/// `lp` and `rp`, and `s`, which starts at column `ls`: the components of
/// `p` that reach `rp`, split by whether they also reach `lp`, and those of
/// `s` that reach `ls`.
pub open spec fn border_lists(p: Set<Tile>, s: Set<Tile>, lp: i32, rp: i32, ls: i32, rs: Seq<Set<Tile>>, lrs: Seq<Set<Tile>>, fs: Seq<Set<Tile>>) -> bool {
    &&& rs.to_set() == edge_components(p, lp, rp, false, true)
    &&& lrs.to_set() == edge_components(p, lp, rp, true, true)
    &&& forall|c: Set<Tile>| #[trigger] fs.contains(c) <==> is_component(c, s) && reaches_column(c, ls)
}

/// Two neighbouring blocks of columns: `p` within `[lp, rp]`, `s` from
/// `ls = rp + 1` on; tiles of the two touch only across that border.
pub open spec fn neighbour_blocks(p: Set<Tile>, s: Set<Tile>, lp: i32, rp: i32, ls: i32) -> bool {
    &&& lp <= rp
    &&& rp + 1 == ls
    &&& forall|t: Tile| #[trigger] p.contains(t) ==> lp <= t.0 <= rp
    &&& forall|t: Tile| #[trigger] s.contains(t) ==> ls <= t.0
    &&& covered_by_components(p)
    &&& covered_by_components(s)
}

proof fn lemma_border_union(p: Set<Tile>, s: Set<Tile>, lp: i32, rp: i32, ls: i32, rs: Seq<Set<Tile>>, lrs: Seq<Set<Tile>>, fs: Seq<Set<Tile>>)
    requires
        neighbour_blocks(p, s, lp, rp, ls),
        border_lists(p, s, lp, rp, ls, rs, lrs, fs),
    ensures
        forall|t: Tile| #[trigger] union_of(rs + lrs + fs).contains(t) <==> in_edge_piece(p, rp, t) || in_edge_piece(s, ls, t),
        forall|t: Tile| #[trigger] union_of(lrs).contains(t) <==> exists|c: Set<Tile>| #[trigger] edge_components(p, lp, rp, true, true).contains(c) && c.contains(t),
{
    let all = rs + lrs + fs;
    assert forall|t: Tile| #[trigger] union_of(all).contains(t) <==> in_edge_piece(p, rp, t) || in_edge_piece(s, ls, t) by {
        if union_of(all).contains(t) {
            let c = choose|c: Set<Tile>| all.contains(c) && c.contains(t);
            let i = choose|i: int| 0 <= i < all.len() && all[i] == c;
            if i < rs.len() {
                assert(rs[i] == c);
                assert(rs.to_set().contains(c));
            } else if i < rs.len() + lrs.len() {
                assert(lrs[i - rs.len()] == c);
                assert(lrs.to_set().contains(c));
            } else {
                assert(fs[i - rs.len() - lrs.len()] == c);
                assert(fs.contains(c));
            }
        }
        if in_edge_piece(p, rp, t) {
            let c = choose|c: Set<Tile>| is_component(c, p) && reaches_column(c, rp) && c.contains(t);
            if reaches_column(c, lp) {
                assert(lrs.to_set().contains(c));
                let i = choose|i: int| 0 <= i < lrs.len() && lrs[i] == c;
                assert(all[i + rs.len()] == c);
            } else {
                assert(rs.to_set().contains(c));
                let i = choose|i: int| 0 <= i < rs.len() && rs[i] == c;
                assert(all[i] == c);
            }
            assert(all.contains(c));
        }
        if in_edge_piece(s, ls, t) {
            let c = choose|c: Set<Tile>| is_component(c, s) && reaches_column(c, ls) && c.contains(t);
            assert(fs.contains(c));
            let i = choose|i: int| 0 <= i < fs.len() && fs[i] == c;
            assert(all[i + rs.len() + lrs.len()] == c);
            assert(all.contains(c));
        }
    }
    assert forall|t: Tile| #[trigger] union_of(lrs).contains(t) <==> exists|c: Set<Tile>| #[trigger] edge_components(p, lp, rp, true, true).contains(c) && c.contains(t) by {
        if union_of(lrs).contains(t) {
            let c = choose|c: Set<Tile>| lrs.contains(c) && c.contains(t);
            assert(lrs.to_set().contains(c));
        }
        if exists|c: Set<Tile>| #[trigger] edge_components(p, lp, rp, true, true).contains(c) && c.contains(t) {
            let c = choose|c: Set<Tile>| #[trigger] edge_components(p, lp, rp, true, true).contains(c) && c.contains(t);
            assert(lrs.to_set().contains(c));
        }
    }
}

/// Stitching at one border: the components of the border's pieces, those
/// of `p` that reach neither its right edge nor the border, and those of `s`
/// that do not reach the border, are the components of both blocks
/// together, and they cover it.
pub proof fn lemma_glue(p: Set<Tile>, s: Set<Tile>, lp: i32, rp: i32, ls: i32, rs: Seq<Set<Tile>>, lrs: Seq<Set<Tile>>, fs: Seq<Set<Tile>>)
    requires
        neighbour_blocks(p, s, lp, rp, ls),
        border_lists(p, s, lp, rp, ls, rs, lrs, fs),
        covered_by_components(union_of(rs + lrs + fs)),
    ensures
        forall|c: Set<Tile>| #[trigger] is_component(c, union_of(rs + lrs + fs)) ==> is_component(c, p.union(s))
            && (reaches_column(c, lp) <==> !c.disjoint(union_of(lrs))),
        forall|c: Set<Tile>| #[trigger] is_component(c, p) && !reaches_column(c, rp) ==> is_component(c, p.union(s)),
        forall|c: Set<Tile>| #[trigger] is_component(c, s) && !reaches_column(c, ls) ==> is_component(c, p.union(s)),
        forall|c: Set<Tile>| #[trigger] is_component(c, p.union(s)) ==> is_component(c, union_of(rs + lrs + fs))
            || (is_component(c, p) && !reaches_column(c, rp)) || (is_component(c, s) && !reaches_column(c, ls)),
        covered_by_components(p.union(s)),
        forall|t: Tile| #[trigger] union_of(rs + lrs + fs).contains(t) <==> in_edge_piece(p, rp, t) || in_edge_piece(s, ls, t),
{
    let u = union_of(rs + lrs + fs);
    let lrt = union_of(lrs);
    let ps = p.union(s);
    lemma_border_union(p, s, lp, rp, ls, rs, lrs, fs);
    assert(u.subset_of(ps)) by {
        assert forall|t: Tile| u.contains(t) implies ps.contains(t) by {
            if in_edge_piece(p, rp, t) {
                let c = choose|c: Set<Tile>| is_component(c, p) && reaches_column(c, rp) && c.contains(t);
            } else {
                let c = choose|c: Set<Tile>| is_component(c, s) && reaches_column(c, ls) && c.contains(t);
            }
        }
    }
    // a tile of `p` next to one of `s` lies on the border
    assert forall|a: Tile, b: Tile| p.contains(a) && s.contains(b) && adjacent(a, b) implies a.0 == rp && b.0 == ls by {}
    assert forall|c: Set<Tile>| #[trigger] is_component(c, u) implies is_component(c, ps)
        && (reaches_column(c, lp) <==> !c.disjoint(lrt)) by {
        assert(closed_in(c, ps)) by {
            assert forall|a: Tile, b: Tile| c.contains(a) && ps.contains(b) && !c.contains(b) implies !#[trigger] adjacent(a, b) by {
                if adjacent(a, b) && !u.contains(b) {
                    assert(u.contains(a));
                    if p.contains(a) && in_edge_piece(p, rp, a) {
                        let q = choose|q: Set<Tile>| is_component(q, p) && reaches_column(q, rp) && q.contains(a);
                        if p.contains(b) {
                            assert(q.contains(b));
                            assert(in_edge_piece(p, rp, b));
                        } else {
                            assert(s.contains(b));
                            let d = choose|d: Set<Tile>| #[trigger] is_component(d, s) && d.contains(b);
                            assert(reaches_column(d, ls));
                            assert(in_edge_piece(s, ls, b));
                        }
                    } else if p.contains(a) {
                        let q = choose|q: Set<Tile>| is_component(q, s) && reaches_column(q, ls) && q.contains(a);
                        assert(s.contains(a));
                    } else if in_edge_piece(s, ls, a) {
                        let q = choose|q: Set<Tile>| is_component(q, s) && reaches_column(q, ls) && q.contains(a);
                        if s.contains(b) {
                            assert(q.contains(b));
                            assert(in_edge_piece(s, ls, b));
                        } else {
                            assert(p.contains(b));
                            assert(adjacent(b, a));
                            let d = choose|d: Set<Tile>| #[trigger] is_component(d, p) && d.contains(b);
                            assert(reaches_column(d, rp));
                            assert(in_edge_piece(p, rp, b));
                        }
                    } else {
                        let q = choose|q: Set<Tile>| is_component(q, p) && reaches_column(q, rp) && q.contains(a);
                        assert(p.contains(a));
                    }
                }
            }
        }
        assert(c.subset_of(ps));
        if reaches_column(c, lp) {
            let t = choose|t: Tile| c.contains(t) && t.0 == lp;
            assert(u.contains(t));
            if in_edge_piece(s, ls, t) {
                let q = choose|q: Set<Tile>| is_component(q, s) && reaches_column(q, ls) && q.contains(t);
                assert(s.contains(t));
            }
            let q = choose|q: Set<Tile>| is_component(q, p) && reaches_column(q, rp) && q.contains(t);
            assert(reaches_column(q, lp));
            assert(edge_components(p, lp, rp, true, true).contains(q));
            assert(lrt.contains(t));
        }
        if !c.disjoint(lrt) {
            let t = choose|t: Tile| c.contains(t) && lrt.contains(t);
            let q = choose|q: Set<Tile>| #[trigger] edge_components(p, lp, rp, true, true).contains(q) && q.contains(t);
            assert(q.subset_of(u)) by {
                assert forall|x: Tile| q.contains(x) implies u.contains(x) by {
                    assert(in_edge_piece(p, rp, x));
                }
            }
            lemma_within_component(q, c, u, t);
            let x = choose|x: Tile| q.contains(x) && x.0 == lp;
            assert(c.contains(x));
        }
    }
    assert forall|c: Set<Tile>| #[trigger] is_component(c, p) && !reaches_column(c, rp) implies is_component(c, ps) by {
        assert(closed_in(c, ps)) by {
            assert forall|a: Tile, b: Tile| c.contains(a) && ps.contains(b) && !c.contains(b) implies !#[trigger] adjacent(a, b) by {
                if adjacent(a, b) && s.contains(b) {
                    assert(p.contains(a));
                    assert(a.0 == rp);
                }
            }
        }
    }
    assert forall|c: Set<Tile>| #[trigger] is_component(c, s) && !reaches_column(c, ls) implies is_component(c, ps) by {
        assert(closed_in(c, ps)) by {
            assert forall|a: Tile, b: Tile| c.contains(a) && ps.contains(b) && !c.contains(b) implies !#[trigger] adjacent(a, b) by {
                if adjacent(a, b) && p.contains(b) {
                    assert(s.contains(a));
                    assert(adjacent(b, a));
                    assert(a.0 == ls);
                }
            }
        }
    }
    // every tile of both blocks lies in one of these components
    assert forall|t: Tile| ps.contains(t) implies exists|c: Set<Tile>| #[trigger] is_component(c, ps) && c.contains(t)
        && (is_component(c, u) || (is_component(c, p) && !reaches_column(c, rp)) || (is_component(c, s) && !reaches_column(c, ls))) by {
        if u.contains(t) {
            let c = choose|c: Set<Tile>| #[trigger] is_component(c, u) && c.contains(t);
            assert(is_component(c, ps));
        } else if p.contains(t) {
            let c = choose|c: Set<Tile>| #[trigger] is_component(c, p) && c.contains(t);
            if reaches_column(c, rp) {
                assert(in_edge_piece(p, rp, t));
            }
            assert(is_component(c, ps));
        } else {
            let c = choose|c: Set<Tile>| #[trigger] is_component(c, s) && c.contains(t);
            if reaches_column(c, ls) {
                assert(in_edge_piece(s, ls, t));
            }
            assert(is_component(c, ps));
        }
    }
    assert forall|c: Set<Tile>| #[trigger] is_component(c, ps) implies is_component(c, u)
        || (is_component(c, p) && !reaches_column(c, rp)) || (is_component(c, s) && !reaches_column(c, ls)) by {
        let t = c.choose();
        assert(c.contains(t));
        let d = choose|d: Set<Tile>| #[trigger] is_component(d, ps) && d.contains(t)
            && (is_component(d, u) || (is_component(d, p) && !reaches_column(d, rp)) || (is_component(d, s) && !reaches_column(d, ls)));
        lemma_component_unique(c, d, ps, t);
    }
}

/// The clusters that reach the border column `col` of `s`: exactly its
/// components that do, each once.
pub open spec fn front_ok(fs: Seq<Set<Tile>>, s: Set<Tile>, col: i32) -> bool {
    &&& forall|c: Set<Tile>| #[trigger] fs.contains(c) <==> is_component(c, s) && reaches_column(c, col)
    &&& pairwise_disjoint(fs)
}

/// The components of `s` that do not reach column `col` and have at least
/// `m` tiles.
pub open spec fn settled(s: Set<Tile>, col: i32, m: nat) -> Set<Set<Tile>> {
    Set::new(|c: Set<Tile>| is_component(c, s) && !reaches_column(c, col) && c.len() >= m)
}

/// The clusters given out so far: the interiors of all strips and the
/// settled components of `s`, each once.
pub open spec fn emitted_ok(es: Seq<Set<Tile>>, st: Seq<Strip>, s: Set<Tile>, col: i32, m: nat) -> bool {
    &&& forall|i: int| 0 <= i < es.len() ==> #[trigger] interiors(st, m).contains(es[i]) || settled(s, col, m).contains(es[i])
    &&& es.to_set() == interiors(st, m).union(settled(s, col, m))
    &&& pairwise_disjoint(es)
}

proof fn lemma_concat_contains(a: Seq<Set<Tile>>, b: Seq<Set<Tile>>)
    ensures
        forall|x: Set<Tile>| #[trigger] (a + b).contains(x) <==> a.contains(x) || b.contains(x),
{
    assert forall|x: Set<Tile>| #[trigger] (a + b).contains(x) <==> a.contains(x) || b.contains(x) by {
        if (a + b).contains(x) {
            let i = choose|i: int| 0 <= i < (a + b).len() && (a + b)[i] == x;
            if i < a.len() {
                assert(a[i] == x);
            } else {
                assert(b[i - a.len()] == x);
            }
        }
        if a.contains(x) {
            let i = choose|i: int| 0 <= i < a.len() && a[i] == x;
            assert((a + b)[i] == x);
        }
        if b.contains(x) {
            let i = choose|i: int| 0 <= i < b.len() && b[i] == x;
            assert((a + b)[i + a.len()] == x);
        }
    }
}

/// Two sequences of pairwise disjoint sets, every set of one disjoint from
/// every set of the other, make one.
proof fn lemma_disjoint_concat(a: Seq<Set<Tile>>, b: Seq<Set<Tile>>)
    requires
        pairwise_disjoint(a),
        pairwise_disjoint(b),
        forall|x: Set<Tile>, y: Set<Tile>| #[trigger] a.contains(x) && #[trigger] b.contains(y) ==> x.disjoint(y),
    ensures
        pairwise_disjoint(a + b),
{
    let ab = a + b;
    assert forall|i: int, j: int| 0 <= i < ab.len() && 0 <= j < ab.len() && i != j implies (#[trigger] ab[i]).disjoint(#[trigger] ab[j]) by {
        if i < a.len() && j < a.len() {
            assert(ab[i] == a[i] && ab[j] == a[j]);
        } else if i >= a.len() && j >= a.len() {
            assert(ab[i] == b[i - a.len()] && ab[j] == b[j - a.len()]);
        } else if i < a.len() {
            assert(a.contains(ab[i]));
            assert(b.contains(ab[j]));
        } else {
            assert(a.contains(ab[j]));
            assert(b.contains(ab[i]));
        }
    }
}

/// The pieces at the border of strip `i - 1` and the strips from `i` on
/// meet what joining requires.
pub proof fn lemma_border_pieces(st: Seq<Strip>, i: int, rs: Seq<Set<Tile>>, lrs: Seq<Set<Tile>>, fs: Seq<Set<Tile>>)
    requires
        well_formed_strips(st),
        1 <= i < st.len(),
        rs.to_set() == edge_components(tile_set(st[i - 1].1), st[i - 1].0, st[i - 1].2, false, true),
        lrs.to_set() == edge_components(tile_set(st[i - 1].1), st[i - 1].0, st[i - 1].2, true, true),
        pairwise_disjoint(rs),
        pairwise_disjoint(lrs),
        front_ok(fs, tiles_from(st, i), st[i].0),
    ensures
        are_pieces(rs + lrs + fs),
        pairwise_apart(rs + lrs),
        pairwise_apart(fs),
{
    let p = tile_set(st[i - 1].1);
    let s = tiles_from(st, i);
    lemma_tiles_from_split(st, i - 1);
    assert(st[i].0 == st[i - 1].2 + 1);
    assert forall|c: Set<Tile>| #[trigger] rs.contains(c) || lrs.contains(c) implies is_component(c, p) && reaches_column(c, st[i - 1].2) by {
        if rs.contains(c) {
            assert(rs.to_set().contains(c));
        } else {
            assert(lrs.to_set().contains(c));
        }
    }
    lemma_concat_contains(rs, lrs);
    assert forall|x: Set<Tile>, y: Set<Tile>| #[trigger] rs.contains(x) && #[trigger] lrs.contains(y) implies x.disjoint(y) by {
        assert(rs.to_set().contains(x));
        assert(lrs.to_set().contains(y));
        if x == y {
            assert(!reaches_column(x, st[i - 1].0));
        }
        lemma_components_apart(x, y, p);
    }
    lemma_disjoint_concat(rs, lrs);
    let a = rs + lrs;
    assert forall|x: Set<Tile>, y: Set<Tile>| #[trigger] a.contains(x) && #[trigger] fs.contains(y) implies x.disjoint(y) by {
        assert(is_component(y, s));
        assert(rs.contains(x) || lrs.contains(x));
        if rs.contains(x) {
            assert(rs.to_set().contains(x));
        } else {
            assert(lrs.to_set().contains(x));
        }
        assert(is_component(x, p));
        assert forall|t: Tile| x.contains(t) implies !y.contains(t) by {
            assert(p.contains(t));
            if y.contains(t) {
                assert(s.contains(t));
            }
        }
    }
    lemma_disjoint_concat(a, fs);
    lemma_concat_contains(a, fs);
    let all = a + fs;
    assert forall|k: int| 0 <= k < all.len() implies (#[trigger] all[k]).finite() && all[k].len() > 0 && connected(all[k]) by {
        assert(all.contains(all[k]));
        if a.contains(all[k]) {
            assert(is_component(all[k], p));
        } else {
            assert(is_component(all[k], s));
        }
    }
    assert forall|j: int, k: int| 0 <= j < a.len() && 0 <= k < a.len() && j != k implies !sets_touch(#[trigger] a[j], #[trigger] a[k]) by {
        assert(a.contains(a[j]));
        assert(a.contains(a[k]));
        assert(a[j].disjoint(a[k]));
        let t = a[j].choose();
        assert(is_component(a[j], p));
        assert(a[j].contains(t));
        lemma_components_apart(a[j], a[k], p);
    }
    assert forall|j: int, k: int| 0 <= j < fs.len() && 0 <= k < fs.len() && j != k implies !sets_touch(#[trigger] fs[j], #[trigger] fs[k]) by {
        assert(fs.contains(fs[j]));
        assert(fs.contains(fs[k]));
        assert(fs[j].disjoint(fs[k]));
        let t = fs[j].choose();
        assert(fs[j].contains(t));
        lemma_components_apart(fs[j], fs[k], s);
    }
}

/// What holds at the border between strip `i - 1` and the strips from `i`
/// on once the join there is done: `rs`, `lrs` and `lnext` are strip
/// `i - 1`'s clusters that reach its right edge only, both edges and its
/// left edge only, `fs` the clusters at the border from the right, `js` and
/// `ts` what the join returned, `es` the clusters given out before.
pub open spec fn step_context(
    st: Seq<Strip>,
    i: int,
    m: nat,
    rs: Seq<Set<Tile>>,
    lrs: Seq<Set<Tile>>,
    fs: Seq<Set<Tile>>,
    lnext: Seq<Set<Tile>>,
    js: Seq<Set<Tile>>,
    ts: Seq<Set<Tile>>,
    es: Seq<Set<Tile>>,
) -> bool {
    &&& well_formed_strips(st)
    &&& 1 <= i < st.len()
    &&& rs.to_set() == edge_components(tile_set(st[i - 1].1), st[i - 1].0, st[i - 1].2, false, true)
    &&& lrs.to_set() == edge_components(tile_set(st[i - 1].1), st[i - 1].0, st[i - 1].2, true, true)
    &&& lnext.to_set() == edge_components(tile_set(st[i - 1].1), st[i - 1].0, st[i - 1].2, true, false)
    &&& pairwise_disjoint(lnext)
    &&& covered_by_components(tile_set(st[i - 1].1))
    &&& front_ok(fs, tiles_from(st, i), st[i].0)
    &&& covered_by_components(tiles_from(st, i))
    &&& emitted_ok(es, st, tiles_from(st, i), st[i].0, m)
    &&& js.to_set() == Set::new(|c: Set<Tile>| is_component(c, union_of(rs + lrs + fs)) && c.disjoint(union_of(lrs)) && c.len() >= m)
    &&& ts.to_set() == Set::new(|c: Set<Tile>| is_component(c, union_of(rs + lrs + fs)) && !c.disjoint(union_of(lrs)))
    &&& pairwise_disjoint(js)
    &&& pairwise_disjoint(ts)
    &&& covered_by_components(union_of(rs + lrs + fs))
}

proof fn lemma_step_glue(st: Seq<Strip>, i: int, m: nat, rs: Seq<Set<Tile>>, lrs: Seq<Set<Tile>>, fs: Seq<Set<Tile>>, lnext: Seq<Set<Tile>>, js: Seq<Set<Tile>>, ts: Seq<Set<Tile>>, es: Seq<Set<Tile>>)
    requires
        step_context(st, i, m, rs, lrs, fs, lnext, js, ts, es),
    ensures
        tiles_from(st, i - 1) == tile_set(st[i - 1].1).union(tiles_from(st, i)),
        tile_set(st[i - 1].1).disjoint(tiles_from(st, i)),
        st[i].0 == st[i - 1].2 + 1,
        forall|c: Set<Tile>, col: i32| #[trigger] is_component(c, tiles_from(st, i)) && col <= st[i - 1].2 ==> !#[trigger] reaches_column(c, col),
        forall|c: Set<Tile>| #[trigger] is_component(c, union_of(rs + lrs + fs)) ==> is_component(c, tiles_from(st, i - 1))
            && (reaches_column(c, st[i - 1].0) <==> !c.disjoint(union_of(lrs))),
        forall|c: Set<Tile>| #[trigger] is_component(c, tile_set(st[i - 1].1)) && !reaches_column(c, st[i - 1].2) ==> is_component(c, tiles_from(st, i - 1)),
        forall|c: Set<Tile>| #[trigger] is_component(c, tiles_from(st, i)) && !reaches_column(c, st[i].0) ==> is_component(c, tiles_from(st, i - 1)),
        forall|c: Set<Tile>| #[trigger] is_component(c, tiles_from(st, i - 1)) ==> is_component(c, union_of(rs + lrs + fs))
            || (is_component(c, tile_set(st[i - 1].1)) && !reaches_column(c, st[i - 1].2)) || (is_component(c, tiles_from(st, i)) && !reaches_column(c, st[i].0)),
        covered_by_components(tiles_from(st, i - 1)),
        forall|t: Tile| #[trigger] union_of(rs + lrs + fs).contains(t) <==> in_edge_piece(tile_set(st[i - 1].1), st[i - 1].2, t) || in_edge_piece(tiles_from(st, i), st[i].0, t),
{
    let p = tile_set(st[i - 1].1);
    let s = tiles_from(st, i);
    let lp = st[i - 1].0;
    let rp = st[i - 1].2;
    let ls = st[i].0;
    lemma_tiles_from_split(st, i - 1);
    assert(ls == rp + 1);
    assert(neighbour_blocks(p, s, lp, rp, ls));
    assert(border_lists(p, s, lp, rp, ls, rs, lrs, fs));
    lemma_glue(p, s, lp, rp, ls, rs, lrs, fs);
    assert forall|c: Set<Tile>, col: i32| #[trigger] is_component(c, s) && col <= rp implies !#[trigger] reaches_column(c, col) by {
        if reaches_column(c, col) {
            let t = choose|t: Tile| c.contains(t) && t.0 == col;
            assert(s.contains(t));
        }
    }
}

/// After the join, the clusters at the next border are those of strip
/// `i - 1` that reach its left edge only and those the join carried on.
proof fn lemma_front_members(p: Set<Tile>, s: Set<Tile>, sp: Set<Tile>, u: Set<Tile>, lrt: Set<Tile>, lp: i32, rp: i32, ls: i32, lnext: Seq<Set<Tile>>, ts: Seq<Set<Tile>>)
    requires
        lnext.to_set() == edge_components(p, lp, rp, true, false),
        ts.to_set() == Set::new(|c: Set<Tile>| is_component(c, u) && !c.disjoint(lrt)),
        forall|c: Set<Tile>| #[trigger] is_component(c, u) ==> is_component(c, sp) && (reaches_column(c, lp) <==> !c.disjoint(lrt)),
        forall|c: Set<Tile>| #[trigger] is_component(c, p) && !reaches_column(c, rp) ==> is_component(c, sp),
        forall|c: Set<Tile>| #[trigger] is_component(c, sp) ==> is_component(c, u) || (is_component(c, p) && !reaches_column(c, rp)) || (is_component(c, s) && !reaches_column(c, ls)),
        forall|c: Set<Tile>| #[trigger] is_component(c, s) ==> !reaches_column(c, lp),
    ensures
        forall|c: Set<Tile>| #[trigger] (lnext + ts).contains(c) <==> is_component(c, sp) && reaches_column(c, lp),
{
    lemma_concat_contains(lnext, ts);
    assert forall|c: Set<Tile>| #[trigger] (lnext + ts).contains(c) <==> is_component(c, sp) && reaches_column(c, lp) by {
        if lnext.contains(c) {
            assert(lnext.to_set().contains(c));
        }
        if ts.contains(c) {
            assert(ts.to_set().contains(c));
        }
        if is_component(c, sp) && reaches_column(c, lp) {
            if is_component(c, u) {
                assert(ts.to_set().contains(c));
            } else if is_component(c, p) && !reaches_column(c, rp) {
                assert(lnext.to_set().contains(c));
            }
        }
    }
}

proof fn lemma_front_disjoint(p: Set<Tile>, sp: Set<Tile>, u: Set<Tile>, lp: i32, rp: i32, lnext: Seq<Set<Tile>>, ts: Seq<Set<Tile>>, lrs: Seq<Set<Tile>>)
    requires
        lnext.to_set() == edge_components(p, lp, rp, true, false),
        ts.to_set() == Set::new(|c: Set<Tile>| is_component(c, u) && !c.disjoint(union_of(lrs))),
        lrs.to_set() == edge_components(p, lp, rp, true, true),
        pairwise_disjoint(lnext),
        pairwise_disjoint(ts),
        forall|c: Set<Tile>| #[trigger] is_component(c, u) ==> is_component(c, sp),
        forall|c: Set<Tile>| #[trigger] is_component(c, p) && !reaches_column(c, rp) ==> is_component(c, sp),
    ensures
        pairwise_disjoint(lnext + ts),
{
    let lrt = union_of(lrs);
    assert forall|x: Set<Tile>, y: Set<Tile>| #[trigger] lnext.contains(x) && #[trigger] ts.contains(y) implies x.disjoint(y) by {
        assert(lnext.to_set().contains(x));
        assert(ts.to_set().contains(y));
        if x == y {
            let t = choose|t: Tile| y.contains(t) && lrt.contains(t);
            let q = choose|q: Set<Tile>| lrs.contains(q) && q.contains(t);
            assert(lrs.to_set().contains(q));
            lemma_component_unique(q, x, p, t);
        }
        lemma_components_apart(x, y, sp);
    }
    lemma_disjoint_concat(lnext, ts);
}

/// After the join, the clusters at the next border are those of strip
/// `i - 1` that reach its left edge only and those the join carried on.
pub proof fn lemma_step_front(st: Seq<Strip>, i: int, m: nat, rs: Seq<Set<Tile>>, lrs: Seq<Set<Tile>>, fs: Seq<Set<Tile>>, lnext: Seq<Set<Tile>>, js: Seq<Set<Tile>>, ts: Seq<Set<Tile>>, es: Seq<Set<Tile>>)
    requires
        step_context(st, i, m, rs, lrs, fs, lnext, js, ts, es),
    ensures
        front_ok(lnext + ts, tiles_from(st, i - 1), st[i - 1].0),
        covered_by_components(tiles_from(st, i - 1)),
{
    let p = tile_set(st[i - 1].1);
    let s = tiles_from(st, i);
    let sp = tiles_from(st, i - 1);
    let u = union_of(rs + lrs + fs);
    lemma_step_glue(st, i, m, rs, lrs, fs, lnext, js, ts, es);
    assert forall|c: Set<Tile>| #[trigger] is_component(c, s) implies !reaches_column(c, st[i - 1].0) by {
        assert(st[i - 1].0 <= st[i - 1].2);
    }
    lemma_front_members(p, s, sp, u, union_of(lrs), st[i - 1].0, st[i - 1].2, st[i].0, lnext, ts);
    lemma_front_disjoint(p, sp, u, st[i - 1].0, st[i - 1].2, lnext, ts, lrs);
}

/// After the join, the clusters given out are the interiors of all strips
/// and the settled components from strip `i - 1` on.
pub proof fn lemma_step_emitted(st: Seq<Strip>, i: int, m: nat, rs: Seq<Set<Tile>>, lrs: Seq<Set<Tile>>, fs: Seq<Set<Tile>>, lnext: Seq<Set<Tile>>, js: Seq<Set<Tile>>, ts: Seq<Set<Tile>>, es: Seq<Set<Tile>>)
    requires
        step_context(st, i, m, rs, lrs, fs, lnext, js, ts, es),
    ensures
        (es + js).to_set() == interiors(st, m).union(settled(tiles_from(st, i - 1), st[i - 1].0, m)),
        forall|k: int| 0 <= k < (es + js).len() ==> #[trigger] interiors(st, m).contains((es + js)[k]) || settled(tiles_from(st, i - 1), st[i - 1].0, m).contains((es + js)[k]),
{
    let p = tile_set(st[i - 1].1);
    let s = tiles_from(st, i);
    let lp = st[i - 1].0;
    let rp = st[i - 1].2;
    let ls = st[i].0;
    let u = union_of(rs + lrs + fs);
    let lrt = union_of(lrs);
    let sp = tiles_from(st, i - 1);
    lemma_step_glue(st, i, m, rs, lrs, fs, lnext, js, ts, es);
    // the clusters given out
    let es2 = es + js;
    lemma_concat_contains(es, js);
    assert forall|c: Set<Tile>| settled(s, ls, m).contains(c) implies settled(sp, lp, m).contains(c) by {}
    assert forall|k: int| 0 <= k < es2.len() implies #[trigger] interiors(st, m).contains(es2[k]) || settled(sp, lp, m).contains(es2[k]) by {
        if k < es.len() {
            assert(es2[k] == es[k]);
        } else {
            assert(es2[k] == js[k - es.len()]);
            assert(js.contains(js[k - es.len()]));
            assert(js.to_set().contains(es2[k]));
        }
    }
    assert forall|c: Set<Tile>| es2.to_set().contains(c) <==> interiors(st, m).union(settled(sp, lp, m)).contains(c) by {
        if es2.contains(c) {
            if es.contains(c) {
                assert(es.to_set().contains(c));
            } else {
                assert(js.to_set().contains(c));
            }
        }
        if interiors(st, m).contains(c) {
            assert(es.to_set().contains(c));
        } else if settled(sp, lp, m).contains(c) {
            if is_component(c, u) {
                assert(js.to_set().contains(c));
            } else if is_component(c, p) && !reaches_column(c, rp) {
                assert(strip_interior(st, i - 1).contains(c));
                assert(interiors(st, m).contains(c));
                assert(es.to_set().contains(c));
            } else {
                assert(settled(s, ls, m).contains(c));
                assert(es.to_set().contains(c));
            }
        }
    }
    assert(es2.to_set() =~= interiors(st, m).union(settled(sp, lp, m)));
}

/// The clusters the join gives out share no tile with those given out
/// before.
pub proof fn lemma_step_disjoint(st: Seq<Strip>, i: int, m: nat, rs: Seq<Set<Tile>>, lrs: Seq<Set<Tile>>, fs: Seq<Set<Tile>>, lnext: Seq<Set<Tile>>, js: Seq<Set<Tile>>, ts: Seq<Set<Tile>>, es: Seq<Set<Tile>>)
    requires
        step_context(st, i, m, rs, lrs, fs, lnext, js, ts, es),
    ensures
        pairwise_disjoint(es + js),
{
    let p = tile_set(st[i - 1].1);
    let s = tiles_from(st, i);
    let lp = st[i - 1].0;
    let rp = st[i - 1].2;
    let ls = st[i].0;
    let u = union_of(rs + lrs + fs);
    let lrt = union_of(lrs);
    let sp = tiles_from(st, i - 1);
    lemma_step_glue(st, i, m, rs, lrs, fs, lnext, js, ts, es);
    assert forall|x: Set<Tile>, y: Set<Tile>| #[trigger] es.contains(x) && #[trigger] js.contains(y) implies x.disjoint(y) by {
        assert(js.to_set().contains(y));
        assert(es.to_set().contains(x));
        if !x.disjoint(y) {
            let t = choose|t: Tile| x.contains(t) && y.contains(t);
            assert(u.contains(t));
            if settled(s, ls, m).contains(x) {
                assert(s.contains(t));
                if in_edge_piece(p, rp, t) {
                    let q = choose|q: Set<Tile>| is_component(q, p) && reaches_column(q, rp) && q.contains(t);
                } else {
                    let q = choose|q: Set<Tile>| is_component(q, s) && reaches_column(q, ls) && q.contains(t);
                    lemma_component_unique(q, x, s, t);
                }
            } else {
                let j = choose|j: int| 0 <= j < st.len() && #[trigger] strip_interior(st, j).contains(x) && x.len() >= m;
                assert(tile_set(st[j].1).contains(t));
                if j == i - 1 {
                    if in_edge_piece(p, rp, t) {
                        let q = choose|q: Set<Tile>| is_component(q, p) && reaches_column(q, rp) && q.contains(t);
                        lemma_component_unique(q, x, p, t);
                    } else {
                        let q = choose|q: Set<Tile>| is_component(q, s) && reaches_column(q, ls) && q.contains(t);
                    }
                } else if j >= i {
                    lemma_interior_component(st, i, j, x);
                    assert(s.contains(t));
                    if in_edge_piece(p, rp, t) {
                        let q = choose|q: Set<Tile>| is_component(q, p) && reaches_column(q, rp) && q.contains(t);
                    } else {
                        let q = choose|q: Set<Tile>| is_component(q, s) && reaches_column(q, ls) && q.contains(t);
                        lemma_component_unique(q, x, s, t);
                        let w = choose|w: Tile| x.contains(w) && w.0 == ls;
                        if j > i {
                            lemma_columns_ordered(st, i, j);
                            assert(tile_set(st[j].1).contains(w));
                        }
                    }
                } else {
                    lemma_strips_disjoint(st, j, i - 1);
                    if in_edge_piece(p, rp, t) {
                        let q = choose|q: Set<Tile>| is_component(q, p) && reaches_column(q, rp) && q.contains(t);
                    } else {
                        let q = choose|q: Set<Tile>| is_component(q, s) && reaches_column(q, ls) && q.contains(t);
                        let k = choose|k: int| i <= k < st.len() && tile_set(st[k].1).contains(t);
                        lemma_strips_disjoint(st, j, k);
                    }
                }
            }
        }
    }
    lemma_disjoint_concat(es, js);
}

/// Before the first join: the last strip's clusters at its left edge are
/// the clusters at its border, and the interiors are all that is given out.
pub proof fn lemma_sweep_start(st: Seq<Strip>, m: nat, l: Seq<Set<Tile>>, lr: Seq<Set<Tile>>, r: Seq<Set<Tile>>, es: Seq<Set<Tile>>)
    requires
        well_formed_strips(st),
        st.len() >= 2,
        strip_classes(st, st.len() - 1, l, lr, r),
        es.to_set() == interiors(st, m),
        pairwise_disjoint(es),
    ensures
        front_ok(l, tiles_from(st, st.len() - 1), st[st.len() - 1].0),
        emitted_ok(es, st, tiles_from(st, st.len() - 1), st[st.len() - 1].0, m),
        covered_by_components(tiles_from(st, st.len() - 1)),
{
    let n = st.len() - 1;
    let p = tile_set(st[n].1);
    lemma_tiles_from_split(st, n);
    assert(tiles_from(st, n) =~= p);
    assert forall|c: Set<Tile>| #[trigger] is_component(c, p) implies !reaches_column(c, st[n].2) by {
        if reaches_column(c, st[n].2) {
            let t = choose|t: Tile| c.contains(t) && t.0 == st[n].2;
            assert(p.contains(t));
        }
    }
    assert forall|c: Set<Tile>| #[trigger] l.contains(c) <==> is_component(c, p) && reaches_column(c, st[n].0) by {
        if l.contains(c) {
            assert(l.to_set().contains(c));
        }
        if is_component(c, p) && reaches_column(c, st[n].0) {
            assert(edge_components(p, st[n].0, st[n].2, true, false).contains(c));
            assert(l.to_set().contains(c));
        }
    }
    assert forall|c: Set<Tile>| settled(p, st[n].0, m).contains(c) implies interiors(st, m).contains(c) by {
        assert(strip_interior(st, n).contains(c));
    }
    assert(es.to_set() =~= interiors(st, m).union(settled(p, st[n].0, m)));
    assert forall|k: int| 0 <= k < es.len() implies #[trigger] interiors(st, m).contains(es[k]) || settled(p, st[n].0, m).contains(es[k]) by {
        assert(es.to_set().contains(es[k]));
    }
}

/// After the last join: nothing reaches the left edge of the plane, and what
/// was given out is every component of all the tiles with at least `m`
/// tiles.
pub proof fn lemma_sweep_end(st: Seq<Strip>, m: nat, fs: Seq<Set<Tile>>, es: Seq<Set<Tile>>)
    requires
        well_formed_strips(st),
        front_ok(fs, tiles_from(st, 0), st[0].0),
        emitted_ok(es, st, tiles_from(st, 0), st[0].0, m),
    ensures
        fs.len() == 0,
        es.to_set() == significant_components(tiles_from(st, 0), m),
{
    let t0 = tiles_from(st, 0);
    assert forall|c: Set<Tile>| #[trigger] is_component(c, t0) implies !reaches_column(c, i32::MIN) by {
        if reaches_column(c, i32::MIN) {
            let t = choose|t: Tile| c.contains(t) && t.0 == i32::MIN;
            assert(t0.contains(t));
            let j = choose|j: int| 0 <= j < st.len() && tile_set(st[j].1).contains(t);
        }
    }
    if fs.len() > 0 {
        assert(fs.contains(fs[0]));
    }
    assert forall|c: Set<Tile>| interiors(st, m).union(settled(t0, st[0].0, m)).contains(c) <==> significant_components(t0, m).contains(c) by {
        if interiors(st, m).contains(c) {
            let j = choose|j: int| 0 <= j < st.len() && #[trigger] strip_interior(st, j).contains(c) && c.len() >= m;
            lemma_interior_component(st, 0, j, c);
        }
    }
    assert(es.to_set() =~= significant_components(t0, m));
}

} // verus!
