//! Connected components of a set of tiles under the Moore neighbourhood.

use vstd::prelude::*;
use crate::tiles::{Tile, adjacent};

verus! {

/// No tile of `c` is adjacent to a tile of `s` outside `c`.
pub open spec fn closed_in(c: Set<Tile>, s: Set<Tile>) -> bool {
    forall|a: Tile, b: Tile|
        c.contains(a) && s.contains(b) && !c.contains(b) ==> !#[trigger] adjacent(a, b)
}

/// Every part of `c` that holds a tile and is closed in `c` is all of `c`.
pub open spec fn connected(c: Set<Tile>) -> bool {
    forall|u: Set<Tile>, a: Tile|
        #![trigger closed_in(u, c), u.contains(a)]
        u.subset_of(c) && u.contains(a) && closed_in(u, c) ==> u == c
}

/// `c` is a connected component of `s`: a finite, nonempty, connected part
/// of `s` that no other tile of `s` touches.
pub open spec fn is_component(c: Set<Tile>, s: Set<Tile>) -> bool {
    &&& c.finite()
    &&& c.len() > 0
    &&& c.subset_of(s)
    &&& connected(c)
    &&& closed_in(c, s)
}

/// The components of `s` with at least `m` tiles.
pub open spec fn significant_components(s: Set<Tile>, m: nat) -> Set<Set<Tile>> {
    Set::new(|c: Set<Tile>| is_component(c, s) && c.len() >= m)
}

/// The sets in `cs` have no tile in common.
pub open spec fn pairwise_disjoint(cs: Seq<Set<Tile>>) -> bool {
    forall|i: int, j: int|
        0 <= i < cs.len() && 0 <= j < cs.len() && i != j ==> (#[trigger] cs[i]).disjoint(
            #[trigger] cs[j],
        )
}

/// A single tile is connected.
pub proof fn lemma_singleton_connected(t: Tile)
    ensures
        connected(set![t]),
{
    assert forall|u: Set<Tile>, a: Tile|
        #![trigger closed_in(u, set![t]), u.contains(a)]
        u.subset_of(set![t]) && u.contains(a) && closed_in(u, set![t]) implies u == set![t] by {
        assert(u =~= set![t]);
    }
}

/// Two connected sets with adjacent tiles form a connected union.
pub proof fn lemma_union_connected(a: Set<Tile>, b: Set<Tile>, x: Tile, y: Tile)
    requires
        connected(a),
        connected(b),
        a.contains(x),
        b.contains(y),
        adjacent(x, y),
    ensures
        connected(a.union(b)),
{
    let ab = a.union(b);
    assert forall|u: Set<Tile>, p: Tile|
        #![trigger closed_in(u, ab), u.contains(p)]
        u.subset_of(ab) && u.contains(p) && closed_in(u, ab) implies u == ab by {
        let ua = u.intersect(a);
        let ub = u.intersect(b);
        assert(closed_in(ua, a)) by {
            assert forall|s: Tile, t: Tile|
                ua.contains(s) && a.contains(t) && !ua.contains(t) implies !#[trigger] adjacent(
                s,
                t,
            ) by {
                assert(ab.contains(t));
            }
        }
        assert(closed_in(ub, b)) by {
            assert forall|s: Tile, t: Tile|
                ub.contains(s) && b.contains(t) && !ub.contains(t) implies !#[trigger] adjacent(
                s,
                t,
            ) by {
                assert(ab.contains(t));
            }
        }
        if a.contains(p) {
            assert(ua.contains(p));
            assert(ua == a);
            assert(u.contains(x));
            assert(ab.contains(y));
            assert(u.contains(y));
            assert(ub.contains(y));
            assert(ub == b);
        } else {
            assert(ub.contains(p));
            assert(ub == b);
            assert(u.contains(y));
            assert(ab.contains(x));
            assert(adjacent(y, x));
            assert(u.contains(x));
            assert(ua.contains(x));
            assert(ua == a);
        }
        assert(u =~= ab);
    }
}

/// Two components of one set that share a tile are equal.
pub proof fn lemma_component_unique(c: Set<Tile>, d: Set<Tile>, s: Set<Tile>, t: Tile)
    requires
        is_component(c, s),
        is_component(d, s),
        c.contains(t),
        d.contains(t),
    ensures
        c == d,
{
    let u = c.intersect(d);
    assert(closed_in(u, c)) by {
        assert forall|a: Tile, b: Tile|
            u.contains(a) && c.contains(b) && !u.contains(b) implies !#[trigger] adjacent(a, b) by {
            assert(s.contains(b));
        }
    }
    assert(u.contains(t));
    assert(u == c);
    assert(closed_in(u, d)) by {
        assert forall|a: Tile, b: Tile|
            u.contains(a) && d.contains(b) && !u.contains(b) implies !#[trigger] adjacent(a, b) by {
            assert(s.contains(b));
        }
    }
    assert(u == d);
}

/// Tiles all adjacent to one tile of a connected set join it in a connected
/// union.
pub proof fn lemma_star_connected(s: Set<Tile>, p: Tile, n: Set<Tile>)
    requires
        connected(s),
        s.contains(p),
        forall|t: Tile| #[trigger] n.contains(t) ==> adjacent(p, t),
    ensures
        connected(s.union(n)),
{
    let sn = s.union(n);
    assert forall|u: Set<Tile>, a: Tile|
        #![trigger closed_in(u, sn), u.contains(a)]
        u.subset_of(sn) && u.contains(a) && closed_in(u, sn) implies u == sn by {
        let us = u.intersect(s);
        assert(closed_in(us, s)) by {
            assert forall|x: Tile, y: Tile|
                us.contains(x) && s.contains(y) && !us.contains(y) implies !#[trigger] adjacent(
                x,
                y,
            ) by {
                assert(sn.contains(y));
            }
        }
        if s.contains(a) {
            assert(us.contains(a));
            assert(us == s);
            assert forall|t: Tile| n.contains(t) implies u.contains(t) by {
                assert(adjacent(p, t));
                assert(sn.contains(t));
                assert(u.contains(p));
            }
        } else {
            assert(n.contains(a));
            assert(adjacent(p, a));
            assert(adjacent(a, p));
            assert(sn.contains(p));
            assert(u.contains(p));
            assert(us.contains(p));
            assert(us == s);
            assert forall|t: Tile| n.contains(t) implies u.contains(t) by {
                assert(adjacent(p, t));
                assert(sn.contains(t));
            }
        }
        assert(u =~= sn);
    }
}

} // verus!
