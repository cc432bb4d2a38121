//! Tiles, sets of tiles and the grid's Moore neighbourhood.

use vstd::prelude::*;

verus! {

/// A grid cell: a point's coordinates, scaled and truncated.
pub type Tile = (i32, i32);

/// An insertion-ordered set of tiles.
pub type TileSet = indexmap::IndexSet<Tile>;

#[verifier::external_type_specification]
#[verifier::external_body]
#[verifier::reject_recursive_types(T)]
#[verifier::reject_recursive_types(S)]
pub struct ExIndexSet<T, S>(indexmap::IndexSet<T, S>);

/// The tiles that a set holds.
pub uninterp spec fn tile_set(s: indexmap::IndexSet<(i32, i32)>) -> Set<(i32, i32)>;

/// Two distinct tiles whose coordinates differ by at most one on each axis.
pub open spec fn adjacent(a: Tile, b: Tile) -> bool {
    a != b && -1 <= a.0 - b.0 <= 1 && -1 <= a.1 - b.1 <= 1
}

/// Some tile of `s` is adjacent to `t`.
pub open spec fn touches(t: Tile, s: Set<Tile>) -> bool {
    exists|n: Tile| s.contains(n) && #[trigger] adjacent(t, n)
}

/// Some tile of `a` is adjacent to some tile of `b`.
pub open spec fn sets_touch(a: Set<Tile>, b: Set<Tile>) -> bool {
    exists|x: Tile, y: Tile| a.contains(x) && b.contains(y) && #[trigger] adjacent(x, y)
}

/// The tiles of `s` that are adjacent to `t`.
pub open spec fn neighbours_in(t: Tile, s: Set<Tile>) -> Set<Tile> {
    s.filter(|n: Tile| adjacent(t, n))
}

/// Relies on `IndexSet::new`: a new set is empty.
#[verifier::external_body]
pub(crate) fn new_tile_set() -> (r: TileSet)
    ensures
        tile_set(r) == Set::<Tile>::empty(),
{
    indexmap::IndexSet::new()
}

/// Relies on `IndexSet::insert`: the tile is in the set afterwards, and the
/// result tells whether it was absent before.
#[verifier::external_body]
pub(crate) fn insert_tile(s: &mut TileSet, t: Tile) -> (r: bool)
    ensures
        tile_set(*final(s)) == tile_set(*old(s)).insert(t),
        r == !tile_set(*old(s)).contains(t),
{
    s.insert(t)
}

/// Relies on `IndexSet::pop`: an empty set gives nothing and stays empty; any
/// other gives up one of its tiles.
#[verifier::external_body]
pub(crate) fn pop_tile(s: &mut TileSet) -> (r: Option<Tile>)
    ensures
        match r {
            None => tile_set(*old(s)) == Set::<Tile>::empty() && tile_set(*final(s)) == tile_set(
                *old(s),
            ),
            Some(t) => tile_set(*old(s)).contains(t) && tile_set(*final(s)) == tile_set(
                *old(s),
            ).remove(t),
        },
{
    s.pop()
}

/// Relies on `IndexSet::swap_remove`: the tile is gone afterwards, and the
/// result tells whether it was there.
#[verifier::external_body]
pub(crate) fn remove_tile(s: &mut TileSet, t: Tile) -> (r: bool)
    ensures
        tile_set(*final(s)) == tile_set(*old(s)).remove(t),
        r == tile_set(*old(s)).contains(t),
{
    s.swap_remove(&t)
}

/// Relies on `IndexSet::contains`.
#[verifier::external_body]
pub(crate) fn contains_tile(s: &TileSet, t: Tile) -> (r: bool)
    ensures
        r == tile_set(*s).contains(t),
{
    s.contains(&t)
}

/// Relies on `IndexSet::len`: the number of tiles.
#[verifier::external_body]
pub(crate) fn tile_count(s: &TileSet) -> (r: usize)
    ensures
        r == tile_set(*s).len(),
{
    s.len()
}

/// Relies on `IndexSet::extend`: the set gains the tiles of `other`.
#[verifier::external_body]
pub(crate) fn extend_tiles(s: &mut TileSet, other: TileSet)
    ensures
        tile_set(*final(s)) == tile_set(*old(s)).union(tile_set(other)),
{
    s.extend(other)
}

/// Relies on `IndexSet::iter`: each tile of the set once.
#[verifier::external_body]
pub(crate) fn tiles_to_vec(s: &TileSet) -> (r: Vec<Tile>)
    ensures
        r@.to_set() == tile_set(*s),
        r@.no_duplicates(),
{
    s.iter().cloned().collect()
}

/// The place of `n` among the neighbours of `t` in the order they are
/// looked at: right, left, up, down, then the diagonals down-right, up-right,
/// down-left and up-left.
pub open spec fn neighbour_rank(t: Tile, n: Tile) -> int {
    let dx = n.0 - t.0;
    let dy = n.1 - t.1;
    if dx == 1 && dy == 0 { 0 }
    else if dx == -1 && dy == 0 { 1 }
    else if dx == 0 && dy == 1 { 2 }
    else if dx == 0 && dy == -1 { 3 }
    else if dx == 1 && dy == -1 { 4 }
    else if dx == 1 && dy == 1 { 5 }
    else if dx == -1 && dy == -1 { 6 }
    else { 7 }
}

/// The tiles of `s` come in the order of their places around `t`.
pub open spec fn in_neighbour_order(t: Tile, s: Seq<Tile>) -> bool {
    forall|i: int, j: int| 0 <= i < j < s.len() ==> neighbour_rank(t, #[trigger] s[i]) < neighbour_rank(t, #[trigger] s[j])
}

/// Moves `c` from `tiles` to the end of `found` when `tiles` holds it.
fn take_tile(t: Tile, c: Tile, tiles: &mut TileSet, found: &mut Vec<Tile>)
    requires
        old(found)@.no_duplicates(),
        forall|n: Tile| old(found)@.contains(n) ==> !tile_set(*old(tiles)).contains(n),
        in_neighbour_order(t, old(found)@),
        forall|n: Tile| #[trigger] old(found)@.contains(n) ==> neighbour_rank(t, n) < neighbour_rank(t, c),
    ensures
        tile_set(*final(tiles)) == tile_set(*old(tiles)).remove(c),
        final(found)@.no_duplicates(),
        forall|n: Tile| final(found)@.contains(n) ==> !tile_set(*final(tiles)).contains(n),
        forall|n: Tile|
            final(found)@.contains(n) <==> (old(found)@.contains(n) || (n == c && tile_set(
                *old(tiles),
            ).contains(c))),
        in_neighbour_order(t, final(found)@),
{
    if remove_tile(tiles, c) {
        found.push(c);
        proof {
            assert forall|n: Tile| final(found)@.contains(n) <==> (old(found)@.contains(n) || n == c) by {
                if final(found)@.contains(n) {
                    let i = choose|i: int| 0 <= i < found@.len() && found@[i] == n;
                    if i < old(found)@.len() {
                        assert(old(found)@[i] == n);
                    }
                }
                if old(found)@.contains(n) {
                    let i = choose|i: int| 0 <= i < old(found)@.len() && old(found)@[i] == n;
                    assert(found@[i] == n);
                }
                if n == c {
                    assert(found@[found@.len() - 1] == n);
                }
            }
            assert forall|i: int, j: int| 0 <= i < j < found@.len() implies neighbour_rank(t, #[trigger] found@[i]) < neighbour_rank(t, #[trigger] found@[j]) by {
                if j == found@.len() - 1 {
                    assert(old(found)@.contains(old(found)@[i]));
                } else {
                    assert(found@[i] == old(found)@[i] && found@[j] == old(found)@[j]);
                }
            }
        }
    }
}

/// Removes from `tiles` the tiles adjacent to `t` and returns them, in the
/// order of their places around `t`.
pub fn pop_neighbors(t: Tile, tiles: &mut TileSet) -> (r: Vec<Tile>)
    ensures
        r@.to_set() == neighbours_in(t, tile_set(*old(tiles))),
        r@.no_duplicates(),
        in_neighbour_order(t, r@),
        tile_set(*final(tiles)) == tile_set(*old(tiles)).difference(
            neighbours_in(t, tile_set(*old(tiles))),
        ),
{
    let ghost s0 = tile_set(*tiles);
    let (x, y) = t;
    let mut found: Vec<Tile> = Vec::new();
    if x < i32::MAX {
        take_tile(t, (x + 1, y), tiles, &mut found);
    }
    if x > i32::MIN {
        take_tile(t, (x - 1, y), tiles, &mut found);
    }
    if y < i32::MAX {
        take_tile(t, (x, y + 1), tiles, &mut found);
    }
    if y > i32::MIN {
        take_tile(t, (x, y - 1), tiles, &mut found);
    }
    if x < i32::MAX && y > i32::MIN {
        take_tile(t, (x + 1, y - 1), tiles, &mut found);
    }
    if x < i32::MAX && y < i32::MAX {
        take_tile(t, (x + 1, y + 1), tiles, &mut found);
    }
    if x > i32::MIN && y > i32::MIN {
        take_tile(t, (x - 1, y - 1), tiles, &mut found);
    }
    if x > i32::MIN && y < i32::MAX {
        take_tile(t, (x - 1, y + 1), tiles, &mut found);
    }
    proof {
        let nb = neighbours_in(t, s0);
        assert forall|n: Tile| found@.contains(n) <==> nb.contains(n) by {
            if nb.contains(n) {
                assert(adjacent(t, n));
            }
        }
        assert(found@.to_set() =~= nb);
        assert(tile_set(*tiles) =~= s0.difference(nb));
    }
    found
}

/// Tells whether `tiles` holds `c`, a tile adjacent to `t`.
fn holds_adjacent(t: Tile, c: Tile, tiles: &TileSet) -> (r: bool)
    requires
        adjacent(t, c),
    ensures
        r == tile_set(*tiles).contains(c),
        r ==> touches(t, tile_set(*tiles)),
{
    contains_tile(tiles, c)
}

/// Tells whether some tile of `tiles` is adjacent to `t`.
pub fn is_neighbors(t: Tile, tiles: &TileSet) -> (r: bool)
    ensures
        r == touches(t, tile_set(*tiles)),
{
    let (x, y) = t;
    let found = (x < i32::MAX && holds_adjacent(t, (x + 1, y), tiles))
        || (x > i32::MIN && holds_adjacent(t, (x - 1, y), tiles))
        || (y < i32::MAX && holds_adjacent(t, (x, y + 1), tiles))
        || (y > i32::MIN && holds_adjacent(t, (x, y - 1), tiles))
        || (x < i32::MAX && y > i32::MIN && holds_adjacent(t, (x + 1, y - 1), tiles))
        || (x < i32::MAX && y < i32::MAX && holds_adjacent(t, (x + 1, y + 1), tiles))
        || (x > i32::MIN && y > i32::MIN && holds_adjacent(t, (x - 1, y - 1), tiles))
        || (x > i32::MIN && y < i32::MAX && holds_adjacent(t, (x - 1, y + 1), tiles));
    proof {
        if !found && touches(t, tile_set(*tiles)) {
            let n = choose|n: Tile| tile_set(*tiles).contains(n) && adjacent(t, n);
            assert(false);
        }
    }
    found
}

/// Tells whether some tile of `c1` is adjacent to some tile of `c2`.
pub fn is_cluster_neighbors(c1: &TileSet, c2: &TileSet) -> (r: bool)
    ensures
        r == sets_touch(tile_set(*c1), tile_set(*c2)),
{
    let v = tiles_to_vec(c1);
    let mut i: usize = 0;
    while i < v.len()
        invariant
            i <= v.len(),
            v@.to_set() == tile_set(*c1),
            forall|j: int| 0 <= j < i ==> !touches(#[trigger] v@[j], tile_set(*c2)),
        decreases v.len() - i,
    {
        if is_neighbors(v[i], c2) {
            proof {
                assert(v@.contains(v@[i as int]));
                let n = choose|n: Tile| tile_set(*c2).contains(n) && adjacent(v@[i as int], n);
                assert(tile_set(*c1).contains(v@[i as int]));
            }
            return true;
        }
        i += 1;
    }
    proof {
        if sets_touch(tile_set(*c1), tile_set(*c2)) {
            let (a, b) = choose|a: Tile, b: Tile|
                tile_set(*c1).contains(a) && tile_set(*c2).contains(b) && adjacent(a, b);
            assert(v@.to_set().contains(a));
            let j = choose|j: int| 0 <= j < v@.len() && v@[j] == a;
            assert(!touches(v@[j], tile_set(*c2)));
        }
    }
    false
}

} // verus!
