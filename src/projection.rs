//! Projection: counting the points that fall into each tile and keeping the
//! tiles that hold enough of them.

use vstd::prelude::*;
use crate::tiles::{Tile, TileSet, tile_set, new_tile_set, insert_tile};

verus! {

/// How many points fell into each tile, in a `hashbrown` map. The map's type
/// carries an allocator parameter bound by a trait of a crate this library
/// does not name, so the map is held here out of Verus's sight, and
/// `tile_counts` says what it holds.
#[verifier::external_body]
pub struct TileCounter {
    counts: hashbrown::HashMap<Tile, usize>,
}

/// The count that a counter holds for each tile it has seen.
pub uninterp spec fn tile_counts(c: TileCounter) -> Map<(i32, i32), usize>;

/// A tile with a count.
pub type TileCount = (Tile, usize);

/// How often `t` occurs in `s`.
pub open spec fn count_in(s: Seq<Tile>, t: Tile) -> nat
    decreases s.len(),
{
    if s.len() == 0 {
        0
    } else {
        count_in(s.drop_last(), t) + if s.last() == t { 1nat } else { 0nat }
    }
}

/// The count of `t` in `m`, zero where `m` has none.
pub open spec fn count_of(m: Map<Tile, usize>, t: Tile) -> nat {
    if m.contains_key(t) { m[t] as nat } else { 0 }
}

/// `c` counts exactly the tiles of `s`.
pub open spec fn counts_tiles(c: Map<Tile, usize>, s: Seq<Tile>) -> bool {
    forall|t: Tile| #![trigger c.contains_key(t)] #![trigger count_in(s, t)]
        (c.contains_key(t) <==> count_in(s, t) > 0) && count_of(c, t) == count_in(s, t)
}

/// `es` lists each tile of `m` once, with its count.
pub open spec fn lists_counts(es: Seq<TileCount>, m: Map<Tile, usize>) -> bool {
    &&& forall|i: int, j: int| 0 <= i < es.len() && 0 <= j < es.len() && (#[trigger] es[i]).0 == (#[trigger] es[j]).0 ==> i == j
    &&& forall|e: TileCount| #[trigger] es.contains(e) <==> m.contains_key(e.0) && m[e.0] == e.1
}

/// Relies on `hashbrown::HashMap::new`: a new map is empty.
#[verifier::external_body]
pub(crate) fn new_counter() -> (r: TileCounter)
    ensures
        tile_counts(r).dom() == Set::<Tile>::empty(),
{
    TileCounter { counts: hashbrown::HashMap::new() }
}

/// Relies on `hashbrown::HashMap::get`: the count of `t`, if the map has
/// one.
#[verifier::external_body]
pub(crate) fn get_count(c: &TileCounter, t: Tile) -> (r: Option<usize>)
    ensures
        match r {
            Some(n) => tile_counts(*c).contains_key(t) && tile_counts(*c)[t] == n,
            None => !tile_counts(*c).contains_key(t),
        },
{
    c.counts.get(&t).copied()
}

/// Relies on `hashbrown::HashMap::insert`: `t` has the count `n` afterwards.
#[verifier::external_body]
pub(crate) fn set_count(c: &mut TileCounter, t: Tile, n: usize)
    ensures
        tile_counts(*final(c)) == tile_counts(*old(c)).insert(t, n),
{
    c.counts.insert(t, n);
}

/// The count of `t` grows by `n`, from zero where there was none.
pub(crate) fn add_count(c: &mut TileCounter, t: Tile, n: usize)
    requires
        count_of(tile_counts(*old(c)), t) + n <= usize::MAX,
    ensures
        tile_counts(*final(c)) == tile_counts(*old(c)).insert(t, (count_of(tile_counts(*old(c)), t) + n) as usize),
{
    let count = match get_count(c, t) {
        Some(k) => k,
        None => 0,
    };
    set_count(c, t, count + n);
}

/// Relies on `hashbrown::HashMap::iter`: each tile with its count, once.
#[verifier::external_body]
pub(crate) fn counter_entries(c: &TileCounter) -> (r: Vec<TileCount>)
    ensures
        lists_counts(r@, tile_counts(*c)),
{
    c.counts.iter().map(|(t, n)| (*t, *n)).collect()
}

/// A tile occurs in a sequence at most as often as the sequence is long.
pub proof fn lemma_count_bound(s: Seq<Tile>, t: Tile)
    ensures
        count_in(s, t) <= s.len(),
    decreases s.len(),
{
    if s.len() > 0 {
        lemma_count_bound(s.drop_last(), t);
    }
}

/// Counts over two sequences add up.
pub proof fn lemma_count_concat(a: Seq<Tile>, b: Seq<Tile>, t: Tile)
    ensures
        count_in(a + b, t) == count_in(a, t) + count_in(b, t),
    decreases b.len(),
{
    if b.len() == 0 {
        assert(a + b =~= a);
    } else {
        lemma_count_concat(a, b.drop_last(), t);
        assert((a + b).drop_last() =~= a + b.drop_last());
    }
}

/// Counts the tiles that the points fell into, one tile per point.
pub fn to_tile_counts(tiles: &[Tile]) -> (r: TileCounter)
    ensures
        counts_tiles(tile_counts(r), tiles@),
{
    let mut tile_count = new_counter();
    let mut i: usize = 0;
    while i < tiles.len()
        invariant
            i <= tiles@.len(),
            counts_tiles(tile_counts(tile_count), tiles@.subrange(0, i as int)),
        decreases tiles@.len() - i,
    {
        let p = tiles[i];
        let ghost pre = tiles@.subrange(0, i as int);
        let ghost post = tiles@.subrange(0, i + 1);
        proof {
            lemma_count_bound(pre, p);
            assert(post.drop_last() =~= pre);
        }
        add_count(&mut tile_count, p, 1);
        proof {
            assert forall|t: Tile| #![trigger tile_counts(tile_count).contains_key(t)] #![trigger count_in(post, t)]
                (tile_counts(tile_count).contains_key(t) <==> count_in(post, t) > 0) && count_of(tile_counts(tile_count), t) == count_in(post, t) by {
                assert(count_in(post, t) == count_in(pre, t) + if post.last() == t { 1nat } else { 0nat });
            }
        }
        i += 1;
    }
    proof {
        assert(tiles@.subrange(0, tiles@.len() as int) =~= tiles@);
    }
    tile_count
}

/// The tiles into which at least `threshold` points fell.
pub open spec fn significant(s: Seq<Tile>, threshold: nat) -> Set<Tile> {
    Set::new(|t: Tile| count_in(s, t) > 0 && count_in(s, t) >= threshold)
}

/// The tiles that `counts` holds at least `threshold` times, each once.
pub fn significant_tiles(counts: &TileCounter, threshold: usize) -> (r: Vec<Tile>)
    ensures
        r@.no_duplicates(),
        forall|t: Tile| #[trigger] r@.contains(t) <==> tile_counts(*counts).contains_key(t) && tile_counts(*counts)[t] >= threshold,
{
    let entries = counter_entries(counts);
    let mut tiles: Vec<Tile> = Vec::new();
    let mut i: usize = 0;
    while i < entries.len()
        invariant
            i <= entries@.len(),
            forall|a: int, b: int| 0 <= a < entries@.len() && 0 <= b < entries@.len() && (#[trigger] entries@[a]).0 == (#[trigger] entries@[b]).0 ==> a == b,
            forall|e: TileCount| #[trigger] entries@.contains(e) <==> tile_counts(*counts).contains_key(e.0) && tile_counts(*counts)[e.0] == e.1,
            tiles@.no_duplicates(),
            forall|t: Tile| #[trigger] tiles@.contains(t) <==> exists|k: int| 0 <= k < i && #[trigger] entries@[k].0 == t && entries@[k].1 >= threshold,
        decreases entries@.len() - i,
    {
        let (t, count) = entries[i];
        if count >= threshold {
            let ghost before = tiles@;
            proof {
                if before.contains(t) {
                    let k = choose|k: int| 0 <= k < i && #[trigger] entries@[k].0 == t && entries@[k].1 >= threshold;
                }
            }
            tiles.push(t);
            proof {
                assert forall|x: Tile| #[trigger] tiles@.contains(x) <==> before.contains(x) || x == t by {
                    if tiles@.contains(x) {
                        let k = choose|k: int| 0 <= k < tiles@.len() && tiles@[k] == x;
                        if k < before.len() {
                            assert(before[k] == x);
                        }
                    }
                    if before.contains(x) {
                        let k = choose|k: int| 0 <= k < before.len() && before[k] == x;
                        assert(tiles@[k] == x);
                    }
                    if x == t {
                        assert(tiles@[before.len() as int] == x);
                    }
                }
                assert forall|a: int, b: int| 0 <= a < tiles@.len() && 0 <= b < tiles@.len() && a != b implies tiles@[a] != tiles@[b] by {
                    if b == before.len() {
                        assert(before.contains(tiles@[a]));
                    }
                    if a == before.len() {
                        assert(before.contains(tiles@[b]));
                    }
                }
                assert forall|x: Tile| #[trigger] tiles@.contains(x) <==> exists|k: int| 0 <= k < i + 1 && #[trigger] entries@[k].0 == x && entries@[k].1 >= threshold by {
                    if x == t {
                        assert(entries@[i as int].0 == x);
                    }
                }
            }
        }
        i += 1;
    }
    proof {
        assert forall|t: Tile| #[trigger] tiles@.contains(t) <==> tile_counts(*counts).contains_key(t) && tile_counts(*counts)[t] >= threshold by {
            if tile_counts(*counts).contains_key(t) && tile_counts(*counts)[t] >= threshold {
                let e = (t, tile_counts(*counts)[t]);
                assert(entries@.contains(e));
                let k = choose|k: int| 0 <= k < entries@.len() && entries@[k] == e;
                assert(entries@[k].0 == t);
            }
            if tiles@.contains(t) {
                let k = choose|k: int| 0 <= k < entries@.len() && #[trigger] entries@[k].0 == t && entries@[k].1 >= threshold;
                assert(entries@.contains(entries@[k]));
            }
        }
    }
    tiles
}

/// Projects points, given as the tiles they fell into, onto the significant
/// tiles: those into which at least `threshold` points fell.
pub fn map_to_tiles(tiles: &Vec<Tile>, threshold: usize) -> (r: TileSet)
    ensures
        tile_set(r) == significant(tiles@, threshold as nat),
        tile_set(r).finite(),
{
    let all_tiles = to_tile_counts(tiles.as_slice());
    let kept = significant_tiles(&all_tiles, threshold);
    let mut set = new_tile_set();
    let mut i: usize = 0;
    while i < kept.len()
        invariant
            i <= kept@.len(),
            tile_set(set) == kept@.subrange(0, i as int).to_set(),
        decreases kept@.len() - i,
    {
        insert_tile(&mut set, kept[i]);
        proof {
            assert(kept@.subrange(0, i + 1) =~= kept@.subrange(0, i as int).push(kept@[i as int]));
            assert(kept@.subrange(0, i + 1).to_set() =~= kept@.subrange(0, i as int).to_set().insert(kept@[i as int])) by {
                assert forall|t: Tile| kept@.subrange(0, i + 1).contains(t) <==> kept@.subrange(0, i as int).contains(t) || t == kept@[i as int] by {
                    let a = kept@.subrange(0, i + 1);
                    let b = kept@.subrange(0, i as int);
                    if a.contains(t) {
                        let k = choose|k: int| 0 <= k < a.len() && a[k] == t;
                        if k < b.len() {
                            assert(b[k] == t);
                        }
                    }
                    if b.contains(t) {
                        let k = choose|k: int| 0 <= k < b.len() && b[k] == t;
                        assert(a[k] == t);
                    }
                    if t == kept@[i as int] {
                        assert(a[i as int] == t);
                    }
                }
            }
        }
        i += 1;
    }
    proof {
        assert(kept@.subrange(0, kept@.len() as int) =~= kept@);
        assert forall|t: Tile| tile_set(set).contains(t) <==> significant(tiles@, threshold as nat).contains(t) by {
            assert(kept@.to_set().contains(t) == kept@.contains(t));
            if tile_counts(all_tiles).contains_key(t) {
                assert(count_of(tile_counts(all_tiles), t) == count_in(tiles@, t));
            }
            assert(tile_counts(all_tiles).contains_key(t) <==> count_in(tiles@, t) > 0);
        }
        assert(tile_set(set) =~= significant(tiles@, threshold as nat));
    }
    set
}

} // verus!
