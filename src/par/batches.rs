//! Projection in batches: the points are cut into contiguous batches, each
//! batch is counted on its own, and the counts are summed per tile.

use vstd::prelude::*;
use crate::tiles::Tile;
use crate::projection::{
    TileCounter, TileCount, tile_counts, count_in, count_of, counts_tiles, lists_counts,
    significant, new_counter, add_count, counter_entries, to_tile_counts, significant_tiles,
    lemma_count_bound, lemma_count_concat,
};

verus! {

/// The size of each batch when `len` points are cut into `nr_parts`.
pub open spec fn batch_size(len: nat, nr_parts: nat) -> nat {
    len / nr_parts
}

/// `bs` are the batches of `s` of size `c`, the last one possibly shorter.
pub open spec fn batches_of(bs: Seq<Seq<Tile>>, s: Seq<Tile>, c: nat) -> bool {
    &&& c > 0
    &&& bs.len() == (s.len() + c - 1) / c as int
    &&& forall|b: int| 0 <= b < bs.len() ==> #[trigger] bs[b] == s.subrange(b * c, if (b + 1) * c <= s.len() { (b + 1) * c } else { s.len() as int })
}

/// Cuts the points, given as the tiles they fell into, into batches of
/// `len / nr_parts` points; the last batch holds what is left over.
pub fn batch_data(points: &Vec<Tile>, nr_parts: usize) -> (r: Vec<Vec<Tile>>)
    requires
        1 <= nr_parts <= points@.len(),
    ensures
        batches_of(r@.map_values(|b: Vec<Tile>| b@), points@, batch_size(points@.len(), nr_parts as nat)),
{
    let chunk_size = points.len() / nr_parts;
    assert(chunk_size >= 1) by (nonlinear_arith)
        requires chunk_size as int == (points@.len() as int) / (nr_parts as int), 1 <= nr_parts <= points@.len();
    let n = points.len();
    let mut batches: Vec<Vec<Tile>> = Vec::new();
    let mut start: usize = 0;
    let ghost c = chunk_size as int;
    proof {
        assert(batches@.len() * c == 0) by (nonlinear_arith)
            requires batches@.len() == 0;
    }
    while start < n
        invariant
            n == points@.len(),
            c == chunk_size,
            c >= 1,
            start <= n,
            start == batches@.len() * c || start == n,
            start < n ==> start == batches@.len() * c,
            start == n ==> (batches@.len() - 1) * c < n && n <= batches@.len() * c,
            forall|b: int| 0 <= b < batches@.len() ==> #[trigger] batches@[b]@ == points@.subrange(b * c, if (b + 1) * c <= n { (b + 1) * c } else { n as int }),
        decreases n - start,
    {
        let end = if n - start > chunk_size { start + chunk_size } else { n };
        let mut batch: Vec<Tile> = Vec::new();
        let mut k: usize = start;
        while k < end
            invariant
                start <= k <= end,
                end <= n,
                n == points@.len(),
                batch@ == points@.subrange(start as int, k as int),
            decreases end - k,
        {
            batch.push(points[k]);
            k += 1;
            proof {
                assert(batch@ =~= points@.subrange(start as int, k as int));
            }
        }
        let ghost nb = batches@.len() as int;
        let ghost before = batches@;
        batches.push(batch);
        proof {
            assert((nb + 1) * c == nb * c + c) by (nonlinear_arith);
            assert forall|b: int| 0 <= b < batches@.len() implies #[trigger] batches@[b]@ == points@.subrange(b * c, if (b + 1) * c <= n { (b + 1) * c } else { n as int }) by {
                if b < nb {
                    assert(batches@[b] == before[b]);
                }
            }
        }
        start = end;
    }
    proof {
        let bs = batches@.map_values(|b: Vec<Tile>| b@);
        let len = batches@.len() as int;
        assert(c == batch_size(n as nat, nr_parts as nat));
        if n > 0 {
            assert(len >= 1);
        }
        assert(len == (n + c - 1) / c) by (nonlinear_arith)
            requires (len - 1) * c < n, n <= len * c, c >= 1;
        assert forall|b: int| 0 <= b < bs.len() implies #[trigger] bs[b] == points@.subrange(b * c, if (b + 1) * c <= n { (b + 1) * c } else { n as int }) by {
            assert(bs[b] == batches@[b]@);
        }
    }
    batches
}

/// Adds the counts of `other` to those of `acc`, tile by tile.
pub fn merge_counts(acc: &mut TileCounter, other: &TileCounter)
    requires
        forall|t: Tile| count_of(tile_counts(*old(acc)), t) + count_of(tile_counts(*other), t) <= usize::MAX,
    ensures
        forall|t: Tile| #![trigger tile_counts(*final(acc)).contains_key(t)]
            count_of(tile_counts(*final(acc)), t) == count_of(tile_counts(*old(acc)), t) + count_of(tile_counts(*other), t)
            && (tile_counts(*final(acc)).contains_key(t) <==> tile_counts(*old(acc)).contains_key(t) || tile_counts(*other).contains_key(t)),
{
    let ghost a0 = tile_counts(*acc);
    let ghost o = tile_counts(*other);
    let entries = counter_entries(other);
    let mut i: usize = 0;
    while i < entries.len()
        invariant
            i <= entries@.len(),
            o == tile_counts(*other),
            lists_counts(entries@, o),
            forall|t: Tile| count_of(a0, t) + count_of(o, t) <= usize::MAX,
            forall|t: Tile| #![trigger tile_counts(*acc).contains_key(t)]
                count_of(tile_counts(*acc), t) == count_of(a0, t) + (if merged(entries@, i as int, t) { count_of(o, t) } else { 0 })
                && (tile_counts(*acc).contains_key(t) <==> a0.contains_key(t) || merged(entries@, i as int, t)),
        decreases entries@.len() - i,
    {
        let (t, n) = entries[i];
        proof {
            assert(entries@.contains(entries@[i as int]));
            assert(!merged(entries@, i as int, t));
            assert(count_of(o, t) == n);
        }
        add_count(acc, t, n);
        proof {
            assert forall|x: Tile| #![trigger tile_counts(*acc).contains_key(x)]
                count_of(tile_counts(*acc), x) == count_of(a0, x) + (if merged(entries@, i + 1, x) { count_of(o, x) } else { 0 })
                && (tile_counts(*acc).contains_key(x) <==> a0.contains_key(x) || merged(entries@, i + 1, x)) by {
                if x == t {
                    assert(merged(entries@, i + 1, x));
                } else {
                    if merged(entries@, i + 1, x) {
                        let k = choose|k: int| 0 <= k < i + 1 && #[trigger] entries@[k].0 == x;
                        assert(merged(entries@, i as int, x));
                    }
                }
            }
        }
        i += 1;
    }
    proof {
        assert forall|t: Tile| #![trigger tile_counts(*acc).contains_key(t)]
            count_of(tile_counts(*acc), t) == count_of(a0, t) + count_of(o, t)
            && (tile_counts(*acc).contains_key(t) <==> a0.contains_key(t) || o.contains_key(t)) by {
            if o.contains_key(t) {
                let e = (t, o[t]);
                assert(entries@.contains(e));
                let k = choose|k: int| 0 <= k < entries@.len() && entries@[k] == e;
                assert(entries@[k].0 == t);
                assert(merged(entries@, entries@.len() as int, t));
            }
            if merged(entries@, entries@.len() as int, t) {
                let k = choose|k: int| 0 <= k < entries@.len() && #[trigger] entries@[k].0 == t;
                assert(entries@.contains(entries@[k]));
            }
        }
    }
}

/// Some entry before `i` is that of `t`.
spec fn merged(es: Seq<TileCount>, i: int, t: Tile) -> bool {
    exists|k: int| 0 <= k < i && #[trigger] es[k].0 == t
}

/// Projects points, given as the tiles they fell into, onto the significant
/// tiles as the workers of the parallel projection do: the points are cut
/// into batches of `len / nr_threads`, each batch is counted, and the counts
/// are summed before the threshold applies. Returns each significant tile
/// once.
pub fn map_to_tiles(tiles: &Vec<Tile>, threshold: usize, nr_threads: usize) -> (r: Vec<Tile>)
    requires
        1 <= nr_threads <= tiles@.len(),
    ensures
        r@.no_duplicates(),
        r@.to_set() == significant(tiles@, threshold as nat),
{
    let batches = batch_data(tiles, nr_threads);
    let len = tiles.len();
    let ghost c = batch_size(tiles@.len(), nr_threads as nat);
    let ghost bs = batches@.map_values(|b: Vec<Tile>| b@);
    let ghost n = tiles@.len() as int;
    let mut accumulate_tiles = new_counter();
    let mut b: usize = 0;
    proof {
        assert forall|t: Tile| #![trigger tile_counts(accumulate_tiles).contains_key(t)] #![trigger count_in(tiles@.subrange(0, 0), t)]
            (tile_counts(accumulate_tiles).contains_key(t) <==> count_in(tiles@.subrange(0, 0), t) > 0) && count_of(tile_counts(accumulate_tiles), t) == count_in(tiles@.subrange(0, 0), t) by {
            assert(!tile_counts(accumulate_tiles).dom().contains(t));
        }
    }
    while b < batches.len()
        invariant
            batches_of(bs, tiles@, c),
            bs == batches@.map_values(|b: Vec<Tile>| b@),
            n == tiles@.len(),
            n == len as int,
            b <= batches@.len(),
            counts_tiles(tile_counts(accumulate_tiles), tiles@.subrange(0, if b * c <= n { b * c } else { n })),
        decreases batches@.len() - b,
    {
        let counts = to_tile_counts(batches[b].as_slice());
        let ghost lo = if b * c <= n { b * c } else { n };
        let ghost hi = if (b + 1) * c <= n { (b + 1) * c } else { n };
        proof {
            assert(bs[b as int] == batches@[b as int]@);
            assert(b * c <= n) by (nonlinear_arith)
                requires b < bs.len(), bs.len() as int == (n + c - 1) / (c as int), c > 0;
            assert(batches@[b as int]@ == tiles@.subrange(lo, hi));
            assert((b + 1) * c == b * c + c) by (nonlinear_arith);
            assert(b * c <= n) by (nonlinear_arith)
                requires b < bs.len(), bs.len() as int == (n + c - 1) / (c as int), c > 0;
            assert(tiles@.subrange(0, lo) + tiles@.subrange(lo, hi) =~= tiles@.subrange(0, hi));
            assert forall|t: Tile| count_of(tile_counts(accumulate_tiles), t) + count_of(tile_counts(counts), t) <= usize::MAX by {
                lemma_count_concat(tiles@.subrange(0, lo), tiles@.subrange(lo, hi), t);
                lemma_count_bound(tiles@.subrange(0, hi), t);
                assert(tiles@.subrange(0, hi).len() <= n);
                assert(count_of(tile_counts(accumulate_tiles), t) == count_in(tiles@.subrange(0, lo), t));
                assert(count_of(tile_counts(counts), t) == count_in(batches@[b as int]@, t));
            }
        }
        merge_counts(&mut accumulate_tiles, &counts);
        proof {
            assert forall|t: Tile| #![trigger tile_counts(accumulate_tiles).contains_key(t)] #![trigger count_in(tiles@.subrange(0, hi), t)]
                (tile_counts(accumulate_tiles).contains_key(t) <==> count_in(tiles@.subrange(0, hi), t) > 0) && count_of(tile_counts(accumulate_tiles), t) == count_in(tiles@.subrange(0, hi), t) by {
                lemma_count_concat(tiles@.subrange(0, lo), tiles@.subrange(lo, hi), t);
                assert(count_of(tile_counts(counts), t) == count_in(batches@[b as int]@, t));
                assert(tile_counts(counts).contains_key(t) <==> count_in(batches@[b as int]@, t) > 0);
            }
        }
        b += 1;
    }
    proof {
        assert(b * c >= n) by (nonlinear_arith)
            requires b == bs.len(), bs.len() as int == (n + c - 1) / (c as int), c > 0;
        assert(tiles@.subrange(0, n) =~= tiles@);
    }
    let r = significant_tiles(&accumulate_tiles, threshold);
    proof {
        assert forall|t: Tile| r@.to_set().contains(t) <==> significant(tiles@, threshold as nat).contains(t) by {
            assert(r@.to_set().contains(t) == r@.contains(t));
            if tile_counts(accumulate_tiles).contains_key(t) {
                assert(count_of(tile_counts(accumulate_tiles), t) == count_in(tiles@, t));
            }
        }
        assert(r@.to_set() =~= significant(tiles@, threshold as nat));
    }
    r
}


} // verus!
