//! Contraction clustering of two-dimensional points over an integer grid of
//! tiles: points are projected onto tiles, the tiles that hold enough points
//! are grouped into 8-connected clusters, either in one sweep or strip by
//! strip with the strips stitched along their borders.

pub mod tiles;
pub mod components;
pub mod cluster;
pub mod projection;
pub mod par;
pub mod prime;

pub use tiles::{Tile, TileSet, pop_neighbors, is_neighbors, is_cluster_neighbors};
pub use cluster::cluster_tiles;
pub use projection::{TileCounter, map_to_tiles, to_tile_counts};

use vstd::prelude::*;

verus! {

/// The variants of the algorithm that a run can choose.
#[derive(Debug, Clone, Copy, PartialEq, Eq, Structural)]
pub enum Raster {
    Sequential,
    SeqPrime,
    Par,
    ParPrime,
}

impl Raster {
    /// The variant for a run: strip by strip or in one sweep, keeping the
    /// points in the tiles or not.
    pub fn from_flags(par: bool, prime: bool) -> (r: Raster)
        ensures
            r == (if par {
                if prime { Raster::ParPrime } else { Raster::Par }
            } else {
                if prime { Raster::SeqPrime } else { Raster::Sequential }
            }),
    {
        match (par, prime) {
            (false, false) => Raster::Sequential,
            (false, true) => Raster::SeqPrime,
            (true, false) => Raster::Par,
            (true, true) => Raster::ParPrime,
        }
    }

    /// Whether the variant clusters strip by strip.
    pub fn is_par(&self) -> (r: bool)
        ensures
            r == (*self == Raster::Par || *self == Raster::ParPrime),
    {
        match self {
            Raster::Par | Raster::ParPrime => true,
            _ => false,
        }
    }

    /// Whether the variant keeps the points in the tiles.
    pub fn is_prime(&self) -> (r: bool)
        ensures
            r == (*self == Raster::SeqPrime || *self == Raster::ParPrime),
    {
        match self {
            Raster::SeqPrime | Raster::ParPrime => true,
            _ => false,
        }
    }
}

} // verus!
