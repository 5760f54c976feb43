//! Enumeration of the chunk coordinates of a region.
use vstd::prelude::*;

verus! {

/// Order in which the chunks of a region are enumerated.
#[derive(Debug, Clone, Copy)]
pub enum ChunkIteratorDirection {
    /// In order of the region file headers: the `n`-th item has `n == x + 32 * z`.
    Natural,
    /// The `n`-th item has `n == 32 * x + z`.
    Transpose,
}

/// Coordinates of the `n`-th item in direction `d`.
pub open spec fn spec_coords_at(d: ChunkIteratorDirection, n: int) -> (u8, u8) {
    match d {
        ChunkIteratorDirection::Natural => ((n % 32) as u8, (n / 32) as u8),
        ChunkIteratorDirection::Transpose => ((n / 32) as u8, (n % 32) as u8),
    }
}

/// Cursor over the 1024 chunk coordinates of a region.
#[derive(Debug, Clone, Copy)]
pub struct ChunkCoordsIterator {
    direction: ChunkIteratorDirection,
    x: u8,
    z: u8,
}

impl ChunkIteratorDirection {
    /// A cursor at the first chunk of this direction.
    pub fn into_iter(self) -> (r: ChunkCoordsIterator)
        ensures
            r.spec_direction() == self,
            r.spec_position() == 0,
    {
        ChunkCoordsIterator::new(self)
    }
}

impl ChunkCoordsIterator {
    #[verifier::type_invariant]
    spec fn inv(self) -> bool {
        match self.direction {
            ChunkIteratorDirection::Natural => self.x < 32 && self.z <= 32 && (self.z == 32
                ==> self.x == 0),
            ChunkIteratorDirection::Transpose => self.z < 32 && self.x <= 32 && (self.x == 32
                ==> self.z == 0),
        }
    }

    pub closed spec fn spec_direction(self) -> ChunkIteratorDirection {
        self.direction
    }

    /// Number of items already handed out (1024 once all have been).
    pub closed spec fn spec_position(self) -> int {
        match self.direction {
            ChunkIteratorDirection::Natural => self.x + 32 * self.z,
            ChunkIteratorDirection::Transpose => 32 * self.x + self.z,
        }
    }

    pub fn new(direction: ChunkIteratorDirection) -> (r: Self)
        ensures
            r.spec_direction() == direction,
            r.spec_position() == 0,
    {
        Self { direction, x: 0, z: 0 }
    }

    /// The next coordinates, or nothing once all 1024 have been handed out.
    pub fn next(&mut self) -> (r: Option<(u8, u8)>)
        ensures
            final(self).spec_direction() == old(self).spec_direction(),
            old(self).spec_position() < 1024 ==> r == Some(
                spec_coords_at(old(self).spec_direction(), old(self).spec_position()),
            ) && final(self).spec_position() == old(self).spec_position() + 1,
            old(self).spec_position() >= 1024 ==> r is None && final(self).spec_position()
                == old(self).spec_position(),
    {
        proof {
            use_type_invariant(&*self);
        }
        let x = self.x;
        let z = self.z;
        match self.direction {
            ChunkIteratorDirection::Natural => {
                if z >= 32 {
                    return None;
                }
                if x + 1 == 32 {
                    *self = Self { direction: self.direction, x: 0, z: z + 1 };
                } else {
                    *self = Self { direction: self.direction, x: x + 1, z };
                }
                assert((x + 32 * z) % 32 == x && (x + 32 * z) / 32 == z) by (nonlinear_arith)
                    requires
                        x < 32,
                ;
            },
            ChunkIteratorDirection::Transpose => {
                if x >= 32 {
                    return None;
                }
                if z + 1 == 32 {
                    *self = Self { direction: self.direction, x: x + 1, z: 0 };
                } else {
                    *self = Self { direction: self.direction, x, z: z + 1 };
                }
                assert((32 * x + z) % 32 == z && (32 * x + z) / 32 == x) by (nonlinear_arith)
                    requires
                        z < 32,
                ;
            },
        }
        Some((x, z))
    }

    /// The number of items that `next` has left to hand out.
    pub fn count(self) -> (r: usize)
        ensures
            r == 1024 - self.spec_position(),
    {
        proof {
            use_type_invariant(&self);
        }
        let position = match self.direction {
            ChunkIteratorDirection::Natural => self.x as usize + 32 * self.z as usize,
            ChunkIteratorDirection::Transpose => 32 * self.x as usize + self.z as usize,
        };
        1024 - position
    }
}

/// The `n`-th item of the natural direction is the chunk whose header is the
/// `n`-th entry of the header table; the `n`-th item of the transposed
/// direction has `n == 32 * x + z`.
pub proof fn lemma_enumeration_order(n: int)
    requires
        0 <= n < 1024,
    ensures
        crate::mcregion::spec_chunk_idx(
            spec_coords_at(ChunkIteratorDirection::Natural, n).0,
            spec_coords_at(ChunkIteratorDirection::Natural, n).1,
        ) == n,
        32 * spec_coords_at(ChunkIteratorDirection::Transpose, n).0 + spec_coords_at(
            ChunkIteratorDirection::Transpose,
            n,
        ).1 == n,
        spec_coords_at(ChunkIteratorDirection::Natural, n).0 < 32,
        spec_coords_at(ChunkIteratorDirection::Natural, n).1 < 32,
{
}

} // verus!
