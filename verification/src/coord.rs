//! Packed 2D grid coordinates.
//!
//! A `GridCoord` packs a non-negative (x, y) pair into one `i64` key:
//! `x` in the high 32 bits, `y` in the low 32 bits.  Equality, ordering and
//! hashing all go by the packed key, so the derived order is lexicographic
//! by (x, y).  Terrain coordinates are non-negative and bounded by the grid
//! dimensions, so packing round-trips exactly on that range.

use vstd::arithmetic::div_mod::lemma_fundamental_div_mod_converse;
use vstd::prelude::*;

verus! {

/// Packs a coordinate pair into a single key.
pub open spec fn pack_xy(x: int, y: int) -> int {
    x * 0x1_0000_0000 + y
}

/// The x half of a packed key.
pub open spec fn unpack_x(key: int) -> int {
    key / 0x1_0000_0000
}

/// The y half of a packed key.
pub open spec fn unpack_y(key: int) -> int {
    key % 0x1_0000_0000
}

/// Packing a coordinate pair and unpacking the key gives the pair back,
/// for every pair in the supported (non-negative 32-bit) range.  The round
/// trip does not hold outside that range: packing (0, -1) would borrow from
/// the high half.
pub proof fn lemma_pack_round_trip(x: int, y: int)
    requires
        0 <= x < 0x8000_0000,
        0 <= y < 0x8000_0000,
    ensures
        unpack_x(pack_xy(x, y)) == x,
        unpack_y(pack_xy(x, y)) == y,
{
    lemma_fundamental_div_mod_converse(pack_xy(x, y), 0x1_0000_0000, x, y);
}

/// The coordinate holding the pair (x, y); the spec-level counterpart of
/// `GridCoord::from_xy`.
pub closed spec fn spec_coord_xy(x: int, y: int) -> GridCoord {
    GridCoord { key: pack_xy(x, y) as i64 }
}

/// On the supported range, `spec_coord_xy` holds exactly the pair it was
/// given.
pub proof fn lemma_spec_coord_xy(x: int, y: int)
    requires
        0 <= x < 0x8000_0000,
        0 <= y < 0x8000_0000,
    ensures
        spec_coord_xy(x, y).x() == x,
        spec_coord_xy(x, y).y() == y,
        spec_coord_xy(x, y).key_spec() == pack_xy(x, y),
{
    assert(0 <= pack_xy(x, y) < 0x8000_0000_0000_0000) by (nonlinear_arith)
        requires
            0 <= x < 0x8000_0000,
            0 <= y < 0x8000_0000,
    ;
    lemma_pack_round_trip(x, y);
}

/// A 2D coordinate packed into one ordered 64-bit key, the node identity
/// shared by every graph layer.
#[derive(PartialEq, Eq, Structural, Hash, PartialOrd, Ord, Clone, Copy, Debug)]
pub struct GridCoord {
    key: i64,
}

impl GridCoord {
    /// The key always holds a packed non-negative pair.
    #[verifier::type_invariant]
    pub closed spec fn inv(self) -> bool {
        &&& 0 <= self.key
        &&& unpack_x(self.key as int) < 0x8000_0000
        &&& unpack_y(self.key as int) < 0x8000_0000
    }

    /// The packed key itself.
    pub closed spec fn key_spec(self) -> int {
        self.key as int
    }

    /// The packed key as a 64-bit value.
    pub closed spec fn key64(self) -> i64 {
        self.key
    }

    /// The x coordinate held by this key.
    pub open spec fn x(self) -> int {
        unpack_x(self.key_spec())
    }

    /// The y coordinate held by this key.
    pub open spec fn y(self) -> int {
        unpack_y(self.key_spec())
    }

    /// Unpacks the coordinate into its (x, y) pair.
    pub fn to_xy(&self) -> (r: (i32, i32))
        ensures
            r.0 == self.x(),
            r.1 == self.y(),
            0 <= self.x() < 0x8000_0000,
            0 <= self.y() < 0x8000_0000,
            *self == spec_coord_xy(self.x(), self.y()),
    {
        proof {
            use_type_invariant(self);
            vstd::arithmetic::div_mod::lemma_fundamental_div_mod(self.key as int, 0x1_0000_0000);
        }
        let k = self.key as u64;
        let x = (k / 0x1_0000_0000u64) as i32;
        let y = (k % 0x1_0000_0000u64) as i32;
        (x, y)
    }

    /// Packs a non-negative coordinate pair.
    pub fn from_xy(x: i32, y: i32) -> (r: Self)
        requires
            0 <= x,
            0 <= y,
        ensures
            r.x() == x,
            r.y() == y,
            r.key_spec() == pack_xy(x as int, y as int),
            r == spec_coord_xy(x as int, y as int),
    {
        let key = (x as i64) * 0x1_0000_0000i64 + (y as i64);
        proof {
            lemma_pack_round_trip(x as int, y as int);
            lemma_spec_coord_xy(x as int, y as int);
        }
        GridCoord { key }
    }

    /// The packed key, for callers that index by coordinate.
    pub fn raw_key(&self) -> (k: i64)
        ensures
            k == self.key64(),
            k == self.key_spec(),
            0 <= k,
    {
        proof {
            use_type_invariant(self);
        }
        self.key
    }

    /// Coordinates with equal keys are the same coordinate.
    pub proof fn lemma_key_injective(self, other: Self)
        ensures
            (self.key_spec() == other.key_spec()) <==> (self == other),
            (self.key64() == other.key64()) <==> (self == other),
    {
    }

    /// Every coordinate is the packing of its own pair.
    pub proof fn lemma_coord_from_parts(self)
        ensures
            spec_coord_xy(self.x(), self.y()) == self,
    {
        vstd::arithmetic::div_mod::lemma_fundamental_div_mod(self.key as int, 0x1_0000_0000);
    }
}

} // verus!
