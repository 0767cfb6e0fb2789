//! What a ray meets, and how the ground is tiled.

use vstd::prelude::*;

verus! {

/// What a ray meets first.
#[derive(Clone, Copy, Debug, PartialEq, Eq, Structural)]
pub enum HitClass {
    /// Nothing: the ray leaves upward, into the sky.
    Sky,
    /// The ground plane.
    Ground,
    /// One of the spheres.
    Sphere,
}

impl HitClass {
    /// A ray toward the light is blocked by whatever it meets short of the sky.
    pub open spec fn blocks_light(self) -> bool {
        self != HitClass::Sky
    }

    /// Only a sphere mirrors the ray onward.
    pub open spec fn mirrors(self) -> bool {
        self == HitClass::Sphere
    }

    /// Whether a point whose ray toward the light ends here lies in shadow.
    pub fn occludes(self) -> (shadowed: bool)
        ensures
            shadowed == self.blocks_light(),
    {
        match self {
            HitClass::Sky => false,
            HitClass::Ground => true,
            HitClass::Sphere => true,
        }
    }

    /// Whether shading goes on along the mirrored ray.
    pub fn reflects(self) -> (onward: bool)
        ensures
            onward == self.mirrors(),
    {
        match self {
            HitClass::Sky => false,
            HitClass::Ground => false,
            HitClass::Sphere => true,
        }
    }
}

/// The two kinds of tile on the ground.
#[derive(Clone, Copy, Debug, PartialEq, Eq, Structural)]
pub enum Tile {
    Red,
    White,
}

/// The tile at a point whose rounded-up coordinates add up to `sum`: red
/// where the sum is odd.
pub open spec fn tile_at(sum: int) -> Tile {
    if sum % 2 == 1 {
        Tile::Red
    } else {
        Tile::White
    }
}

/// Picks the tile for a coordinate sum.
pub fn checker_tile(sum: i32) -> (tile: Tile)
    ensures
        tile == tile_at(sum as int),
{
    assert((sum & 1 == 1) == (sum as int % 2 == 1)) by (bit_vector);
    if sum & 1 == 1 {
        Tile::Red
    } else {
        Tile::White
    }
}

impl Tile {
    /// Red, green and blue of the tile before lighting.
    pub open spec fn base_color(self) -> (int, int, int) {
        match self {
            Tile::Red => (3, 1, 1),
            Tile::White => (3, 3, 3),
        }
    }

    /// The tile's colour before lighting.
    pub fn color(self) -> (rgb: (u8, u8, u8))
        ensures
            (rgb.0 as int, rgb.1 as int, rgb.2 as int) == self.base_color(),
    {
        match self {
            Tile::Red => (3, 1, 1),
            Tile::White => (3, 3, 3),
        }
    }
}

} // verus!
