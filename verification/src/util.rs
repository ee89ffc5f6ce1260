//! Generation options and the emitted brick schema.

use vstd::prelude::*;

verus! {

/// Widest footprint an emitted brick may have on either horizontal axis,
/// in half-units.
pub const MAX_FOOTPRINT: u32 = 500;

/// Tallest Z extent a single emitted brick may request, in half-units.
pub const MAX_BRICK_HEIGHT: i32 = 250;

/// Which of the four procedural brick assets an emitted brick selects.
#[derive(Clone, Copy, PartialEq, Eq, Structural, Debug)]
pub enum BrickAsset {
    Default,
    Tile,
    Micro,
    Stud,
}

/// Surface material of an emitted brick.
#[derive(Clone, Copy, PartialEq, Eq, Structural, Debug)]
pub enum Material {
    Plastic,
    Glow,
}

/// One axis-aligned box of the output: integer size and centre position in
/// half-units, upright orientation, collision flags, colour, material and
/// asset choice.  The save writer fills in the owner afterwards.
#[derive(Clone, Copy, PartialEq, Eq, Structural, Debug)]
pub struct Brick {
    pub asset: BrickAsset,
    /// Footprint and height in half-units.
    pub size_x: u16,
    pub size_y: u16,
    pub size_z: u16,
    /// Centre of the box in half-units.
    pub pos_x: i32,
    pub pos_y: i32,
    pub pos_z: i32,
    /// All three flags equal NOT `nocollide`.
    pub collide_player: bool,
    pub collide_weapon: bool,
    pub collide_interact: bool,
    /// Colour of the brick; alpha never reaches the output.
    pub r: u8,
    pub g: u8,
    pub b: u8,
    pub material: Material,
}

/// Configuration consumed by the reducer and the emitter.
#[derive(Clone, Copy)]
pub struct GenOptions {
    /// Per-pixel footprint multiplier in half-units (5 for studs, 1 for
    /// micro-bricks).
    pub size: u16,
    /// Vertical multiplier applied to raw heights.
    pub scale: u32,
    /// Brick asset to emit.
    pub asset: BrickAsset,
    /// Drop tiles whose height is zero or whose alpha is zero.
    pub cull: bool,
    /// Render bricks as tiles.
    pub tile: bool,
    /// Render bricks as micro bricks.
    pub micro: bool,
    /// Render bricks as stud cubes; height steps snap to multiples of 5.
    pub stud: bool,
    /// Round z and per-brick height up to the next multiple of 4.
    pub snap: bool,
    /// The heightmap is flat and an image is rendered.
    pub img: bool,
    /// Emit glowing material.
    pub glow: bool,
    /// The heightmap is encoded over all four colour channels.
    pub hdmap: bool,
    /// Input colours are linear RGB already (no gamma conversion).
    pub lrgb: bool,
    /// Disable brick collision.
    pub nocollide: bool,
    /// Run the quad reducer before the line reducer.
    pub quadtree: bool,
}

impl GenOptions {
    /// The bounds the reducer relies on: a positive stride no wider than a
    /// whole brick, and a positive vertical scale.
    pub open spec fn valid(&self) -> bool {
        &&& 1 <= self.size <= MAX_FOOTPRINT
        &&& 1 <= self.scale
        &&& 2 * self.scale + 600 <= i32::MAX
    }
}

/// Conversion table from an 8-bit sRGB-encoded channel to an 8-bit linear
/// channel, tabulated so the curve needs no floating point at run time.
pub const LINEAR_GAMMA: [u8; 256] = [
    0, 0, 0, 0, 0, 0, 0, 0, 0, 0, 0, 0,
    0, 1, 1, 1, 1, 1, 1, 1, 1, 1, 2, 2,
    2, 2, 2, 2, 2, 3, 3, 3, 3, 3, 4, 4,
    4, 4, 4, 5, 5, 5, 5, 6, 6, 6, 6, 7,
    7, 7, 8, 8, 8, 9, 9, 9, 10, 10, 10, 11,
    11, 11, 12, 12, 13, 13, 13, 14, 14, 15, 15, 16,
    16, 16, 17, 17, 18, 18, 19, 19, 20, 20, 21, 22,
    22, 23, 23, 24, 24, 25, 26, 26, 27, 27, 28, 29,
    29, 30, 31, 31, 32, 33, 33, 34, 35, 36, 36, 37,
    38, 38, 39, 40, 41, 42, 42, 43, 44, 45, 46, 47,
    47, 48, 49, 50, 51, 52, 53, 54, 55, 55, 56, 57,
    58, 59, 60, 61, 62, 63, 64, 65, 66, 67, 68, 70,
    71, 72, 73, 74, 75, 76, 77, 78, 80, 81, 82, 83,
    84, 85, 87, 88, 89, 90, 92, 93, 94, 95, 97, 98,
    99, 101, 102, 103, 105, 106, 107, 109, 110, 112, 113, 114,
    116, 117, 119, 120, 122, 123, 125, 126, 128, 129, 131, 132,
    134, 135, 137, 139, 140, 142, 144, 145, 147, 148, 150, 152,
    153, 155, 157, 159, 160, 162, 164, 166, 167, 169, 171, 173,
    175, 176, 178, 180, 182, 184, 186, 188, 190, 192, 193, 195,
    197, 199, 201, 203, 205, 207, 209, 211, 213, 215, 218, 220,
    222, 224, 226, 228, 230, 232, 235, 237, 239, 241, 243, 245,
    248, 250, 252, 254,
];

/// Convert one gamma-encoded channel to linear gamma.
pub fn to_linear_gamma(c: u8) -> (r: u8)
    ensures
        r == LINEAR_GAMMA[c as int],
{
    LINEAR_GAMMA[c as usize]
}

/// Convert an sRGB quadruple to linear RGB; alpha passes through.
pub fn to_linear_rgb(rgb: [u8; 4]) -> (r: [u8; 4])
    ensures
        r[0] == LINEAR_GAMMA[rgb[0] as int],
        r[1] == LINEAR_GAMMA[rgb[1] as int],
        r[2] == LINEAR_GAMMA[rgb[2] as int],
        r[3] == rgb[3],
{
    [to_linear_gamma(rgb[0]), to_linear_gamma(rgb[1]), to_linear_gamma(rgb[2]), rgb[3]]
}

} // verus!
