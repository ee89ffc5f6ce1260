//! Sources the reducer reads: a heightmap returning an integer elevation per
//! pixel and a colormap returning an RGBA quadruple per pixel.
//!
//! Decoding image files is the caller's business; the types here hold plain
//! values.  `HeightmapFlat` is the constant-height map used when rendering a
//! flat image; the grid-backed maps carry decoded pixels.

use vstd::prelude::*;

verus! {

/// A scalar elevation per (x, y), with fixed dimensions.
pub trait Heightmap {
    /// What the lookups rely on (a grid-backed map holds one value per
    /// pixel, say).
    spec fn inv(&self) -> bool;

    /// Dimensions (width, height) the lookups are defined on.
    spec fn spec_size(&self) -> (u32, u32);

    /// The elevation at (x, y).
    spec fn spec_at(&self, x: int, y: int) -> u32;

    fn size(&self) -> (r: (u32, u32))
        requires
            self.inv(),
        ensures
            r == self.spec_size(),
    ;

    fn at(&self, x: u32, y: u32) -> (r: u32)
        requires
            self.inv(),
            x < self.spec_size().0,
            y < self.spec_size().1,
        ensures
            r == self.spec_at(x as int, y as int),
    ;
}

/// An RGBA colour per (x, y), with fixed dimensions.
pub trait Colormap {
    /// What the lookups rely on.
    spec fn inv(&self) -> bool;

    /// Dimensions (width, height) the lookups are defined on.
    spec fn spec_size(&self) -> (u32, u32);

    /// The colour at (x, y).
    spec fn spec_at(&self, x: int, y: int) -> [u8; 4];

    fn size(&self) -> (r: (u32, u32))
        requires
            self.inv(),
        ensures
            r == self.spec_size(),
    ;

    fn at(&self, x: u32, y: u32) -> (r: [u8; 4])
        requires
            self.inv(),
            x < self.spec_size().0,
            y < self.spec_size().1,
        ensures
            r == self.spec_at(x as int, y as int),
    ;
}

/// A completely flat heightmap: every lookup returns 1.
pub struct HeightmapFlat {
    width: u32,
    height: u32,
}

impl Heightmap for HeightmapFlat {
    open spec fn inv(&self) -> bool {
        true
    }

    closed spec fn spec_size(&self) -> (u32, u32) {
        (self.width, self.height)
    }

    open spec fn spec_at(&self, x: int, y: int) -> u32 {
        1u32
    }

    fn size(&self) -> (u32, u32) {
        (self.width, self.height)
    }

    fn at(&self, _x: u32, _y: u32) -> u32 {
        1
    }
}

impl HeightmapFlat {
    pub fn new(dims: (u32, u32)) -> (r: Result<Self, crate::reduce::GenError>)
        ensures
            r is Ok,
            r->Ok_0.spec_size() == dims,
    {
        let (width, height) = dims;
        Ok(HeightmapFlat { width, height })
    }
}

/// A heightmap backed by a row of decoded pixel grids, one per source image.
///
/// Each grid holds one RGBA quadruple per pixel in row-major order.  The
/// elevation at a pixel is the sum over the grids of either the red channel
/// or, when `rgba_encoded` is set, the whole quadruple read as a big-endian
/// 32-bit integer.  Sums wrap modulo 2^32.
pub struct HeightmapGrid {
    maps: Vec<Vec<[u8; 4]>>,
    width: u32,
    height: u32,
    rgba_encoded: bool,
}

/// A big-endian 32-bit integer read from an RGBA quadruple.
pub open spec fn be_u32(p: [u8; 4]) -> u32 {
    (p[0] as u32 * 0x1000000 + p[1] as u32 * 0x10000 + p[2] as u32 * 0x100 + p[3] as u32) as u32
}

/// The elevation contributed by the first `n` grids at flat index `i`.
pub open spec fn stack_height(maps: Seq<Seq<[u8; 4]>>, rgba: bool, i: int, n: int) -> u32
    decreases n,
{
    if n <= 0 {
        0u32
    } else {
        let p = maps[n - 1][i];
        let c: u32 = if rgba {
            be_u32(p)
        } else {
            p[0] as u32
        };
        vstd::wrapping::u32_specs::wrapping_add(stack_height(maps, rgba, i, n - 1), c)
    }
}

impl HeightmapGrid {
    /// All grids cover exactly width * height pixels.
    pub closed spec fn wf(&self) -> bool {
        &&& self.maps@.len() >= 1
        &&& forall|m: int|
            0 <= m < self.maps@.len() ==> (#[trigger] self.maps@[m])@.len()
                == self.width * self.height
        &&& self.width * self.height <= usize::MAX
    }

    spec fn spec_maps(&self) -> Seq<Seq<[u8; 4]>> {
        self.maps@.map_values(|v: Vec<[u8; 4]>| v@)
    }

    /// Build a heightmap from decoded grids, each in row-major order with
    /// the given dimensions.  Rejects an empty list and mismatched sizes.
    pub fn new(maps: Vec<Vec<[u8; 4]>>, width: u32, height: u32, rgba_encoded: bool) -> (r: Result<
        Self,
        crate::reduce::GenError,
    >)
        requires
            width * height <= usize::MAX,
        ensures
            r is Ok ==> r->Ok_0.wf() && r->Ok_0.inv() && r->Ok_0.spec_size() == (width, height),
            r is Ok <==> maps@.len() >= 1 && forall|m: int|
                0 <= m < maps@.len() ==> (#[trigger] maps@[m])@.len() == width * height,
            r is Ok ==> forall|x: int, y: int|
                0 <= x < width && 0 <= y < height ==> #[trigger] r->Ok_0.spec_at(x, y)
                    == stack_height(
                    maps@.map_values(|v: Vec<[u8; 4]>| v@),
                    rgba_encoded,
                    y * width + x,
                    maps@.len() as int,
                ),
    {
        if maps.len() == 0 {
            return Err(crate::reduce::GenError::DimensionMismatch);
        }
        let area = (width as usize) * (height as usize);
        let mut m: usize = 0;
        while m < maps.len()
            invariant
                m <= maps@.len(),
                area == width * height,
                forall|k: int| 0 <= k < m ==> (#[trigger] maps@[k])@.len() == width * height,
            decreases maps@.len() - m,
        {
            if maps[m].len() != area {
                return Err(crate::reduce::GenError::DimensionMismatch);
            }
            m = m + 1;
        }
        Ok(HeightmapGrid { maps, width, height, rgba_encoded })
    }
}

impl Heightmap for HeightmapGrid {
    closed spec fn inv(&self) -> bool {
        self.wf()
    }

    closed spec fn spec_size(&self) -> (u32, u32) {
        (self.width, self.height)
    }

    closed spec fn spec_at(&self, x: int, y: int) -> u32 {
        stack_height(
            self.spec_maps(),
            self.rgba_encoded,
            y * self.width + x,
            self.spec_maps().len() as int,
        )
    }

    fn size(&self) -> (u32, u32) {
        (self.width, self.height)
    }

    fn at(&self, x: u32, y: u32) -> (r: u32) {
        proof {
            assert(y * self.width + x < self.width * self.height) by (nonlinear_arith)
                requires
                    x < self.width,
                    y < self.height,
            ;
        }
        let i = (y as usize) * (self.width as usize) + (x as usize);
        let mut sum: u32 = 0;
        let mut m: usize = 0;
        while m < self.maps.len()
            invariant
                self.wf(),
                m <= self.maps@.len(),
                x < self.spec_size().0,
                y < self.spec_size().1,
                i == y * self.width + x,
                i < self.width * self.height,
                sum == stack_height(self.spec_maps(), self.rgba_encoded, i as int, m as int),
            decreases self.maps@.len() - m,
        {
            let p = self.maps[m][i];
            let c: u32 = if self.rgba_encoded {
                (p[0] as u32) * 0x1000000 + (p[1] as u32) * 0x10000 + (p[2] as u32) * 0x100 + (
                p[3] as u32)
            } else {
                p[0] as u32
            };
            proof {
                assert(self.spec_maps()[m as int][i as int] == p);
            }
            sum = sum.wrapping_add(c);
            m = m + 1;
        }
        sum
    }
}

/// A colormap backed by one decoded pixel grid in row-major order.
pub struct ColormapGrid {
    pixels: Vec<[u8; 4]>,
    width: u32,
    height: u32,
}

impl ColormapGrid {
    /// The grid covers exactly width * height pixels.
    pub closed spec fn wf(&self) -> bool {
        &&& self.pixels@.len() == self.width * self.height
        &&& self.width * self.height <= usize::MAX
    }

    /// Build a colormap from one decoded grid in row-major order with the
    /// given dimensions.
    pub fn new(pixels: Vec<[u8; 4]>, width: u32, height: u32) -> (r: Result<
        Self,
        crate::reduce::GenError,
    >)
        requires
            width * height <= usize::MAX,
        ensures
            r is Ok <==> pixels@.len() == width * height,
            r is Ok ==> r->Ok_0.wf() && r->Ok_0.inv() && r->Ok_0.spec_size() == (width, height)
                && forall|
                x: int,
                y: int,
            |
                0 <= x < width && 0 <= y < height ==> r->Ok_0.spec_at(x, y) == pixels@[y * width
                    + x],
    {
        let area = (width as usize) * (height as usize);
        if pixels.len() != area {
            return Err(crate::reduce::GenError::DimensionMismatch);
        }
        Ok(ColormapGrid { pixels, width, height })
    }
}

impl Colormap for ColormapGrid {
    closed spec fn inv(&self) -> bool {
        self.wf()
    }

    closed spec fn spec_size(&self) -> (u32, u32) {
        (self.width, self.height)
    }

    closed spec fn spec_at(&self, x: int, y: int) -> [u8; 4] {
        self.pixels@[y * self.width + x]
    }

    fn size(&self) -> (u32, u32) {
        (self.width, self.height)
    }

    fn at(&self, x: u32, y: u32) -> (r: [u8; 4]) {
        proof {
            assert(y * self.width + x < self.width * self.height) by (nonlinear_arith)
                requires
                    x < self.width,
                    y < self.height,
            ;
        }
        self.pixels[(y as usize) * (self.width as usize) + (x as usize)]
    }
}

} // verus!
