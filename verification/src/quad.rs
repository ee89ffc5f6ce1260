//! The tile grid and its two reducers.
//!
//! A `QuadTree` holds one tile slot per pixel of the source images.  A tile
//! with no parent is live and owns an axis-aligned rectangle of pixels; the
//! live rectangles always partition the grid.  The quad reducer collapses
//! aligned 2x2 blocks of equal tiles, the line reducer extends tiles along
//! rows or columns, and the emitter turns each surviving rectangle into a
//! vertical stack of bricks.

use crate::hset::HeightSet;
use crate::map::{Colormap, Heightmap};
use crate::reduce::GenError;
use vstd::arithmetic::div_mod::lemma_fundamental_div_mod_converse;
use vstd::prelude::*;

verus! {

/// One slot of the grid: a logical rectangle of pixels, possibly merged,
/// carrying colour, height and neighbour-height information.
pub struct Tile {
    /// Stable position of this tile in the flat grid.
    pub index: usize,
    /// The (x, y) of the tile's top-left original pixel; never changes.
    pub center: (u32, u32),
    /// Footprint in original-pixel units; grows by merges.
    pub size: (u32, u32),
    /// RGBA colour taken from the colormap at `center`.
    pub color: [u8; 4],
    /// Elevation taken from the heightmap at `center`.
    pub height: u32,
    /// The distinct heights at the 4-connected neighbours of every pixel
    /// absorbed into this tile.
    pub neighbors: HeightSet,
    /// The tile that absorbed this one, if any; `None` means live.
    pub parent: Option<usize>,
}

impl Tile {
    /// Quad-merge compatibility: same size, colour and height, both live.
    pub open spec fn spec_similar_quad(&self, other: &Tile) -> bool {
        &&& self.size == other.size
        &&& self.color == other.color
        &&& self.height == other.height
        &&& self.parent is None
        &&& other.parent is None
    }

    /// Determine if another tile is similar in all properties.
    pub fn similar_quad(&self, other: &Tile) -> (r: bool)
        ensures
            r == self.spec_similar_quad(other),
    {
        let r = self.size.0 == other.size.0 && self.size.1 == other.size.1 && same_color(
            self.color,
            other.color,
        ) && self.height == other.height && self.parent.is_none() && other.parent.is_none();
        proof {
            if self.size.0 == other.size.0 && self.size.1 == other.size.1 {
                assert(self.size == other.size);
            }
        }
        r
    }

    /// Line-merge compatibility: same colour and height, both live, and
    /// collinear with a matching perpendicular dimension.
    pub open spec fn spec_similar_line(&self, other: &Tile) -> bool {
        let is_vertical = self.center.0 == other.center.0;
        let is_horizontal = self.center.1 == other.center.1;
        &&& (is_vertical && self.size.0 == other.size.0 || is_horizontal && self.size.1
            == other.size.1)
        &&& self.color == other.color
        &&& self.height == other.height
        &&& self.parent is None
        &&& other.parent is None
    }

    /// Determine if another tile is similar in all properties except
    /// potentially width or height, as long as they are in a line.
    pub fn similar_line(&self, other: &Tile) -> (r: bool)
        ensures
            r == self.spec_similar_line(other),
    {
        let is_vertical = self.center.0 == other.center.0;
        let is_horizontal = self.center.1 == other.center.1;
        (is_vertical && self.size.0 == other.size.0 || is_horizontal && self.size.1
            == other.size.1) && same_color(self.color, other.color) && self.height == other.height
            && self.parent.is_none() && other.parent.is_none()
    }
}

/// Componentwise equality of two RGBA quadruples.
pub fn same_color(a: [u8; 4], b: [u8; 4]) -> (r: bool)
    ensures
        r == (a == b),
{
    let r = a[0] == b[0] && a[1] == b[1] && a[2] == b[2] && a[3] == b[3];
    proof {
        if r {
            assert(a =~= b);
        }
    }
    r
}

/// The flat grid of tiles plus ghost copies of the two source rasters
/// (indexed like the tiles themselves).
pub struct QuadTree {
    pub tiles: Vec<Tile>,
    pub width: u32,
    pub height: u32,
    /// Heightmap pixels, for specification only.
    pub hmap: Ghost<Seq<u32>>,
    /// Colormap pixels, for specification only.
    pub cmap: Ghost<Seq<[u8; 4]>>,
}

impl QuadTree {
    /// Flat index of the grid slot at (x, y).
    pub open spec fn spec_index(&self, x: int, y: int) -> int {
        y + x * self.height
    }

    /// The heightmap pixel at (x, y).
    pub open spec fn ph(&self, x: int, y: int) -> u32 {
        self.hmap@[self.spec_index(x, y)]
    }

    /// The colormap pixel at (x, y).
    pub open spec fn pc(&self, x: int, y: int) -> [u8; 4] {
        self.cmap@[self.spec_index(x, y)]
    }

    /// Tile `i` is live and its rectangle contains the pixel (px, py).
    pub open spec fn covers(&self, i: int, px: int, py: int) -> bool {
        let t = self.tiles@[i];
        &&& 0 <= i < self.tiles@.len()
        &&& t.parent is None
        &&& t.center.0 <= px < t.center.0 + t.size.0
        &&& t.center.1 <= py < t.center.1 + t.size.1
    }

    /// Some live tile's rectangle contains the pixel (px, py).
    pub open spec fn pixel_covered(&self, px: int, py: int) -> bool {
        exists|i: int| self.covers(i, px, py)
    }

    /// Everything the reducers preserve: the grid has exactly
    /// width * height slots; slots know their own position; every live
    /// tile's rectangle lies inside the grid; the live rectangles cover
    /// every pixel exactly once; and each live tile carries exactly the
    /// colour, height and neighbour heights of the pixels it absorbed.
    pub open spec fn wf(&self) -> bool {
        &&& self.tiles@.len() == self.width * self.height
        &&& self.hmap@.len() == self.width * self.height
        &&& self.cmap@.len() == self.width * self.height
        &&& forall|i: int|
            0 <= i < self.tiles@.len() ==> (#[trigger] self.tiles@[i]).index == i
        &&& forall|i: int|
            0 <= i < self.tiles@.len() ==> {
                let t = #[trigger] self.tiles@[i];
                &&& t.center.1 + t.center.0 * self.height == i
                &&& t.center.0 < self.width
                &&& t.center.1 < self.height
            }
        &&& forall|i: int|
            0 <= i < self.tiles@.len() && (#[trigger] self.tiles@[i]).parent is None ==> {
                let t = self.tiles@[i];
                &&& 1 <= t.size.0
                &&& 1 <= t.size.1
                &&& t.center.0 + t.size.0 <= self.width
                &&& t.center.1 + t.size.1 <= self.height
            }
        &&& forall|px: int, py: int|
            0 <= px < self.width && 0 <= py < self.height ==> #[trigger] self.pixel_covered(
                px,
                py,
            )
        &&& forall|i: int, j: int, px: int, py: int|
            #[trigger] self.covers(i, px, py) && #[trigger] self.covers(j, px, py) ==> i == j
        &&& forall|i: int, px: int, py: int|
            #[trigger] self.covers(i, px, py) ==> self.ph(px, py) == self.tiles@[i].height
                && self.pc(px, py) == self.tiles@[i].color
        &&& forall|i: int|
            0 <= i < self.tiles@.len() ==> (#[trigger] self.tiles@[i]).neighbors.wf()
        &&& forall|i: int|
            0 <= i < self.tiles@.len() && (#[trigger] self.tiles@[i]).parent is None ==> {
                let t = self.tiles@[i];
                t.neighbors@ == rect_nbrs(
                    self.hmap@,
                    self.width as int,
                    self.height as int,
                    t.center.0 as int,
                    t.center.1 as int,
                    t.size.0 as int,
                    t.size.1 as int,
                )
            }
    }

    /// During the quad phase every live tile is square.
    pub open spec fn all_square(&self) -> bool {
        forall|i: int|
            0 <= i < self.tiles@.len() && (#[trigger] self.tiles@[i]).parent is None
                ==> self.tiles@[i].size.0 == self.tiles@[i].size.1
    }

    /// Every live tile's footprint, scaled by `stride`, stays within the
    /// widest allowed brick.
    pub open spec fn footprint_ok(&self, stride: int) -> bool {
        forall|i: int|
            0 <= i < self.tiles@.len() && (#[trigger] self.tiles@[i]).parent is None ==> {
                &&& self.tiles@[i].size.0 * stride <= 500
                &&& self.tiles@[i].size.1 * stride <= 500
            }
    }

    /// Flat index of the grid slot at (x, y), as executable code.
    fn index(&self, x: u32, y: u32) -> (i: usize)
        requires
            x < self.width,
            y < self.height,
            self.tiles@.len() == self.width * self.height,
        ensures
            i == self.spec_index(x as int, y as int),
            i < self.tiles@.len(),
    {
        proof {
            lemma_flat_index(self.width as int, self.height as int, x as int, y as int);
        }
        // Bind the length so the flat index is known to fit a usize.
        let slots = self.tiles.len();
        proof {
            assert(y + x * self.height < slots);
        }
        (y as usize) + (x as usize) * (self.height as usize)
    }

    /// Create a grid from two same-sized rasters, one 1x1 live tile per
    /// pixel.
    pub fn new<HM: Heightmap, CM: Colormap>(heightmap: &HM, colormap: &CM) -> (r: Result<
        Self,
        GenError,
    >)
        requires
            heightmap.inv(),
            colormap.inv(),
            heightmap.spec_size().0 * heightmap.spec_size().1 <= usize::MAX,
        ensures
            r is Err <==> heightmap.spec_size() != colormap.spec_size(),
            r is Err ==> r->Err_0 == GenError::DimensionMismatch,
            r is Ok ==> {
                let q = r->Ok_0;
                &&& q.wf()
                &&& q.all_square()
                &&& q.width == heightmap.spec_size().0
                &&& q.height == heightmap.spec_size().1
                &&& q.hmap@ == hraster(heightmap)
                &&& q.cmap@ == craster(colormap)
                &&& forall|x: int, y: int|
                    0 <= x < q.width && 0 <= y < q.height ==> #[trigger] q.ph(x, y)
                        == heightmap.spec_at(x, y) && q.pc(x, y) == colormap.spec_at(x, y)
                &&& forall|i: int|
                    0 <= i < q.tiles@.len() ==> {
                        let t = #[trigger] q.tiles@[i];
                        &&& t.parent is None
                        &&& t.size == (1u32, 1u32)
                        &&& t.height == q.ph(t.center.0 as int, t.center.1 as int)
                        &&& t.color == q.pc(t.center.0 as int, t.center.1 as int)
                    }
            },
    {
        let (width, height) = heightmap.size();
        let (cw, ch) = colormap.size();
        if cw != width || ch != height {
            return Err(GenError::DimensionMismatch);
        }
        let ghost hmf = Seq::new(
            (width * height) as nat,
            |i: int| heightmap.spec_at(i / height as int, i % height as int),
        );
        let ghost cmf = Seq::new(
            (width * height) as nat,
            |i: int| colormap.spec_at(i / height as int, i % height as int),
        );
        let mut tiles: Vec<Tile> = Vec::new();
        let mut x: u32 = 0;
        while x < width
            invariant
                heightmap.inv(),
                colormap.inv(),
                width == heightmap.spec_size().0,
                height == heightmap.spec_size().1,
                width == colormap.spec_size().0,
                height == colormap.spec_size().1,
                width * height <= usize::MAX,
                hmf.len() == width * height,
                cmf.len() == width * height,
                forall|j: int|
                    0 <= j < width * height ==> #[trigger] hmf[j] == heightmap.spec_at(
                        j / height as int,
                        j % height as int,
                    ),
                forall|j: int|
                    0 <= j < width * height ==> #[trigger] cmf[j] == colormap.spec_at(
                        j / height as int,
                        j % height as int,
                    ),
                x <= width,
                tiles@.len() == x * height,
                forall|i: int|
                    0 <= i < tiles@.len() ==> tile_slot_ok(
                        #[trigger] tiles@[i],
                        i,
                        width as int,
                        height as int,
                        hmf,
                        cmf,
                    ),
            decreases width - x,
        {
            let mut y: u32 = 0;
            proof {
                assert(x * height + height <= width * height && (x + 1) * height == x * height
                    + height) by (nonlinear_arith)
                    requires
                        x < width,
                        0 <= height,
                ;
            }
            while y < height
                invariant
                    heightmap.inv(),
                    colormap.inv(),
                    width == heightmap.spec_size().0,
                    height == heightmap.spec_size().1,
                    width == colormap.spec_size().0,
                    height == colormap.spec_size().1,
                    width * height <= usize::MAX,
                    hmf.len() == width * height,
                    cmf.len() == width * height,
                    forall|j: int|
                        0 <= j < width * height ==> #[trigger] hmf[j] == heightmap.spec_at(
                            j / height as int,
                            j % height as int,
                        ),
                    forall|j: int|
                        0 <= j < width * height ==> #[trigger] cmf[j] == colormap.spec_at(
                            j / height as int,
                            j % height as int,
                        ),
                    x < width,
                    y <= height,
                    x * height + height <= width * height,
                    tiles@.len() == x * height + y,
                    forall|i: int|
                        0 <= i < tiles@.len() ==> tile_slot_ok(
                            #[trigger] tiles@[i],
                            i,
                            width as int,
                            height as int,
                            hmf,
                            cmf,
                        ),
                decreases height - y,
            {
                let mut neighbors = HeightSet::empty();
                if x > 0 {
                    neighbors.insert(heightmap.at(x - 1, y));
                }
                if x + 1 < width {
                    neighbors.insert(heightmap.at(x + 1, y));
                }
                if y > 0 {
                    neighbors.insert(heightmap.at(x, y - 1));
                }
                if y + 1 < height {
                    neighbors.insert(heightmap.at(x, y + 1));
                }
                let index = tiles.len();
                let t = Tile {
                    index,
                    center: (x, y),
                    size: (1, 1),
                    color: colormap.at(x, y),
                    height: heightmap.at(x, y),
                    neighbors,
                    parent: None,
                };
                proof {
                    lemma_flat_index(width as int, height as int, x as int, y as int);
                    assert(tile_slot_ok(t, (x * height + y) as int, width as int, height as int,
                    hmf, cmf)) by {
                        let i = (x * height + y) as int;
                        assert(hmf[i] == heightmap.spec_at(x as int, y as int));
                        assert(cmf[i] == colormap.spec_at(x as int, y as int));
                        assert(t.neighbors@ =~= slot_nbrs(
                            hmf,
                            width as int,
                            height as int,
                            x as int,
                            y as int,
                        )) by {
                            if x > 0 {
                                assert(hmf[y + (x - 1) * height] == heightmap.spec_at(
                                    x - 1,
                                    y as int,
                                )) by {
                                    lemma_flat_index(width as int, height as int, x - 1, y as int);
                                }
                            }
                            if x + 1 < width {
                                assert(hmf[y + (x + 1) * height] == heightmap.spec_at(
                                    x + 1,
                                    y as int,
                                )) by {
                                    lemma_flat_index(width as int, height as int, x + 1, y as int);
                                }
                            }
                            if y > 0 {
                                assert(hmf[(y - 1) + x * height] == heightmap.spec_at(
                                    x as int,
                                    y - 1,
                                )) by {
                                    lemma_flat_index(width as int, height as int, x as int, y - 1);
                                }
                            }
                            if y + 1 < height {
                                assert(hmf[(y + 1) + x * height] == heightmap.spec_at(
                                    x as int,
                                    y + 1,
                                )) by {
                                    lemma_flat_index(width as int, height as int, x as int, y + 1);
                                }
                            }
                        }
                    }
                }
                tiles.push(t);
                y = y + 1;
            }
            x = x + 1;
            proof {
                assert(x * height == (x - 1) * height + height) by (nonlinear_arith);
            }
        }
        let q = QuadTree { tiles, width, height, hmap: Ghost(hmf), cmap: Ghost(cmf) };
        proof {
            assert(q.hmap@ =~= hraster(heightmap));
            assert(q.cmap@ =~= craster(colormap));
            assert(q.tiles@.len() == width * height);
            lemma_new_grid_wf(&q);
            assert forall|x2: int, y2: int| 0 <= x2 < q.width && 0 <= y2 < q.height implies {
                &&& #[trigger] q.ph(x2, y2) == heightmap.spec_at(x2, y2)
                &&& q.pc(x2, y2) == colormap.spec_at(x2, y2)
            } by {
                lemma_flat_index(width as int, height as int, x2, y2);
            }
        }
        Ok(q)
    }
}

/// The flat ghost copy of a heightmap, indexed like the tile grid.
pub open spec fn hraster<HM: Heightmap>(heightmap: &HM) -> Seq<u32> {
    Seq::new(
        (heightmap.spec_size().0 * heightmap.spec_size().1) as nat,
        |i: int|
            heightmap.spec_at(
                i / heightmap.spec_size().1 as int,
                i % heightmap.spec_size().1 as int,
            ),
    )
}

/// The flat ghost copy of a colormap, indexed like the tile grid.
pub open spec fn craster<CM: Colormap>(colormap: &CM) -> Seq<[u8; 4]> {
    Seq::new(
        (colormap.spec_size().0 * colormap.spec_size().1) as nat,
        |i: int|
            colormap.spec_at(
                i / colormap.spec_size().1 as int,
                i % colormap.spec_size().1 as int,
            ),
    )
}

/// What every slot of a freshly built grid satisfies: a live 1x1 tile that
/// knows its position and carries its own pixel's data.
pub open spec fn tile_slot_ok(
    t: Tile,
    i: int,
    width: int,
    height: int,
    hmf: Seq<u32>,
    cmf: Seq<[u8; 4]>,
) -> bool {
    &&& t.index == i
    &&& t.center.1 + t.center.0 * height == i
    &&& t.center.0 < width
    &&& t.center.1 < height
    &&& t.size == (1u32, 1u32)
    &&& t.parent is None
    &&& t.height == hmf[i]
    &&& t.color == cmf[i]
    &&& t.neighbors.wf()
    &&& t.neighbors@ == slot_nbrs(hmf, width, height, t.center.0 as int, t.center.1 as int)
}

/// The distinct heights among the in-bounds 4-connected neighbours of the
/// pixel (x, y), read from a flat raster.
pub open spec fn slot_nbrs(hmf: Seq<u32>, width: int, height: int, x: int, y: int) -> Set<u32> {
    Set::new(
        |v: u32|
            {
                ||| (x > 0 && hmf[y + (x - 1) * height] == v)
                ||| (x + 1 < width && hmf[y + (x + 1) * height] == v)
                ||| (y > 0 && hmf[(y - 1) + x * height] == v)
                ||| (y + 1 < height && hmf[(y + 1) + x * height] == v)
            },
    )
}

/// The union of `slot_nbrs` over a w-by-h rectangle of pixels whose top-left
/// pixel is (x0, y0).
pub open spec fn rect_nbrs(
    hmf: Seq<u32>,
    width: int,
    height: int,
    x0: int,
    y0: int,
    w: int,
    h: int,
) -> Set<u32> {
    Set::new(
        |v: u32|
            exists|px: int, py: int|
                x0 <= px < x0 + w && y0 <= py < y0 + h && #[trigger] slot_nbrs(
                    hmf,
                    width,
                    height,
                    px,
                    py,
                ).contains(v),
    )
}

/// Positions below the grid bounds give flat indices below the grid area,
/// and the index decomposes back into the position.
pub proof fn lemma_flat_index(width: int, height: int, x: int, y: int)
    requires
        0 <= x < width,
        0 <= y < height,
    ensures
        0 <= y + x * height < width * height,
        (y + x * height) / height == x,
        (y + x * height) % height == y,
{
    assert(0 <= y + x * height < width * height) by (nonlinear_arith)
        requires
            0 <= x < width,
            0 <= y < height,
    ;
    lemma_fundamental_div_mod_converse(y + x * height, height, x, y);
}

/// Two in-bounds positions with the same flat index are the same position.
pub proof fn lemma_flat_index_unique(height: int, x1: int, y1: int, x2: int, y2: int)
    requires
        0 <= y1 < height,
        0 <= y2 < height,
        y1 + x1 * height == y2 + x2 * height,
    ensures
        x1 == x2,
        y1 == y2,
{
    assert(x1 == x2 && y1 == y2) by (nonlinear_arith)
        requires
            0 <= y1 < height,
            0 <= y2 < height,
            y1 + x1 * height == y2 + x2 * height,
    ;
}

/// A grid whose every slot is a fresh 1x1 live tile is well formed.
proof fn lemma_new_grid_wf(q: &QuadTree)
    requires
        q.tiles@.len() == q.width * q.height,
        q.hmap@.len() == q.width * q.height,
        q.cmap@.len() == q.width * q.height,
        forall|i: int|
            0 <= i < q.tiles@.len() ==> tile_slot_ok(
                #[trigger] q.tiles@[i],
                i,
                q.width as int,
                q.height as int,
                q.hmap@,
                q.cmap@,
            ),
    ensures
        q.wf(),
        q.all_square(),
{
    assert forall|px: int, py: int|
        0 <= px < q.width && 0 <= py < q.height implies #[trigger] q.pixel_covered(px, py) by {
        lemma_flat_index(q.width as int, q.height as int, px, py);
        let i = py + px * q.height;
        assert(tile_slot_ok(q.tiles@[i], i, q.width as int, q.height as int, q.hmap@, q.cmap@));
        lemma_flat_index_unique(
            q.height as int,
            q.tiles@[i].center.0 as int,
            q.tiles@[i].center.1 as int,
            px,
            py,
        );
        assert(q.covers(i, px, py));
    }
    assert forall|i: int, j: int, px: int, py: int|
        #[trigger] q.covers(i, px, py) && #[trigger] q.covers(j, px, py) implies i == j by {
        let ti = q.tiles@[i];
        let tj = q.tiles@[j];
        assert(ti.center.0 == px && ti.center.1 == py);
        assert(tj.center.0 == px && tj.center.1 == py);
    }
    assert forall|i: int, px: int, py: int| #[trigger] q.covers(i, px, py) implies q.ph(px, py)
        == q.tiles@[i].height && q.pc(px, py) == q.tiles@[i].color by {
        let t = q.tiles@[i];
        assert(t.center.0 == px && t.center.1 == py);
    }
    assert forall|i: int|
        0 <= i < q.tiles@.len() && (#[trigger] q.tiles@[i]).parent is None implies {
        let t = q.tiles@[i];
        t.neighbors@ == rect_nbrs(
            q.hmap@,
            q.width as int,
            q.height as int,
            t.center.0 as int,
            t.center.1 as int,
            t.size.0 as int,
            t.size.1 as int,
        )
    } by {
        let t = q.tiles@[i];
        let x = t.center.0 as int;
        let y = t.center.1 as int;
        lemma_rect_nbrs_single(q.hmap@, q.width as int, q.height as int, x, y);
    }
}

/// Over a single pixel, the rectangle union of neighbour sets is just that
/// pixel's neighbour set.
pub proof fn lemma_rect_nbrs_single(hmf: Seq<u32>, width: int, height: int, x: int, y: int)
    ensures
        rect_nbrs(hmf, width, height, x, y, 1, 1) == slot_nbrs(hmf, width, height, x, y),
{
    assert(rect_nbrs(hmf, width, height, x, y, 1, 1) =~= slot_nbrs(hmf, width, height, x, y)) by {
        assert forall|v: u32| slot_nbrs(hmf, width, height, x, y).contains(v) implies rect_nbrs(
            hmf,
            width,
            height,
            x,
            y,
            1,
            1,
        ).contains(v) by {
            assert(x <= x < x + 1 && y <= y < y + 1 && slot_nbrs(hmf, width, height, x, y).contains(
                v,
            ));
        }
    }
}

/// Splitting a rectangle into a left and a right part splits the union of
/// its pixels' neighbour sets.
pub proof fn lemma_rect_nbrs_split_h(
    hmf: Seq<u32>,
    width: int,
    height: int,
    x0: int,
    y0: int,
    w1: int,
    w2: int,
    h: int,
)
    requires
        0 <= w1,
        0 <= w2,
    ensures
        rect_nbrs(hmf, width, height, x0, y0, w1 + w2, h) == rect_nbrs(
            hmf,
            width,
            height,
            x0,
            y0,
            w1,
            h,
        ).union(rect_nbrs(hmf, width, height, x0 + w1, y0, w2, h)),
{
    let a = rect_nbrs(hmf, width, height, x0, y0, w1, h);
    let b = rect_nbrs(hmf, width, height, x0 + w1, y0, w2, h);
    let c = rect_nbrs(hmf, width, height, x0, y0, w1 + w2, h);
    assert(c =~= a.union(b)) by {
        assert forall|v: u32| c.contains(v) implies a.union(b).contains(v) by {
            let (px, py) = choose|px: int, py: int|
                x0 <= px < x0 + (w1 + w2) && y0 <= py < y0 + h && #[trigger] slot_nbrs(
                    hmf,
                    width,
                    height,
                    px,
                    py,
                ).contains(v);
            if px < x0 + w1 {
                assert(a.contains(v));
            } else {
                assert(b.contains(v));
            }
        }
        assert forall|v: u32| a.union(b).contains(v) implies c.contains(v) by {
            if a.contains(v) {
                let (px, py) = choose|px: int, py: int|
                    x0 <= px < x0 + w1 && y0 <= py < y0 + h && #[trigger] slot_nbrs(
                        hmf,
                        width,
                        height,
                        px,
                        py,
                    ).contains(v);
                assert(x0 <= px < x0 + (w1 + w2) && y0 <= py < y0 + h && slot_nbrs(
                    hmf,
                    width,
                    height,
                    px,
                    py,
                ).contains(v));
            } else {
                let (px, py) = choose|px: int, py: int|
                    x0 + w1 <= px < x0 + w1 + w2 && y0 <= py < y0 + h && #[trigger] slot_nbrs(
                        hmf,
                        width,
                        height,
                        px,
                        py,
                    ).contains(v);
                assert(x0 <= px < x0 + (w1 + w2) && y0 <= py < y0 + h && slot_nbrs(
                    hmf,
                    width,
                    height,
                    px,
                    py,
                ).contains(v));
            }
        }
    }
}

/// Splitting a rectangle into a top and a bottom part splits the union of
/// its pixels' neighbour sets.
pub proof fn lemma_rect_nbrs_split_v(
    hmf: Seq<u32>,
    width: int,
    height: int,
    x0: int,
    y0: int,
    w: int,
    h1: int,
    h2: int,
)
    requires
        0 <= h1,
        0 <= h2,
    ensures
        rect_nbrs(hmf, width, height, x0, y0, w, h1 + h2) == rect_nbrs(
            hmf,
            width,
            height,
            x0,
            y0,
            w,
            h1,
        ).union(rect_nbrs(hmf, width, height, x0, y0 + h1, w, h2)),
{
    let a = rect_nbrs(hmf, width, height, x0, y0, w, h1);
    let b = rect_nbrs(hmf, width, height, x0, y0 + h1, w, h2);
    let c = rect_nbrs(hmf, width, height, x0, y0, w, h1 + h2);
    assert(c =~= a.union(b)) by {
        assert forall|v: u32| c.contains(v) implies a.union(b).contains(v) by {
            let (px, py) = choose|px: int, py: int|
                x0 <= px < x0 + w && y0 <= py < y0 + (h1 + h2) && #[trigger] slot_nbrs(
                    hmf,
                    width,
                    height,
                    px,
                    py,
                ).contains(v);
            if py < y0 + h1 {
                assert(a.contains(v));
            } else {
                assert(b.contains(v));
            }
        }
        assert forall|v: u32| a.union(b).contains(v) implies c.contains(v) by {
            if a.contains(v) {
                let (px, py) = choose|px: int, py: int|
                    x0 <= px < x0 + w && y0 <= py < y0 + h1 && #[trigger] slot_nbrs(
                        hmf,
                        width,
                        height,
                        px,
                        py,
                    ).contains(v);
                assert(x0 <= px < x0 + w && y0 <= py < y0 + (h1 + h2) && slot_nbrs(
                    hmf,
                    width,
                    height,
                    px,
                    py,
                ).contains(v));
            } else {
                let (px, py) = choose|px: int, py: int|
                    x0 <= px < x0 + w && y0 + h1 <= py < y0 + h1 + h2 && #[trigger] slot_nbrs(
                        hmf,
                        width,
                        height,
                        px,
                        py,
                    ).contains(v);
                assert(x0 <= px < x0 + w && y0 <= py < y0 + (h1 + h2) && slot_nbrs(
                    hmf,
                    width,
                    height,
                    px,
                    py,
                ).contains(v));
            }
        }
    }
}

impl QuadTree {
    /// The four aligned tiles anchored at (x, y) with step `space` may be
    /// quad-merged: all in range, pairwise similar, and the anchor's width
    /// equals the step.
    pub open spec fn quad_mergeable(&self, x: int, y: int, space: int) -> bool {
        let i1 = self.spec_index(x, y);
        let i2 = self.spec_index(x + space, y);
        let i3 = self.spec_index(x, y + space);
        let i4 = self.spec_index(x + space, y + space);
        &&& 1 <= space
        &&& 0 <= x && x + space < self.width
        &&& 0 <= y && y + space < self.height
        &&& self.tiles@[i1].size.0 == space
        &&& self.tiles@[i1].spec_similar_quad(&self.tiles@[i2])
        &&& self.tiles@[i1].spec_similar_quad(&self.tiles@[i3])
        &&& self.tiles@[i1].spec_similar_quad(&self.tiles@[i4])
    }

    /// Merge the 2x2 block of tiles anchored at (x, y) into its top-left
    /// tile: the anchor doubles in both dimensions and takes over the other
    /// three tiles' neighbour heights; they become dormant.
    fn merge_quad(&mut self, x: u32, y: u32, space: u32)
        requires
            old(self).wf(),
            old(self).all_square(),
            old(self).quad_mergeable(x as int, y as int, space as int),
        ensures
            final(self).wf(),
            final(self).all_square(),
            final(self).width == old(self).width,
            final(self).height == old(self).height,
            final(self).hmap == old(self).hmap,
            final(self).cmap == old(self).cmap,
            final(self).tiles@.len() == old(self).tiles@.len(),
            (forall|i: int|
                0 <= i < old(self).tiles@.len() && i != old(self).spec_index(x as int, y as int)
                    && i != old(self).spec_index(x + space, y as int) && i != old(
                    self,
                ).spec_index(x as int, y + space) && i != old(self).spec_index(x + space, y + space)
                    ==> final(self).tiles@[i] == old(self).tiles@[i]),
            ({
                let i1 = old(self).spec_index(x as int, y as int);
                let t = final(self).tiles@[i1];
                let t0 = old(self).tiles@[i1];
                &&& t.index == t0.index
                &&& t.center == t0.center
                &&& t.color == t0.color
                &&& t.height == t0.height
                &&& t.parent is None
                &&& t.size.0 == 2 * space
                &&& t.size.1 == 2 * space
            }),
            ({
                let i1 = old(self).spec_index(x as int, y as int);
                let i2 = old(self).spec_index(x + space, y as int);
                let i3 = old(self).spec_index(x as int, y + space);
                let i4 = old(self).spec_index(x + space, y + space);
                &&& absorbed_slot_ok(final(self).tiles@[i2], old(self).tiles@[i2], i1)
                &&& absorbed_slot_ok(final(self).tiles@[i3], old(self).tiles@[i3], i1)
                &&& absorbed_slot_ok(final(self).tiles@[i4], old(self).tiles@[i4], i1)
            }),
    {
        proof {
            lemma_slot_center(old(self), x as int, y as int);
            lemma_slot_center(old(self), x + space, y as int);
            lemma_slot_center(old(self), x as int, y + space);
            lemma_slot_center(old(self), x + space, y + space);
        }
        let i1 = self.index(x, y);
        let i2 = self.index(x + space, y);
        let i3 = self.index(x, y + space);
        let i4 = self.index(x + space, y + space);
        proof {
            let h = self.height as int;
            if i1 == i2 {
                lemma_flat_index_unique(h, x as int, y as int, x + space, y as int);
            }
            if i1 == i3 {
                lemma_flat_index_unique(h, x as int, y as int, x as int, y + space);
            }
            if i1 == i4 {
                lemma_flat_index_unique(h, x as int, y as int, x + space, y + space);
            }
            if i2 == i3 {
                lemma_flat_index_unique(h, x + space, y as int, x as int, y + space);
            }
            if i2 == i4 {
                lemma_flat_index_unique(h, x + space, y as int, x + space, y + space);
            }
            if i3 == i4 {
                lemma_flat_index_unique(h, x as int, y + space, x + space, y + space);
            }
            // The four tiles are equal squares of side `space`, so the
            // doubled anchor stays inside the grid.
            assert(self.tiles@[i2 as int].center.0 + self.tiles@[i2 as int].size.0 <= self.width);
        }
        let mut nb = self.tiles[i1].neighbors.duplicate();
        nb.union_with(&self.tiles[i2].neighbors);
        nb.union_with(&self.tiles[i3].neighbors);
        nb.union_with(&self.tiles[i4].neighbors);
        let t1 = &self.tiles[i1];
        let new1 = Tile {
            index: t1.index,
            center: t1.center,
            size: (space * 2, space * 2),
            color: t1.color,
            height: t1.height,
            neighbors: nb,
            parent: None,
        };
        self.tiles.set(i1, new1);
        let t2 = &self.tiles[i2];
        let new2 = Tile {
            index: t2.index,
            center: t2.center,
            size: t2.size,
            color: t2.color,
            height: t2.height,
            neighbors: HeightSet::empty(),
            parent: Some(i1),
        };
        self.tiles.set(i2, new2);
        let t3 = &self.tiles[i3];
        let new3 = Tile {
            index: t3.index,
            center: t3.center,
            size: t3.size,
            color: t3.color,
            height: t3.height,
            neighbors: HeightSet::empty(),
            parent: Some(i1),
        };
        self.tiles.set(i3, new3);
        let t4 = &self.tiles[i4];
        let new4 = Tile {
            index: t4.index,
            center: t4.center,
            size: t4.size,
            color: t4.color,
            height: t4.height,
            neighbors: HeightSet::empty(),
            parent: Some(i1),
        };
        self.tiles.set(i4, new4);
        proof {
            lemma_quad_merge_preserves(old(self), self, x as int, y as int, space as int);
        }
    }
}

/// The slot at an in-bounds position (x, y) records that position as its
/// top-left pixel.
pub proof fn lemma_slot_center(q: &QuadTree, x: int, y: int)
    requires
        q.wf(),
        0 <= x < q.width,
        0 <= y < q.height,
    ensures
        0 <= q.spec_index(x, y) < q.tiles@.len(),
        q.tiles@[q.spec_index(x, y)].center.0 == x,
        q.tiles@[q.spec_index(x, y)].center.1 == y,
    decreases 0int,
{
    lemma_flat_index(q.width as int, q.height as int, x, y);
    let i = q.spec_index(x, y);
    let t = q.tiles@[i];
    lemma_flat_index_unique(q.height as int, t.center.0 as int, t.center.1 as int, x, y);
}

/// A quad merge of four equal aligned squares preserves the grid
/// invariants: the absorbed rectangles tile the doubled anchor exactly.
proof fn lemma_quad_merge_preserves(old_q: &QuadTree, q: &QuadTree, x: int, y: int, space: int)
    requires
        old_q.wf(),
        old_q.all_square(),
        old_q.quad_mergeable(x, y, space),
        q.width == old_q.width,
        q.height == old_q.height,
        q.hmap == old_q.hmap,
        q.cmap == old_q.cmap,
        q.tiles@.len() == old_q.tiles@.len(),
        (forall|i: int|
            0 <= i < old_q.tiles@.len() && i != old_q.spec_index(x, y) && i != old_q.spec_index(
                x + space,
                y,
            ) && i != old_q.spec_index(x, y + space) && i != old_q.spec_index(x + space, y + space)
                ==> q.tiles@[i] == old_q.tiles@[i]),
        ({
            let i1 = old_q.spec_index(x, y);
            let t = q.tiles@[i1];
            let t0 = old_q.tiles@[i1];
            &&& t.index == t0.index
            &&& t.center == t0.center
            &&& t.color == t0.color
            &&& t.height == t0.height
            &&& t.parent is None
            &&& t.size.0 == 2 * space
            &&& t.size.1 == 2 * space
            &&& t.neighbors.wf()
            &&& t.neighbors@ == t0.neighbors@.union(
                old_q.tiles@[old_q.spec_index(x + space, y)].neighbors@,
            ).union(old_q.tiles@[old_q.spec_index(x, y + space)].neighbors@).union(
                old_q.tiles@[old_q.spec_index(x + space, y + space)].neighbors@,
            )
        }),
        ({
            let i1 = old_q.spec_index(x, y);
            let i2 = old_q.spec_index(x + space, y);
            let i3 = old_q.spec_index(x, y + space);
            let i4 = old_q.spec_index(x + space, y + space);
            &&& absorbed_slot_ok(q.tiles@[i2], old_q.tiles@[i2], i1)
            &&& absorbed_slot_ok(q.tiles@[i3], old_q.tiles@[i3], i1)
            &&& absorbed_slot_ok(q.tiles@[i4], old_q.tiles@[i4], i1)
        }),
    ensures
        q.wf(),
        q.all_square(),
{
    let len = old_q.tiles@.len() as int;
    let wd = old_q.width as int;
    let hd = old_q.height as int;
    let hmf = old_q.hmap@;
    let i1 = old_q.spec_index(x, y);
    let i2 = old_q.spec_index(x + space, y);
    let i3 = old_q.spec_index(x, y + space);
    let i4 = old_q.spec_index(x + space, y + space);
    lemma_slot_center(old_q, x, y);
    lemma_slot_center(old_q, x + space, y);
    lemma_slot_center(old_q, x, y + space);
    lemma_slot_center(old_q, x + space, y + space);
    let t1 = old_q.tiles@[i1];
    let t2 = old_q.tiles@[i2];
    let t3 = old_q.tiles@[i3];
    let t4 = old_q.tiles@[i4];
    // The four old tiles are live squares of side `space` at the four
    // quadrant corners, and the doubled anchor stays in the grid.
    assert(t1.size.0 == space && t1.size.1 == space);
    assert(t2.size == t1.size && t3.size == t1.size && t4.size == t1.size);
    assert(x + 2 * space <= wd && y + 2 * space <= hd);
    // Any pixel of the doubled anchor rectangle was owned by exactly one of
    // the four old tiles, quadrant by quadrant.
    assert forall|px: int, py: int|
        x <= px < x + 2 * space && y <= py < y + 2 * space implies old_q.covers(
        quadrant_of(old_q, x, y, space, px, py),
        px,
        py,
    ) by {
        if px < x + space {
            if py < y + space {
                assert(old_q.covers(i1, px, py));
            } else {
                assert(old_q.covers(i3, px, py));
            }
        } else {
            if py < y + space {
                assert(old_q.covers(i2, px, py));
            } else {
                assert(old_q.covers(i4, px, py));
            }
        }
    }
    // Coverage.
    assert forall|px: int, py: int|
        0 <= px < q.width && 0 <= py < q.height implies #[trigger] q.pixel_covered(px, py) by {
        assert(old_q.pixel_covered(px, py));
        let k = choose|k: int| old_q.covers(k, px, py);
        if k == i1 || k == i2 || k == i3 || k == i4 {
            assert(q.covers(i1, px, py));
        } else {
            assert(q.tiles@[k] == old_q.tiles@[k]);
            assert(q.covers(k, px, py));
        }
    }
    // Uniqueness: map every new owner back to an old owner of the pixel.
    assert forall|i: int, j: int, px: int, py: int|
        #[trigger] q.covers(i, px, py) && #[trigger] q.covers(j, px, py) implies i == j by {
        let oi = if i == i1 {
            quadrant_of(old_q, x, y, space, px, py)
        } else {
            i
        };
        let oj = if j == i1 {
            quadrant_of(old_q, x, y, space, px, py)
        } else {
            j
        };
        assert(old_q.covers(oi, px, py));
        assert(old_q.covers(oj, px, py));
        assert(oi == oj);
        if i == i1 && j != i1 {
            assert(j == oi && (j == i1 || j == i2 || j == i3 || j == i4));
            assert(!(q.tiles@[j].parent is None));
        }
        if j == i1 && i != i1 {
            assert(i == oj && (i == i1 || i == i2 || i == i3 || i == i4));
            assert(!(q.tiles@[i].parent is None));
        }
    }
    // Pixel data under each live tile.
    assert forall|i: int, px: int, py: int| #[trigger] q.covers(i, px, py) implies q.ph(px, py)
        == q.tiles@[i].height && q.pc(px, py) == q.tiles@[i].color by {
        if i == i1 {
            let k = quadrant_of(old_q, x, y, space, px, py);
            assert(old_q.covers(k, px, py));
        } else {
            assert(q.tiles@[i] == old_q.tiles@[i]);
            assert(old_q.covers(i, px, py));
        }
    }
    // Neighbour sets: the doubled rectangle's union splits into the four
    // quadrants' unions.
    assert forall|i: int|
        0 <= i < q.tiles@.len() && (#[trigger] q.tiles@[i]).parent is None implies {
        let t = q.tiles@[i];
        t.neighbors@ == rect_nbrs(
            q.hmap@,
            q.width as int,
            q.height as int,
            t.center.0 as int,
            t.center.1 as int,
            t.size.0 as int,
            t.size.1 as int,
        )
    } by {
        if i == i1 {
            lemma_rect_nbrs_split_v(hmf, wd, hd, x, y, 2 * space, space, space);
            lemma_rect_nbrs_split_h(hmf, wd, hd, x, y, space, space, space);
            lemma_rect_nbrs_split_h(hmf, wd, hd, x, y + space, space, space, space);
            assert(rect_nbrs(hmf, wd, hd, x, y, 2 * space, 2 * space) =~= t1.neighbors@.union(
                t2.neighbors@,
            ).union(t3.neighbors@).union(t4.neighbors@));
        } else if i == i2 || i == i3 || i == i4 {
            assert(!(q.tiles@[i].parent is None));
        } else {
            assert(q.tiles@[i] == old_q.tiles@[i]);
        }
    }
}

/// An absorbed slot: all fields kept except that the parent now points at
/// the absorbing tile and the neighbour heights (taken over by the
/// absorber) are cleared.
pub open spec fn absorbed_slot_ok(t: Tile, t0: Tile, parent: int) -> bool {
    &&& t.index == t0.index
    &&& t.center == t0.center
    &&& t.color == t0.color
    &&& t.height == t0.height
    &&& t.size == t0.size
    &&& t.parent == Some(parent as usize)
    &&& t.neighbors.wf()
    &&& t.neighbors@ == Set::<u32>::empty()
}

/// Which of the four quadrant tiles owns the pixel (px, py) of a 2x2 block
/// anchored at (x, y) with step `space`.
pub open spec fn quadrant_of(q: &QuadTree, x: int, y: int, space: int, px: int, py: int) -> int {
    if px < x + space {
        if py < y + space {
            q.spec_index(x, y)
        } else {
            q.spec_index(x, y + space)
        }
    } else {
        if py < y + space {
            q.spec_index(x + space, y)
        } else {
            q.spec_index(x + space, y + space)
        }
    }
}

/// The fields of a tile that no reducer ever changes.
pub open spec fn same_static(t: Tile, t0: Tile) -> bool {
    &&& t.index == t0.index
    &&& t.center == t0.center
    &&& t.color == t0.color
    &&& t.height == t0.height
}

/// Multiples of a positive step that are less than one step apart are
/// ordered.
pub proof fn lemma_lattice_le(step: int, a: int, b: int)
    requires
        1 <= step,
        a % step == 0,
        b % step == 0,
        a < b + step,
    ensures
        a <= b,
{
    assert(a <= b) by (nonlinear_arith)
        requires
            1 <= step,
            a % step == 0,
            b % step == 0,
            a < b + step,
    ;
}

impl QuadTree {
    /// One pass of the quad reducer at the given level: every lattice-aligned
    /// 2x2 block of equal live squares with side `2^level` is merged into its
    /// top-left tile.  Returns the number of tiles deactivated (three per
    /// merge); zero means the grid is unchanged and no such block existed.
    pub fn quad_optimize_level(&mut self, level: u32) -> (count: usize)
        requires
            old(self).wf(),
            old(self).all_square(),
            level < 31,
            501 * old(self).width * old(self).height <= usize::MAX,
        ensures
            final(self).wf(),
            final(self).all_square(),
            final(self).width == old(self).width,
            final(self).height == old(self).height,
            final(self).hmap == old(self).hmap,
            final(self).cmap == old(self).cmap,
            final(self).tiles@.len() == old(self).tiles@.len(),
            forall|i: int|
                0 <= i < old(self).tiles@.len() ==> same_static(
                    #[trigger] final(self).tiles@[i],
                    old(self).tiles@[i],
                ),
            forall|i: int|
                0 <= i < old(self).tiles@.len() && (#[trigger] final(self).tiles@[i]).parent
                    is None ==> old(self).tiles@[i].parent is None,
            forall|i: int|
                0 <= i < old(self).tiles@.len() && (#[trigger] final(self).tiles@[i]).parent
                    is None ==> final(self).tiles@[i].size == old(self).tiles@[i].size || (old(
                    self,
                ).tiles@[i].size == ((1u32 << level), (1u32 << level)) && final(self).tiles@[i].size
                    == (((2 * (1u32 << level)) as u32), ((2 * (1u32 << level)) as u32))),
            count % 3 == 0,
            count + live_count(final(self).tiles@) == live_count(old(self).tiles@),
            absorbed_into_similar(old(self).tiles@, final(self).tiles@),
            count == 0 ==> final(self).tiles@ == old(self).tiles@,
            count != 0 ==> exists|i: int|
                0 <= i < old(self).tiles@.len() && (#[trigger] old(self).tiles@[i]).parent is None
                    && !(final(self).tiles@[i].parent is None),
            forall|ax: int, ay: int|
                0 <= ax && 0 <= ay && ax % (2 * ((1u32 << level) as int)) == 0 && ay % (2 * ((1u32
                    << level) as int)) == 0 && ax + (1u32 << level) < old(self).width && ay + (1u32
                    << level) < old(self).height ==> !final(self).quad_mergeable(
                    ax,
                    ay,
                    (1u32 << level) as int,
                ),
            count == 0 ==> forall|ax: int, ay: int|
                0 <= ax && 0 <= ay && ax % (2 * ((1u32 << level) as int)) == 0 && ay % (2 * ((1u32
                    << level) as int)) == 0 && ax + (1u32 << level) < old(self).width && ay + (1u32
                    << level) < old(self).height ==> !old(self).quad_mergeable(
                    ax,
                    ay,
                    (1u32 << level) as int,
                ),
    {
        let space: u32 = 1u32 << level;
        proof {
            assert(1u32 << level >= 1 && 1u32 << level <= 0x40000000) by (bit_vector)
                requires
                    level < 31,
            ;
        }
        let step: u64 = 2 * (space as u64);
        let ghost gs = space as int;
        let ghost wd = self.width as int;
        let ghost hd = self.height as int;
        let ghost len = self.tiles@.len() as int;
        let mut count: usize = 0;
        let mut x: u64 = 0;
        let ghost mut nx: int = 0;
        while x + (space as u64) < self.width as u64
            invariant
                self.wf(),
                self.all_square(),
                self.width == old(self).width,
                self.height == old(self).height,
                self.hmap == old(self).hmap,
                self.cmap == old(self).cmap,
                self.tiles@.len() == old(self).tiles@.len(),
                gs == space as int,
                space == 1u32 << level,
                1 <= gs <= 0x40000000,
                step == 2 * gs,
                wd == self.width as int,
                hd == self.height as int,
                len == self.tiles@.len() as int,
                len == wd * hd,
                501 * wd * hd <= usize::MAX,
                x as int % (2 * gs) == 0,
                x <= wd + 2 * gs,
                0 <= nx,
                2 * nx <= x,
                nx <= wd,
                count <= 3 * (nx * hd),
                count % 3 == 0,
                count + live_count(self.tiles@) == live_count(old(self).tiles@),
                absorbed_into_similar(old(self).tiles@, self.tiles@),
                count != 0 ==> exists|i: int|
                    0 <= i < len && (#[trigger] old(self).tiles@[i]).parent is None && !(
                    self.tiles@[i].parent is None),
                forall|i: int|
                    0 <= i < len ==> same_static(#[trigger] self.tiles@[i], old(self).tiles@[i]),
                forall|i: int|
                    0 <= i < len && (#[trigger] self.tiles@[i]).parent is None ==> old(
                        self,
                    ).tiles@[i].parent is None,
                forall|i: int|
                    0 <= i < len && (#[trigger] self.tiles@[i]).parent is None ==> self.tiles@[i].size
                        == old(self).tiles@[i].size || (old(self).tiles@[i].size == ((1u32 << level), (
                    1u32 << level)) && self.tiles@[i].size == (((2 * (1u32 << level)) as u32), ((2 * (1u32
                        << level)) as u32))),
                count == 0 ==> self.tiles@ == old(self).tiles@,
                forall|ax: int, ay: int|
                    0 <= ax && 0 <= ay && ax % (2 * gs) == 0 && ay % (2 * gs) == 0 && ax + gs < wd
                        && ay + gs < hd && ax < x ==> !self.quad_mergeable(ax, ay, gs),
            decreases wd + 2 * gs - x,
        {
            let mut y: u64 = 0;
            let ghost mut ny: int = 0;
            let ghost x_at = x;
            while y + (space as u64) < self.height as u64
                invariant
                    self.wf(),
                    self.all_square(),
                    self.width == old(self).width,
                    self.height == old(self).height,
                    self.hmap == old(self).hmap,
                    self.cmap == old(self).cmap,
                    self.tiles@.len() == old(self).tiles@.len(),
                    gs == space as int,
                    space == 1u32 << level,
                    1 <= gs <= 0x40000000,
                    step == 2 * gs,
                    wd == self.width as int,
                    hd == self.height as int,
                    len == self.tiles@.len() as int,
                    len == wd * hd,
                    501 * wd * hd <= usize::MAX,
                    x == x_at,
                    x + gs < wd,
                    x as int % (2 * gs) == 0,
                    y as int % (2 * gs) == 0,
                    y <= hd + 2 * gs,
                    0 <= nx,
                    2 * nx <= x,
                    nx <= wd,
                    0 <= ny,
                    2 * ny <= y,
                    ny <= hd,
                    count <= 3 * (nx * hd + ny),
                    count % 3 == 0,
                    count + live_count(self.tiles@) == live_count(old(self).tiles@),
                    absorbed_into_similar(old(self).tiles@, self.tiles@),
                    count != 0 ==> exists|i: int|
                        0 <= i < len && (#[trigger] old(self).tiles@[i]).parent is None && !(
                        self.tiles@[i].parent is None),
                    forall|i: int|
                        0 <= i < len ==> same_static(#[trigger] self.tiles@[i], old(self).tiles@[i]),
                    forall|i: int|
                        0 <= i < len && (#[trigger] self.tiles@[i]).parent is None ==> old(
                            self,
                        ).tiles@[i].parent is None,
                    forall|i: int|
                        0 <= i < len && (#[trigger] self.tiles@[i]).parent is None ==> self.tiles@[i].size
                            == old(self).tiles@[i].size || (old(self).tiles@[i].size == ((1u32 << level), (
                        1u32 << level)) && self.tiles@[i].size == (((2 * (1u32 << level)) as u32), ((2 * (1u32
                            << level)) as u32))),
                    count == 0 ==> self.tiles@ == old(self).tiles@,
                    forall|ax: int, ay: int|
                        0 <= ax && 0 <= ay && ax % (2 * gs) == 0 && ay % (2 * gs) == 0 && ax + gs < wd
                            && ay + gs < hd && (ax < x || (ax == x && ay < y))
                            ==> !self.quad_mergeable(ax, ay, gs),
                decreases hd + 2 * gs - y,
            {
                let xi = x as u32;
                let yi = y as u32;
                let i1 = self.index(xi, yi);
                let i2 = self.index(xi + space, yi);
                let i3 = self.index(xi, yi + space);
                let i4 = self.index(xi + space, yi + space);
                let top_left = &self.tiles[i1];
                let mergeable = top_left.size.0 == space && top_left.similar_quad(&self.tiles[i2])
                    && top_left.similar_quad(&self.tiles[i3]) && top_left.similar_quad(
                    &self.tiles[i4],
                );
                proof {
                    assert(mergeable == self.quad_mergeable(x as int, y as int, gs));
                }
                let ghost pre = *self;
                if mergeable {
                    proof {
                        assert(count + 3 <= usize::MAX) by (nonlinear_arith)
                            requires
                                count <= 3 * (nx * hd + ny),
                                0 <= nx <= wd,
                                0 <= ny <= hd,
                                2 <= wd,
                                2 <= hd,
                                501 * wd * hd <= usize::MAX,
                        ;
                    }
                    count = count + 3;
                    self.merge_quad(xi, yi, space);
                    proof {
                        let j1 = pre.spec_index(x as int, y as int);
                        let j2 = pre.spec_index(x + gs, y as int);
                        let j3 = pre.spec_index(x as int, y + gs);
                        let j4 = pre.spec_index(x + gs, y + gs);
                        assert forall|i: int|
                            0 <= i < len implies same_static(
                            #[trigger] self.tiles@[i],
                            old(self).tiles@[i],
                        ) by {
                            if i != j1 && i != j2 && i != j3 && i != j4 {
                                assert(self.tiles@[i] == pre.tiles@[i]);
                            }
                        }
                        assert forall|i: int|
                            0 <= i < len && (#[trigger] self.tiles@[i]).parent is None implies old(
                            self,
                        ).tiles@[i].parent is None by {
                            if i != j1 && i != j2 && i != j3 && i != j4 {
                                assert(self.tiles@[i] == pre.tiles@[i]);
                            }
                        }
                        assert forall|i: int|
                            0 <= i < len && (#[trigger] self.tiles@[i]).parent is None implies self.tiles@[i].size
                            == old(self).tiles@[i].size || (old(self).tiles@[i].size == ((1u32
                            << level), (1u32 << level)) && self.tiles@[i].size == (((2 * (1u32 << level)) as u32), ((2 * (1u32
                            << level)) as u32))) by {
                            if i == j1 {
                                assert(pre.tiles@[j1].size.0 == space);
                                assert(pre.tiles@[j1].size == old(self).tiles@[j1].size);
                            } else if i != j2 && i != j3 && i != j4 {
                                assert(self.tiles@[i] == pre.tiles@[i]);
                            }
                        }
                        // The top-right tile was live and is now absorbed.
                        assert(pre.tiles@[j2].parent is None);
                        assert(old(self).tiles@[j2].parent is None);
                        assert(absorbed_slot_ok(self.tiles@[j2], pre.tiles@[j2], j1));
                        assert(!(self.tiles@[j2].parent is None));
                        // Exactly the three absorbed tiles left the live set.
                        let ch = seq![i2, i3, i4];
                        if j2 == j3 {
                            lemma_flat_index_unique(hd, x + gs, y as int, x as int, y + gs);
                        }
                        if j2 == j4 {
                            lemma_flat_index_unique(hd, x + gs, y as int, x + gs, y + gs);
                        }
                        if j3 == j4 {
                            lemma_flat_index_unique(hd, x as int, y + gs, x + gs, y + gs);
                        }
                        assert(absorbed_slot_ok(self.tiles@[j3], pre.tiles@[j3], j1));
                        assert(absorbed_slot_ok(self.tiles@[j4], pre.tiles@[j4], j1));
                        assert forall|j: int, k: int| 0 <= j < k < ch.len() implies ch[j] != ch[k] by {}
                        assert forall|i: int|
                            0 <= i < len && !in_prefix(ch, ch.len() as int, i) implies ((
                        #[trigger] pre.tiles@[i]).parent is None) == (self.tiles@[i].parent
                            is None) by {
                            assert(!(i == j2 || i == j3 || i == j4)) by {
                                if i == j2 {
                                    assert(ch[0] == i2 && in_prefix(ch, 3, i));
                                }
                                if i == j3 {
                                    assert(ch[1] == i3 && in_prefix(ch, 3, i));
                                }
                                if i == j4 {
                                    assert(ch[2] == i4 && in_prefix(ch, 3, i));
                                }
                            }
                            if i != j1 {
                                assert(self.tiles@[i] == pre.tiles@[i]);
                            }
                        }
                        lemma_live_count_absorbed(pre.tiles@, self.tiles@, ch);
                        // Each absorbed tile points at an anchor of its own
                        // colour and height.
                        assert forall|j: int|
                            0 <= j < ch.len() implies #[trigger] ch[j] < len
                            && pre.tiles@[ch[j] as int].parent is None && self.tiles@[ch[j] as int].parent
                            == Some(i1) && self.tiles@[ch[j] as int].color == self.tiles@[i1 as int].color
                            && self.tiles@[ch[j] as int].height == self.tiles@[i1 as int].height by {
                            if j == 0 {
                                assert(ch[j] == i2);
                            } else if j == 1 {
                                assert(ch[j] == i3);
                            } else {
                                assert(ch[j] == i4);
                            }
                        }
                        assert forall|i: int|
                            0 <= i < len implies (#[trigger] self.tiles@[i]).color
                            == pre.tiles@[i].color && self.tiles@[i].height
                            == pre.tiles@[i].height by {
                            if i != j1 && i != j2 && i != j3 && i != j4 {
                                assert(self.tiles@[i] == pre.tiles@[i]);
                            }
                        }
                        assert forall|i: int|
                            0 <= i < len && i != i1 as int && !in_prefix(ch, ch.len() as int, i)
                            implies #[trigger] self.tiles@[i] == pre.tiles@[i] by {
                            assert(ch[0] == i2 && ch[1] == i3 && ch[2] == i4);
                        }
                        lemma_absorbed_similar_step(old(self).tiles@, pre.tiles@, self.tiles@, i1, ch);
                        // The doubled anchor no longer passes the size test.
                        assert(self.tiles@[j1].size.0 == 2 * gs);
                        assert(!self.quad_mergeable(x as int, y as int, gs));
                        // Other anchors' blocks are disjoint from this one,
                        // so nothing became mergeable.
                        assert forall|ax: int, ay: int|
                            0 <= ax && 0 <= ay && ax % (2 * gs) == 0 && ay % (2 * gs) == 0 && ax
                                + gs < wd && ay + gs < hd && (ax < x || (ax == x && ay < y))
                                implies !self.quad_mergeable(ax, ay, gs) by {
                            assert(!pre.quad_mergeable(ax, ay, gs));
                            lemma_merge_keeps_unmergeable(
                                &pre,
                                self,
                                x as int,
                                y as int,
                                gs,
                                ax,
                                ay,
                            );
                        }
                    }
                } else {
                    proof {
                        assert(!self.quad_mergeable(x as int, y as int, gs));
                    }
                }
                proof {
                    assert forall|ax: int, ay: int|
                        0 <= ax && 0 <= ay && ax % (2 * gs) == 0 && ay % (2 * gs) == 0 && ax + gs
                            < wd && ay + gs < hd && (ax < x || (ax == x && ay < y + 2 * gs))
                            implies !self.quad_mergeable(ax, ay, gs) by {
                        if ax == x && ay >= y {
                            lemma_lattice_le(2 * gs, ay, y as int);
                            assert(ay == y);
                        }
                    }
                    ny = ny + 1;
                    vstd::arithmetic::div_mod::lemma_mod_add_multiples_vanish(
                        y as int,
                        2 * gs,
                    );
                }
                y = y + step;
            }
            proof {
                assert forall|ax: int, ay: int|
                    0 <= ax && 0 <= ay && ax % (2 * gs) == 0 && ay % (2 * gs) == 0 && ax + gs < wd
                        && ay + gs < hd && ax < x + 2 * gs implies !self.quad_mergeable(
                    ax,
                    ay,
                    gs,
                ) by {
                    if ax >= x {
                        lemma_lattice_le(2 * gs, ax, x as int);
                        assert(ax == x && ay < y);
                    }
                }
                assert(count <= 3 * (nx * hd + ny) && ny <= hd);
                nx = nx + 1;
                assert(count <= 3 * (nx * hd)) by (nonlinear_arith)
                    requires
                        count <= 3 * ((nx - 1) * hd + hd),
                ;
                vstd::arithmetic::div_mod::lemma_mod_add_multiples_vanish(
                    x as int,
                    2 * gs,
                );
            }
            x = x + step;
        }
        proof {
            assert forall|ax: int, ay: int|
                0 <= ax && 0 <= ay && ax % (2 * gs) == 0 && ay % (2 * gs) == 0 && ax + gs < wd
                    && ay + gs < hd implies !self.quad_mergeable(ax, ay, gs) by {
                if ax >= x {
                    assert(ax + gs >= x + gs >= wd);
                }
            }
            if count == 0 {
                assert forall|ax: int, ay: int|
                    0 <= ax && 0 <= ay && ax % (2 * gs) == 0 && ay % (2 * gs) == 0 && ax + gs < wd
                        && ay + gs < hd implies !old(self).quad_mergeable(ax, ay, gs) by {
                    assert(!self.quad_mergeable(ax, ay, gs));
                    assert(self.tiles@ == old(self).tiles@);
                }
            }
        }
        count
    }
}

/// Position of a tile's top-left pixel along the merge axis.
pub open spec fn ctr_a(t: Tile, vert: bool) -> int {
    if vert {
        t.center.1 as int
    } else {
        t.center.0 as int
    }
}

/// Position of a tile's top-left pixel across the merge axis.
pub open spec fn ctr_p(t: Tile, vert: bool) -> int {
    if vert {
        t.center.0 as int
    } else {
        t.center.1 as int
    }
}

/// A tile's extent along the merge axis.
pub open spec fn sz_a(t: Tile, vert: bool) -> int {
    if vert {
        t.size.1 as int
    } else {
        t.size.0 as int
    }
}

/// A tile's extent across the merge axis.
pub open spec fn sz_p(t: Tile, vert: bool) -> int {
    if vert {
        t.size.0 as int
    } else {
        t.size.1 as int
    }
}

/// Where child `k` of a strip ends along the merge axis.
pub open spec fn strip_end(q: &QuadTree, children: Seq<usize>, k: int, vert: bool) -> int {
    ctr_a(q.tiles@[children[k] as int], vert) + sz_a(q.tiles@[children[k] as int], vert)
}

/// Child `k` of a strip matches the starting tile: live, same colour and
/// height, aligned with it and of the same extent across the merge axis.
pub open spec fn strip_child_ok(
    q: &QuadTree,
    si: int,
    children: Seq<usize>,
    vert: bool,
    k: int,
) -> bool {
    let s = q.tiles@[si];
    let c = q.tiles@[children[k] as int];
    &&& children[k] < q.tiles@.len()
    &&& children[k] != si
    &&& c.parent is None
    &&& ctr_p(c, vert) == ctr_p(s, vert)
    &&& sz_p(c, vert) == sz_p(s, vert)
    &&& c.color == s.color
    &&& c.height == s.height
}

/// A run of live tiles directly after the starting tile along one axis,
/// each matching it and each starting exactly where the previous one ends.
pub open spec fn strip_ok(q: &QuadTree, si: int, children: Seq<usize>, vert: bool) -> bool {
    let s = q.tiles@[si];
    &&& 0 <= si < q.tiles@.len()
    &&& s.parent is None
    &&& children.len() >= 1
    &&& forall|k: int| 0 <= k < children.len() ==> #[trigger] strip_child_ok(q, si, children, vert, k)
    &&& ctr_a(q.tiles@[children[0] as int], vert) == ctr_a(s, vert) + sz_a(s, vert)
    &&& forall|k: int|
        0 <= k < children.len() - 1 ==> ctr_a(q.tiles@[children[k + 1] as int], vert)
            == #[trigger] strip_end(q, children, k, vert)
}

/// Strip children are laid out in strictly increasing axis positions.
pub proof fn lemma_strip_mono(
    q: &QuadTree,
    si: int,
    children: Seq<usize>,
    vert: bool,
    j: int,
    k: int,
)
    requires
        q.wf(),
        strip_ok(q, si, children, vert),
        0 <= j < k < children.len(),
    ensures
        strip_end(q, children, j, vert) <= ctr_a(q.tiles@[children[k] as int], vert),
        children[j] != children[k],
    decreases k - j,
{
    assert(strip_child_ok(q, si, children, vert, j));
    assert(strip_child_ok(q, si, children, vert, k));
    if j + 1 == k {
        assert(ctr_a(q.tiles@[children[j + 1] as int], vert) == strip_end(q, children, j, vert));
    } else {
        lemma_strip_mono(q, si, children, vert, j, k - 1);
        assert(strip_child_ok(q, si, children, vert, k - 1));
        assert(ctr_a(q.tiles@[children[k] as int], vert) == strip_end(q, children, k - 1, vert));
    }
    assert(ctr_a(q.tiles@[children[j] as int], vert) < ctr_a(q.tiles@[children[k] as int], vert));
}

/// Some child among the first `m` owns the axis position `pa`.
pub open spec fn strip_col_covered(
    q: &QuadTree,
    children: Seq<usize>,
    vert: bool,
    m: int,
    pa: int,
) -> bool {
    exists|k: int|
        0 <= k < m && ctr_a(q.tiles@[#[trigger] children[k] as int], vert) <= pa < strip_end(
            q,
            children,
            k,
            vert,
        )
}

/// Every axis position of the strip's extension is owned by one child.
pub proof fn lemma_strip_cols(q: &QuadTree, si: int, children: Seq<usize>, vert: bool, m: int)
    requires
        q.wf(),
        strip_ok(q, si, children, vert),
        1 <= m <= children.len(),
    ensures
        forall|pa: int|
            ctr_a(q.tiles@[si], vert) + sz_a(q.tiles@[si], vert) <= pa < strip_end(
                q,
                children,
                m - 1,
                vert,
            ) ==> #[trigger] strip_col_covered(q, children, vert, m, pa),
    decreases m,
{
    let a1 = ctr_a(q.tiles@[si], vert) + sz_a(q.tiles@[si], vert);
    if m == 1 {
        assert forall|pa: int|
            a1 <= pa < strip_end(q, children, 0, vert) implies #[trigger] strip_col_covered(
            q,
            children,
            vert,
            m,
            pa,
        ) by {
            assert(ctr_a(q.tiles@[children[0] as int], vert) <= pa < strip_end(
                q,
                children,
                0,
                vert,
            ));
        }
    } else {
        lemma_strip_cols(q, si, children, vert, m - 1);
        assert(ctr_a(q.tiles@[children[m - 1] as int], vert) == strip_end(
            q,
            children,
            m - 2,
            vert,
        ));
        assert forall|pa: int|
            a1 <= pa < strip_end(q, children, m - 1, vert) implies #[trigger] strip_col_covered(
            q,
            children,
            vert,
            m,
            pa,
        ) by {
            if pa < strip_end(q, children, m - 2, vert) {
                assert(strip_col_covered(q, children, vert, m - 1, pa));
                let k0 = choose|k: int|
                    0 <= k < m - 1 && ctr_a(q.tiles@[#[trigger] children[k] as int], vert) <= pa
                        < strip_end(q, children, k, vert);
                assert(0 <= k0 < m && ctr_a(q.tiles@[children[k0] as int], vert) <= pa < strip_end(
                    q,
                    children,
                    k0,
                    vert,
                ));
            } else {
                assert(ctr_a(q.tiles@[children[m - 1] as int], vert) <= pa < strip_end(
                    q,
                    children,
                    m - 1,
                    vert,
                ));
            }
        }
    }
}

/// Whether `i` occurs among the first `k` entries of `children`.
pub open spec fn in_prefix(children: Seq<usize>, k: int, i: int) -> bool {
    exists|j: int| 0 <= j < k && children[j] == i
}

/// The merge direction a child list encodes: vertical when the first child
/// sits in the starting tile's column.
pub open spec fn line_vert(q: &QuadTree, si: int, children: Seq<usize>) -> bool {
    q.tiles@[children[0] as int].center.0 == q.tiles@[si].center.0
}

/// The slot-by-slot description of a finished line merge: the starting
/// tile has grown along the merge axis to the end of the strip and holds
/// the neighbour heights of the grown rectangle, the children are dormant,
/// everything else is untouched.
pub open spec fn line_merge_shape(
    old_q: &QuadTree,
    q: &QuadTree,
    si: int,
    children: Seq<usize>,
    vert: bool,
) -> bool {
    &&& old_q.wf()
    &&& strip_ok(old_q, si, children, vert)
    &&& q.width == old_q.width
    &&& q.height == old_q.height
    &&& q.hmap == old_q.hmap
    &&& q.cmap == old_q.cmap
    &&& q.tiles@.len() == old_q.tiles@.len()
    &&& same_static(q.tiles@[si], old_q.tiles@[si])
    &&& q.tiles@[si].parent is None
    &&& q.tiles@[si].neighbors.wf()
    &&& sz_p(q.tiles@[si], vert) == sz_p(old_q.tiles@[si], vert)
    &&& ctr_a(q.tiles@[si], vert) + sz_a(q.tiles@[si], vert) == strip_end(
        old_q,
        children,
        children.len() - 1,
        vert,
    )
    &&& q.tiles@[si].neighbors@ == rect_nbrs(
        q.hmap@,
        q.width as int,
        q.height as int,
        q.tiles@[si].center.0 as int,
        q.tiles@[si].center.1 as int,
        q.tiles@[si].size.0 as int,
        q.tiles@[si].size.1 as int,
    )
    &&& forall|j: int|
        0 <= j < children.len() ==> absorbed_slot_ok(
            q.tiles@[#[trigger] children[j] as int],
            old_q.tiles@[children[j] as int],
            si,
        )
    &&& forall|i: int|
        0 <= i < q.tiles@.len() && i != si && !in_prefix(children, children.len() as int, i)
            ==> q.tiles@[i] == old_q.tiles@[i]
}

/// Geometry of the grown tile: it spans from the old start to the strip's
/// end, and every child rectangle lies inside the grown part.
proof fn lemma_lm_grown(old_q: &QuadTree, q: &QuadTree, si: int, children: Seq<usize>, vert: bool)
    requires
        line_merge_shape(old_q, q, si, children, vert),
    ensures
        ctr_a(q.tiles@[si], vert) == ctr_a(old_q.tiles@[si], vert),
        ctr_p(q.tiles@[si], vert) == ctr_p(old_q.tiles@[si], vert),
        ctr_a(old_q.tiles@[si], vert) + sz_a(old_q.tiles@[si], vert) < strip_end(
            old_q,
            children,
            children.len() - 1,
            vert,
        ),
        strip_end(old_q, children, children.len() - 1, vert) <= (if vert {
            old_q.height as int
        } else {
            old_q.width as int
        }),
        forall|k: int|
            0 <= k < children.len() ==> ctr_a(old_q.tiles@[#[trigger] children[k] as int], vert)
                >= ctr_a(old_q.tiles@[si], vert) + sz_a(old_q.tiles@[si], vert) && strip_end(
                old_q,
                children,
                k,
                vert,
            ) <= strip_end(old_q, children, children.len() - 1, vert),
{
    let n = children.len() as int;
    let s0 = old_q.tiles@[si];
    let a0 = ctr_a(s0, vert);
    let wa = sz_a(s0, vert);
    assert(strip_child_ok(old_q, si, children, vert, 0));
    assert(strip_child_ok(old_q, si, children, vert, n - 1));
    let c_last = old_q.tiles@[children[n - 1] as int];
    assert(1 <= c_last.size.0 && 1 <= c_last.size.1);
    if n > 1 {
        lemma_strip_mono(old_q, si, children, vert, 0, n - 1);
    }
    assert forall|k: int|
        0 <= k < n implies ctr_a(old_q.tiles@[#[trigger] children[k] as int], vert) >= a0 + wa
        && strip_end(old_q, children, k, vert) <= strip_end(old_q, children, n - 1, vert) by {
        assert(strip_child_ok(old_q, si, children, vert, k));
        if k > 0 {
            lemma_strip_mono(old_q, si, children, vert, 0, k);
        }
        if k < n - 1 {
            lemma_strip_mono(old_q, si, children, vert, k, n - 1);
            assert(1 <= old_q.tiles@[children[n - 1] as int].size.0 && 1 <= old_q.tiles@[children[n
                - 1] as int].size.1);
        }
    }
}

/// Every pixel the grown tile covers was owned by the starting tile or by
/// one of the children.
proof fn lemma_lm_owner(old_q: &QuadTree, q: &QuadTree, si: int, children: Seq<usize>, vert: bool)
    requires
        line_merge_shape(old_q, q, si, children, vert),
    ensures
        forall|px: int, py: int|
            #[trigger] q.covers(si, px, py) ==> exists|o: int|
                (o == si || in_prefix(children, children.len() as int, o)) && #[trigger] old_q.covers(
                    o,
                    px,
                    py,
                ),
{
    let n = children.len() as int;
    let s0 = old_q.tiles@[si];
    let a0 = ctr_a(s0, vert);
    let wa = sz_a(s0, vert);
    lemma_lm_grown(old_q, q, si, children, vert);
    lemma_strip_cols(old_q, si, children, vert, n);
    assert forall|px: int, py: int| #[trigger] q.covers(si, px, py) implies exists|o: int|
        (o == si || in_prefix(children, n, o)) && #[trigger] old_q.covers(o, px, py) by {
        let pa = if vert {
            py
        } else {
            px
        };
        if pa < a0 + wa {
            assert(old_q.covers(si, px, py));
        } else {
            assert(strip_col_covered(old_q, children, vert, n, pa));
            let k = choose|k: int|
                0 <= k < n && ctr_a(old_q.tiles@[#[trigger] children[k] as int], vert) <= pa
                    < strip_end(old_q, children, k, vert);
            assert(strip_child_ok(old_q, si, children, vert, k));
            assert(old_q.covers(children[k] as int, px, py));
            assert(in_prefix(children, n, children[k] as int));
        }
    }
}

/// After a line merge every pixel is still covered.
proof fn lemma_lm_coverage(
    old_q: &QuadTree,
    q: &QuadTree,
    si: int,
    children: Seq<usize>,
    vert: bool,
)
    requires
        line_merge_shape(old_q, q, si, children, vert),
    ensures
        forall|px: int, py: int|
            0 <= px < q.width && 0 <= py < q.height ==> #[trigger] q.pixel_covered(px, py),
{
    let n = children.len() as int;
    lemma_lm_grown(old_q, q, si, children, vert);
    assert forall|px: int, py: int|
        0 <= px < q.width && 0 <= py < q.height implies #[trigger] q.pixel_covered(px, py) by {
        assert(old_q.pixel_covered(px, py));
        let o = choose|o: int| old_q.covers(o, px, py);
        if o == si {
            assert(q.covers(si, px, py));
        } else if in_prefix(children, n, o) {
            let k = choose|k: int| 0 <= k < n && children[k] == o;
            assert(strip_child_ok(old_q, si, children, vert, k));
            assert(q.covers(si, px, py));
        } else {
            assert(q.tiles@[o] == old_q.tiles@[o]);
            assert(q.covers(o, px, py));
        }
    }
}

/// After a line merge no pixel is covered twice.
proof fn lemma_lm_unique(old_q: &QuadTree, q: &QuadTree, si: int, children: Seq<usize>, vert: bool)
    requires
        line_merge_shape(old_q, q, si, children, vert),
    ensures
        forall|i: int, j: int, px: int, py: int|
            #[trigger] q.covers(i, px, py) && #[trigger] q.covers(j, px, py) ==> i == j,
{
    let n = children.len() as int;
    lemma_lm_owner(old_q, q, si, children, vert);
    assert forall|i: int, j: int, px: int, py: int|
        #[trigger] q.covers(i, px, py) && #[trigger] q.covers(j, px, py) implies i == j by {
        if in_prefix(children, n, i) {
            let k = choose|k: int| 0 <= k < n && children[k] == i;
            assert(absorbed_slot_ok(q.tiles@[children[k] as int], old_q.tiles@[children[k] as int],
            si));
            assert(false);
        }
        if in_prefix(children, n, j) {
            let k = choose|k: int| 0 <= k < n && children[k] == j;
            assert(absorbed_slot_ok(q.tiles@[children[k] as int], old_q.tiles@[children[k] as int],
            si));
            assert(false);
        }
        let oi = if i == si {
            choose|o: int|
                (o == si || in_prefix(children, n, o)) && #[trigger] old_q.covers(o, px, py)
        } else {
            i
        };
        let oj = if j == si {
            choose|o: int|
                (o == si || in_prefix(children, n, o)) && #[trigger] old_q.covers(o, px, py)
        } else {
            j
        };
        if i != si {
            assert(q.tiles@[i] == old_q.tiles@[i]);
        }
        if j != si {
            assert(q.tiles@[j] == old_q.tiles@[j]);
        }
        assert(old_q.covers(oi, px, py));
        assert(old_q.covers(oj, px, py));
        assert(oi == oj);
        if i == si && j != si {
            assert(!(q.tiles@[j].parent is None) || q.covers(j, px, py));
            assert(j == oi);
        }
        if j == si && i != si {
            assert(i == oj);
        }
    }
}

/// After a line merge every live tile still carries its pixels' data.
proof fn lemma_lm_data(old_q: &QuadTree, q: &QuadTree, si: int, children: Seq<usize>, vert: bool)
    requires
        line_merge_shape(old_q, q, si, children, vert),
    ensures
        forall|i: int, px: int, py: int|
            #[trigger] q.covers(i, px, py) ==> q.ph(px, py) == q.tiles@[i].height && q.pc(px, py)
                == q.tiles@[i].color,
{
    let n = children.len() as int;
    lemma_lm_owner(old_q, q, si, children, vert);
    assert forall|i: int, px: int, py: int| #[trigger] q.covers(i, px, py) implies q.ph(px, py)
        == q.tiles@[i].height && q.pc(px, py) == q.tiles@[i].color by {
        if i == si {
            let o = choose|o: int|
                (o == si || in_prefix(children, n, o)) && #[trigger] old_q.covers(o, px, py);
            if o != si {
                let k = choose|k: int| 0 <= k < n && children[k] == o;
                assert(strip_child_ok(old_q, si, children, vert, k));
            }
        } else {
            assert(q.tiles@[i] == old_q.tiles@[i]);
            assert(old_q.covers(i, px, py));
        }
    }
}

/// A line merge of a contiguous matching strip into its starting tile
/// preserves the grid invariants: the absorbed rectangles extend the
/// starting rectangle exactly.
proof fn lemma_line_merge_preserves(
    old_q: &QuadTree,
    q: &QuadTree,
    si: int,
    children: Seq<usize>,
    vert: bool,
)
    requires
        line_merge_shape(old_q, q, si, children, vert),
    ensures
        q.wf(),
{
    let len = old_q.tiles@.len() as int;
    let n = children.len() as int;
    lemma_lm_grown(old_q, q, si, children, vert);
    lemma_lm_coverage(old_q, q, si, children, vert);
    lemma_lm_unique(old_q, q, si, children, vert);
    lemma_lm_data(old_q, q, si, children, vert);
    assert forall|i: int| 0 <= i < len implies (#[trigger] q.tiles@[i]).index == i && {
        let t = q.tiles@[i];
        &&& t.center.1 + t.center.0 * q.height == i
        &&& t.center.0 < q.width
        &&& t.center.1 < q.height
    } && t_nb_wf(q.tiles@[i]) by {
        if i == si {
        } else if in_prefix(children, n, i) {
            let k = choose|k: int| 0 <= k < n && children[k] == i;
            assert(absorbed_slot_ok(q.tiles@[children[k] as int], old_q.tiles@[children[k] as int],
            si));
        } else {
            assert(q.tiles@[i] == old_q.tiles@[i]);
        }
    }
    assert forall|i: int|
        0 <= i < len && (#[trigger] q.tiles@[i]).parent is None implies {
        let t = q.tiles@[i];
        &&& 1 <= t.size.0
        &&& 1 <= t.size.1
        &&& t.center.0 + t.size.0 <= q.width
        &&& t.center.1 + t.size.1 <= q.height
        &&& t.neighbors@ == rect_nbrs(
            q.hmap@,
            q.width as int,
            q.height as int,
            t.center.0 as int,
            t.center.1 as int,
            t.size.0 as int,
            t.size.1 as int,
        )
    } by {
        if i == si {
            if vert {
                assert(q.tiles@[si].size.0 == old_q.tiles@[si].size.0);
            } else {
                assert(q.tiles@[si].size.1 == old_q.tiles@[si].size.1);
            }
        } else if in_prefix(children, n, i) {
            let k = choose|k: int| 0 <= k < n && children[k] == i;
            assert(absorbed_slot_ok(q.tiles@[children[k] as int], old_q.tiles@[children[k] as int],
            si));
        } else {
            assert(q.tiles@[i] == old_q.tiles@[i]);
        }
    }
}

/// A tile's neighbour set is well formed.
pub open spec fn t_nb_wf(t: Tile) -> bool {
    t.neighbors.wf()
}

impl QuadTree {
    /// Merge a run of collinear matching tiles into the starting tile: the
    /// children become dormant and the starting tile grows along the run's
    /// axis, taking over the children's neighbour heights.
    fn merge_line(&mut self, start_i: usize, children: Vec<usize>)
        requires
            old(self).wf(),
            start_i < old(self).tiles@.len(),
            children@.len() > 0 ==> strip_ok(
                old(self),
                start_i as int,
                children@,
                line_vert(old(self), start_i as int, children@),
            ),
        ensures
            final(self).wf(),
            final(self).width == old(self).width,
            final(self).height == old(self).height,
            final(self).hmap == old(self).hmap,
            final(self).cmap == old(self).cmap,
            final(self).tiles@.len() == old(self).tiles@.len(),
            children@.len() == 0 ==> *final(self) == *old(self),
            forall|i: int|
                0 <= i < old(self).tiles@.len() ==> same_static(
                    #[trigger] final(self).tiles@[i],
                    old(self).tiles@[i],
                ),
            forall|i: int|
                0 <= i < old(self).tiles@.len() && (#[trigger] final(self).tiles@[i]).parent
                    is None ==> old(self).tiles@[i].parent is None,
            children@.len() > 0 ==> ({
                let vert = line_vert(old(self), start_i as int, children@);
                let s = final(self).tiles@[start_i as int];
                let s0 = old(self).tiles@[start_i as int];
                &&& s.parent is None
                &&& sz_p(s, vert) == sz_p(s0, vert)
                &&& ctr_a(s, vert) + sz_a(s, vert) == strip_end(
                    old(self),
                    children@,
                    children@.len() - 1,
                    vert,
                )
            }),
            forall|i: int|
                0 <= i < old(self).tiles@.len() && i != start_i as int
                    ==> (#[trigger] final(self).tiles@[i]).size == old(self).tiles@[i].size,
            forall|j: int|
                0 <= j < children@.len() ==> (#[trigger] final(self).tiles@[children@[j] as int]).parent
                    == Some(start_i),
            forall|i: int|
                0 <= i < old(self).tiles@.len() && i != start_i as int && !in_prefix(
                    children@,
                    children@.len() as int,
                    i,
                ) ==> final(self).tiles@[i] == old(self).tiles@[i],
    {
        if children.len() == 0 {
            return ;
        }
        let si = start_i;
        proof {
            assert(strip_child_ok(old(self), si as int, children@, line_vert(old(self), si as int, children@), 0));
        }
        // Direction of this merge: vertical when the first child is in the
        // starting tile's column.
        let vertical = self.tiles[children[0]].center.0 == self.tiles[si].center.0;
        let ghost vert = line_vert(old(self), si as int, children@);
        proof {
            let s0 = old(self).tiles@[si as int];
            let c0 = old(self).tiles@[children@[0] as int];
            // A child shares exactly one coordinate of the starting corner,
            // so the test picks the strip direction.
            if vert {
                assert(vertical);
            } else {
                assert(c0.center.1 == s0.center.1);
                if c0.center.0 == s0.center.0 {
                    lemma_flat_index_unique(
                        old(self).height as int,
                        c0.center.0 as int,
                        c0.center.1 as int,
                        s0.center.0 as int,
                        s0.center.1 as int,
                    );
                }
                assert(!vertical);
            }
        }
        let ghost wd = self.width as int;
        let ghost hd = self.height as int;
        let ghost len = self.tiles@.len() as int;
        let ghost n = children@.len() as int;
        let ghost s0 = self.tiles@[si as int];
        let ghost x0 = s0.center.0 as int;
        let ghost y0 = s0.center.1 as int;
        let ghost a0 = ctr_a(s0, vert);
        let ghost wa = sz_a(s0, vert);
        let mut nb = self.tiles[si].neighbors.duplicate();
        let mut add: u32 = 0;
        let mut k: usize = 0;
        proof {
            lemma_lm_grown_pre(old(self), si as int, children@, vert);
        }
        while k < children.len()
            invariant
                old(self).wf(),
                strip_ok(old(self), si as int, children@, vert),
                si < len,
                n == children@.len() as int,
                0 <= k <= n,
                wd == self.width as int,
                hd == self.height as int,
                len == self.tiles@.len() as int,
                self.width == old(self).width,
                self.height == old(self).height,
                self.hmap == old(self).hmap,
                self.cmap == old(self).cmap,
                self.tiles@.len() == old(self).tiles@.len(),
                s0 == old(self).tiles@[si as int],
                x0 == s0.center.0 as int,
                y0 == s0.center.1 as int,
                a0 == ctr_a(s0, vert),
                wa == sz_a(s0, vert),
                vert == line_vert(old(self), si as int, children@),
                vertical == vert,
                strip_end(old(self), children@, n - 1, vert) <= (if vert {
                    hd
                } else {
                    wd
                }),
                forall|j: int|
                    0 <= j < k ==> absorbed_slot_ok(
                        self.tiles@[#[trigger] children@[j] as int],
                        old(self).tiles@[children@[j] as int],
                        si as int,
                    ),
                forall|i: int|
                    0 <= i < len && !in_prefix(children@, k as int, i) ==> self.tiles@[i] == old(
                        self,
                    ).tiles@[i],
                nb.wf(),
                add == stripped_to(old(self), si as int, children@, vert, k as int) - (a0 + wa),
                nb@ == rect_nbrs(
                    old(self).hmap@,
                    wd,
                    hd,
                    x0,
                    y0,
                    (if vert {
                        s0.size.0 as int
                    } else {
                        stripped_to(old(self), si as int, children@, vert, k as int) - x0
                    }),
                    (if vert {
                        stripped_to(old(self), si as int, children@, vert, k as int) - y0
                    } else {
                        s0.size.1 as int
                    }),
                ),
            decreases n - k,
        {
            let ghost cur_end = stripped_to(old(self), si as int, children@, vert, k as int);
            let ci = children[k];
            proof {
                assert(strip_child_ok(old(self), si as int, children@, vert, k as int));
                assert forall|j: int| 0 <= j < k implies children@[j] != ci by {
                    lemma_strip_mono(old(self), si as int, children@, vert, j, k as int);
                }
                assert(!in_prefix(children@, k as int, ci as int));
                assert(self.tiles@[ci as int] == old(self).tiles@[ci as int]);
                assert(ctr_a(old(self).tiles@[ci as int], vert) == cur_end);
                lemma_lm_grown_pre(old(self), si as int, children@, vert);
            }
            nb.union_with(&self.tiles[ci].neighbors);
            proof {
                let c = old(self).tiles@[ci as int];
                if vert {
                    lemma_rect_nbrs_split_v(
                        old(self).hmap@,
                        wd,
                        hd,
                        x0,
                        y0,
                        s0.size.0 as int,
                        cur_end - y0,
                        c.size.1 as int,
                    );
                } else {
                    lemma_rect_nbrs_split_h(
                        old(self).hmap@,
                        wd,
                        hd,
                        x0,
                        y0,
                        cur_end - x0,
                        c.size.0 as int,
                        s0.size.1 as int,
                    );
                    assert(c.center.0 as int == cur_end && c.center.1 as int == y0 && c.size.1 as int
                        == s0.size.1 as int);
                }
            }
            proof {
                let c = old(self).tiles@[ci as int];
                assert(strip_end(old(self), children@, k as int, vert) == cur_end + sz_a(c, vert));
                assert(strip_end(old(self), children@, k as int, vert) <= strip_end(
                    old(self),
                    children@,
                    n - 1,
                    vert,
                ));
            }
            let c = &self.tiles[ci];
            let c_index = c.index;
            let c_center = c.center;
            let c_size = c.size;
            let c_color = c.color;
            let c_height = c.height;
            add = add + (if vertical {
                c_size.1
            } else {
                c_size.0
            });
            let dormant = Tile {
                index: c_index,
                center: c_center,
                size: c_size,
                color: c_color,
                height: c_height,
                neighbors: HeightSet::empty(),
                parent: Some(si),
            };
            let ghost before_set = self.tiles@;
            self.tiles.set(ci, dormant);
            k = k + 1;
            proof {
                assert(stripped_to(old(self), si as int, children@, vert, k as int) == strip_end(
                    old(self),
                    children@,
                    k - 1,
                    vert,
                ));
                assert(self.tiles@ == before_set.update(ci as int, dormant));
                assert forall|j: int|
                    0 <= j < k implies absorbed_slot_ok(
                    self.tiles@[#[trigger] children@[j] as int],
                    old(self).tiles@[children@[j] as int],
                    si as int,
                ) by {
                    assert(strip_child_ok(old(self), si as int, children@, vert, j));
                    if j == k - 1 {
                        assert(children@[j] == ci);
                        assert(self.tiles@[ci as int] == dormant);
                    } else {
                        assert(children@[j] != ci);
                        assert(self.tiles@[children@[j] as int] == before_set[children@[j] as int]);
                    }
                }
                assert forall|i: int|
                    0 <= i < len && !in_prefix(children@, k as int, i) implies self.tiles@[i]
                    == old(self).tiles@[i] by {
                    if i == ci as int {
                        assert(children@[k - 1] == ci);
                        assert(in_prefix(children@, k as int, i));
                    } else {
                        if in_prefix(children@, k - 1, i) {
                            let j = choose|j: int| 0 <= j < k - 1 && children@[j] == i;
                            assert(in_prefix(children@, k as int, i));
                        }
                    }
                }
            }
        }
        proof {
            assert forall|j: int| 0 <= j < n implies children@[j] != si by {
                assert(strip_child_ok(old(self), si as int, children@, vert, j));
            }
            assert(!in_prefix(children@, n, si as int));
            assert(self.tiles@[si as int] == s0);
            assert(stripped_to(old(self), si as int, children@, vert, n) == strip_end(
                old(self),
                children@,
                n - 1,
                vert,
            ));
        }
        let ghost before_grow = self.tiles@;
        let s = &self.tiles[si];
        let new_size = if vertical {
            (s.size.0, s.size.1 + add)
        } else {
            (s.size.0 + add, s.size.1)
        };
        let grown = Tile {
            index: s.index,
            center: s.center,
            size: new_size,
            color: s.color,
            height: s.height,
            neighbors: nb,
            parent: None,
        };
        self.tiles.set(si, grown);
        proof {
            let sq = self.tiles@[si as int];
            assert(sq == grown);
            assert(same_static(sq, s0));
            assert(sq.parent is None);
            assert(sq.neighbors.wf());
            assert(sz_p(sq, vert) == sz_p(s0, vert));
            assert(ctr_a(sq, vert) + sz_a(sq, vert) == strip_end(old(self), children@, n - 1, vert));
            assert(sq.neighbors@ == rect_nbrs(
                self.hmap@,
                self.width as int,
                self.height as int,
                sq.center.0 as int,
                sq.center.1 as int,
                sq.size.0 as int,
                sq.size.1 as int,
            ));
            assert(self.tiles@ == before_grow.update(si as int, grown));
            assert forall|j: int|
                0 <= j < n implies absorbed_slot_ok(
                self.tiles@[#[trigger] children@[j] as int],
                old(self).tiles@[children@[j] as int],
                si as int,
            ) by {
                assert(strip_child_ok(old(self), si as int, children@, vert, j));
                assert(children@[j] < len && children@[j] != si);
                assert(absorbed_slot_ok(
                    before_grow[children@[j] as int],
                    old(self).tiles@[children@[j] as int],
                    si as int,
                ));
                assert(self.tiles@[children@[j] as int] == before_grow[children@[j] as int]);
            }
            assert forall|i: int|
                0 <= i < len && i != si as int && !in_prefix(children@, n, i) implies self.tiles@[i]
                == old(self).tiles@[i] by {
            }
            assert forall|i: int|
                0 <= i < len && i != si as int implies (#[trigger] self.tiles@[i]).size == old(
                self,
            ).tiles@[i].size by {
                if in_prefix(children@, n, i) {
                    let j = choose|j: int| 0 <= j < n && children@[j] == i;
                    assert(absorbed_slot_ok(
                        self.tiles@[children@[j] as int],
                        old(self).tiles@[children@[j] as int],
                        si as int,
                    ));
                }
            }
            assert(line_merge_shape(old(self), self, si as int, children@, vert));
            lemma_line_merge_preserves(old(self), self, si as int, children@, vert);
            assert forall|j: int|
                0 <= j < n implies (#[trigger] self.tiles@[children@[j] as int]).parent == Some(si) by {
                assert(absorbed_slot_ok(
                    self.tiles@[children@[j] as int],
                    old(self).tiles@[children@[j] as int],
                    si as int,
                ));
            }
            assert forall|i: int|
                0 <= i < len implies same_static(#[trigger] self.tiles@[i], old(self).tiles@[i]) && ((
            self.tiles@[i].parent is None) ==> old(self).tiles@[i].parent is None) by {
                if i != si as int && in_prefix(children@, n, i) {
                    let j = choose|j: int| 0 <= j < n && children@[j] == i;
                    assert(absorbed_slot_ok(self.tiles@[children@[j] as int], old(self).tiles@[children@[j] as int], si as int));
                } else if i != si as int {
                    assert(self.tiles@[i] == old(self).tiles@[i]);
                }
            }
        }
    }
}

/// How far along the merge axis the starting tile has grown after
/// absorbing the first `k` children: its own end for `k == 0`, else the end
/// of child `k - 1`.
pub open spec fn stripped_to(
    q: &QuadTree,
    si: int,
    children: Seq<usize>,
    vert: bool,
    k: int,
) -> int {
    if k == 0 {
        ctr_a(q.tiles@[si], vert) + sz_a(q.tiles@[si], vert)
    } else {
        strip_end(q, children, k - 1, vert)
    }
}

/// Before a merge starts, the strip lies inside the grid.
proof fn lemma_lm_grown_pre(old_q: &QuadTree, si: int, children: Seq<usize>, vert: bool)
    requires
        old_q.wf(),
        strip_ok(old_q, si, children, vert),
    ensures
        strip_end(old_q, children, children.len() - 1, vert) <= (if vert {
            old_q.height as int
        } else {
            old_q.width as int
        }),
        forall|k: int|
            0 <= k < children.len() ==> #[trigger] stripped_to(old_q, si, children, vert, k)
                == ctr_a(old_q.tiles@[children[k] as int], vert),
        forall|k: int|
            0 <= k < children.len() ==> #[trigger] strip_end(old_q, children, k, vert)
                <= strip_end(old_q, children, children.len() - 1, vert),
{
    let n = children.len() as int;
    assert(strip_child_ok(old_q, si, children, vert, n - 1));
    assert forall|k: int|
        0 <= k < n implies #[trigger] stripped_to(old_q, si, children, vert, k) == ctr_a(
        old_q.tiles@[children[k] as int],
        vert,
    ) by {
        assert(strip_child_ok(old_q, si, children, vert, k));
        if k > 0 {
            assert(ctr_a(old_q.tiles@[children[k] as int], vert) == strip_end(
                old_q,
                children,
                k - 1,
                vert,
            ));
        }
    }
    assert forall|k: int|
        0 <= k < n implies #[trigger] strip_end(old_q, children, k, vert) <= strip_end(
        old_q,
        children,
        n - 1,
        vert,
    ) by {
        assert(strip_child_ok(old_q, si, children, vert, k));
        if k < n - 1 {
            lemma_strip_mono(old_q, si, children, vert, k, n - 1);
            assert(1 <= old_q.tiles@[children[n - 1] as int].size.0 && 1 <= old_q.tiles@[children[n
                - 1] as int].size.1);
        }
    }
}

impl QuadTree {
    /// A live tile could absorb the tile directly after it along one axis:
    /// the neighbour slot is in range, matches, and the combined footprint
    /// stays within budget.
    pub open spec fn dir_extendable(&self, i: int, scale: int, vert: bool) -> bool {
        let t = self.tiles@[i];
        let nxt = if vert {
            self.spec_index(t.center.0 as int, t.center.1 + t.size.1)
        } else {
            self.spec_index(t.center.0 + t.size.0, t.center.1 as int)
        };
        &&& (if vert {
            t.center.1 + t.size.1 < self.height
        } else {
            t.center.0 + t.size.0 < self.width
        })
        &&& t.spec_similar_line(&self.tiles@[nxt])
        &&& (sz_a(t, vert) + sz_a(self.tiles@[nxt], vert)) * scale <= 500
    }

    /// A live tile could be extended horizontally or vertically.
    pub open spec fn line_extendable(&self, i: int, scale: int) -> bool {
        self.dir_extendable(i, scale, false) || self.dir_extendable(i, scale, true)
    }

    /// No live tile can be extended: one more line pass changes nothing.
    pub open spec fn line_converged(&self, scale: int) -> bool {
        forall|i: int|
            0 <= i < self.tiles@.len() && self.tiles@[i].parent is None
                ==> !(#[trigger] self.line_extendable(i, scale))
    }

    /// Walk along one axis from the live tile in slot (xi, yi), collecting
    /// the longest run of matching tiles whose combined footprint stays
    /// within budget.  Returns the run and the combined axis extent.
    fn probe_line(&self, xi: u32, yi: u32, si: usize, tile_scale: u32, vertical: bool) -> (r: (
        Vec<usize>,
        u32,
    ))
        requires
            self.wf(),
            1 <= tile_scale,
            xi < self.width,
            yi < self.height,
            si == self.spec_index(xi as int, yi as int),
            self.tiles@[si as int].parent is None,
        ensures
            r.0@.len() == 0 ==> r.1 == sz_a(self.tiles@[si as int], vertical)
                && !self.dir_extendable(si as int, tile_scale as int, vertical),
            r.0@.len() > 0 ==> {
                &&& strip_ok(self, si as int, r.0@, vertical)
                &&& line_vert(self, si as int, r.0@) == vertical
                &&& r.1 as int == strip_end(self, r.0@, r.0@.len() - 1, vertical) - ctr_a(
                    self.tiles@[si as int],
                    vertical,
                )
                &&& r.1 * tile_scale <= 500
                &&& self.dir_extendable(si as int, tile_scale as int, vertical)
                &&& r.0@.len() <= 500
            },
    {
        proof {
            lemma_slot_center(self, xi as int, yi as int);
        }
        let limit: u32 = if vertical {
            self.height
        } else {
            self.width
        };
        let base: u32 = if vertical {
            yi
        } else {
            xi
        };
        let start = &self.tiles[si];
        let s_w = start.size.0;
        let s_h = start.size.1;
        let mut sa: u32 = if vertical {
            s_h
        } else {
            s_w
        };
        let ghost a0 = ctr_a(self.tiles@[si as int], vertical);
        proof {
            assert(1 <= self.tiles@[si as int].size.0 && 1 <= self.tiles@[si as int].size.1);
        }
        let mut children: Vec<usize> = Vec::new();
        while (base as u64) + (sa as u64) < (limit as u64)
            invariant_except_break
                self.wf(),
                1 <= tile_scale,
                xi < self.width,
                yi < self.height,
                si == self.spec_index(xi as int, yi as int),
                si < self.tiles@.len(),
                self.tiles@[si as int].parent is None,
                self.tiles@[si as int].center.0 == xi,
                self.tiles@[si as int].center.1 == yi,
                s_w == self.tiles@[si as int].size.0,
                s_h == self.tiles@[si as int].size.1,
                limit == (if vertical {
                    self.height
                } else {
                    self.width
                }),
                base == (if vertical {
                    yi
                } else {
                    xi
                }),
                a0 == ctr_a(self.tiles@[si as int], vertical),
                base == a0,
                base + sa <= limit,
                1 <= sa,
                children@.len() < sa,
                children@.len() == 0 ==> sa == sz_a(self.tiles@[si as int], vertical),
                children@.len() > 0 ==> strip_ok(self, si as int, children@, vertical),
                children@.len() > 0 ==> line_vert(self, si as int, children@) == vertical,
                children@.len() > 0 ==> sa as int == strip_end(
                    self,
                    children@,
                    children@.len() - 1,
                    vertical,
                ) - a0,
                children@.len() > 0 ==> sa * tile_scale <= 500,
                children@.len() > 0 ==> self.dir_extendable(si as int, tile_scale as int, vertical),
                children@.len() <= 500,
            ensures
                children@.len() == 0 ==> sa == sz_a(self.tiles@[si as int], vertical)
                    && !self.dir_extendable(si as int, tile_scale as int, vertical),
                children@.len() > 0 ==> {
                    &&& strip_ok(self, si as int, children@, vertical)
                    &&& line_vert(self, si as int, children@) == vertical
                    &&& sa as int == strip_end(self, children@, children@.len() - 1, vertical) - a0
                    &&& sa * tile_scale <= 500
                    &&& self.dir_extendable(si as int, tile_scale as int, vertical)
                    &&& children@.len() <= 500
                },
            decreases limit - base - sa,
        {
            let (cx, cy) = if vertical {
                (xi, yi + sa)
            } else {
                (xi + sa, yi)
            };
            let ci = self.index(cx, cy);
            proof {
                lemma_slot_center(self, cx as int, cy as int);
            }
            let t = &self.tiles[ci];
            let t_sa = if vertical {
                t.size.1
            } else {
                t.size.0
            };
            proof {
                assert(((sa as int) + (t_sa as int)) * (tile_scale as int)
                    < 0x20000000000000000) by (nonlinear_arith)
                    requires
                        sa as int <= 0xFFFFFFFF,
                        t_sa as int <= 0xFFFFFFFF,
                        tile_scale as int <= 0xFFFFFFFF,
                ;
            }
            if (sa as u128 + t_sa as u128) * (tile_scale as u128) > 500 {
                proof {
                    if children@.len() == 0 {
                        assert(!self.dir_extendable(si as int, tile_scale as int, vertical));
                    }
                }
                break ;
            }
            let start2 = &self.tiles[si];
            if !start2.similar_line(t) {
                proof {
                    if children@.len() == 0 {
                        assert(!self.dir_extendable(si as int, tile_scale as int, vertical));
                    }
                }
                break ;
            }
            proof {
                // The candidate is live, so its rectangle stays inside the
                // grid; the extended span therefore does too.
                assert(self.tiles@[ci as int].parent is None);
                assert(1 <= self.tiles@[ci as int].size.0 && 1 <= self.tiles@[ci as int].size.1);
                if ci as int == si as int {
                    assert(false);
                }
                if children@.len() == 0 {
                    assert(self.dir_extendable(si as int, tile_scale as int, vertical));
                }
            }
            let ghost old_children = children@;
            children.push(ci);
            proof {
                let n = children@.len() as int;
                assert(children@ == old_children.push(ci));
                assert(children@[n - 1] == ci);
                assert(strip_child_ok(self, si as int, children@, vertical, n - 1));
                assert forall|k: int|
                    0 <= k < n - 1 implies #[trigger] strip_child_ok(
                    self,
                    si as int,
                    children@,
                    vertical,
                    k,
                ) by {
                    assert(children@[k] == old_children[k]);
                    assert(strip_child_ok(self, si as int, old_children, vertical, k));
                }
                assert forall|k: int|
                    0 <= k < n - 1 implies ctr_a(self.tiles@[children@[k + 1] as int], vertical)
                    == #[trigger] strip_end(self, children@, k, vertical) by {
                    if k < n - 2 {
                        assert(children@[k] == old_children[k] && children@[k + 1] == old_children[k
                            + 1]);
                        assert(ctr_a(self.tiles@[old_children[k + 1] as int], vertical)
                            == strip_end(self, old_children, k, vertical));
                    } else {
                        if old_children.len() > 0 {
                            assert(ctr_a(self.tiles@[ci as int], vertical) == a0 + sa);
                            assert(children@[k] == old_children[k]);
                        }
                    }
                }
                assert(strip_ok(self, si as int, children@, vertical));
            }
            sa = sa + t_sa;
            proof {
                assert(sa <= 500) by (nonlinear_arith)
                    requires
                        sa * tile_scale <= 500,
                        1 <= tile_scale,
                        0 <= sa,
                ;
            }
        }
        (children, sa)
    }
}

impl QuadTree {
    /// One pass of the line reducer: every live tile tries to absorb the
    /// longest matching run to its right or below it, whichever is longer
    /// (ties go to the horizontal run).  Returns the number of tiles
    /// absorbed; zero means the grid is unchanged and no run existed.
    pub fn line_optimize(&mut self, tile_scale: u32) -> (count: usize)
        requires
            old(self).wf(),
            1 <= tile_scale,
            501 * old(self).width * old(self).height <= usize::MAX,
        ensures
            final(self).wf(),
            final(self).width == old(self).width,
            final(self).height == old(self).height,
            final(self).hmap == old(self).hmap,
            final(self).cmap == old(self).cmap,
            final(self).tiles@.len() == old(self).tiles@.len(),
            forall|i: int|
                0 <= i < old(self).tiles@.len() ==> same_static(
                    #[trigger] final(self).tiles@[i],
                    old(self).tiles@[i],
                ),
            forall|i: int|
                0 <= i < old(self).tiles@.len() && (#[trigger] final(self).tiles@[i]).parent
                    is None ==> old(self).tiles@[i].parent is None,
            forall|i: int|
                0 <= i < old(self).tiles@.len() && (#[trigger] final(self).tiles@[i]).parent
                    is None ==> (final(self).tiles@[i].size.0 == old(self).tiles@[i].size.0
                    || final(self).tiles@[i].size.0 * tile_scale <= 500) && (
                final(self).tiles@[i].size.1 == old(self).tiles@[i].size.1
                    || final(self).tiles@[i].size.1 * tile_scale <= 500),
            forall|i: int|
                0 <= i < old(self).tiles@.len() && (#[trigger] final(self).tiles@[i]).parent
                    is None ==> (final(self).tiles@[i].size.0 == old(self).tiles@[i].size.0
                    || final(self).tiles@[i].size.1 == old(self).tiles@[i].size.1),
            count + live_count(final(self).tiles@) == live_count(old(self).tiles@),
            absorbed_into_similar(old(self).tiles@, final(self).tiles@),
            count == 0 ==> final(self).tiles@ == old(self).tiles@,
            count == 0 ==> old(self).line_converged(tile_scale as int),
            old(self).line_converged(tile_scale as int) ==> count == 0,
            count != 0 ==> exists|i: int|
                0 <= i < old(self).tiles@.len() && (#[trigger] old(self).tiles@[i]).parent is None
                    && !(final(self).tiles@[i].parent is None),
    {
        let ghost wd = self.width as int;
        let ghost hd = self.height as int;
        let ghost len = self.tiles@.len() as int;
        let mut count: usize = 0;
        let mut x: u32 = 0;
        while x < self.width
            invariant
                self.wf(),
                1 <= tile_scale,
                self.width == old(self).width,
                self.height == old(self).height,
                self.hmap == old(self).hmap,
                self.cmap == old(self).cmap,
                self.tiles@.len() == old(self).tiles@.len(),
                wd == self.width as int,
                hd == self.height as int,
                len == self.tiles@.len() as int,
                len == wd * hd,
                501 * wd * hd <= usize::MAX,
                x <= wd,
                count <= 500 * (x * hd),
                count + live_count(self.tiles@) == live_count(old(self).tiles@),
                absorbed_into_similar(old(self).tiles@, self.tiles@),
                forall|i: int|
                    x * hd <= i < len ==> (#[trigger] self.tiles@[i]).size == old(
                        self,
                    ).tiles@[i].size,
                forall|i: int|
                    0 <= i < len && (#[trigger] self.tiles@[i]).parent is None
                        ==> self.tiles@[i].size.0 == old(self).tiles@[i].size.0
                        || self.tiles@[i].size.1 == old(self).tiles@[i].size.1,
                forall|i: int|
                    0 <= i < len ==> same_static(#[trigger] self.tiles@[i], old(self).tiles@[i]),
                forall|i: int|
                    0 <= i < len && (#[trigger] self.tiles@[i]).parent is None ==> old(
                        self,
                    ).tiles@[i].parent is None,
                forall|i: int|
                    0 <= i < len && (#[trigger] self.tiles@[i]).parent is None ==> (self.tiles@[i].size.0
                        == old(self).tiles@[i].size.0 || self.tiles@[i].size.0 * tile_scale <= 500)
                        && (self.tiles@[i].size.1 == old(self).tiles@[i].size.1
                        || self.tiles@[i].size.1 * tile_scale <= 500),
                count == 0 ==> self.tiles@ == old(self).tiles@,
                count == 0 ==> forall|i: int|
                    0 <= i < x * hd && (#[trigger] old(self).tiles@[i]).parent is None ==> !old(
                        self,
                    ).line_extendable(i, tile_scale as int),
                old(self).line_converged(tile_scale as int) ==> count == 0,
                count != 0 ==> exists|i: int|
                    0 <= i < len && (#[trigger] old(self).tiles@[i]).parent is None && !(
                    self.tiles@[i].parent is None),
            decreases wd - x,
        {
            let mut y: u32 = 0;
            while y < self.height
                invariant
                    self.wf(),
                    1 <= tile_scale,
                    self.width == old(self).width,
                    self.height == old(self).height,
                    self.hmap == old(self).hmap,
                    self.cmap == old(self).cmap,
                    self.tiles@.len() == old(self).tiles@.len(),
                    wd == self.width as int,
                    hd == self.height as int,
                    len == self.tiles@.len() as int,
                    len == wd * hd,
                    501 * wd * hd <= usize::MAX,
                    x < wd,
                    y <= hd,
                    count <= 500 * (x * hd + y),
                    count + live_count(self.tiles@) == live_count(old(self).tiles@),
                    absorbed_into_similar(old(self).tiles@, self.tiles@),
                    forall|i: int|
                        x * hd + y <= i < len ==> (#[trigger] self.tiles@[i]).size == old(
                            self,
                        ).tiles@[i].size,
                    forall|i: int|
                        0 <= i < len && (#[trigger] self.tiles@[i]).parent is None
                            ==> self.tiles@[i].size.0 == old(self).tiles@[i].size.0
                            || self.tiles@[i].size.1 == old(self).tiles@[i].size.1,
                    forall|i: int|
                        0 <= i < len ==> same_static(#[trigger] self.tiles@[i], old(self).tiles@[i]),
                    forall|i: int|
                        0 <= i < len && (#[trigger] self.tiles@[i]).parent is None ==> old(
                            self,
                        ).tiles@[i].parent is None,
                    forall|i: int|
                        0 <= i < len && (#[trigger] self.tiles@[i]).parent is None ==> (self.tiles@[i].size.0
                            == old(self).tiles@[i].size.0 || self.tiles@[i].size.0 * tile_scale
                            <= 500) && (self.tiles@[i].size.1 == old(self).tiles@[i].size.1
                            || self.tiles@[i].size.1 * tile_scale <= 500),
                    count == 0 ==> self.tiles@ == old(self).tiles@,
                    count == 0 ==> forall|i: int|
                        0 <= i < x * hd + y && (#[trigger] old(self).tiles@[i]).parent is None
                            ==> !old(self).line_extendable(i, tile_scale as int),
                    old(self).line_converged(tile_scale as int) ==> count == 0,
                    count != 0 ==> exists|i: int|
                        0 <= i < len && (#[trigger] old(self).tiles@[i]).parent is None && !(
                        self.tiles@[i].parent is None),
                decreases hd - y,
            {
                let start_i = self.index(x, y);
                proof {
                    lemma_slot_center(self, x as int, y as int);
                    lemma_flat_index(wd, hd, x as int, y as int);
                }
                let ghost pre = *self;
                let mut m: usize = 0;
                if self.tiles[start_i].parent.is_none() {
                    let horiz = self.probe_line(x, y, start_i, tile_scale, false);
                    let vert_run = self.probe_line(x, y, start_i, tile_scale, true);
                    let hl = horiz.0.len();
                    let vl = vert_run.0.len();
                    m = if hl > vl {
                        hl
                    } else {
                        vl
                    };
                    let ghost h_span = horiz.1;
                    let ghost v_span = vert_run.1;
                    let winner = if hl >= vl {
                        horiz.0
                    } else {
                        vert_run.0
                    };
                    proof {
                        if winner@.len() > 0 {
                            assert(line_vert(self, start_i as int, winner@) == (vl > hl));
                        }
                        if old(self).line_converged(tile_scale as int) {
                            assert(count == 0);
                            assert(self.tiles@ == old(self).tiles@);
                            assert(old(self).tiles@[start_i as int].parent is None);
                            assert(!old(self).line_extendable(start_i as int, tile_scale as int));
                            if hl > 0 {
                                assert(self.dir_extendable(start_i as int, tile_scale as int, false));
                                assert(old(self).dir_extendable(
                                    start_i as int,
                                    tile_scale as int,
                                    false,
                                ));
                                assert(false);
                            }
                            if vl > 0 {
                                assert(self.dir_extendable(start_i as int, tile_scale as int, true));
                                assert(old(self).dir_extendable(
                                    start_i as int,
                                    tile_scale as int,
                                    true,
                                ));
                                assert(false);
                            }
                            assert(m == 0);
                        }
                    }
                    let ghost count_pre = count;
                    self.merge_line(start_i, winner);
                    proof {
                        // The pass's count grows by exactly the number of
                        // tiles this visit absorbed.
                        let ghost wv = if vl > hl {
                            vert_run.0@
                        } else {
                            horiz.0@
                        };
                        let ghost vert = vl > hl;
                        assert(m == wv.len());
                        if m > 0 {
                            assert(strip_ok(&pre, start_i as int, wv, vert));
                            assert forall|j: int, k: int| 0 <= j < k < wv.len() implies wv[j]
                                != wv[k] by {
                                lemma_strip_mono(&pre, start_i as int, wv, vert, j, k);
                            }
                            assert forall|j: int|
                                0 <= j < wv.len() implies #[trigger] wv[j] < len
                                && pre.tiles@[wv[j] as int].parent is None && !(
                            self.tiles@[wv[j] as int].parent is None) by {
                                assert(strip_child_ok(&pre, start_i as int, wv, vert, j));
                                assert(self.tiles@[wv[j] as int].parent == Some(start_i));
                            }
                            assert forall|i: int|
                                0 <= i < len && !in_prefix(wv, wv.len() as int, i) implies ((
                            #[trigger] pre.tiles@[i]).parent is None) == (self.tiles@[i].parent
                                is None) by {
                                if i != start_i as int {
                                    assert(self.tiles@[i] == pre.tiles@[i]);
                                }
                            }
                            lemma_live_count_absorbed(pre.tiles@, self.tiles@, wv);
                            // Each absorbed tile points at the starting tile,
                            // which shares its colour and height.
                            assert forall|j: int|
                                0 <= j < wv.len() implies #[trigger] wv[j] < len
                                && pre.tiles@[wv[j] as int].parent is None && self.tiles@[wv[j] as int].parent
                                == Some(start_i) && self.tiles@[wv[j] as int].color
                                == self.tiles@[start_i as int].color && self.tiles@[wv[j] as int].height
                                == self.tiles@[start_i as int].height by {
                                assert(strip_child_ok(&pre, start_i as int, wv, vert, j));
                                assert(same_static(
                                    self.tiles@[wv[j] as int],
                                    pre.tiles@[wv[j] as int],
                                ));
                                assert(same_static(
                                    self.tiles@[start_i as int],
                                    pre.tiles@[start_i as int],
                                ));
                            }
                            assert forall|i: int|
                                0 <= i < len implies (#[trigger] self.tiles@[i]).color
                                == pre.tiles@[i].color && self.tiles@[i].height
                                == pre.tiles@[i].height by {
                                assert(same_static(self.tiles@[i], pre.tiles@[i]));
                            }
                            lemma_absorbed_similar_step(
                                old(self).tiles@,
                                pre.tiles@,
                                self.tiles@,
                                start_i,
                                wv,
                            );
                        } else {
                            assert(*self == pre);
                        }
                        if count_pre != 0 {
                            let w = choose|w: int|
                                0 <= w < len && (#[trigger] old(self).tiles@[w]).parent is None
                                    && !(pre.tiles@[w].parent is None);
                            assert(!(self.tiles@[w].parent is None));
                        } else if m > 0 {
                            let ghost wv = if hl >= vl {
                                horiz.0@
                            } else {
                                vert_run.0@
                            };
                            assert(strip_child_ok(&pre, start_i as int, wv, vl > hl, 0));
                            let c0 = wv[0] as int;
                            assert(pre.tiles@[c0].parent is None);
                            assert(old(self).tiles@[c0].parent is None);
                            assert(self.tiles@[c0].parent == Some(start_i));
                        }
                        assert forall|i: int|
                            0 <= i < len implies same_static(
                            #[trigger] self.tiles@[i],
                            old(self).tiles@[i],
                        ) by {
                            assert(same_static(self.tiles@[i], pre.tiles@[i]));
                        }
                        assert forall|i: int|
                            0 <= i < len && (#[trigger] self.tiles@[i]).parent is None implies old(
                            self,
                        ).tiles@[i].parent is None by {
                            assert(pre.tiles@[i].parent is None);
                        }
                        assert forall|i: int|
                            0 <= i < len && (#[trigger] self.tiles@[i]).parent is None implies (
                        self.tiles@[i].size.0 == old(self).tiles@[i].size.0
                            || self.tiles@[i].size.0 * tile_scale <= 500) && (self.tiles@[i].size.1
                            == old(self).tiles@[i].size.1 || self.tiles@[i].size.1 * tile_scale
                            <= 500) by {
                            if i == start_i as int && (hl > 0 || vl > 0) {
                                let vert = vl > hl;
                                let span = if vert {
                                    v_span
                                } else {
                                    h_span
                                };
                                assert(ctr_a(self.tiles@[i], vert) == ctr_a(pre.tiles@[i], vert));
                                assert(sz_a(self.tiles@[i], vert) == span);
                                assert(sz_p(self.tiles@[i], vert) == sz_p(pre.tiles@[i], vert));
                                assert(span * tile_scale <= 500);
                                if vert {
                                    assert(self.tiles@[i].size.1 == span);
                                    assert(self.tiles@[i].size.0 == pre.tiles@[i].size.0);
                                } else {
                                    assert(self.tiles@[i].size.0 == span);
                                    assert(self.tiles@[i].size.1 == pre.tiles@[i].size.1);
                                }
                            } else if i == start_i as int {
                                assert(self.tiles@[i] == pre.tiles@[i]);
                            } else {
                                assert(self.tiles@[i].size == pre.tiles@[i].size);
                            }
                        }
                    }
                } else {
                    proof {
                        assert(m == 0);
                    }
                }
                proof {
                    assert(m <= 500);
                    assert(x * hd + y <= wd * hd - 1 && 500 * (wd * hd - 1) + 500 <= usize::MAX) by (
                    nonlinear_arith)
                        requires
                            0 <= x < wd,
                            0 <= y < hd,
                            501 * wd * hd <= usize::MAX,
                    ;
                }
                count = count + m;
                proof {
                    if count == 0 {
                        assert(self.tiles@ == old(self).tiles@);
                        assert forall|i: int|
                            0 <= i < x * hd + y + 1 && (#[trigger] old(self).tiles@[i]).parent
                                is None implies !old(self).line_extendable(i, tile_scale as int) by {
                            if i == x * hd + y {
                                assert(i == start_i as int);
                                assert(!self.dir_extendable(start_i as int, tile_scale as int, false));
                                assert(!self.dir_extendable(start_i as int, tile_scale as int, true));
                            }
                        }
                    }
                    if old(self).line_converged(tile_scale as int) {
                        assert(count == 0);
                    }
                }
                y = y + 1;
            }
            x = x + 1;
            proof {
                assert(500 * ((x - 1) * hd + hd) == 500 * (x * hd)) by (nonlinear_arith);
            }
        }
        proof {
            if count == 0 {
                assert forall|i: int|
                    0 <= i < len && (#[trigger] old(self).tiles@[i]).parent is None implies !old(
                    self,
                ).line_extendable(i, tile_scale as int) by {
                    assert(0 <= i < wd * hd);
                }
            }
        }
        count
    }
}

/// Number of live tiles of a grid.
pub open spec fn live_count(s: Seq<Tile>) -> nat
    decreases s.len(),
{
    if s.len() == 0 {
        0
    } else {
        live_count(s.drop_last()) + (if s.last().parent is None {
            1nat
        } else {
            0nat
        })
    }
}

/// Deactivating tiles can only lower the live count.
pub proof fn lemma_live_count_mono(s1: Seq<Tile>, s2: Seq<Tile>)
    requires
        s1.len() == s2.len(),
        forall|i: int| 0 <= i < s2.len() && (#[trigger] s2[i]).parent is None ==> s1[i].parent
            is None,
    ensures
        live_count(s2) <= live_count(s1),
    decreases s1.len(),
{
    if s1.len() > 0 {
        lemma_live_count_mono(s1.drop_last(), s2.drop_last());
    }
}

/// Deactivating at least one live tile strictly lowers the live count.
pub proof fn lemma_live_count_strict(s1: Seq<Tile>, s2: Seq<Tile>, j: int)
    requires
        s1.len() == s2.len(),
        forall|i: int| 0 <= i < s2.len() && (#[trigger] s2[i]).parent is None ==> s1[i].parent
            is None,
        0 <= j < s1.len(),
        s1[j].parent is None,
        !(s2[j].parent is None),
    ensures
        live_count(s2) < live_count(s1),
    decreases s1.len(),
{
    if j == s1.len() - 1 {
        lemma_live_count_mono(s1.drop_last(), s2.drop_last());
    } else {
        lemma_live_count_strict(s1.drop_last(), s2.drop_last(), j);
    }
}

/// Two block corners on the `2*s` lattice, each offset by 0 or `s`, can
/// only coincide if they are the same corner of the same block.
pub proof fn lemma_aligned_corner_eq(s: int, a: int, b: int, p: int, q: int)
    requires
        1 <= s,
        0 <= a,
        0 <= b,
        a % (2 * s) == 0,
        b % (2 * s) == 0,
        p == 0 || p == s,
        q == 0 || q == s,
        a + p == b + q,
    ensures
        a == b,
        p == q,
{
    vstd::arithmetic::div_mod::lemma_fundamental_div_mod(a, 2 * s);
    vstd::arithmetic::div_mod::lemma_fundamental_div_mod(b, 2 * s);
    let ka = a / (2 * s);
    let kb = b / (2 * s);
    assert(a == 2 * s * ka && b == 2 * s * kb);
    if ka != kb {
        assert(false) by (nonlinear_arith)
            requires
                1 <= s,
                ka != kb,
                2 * s * ka + p == 2 * s * kb + q,
                0 <= p <= s,
                0 <= q <= s,
        ;
    }
}

/// Slots of two different lattice-aligned 2x2 blocks never coincide.
pub proof fn lemma_quartet_slot_ne(
    hd: int,
    gs: int,
    ax: int,
    ay: int,
    x: int,
    y: int,
    p1: int,
    p2: int,
    q1: int,
    q2: int,
)
    requires
        1 <= gs,
        0 <= ax,
        0 <= ay,
        0 <= x,
        0 <= y,
        ay + gs < hd,
        y + gs < hd,
        ax % (2 * gs) == 0,
        ay % (2 * gs) == 0,
        x % (2 * gs) == 0,
        y % (2 * gs) == 0,
        !(ax == x && ay == y),
        p1 == 0 || p1 == gs,
        p2 == 0 || p2 == gs,
        q1 == 0 || q1 == gs,
        q2 == 0 || q2 == gs,
    ensures
        (ay + p2) + (ax + p1) * hd != (y + q2) + (x + q1) * hd,
{
    if (ay + p2) + (ax + p1) * hd == (y + q2) + (x + q1) * hd {
        lemma_flat_index_unique(hd, ax + p1, ay + p2, x + q1, y + q2);
        lemma_aligned_corner_eq(gs, ax, x, p1, q1);
        lemma_aligned_corner_eq(gs, ay, y, p2, q2);
    }
}

/// A quad merge at one lattice anchor cannot make any other lattice anchor
/// mergeable: the blocks are disjoint, so the other anchor's four tiles are
/// untouched.
proof fn lemma_merge_keeps_unmergeable(
    pre: &QuadTree,
    q: &QuadTree,
    x: int,
    y: int,
    gs: int,
    ax: int,
    ay: int,
)
    requires
        pre.wf(),
        q.width == pre.width,
        q.height == pre.height,
        q.tiles@.len() == pre.tiles@.len(),
        forall|i: int|
            0 <= i < pre.tiles@.len() && i != pre.spec_index(x, y) && i != pre.spec_index(
                x + gs,
                y,
            ) && i != pre.spec_index(x, y + gs) && i != pre.spec_index(x + gs, y + gs)
                ==> q.tiles@[i] == pre.tiles@[i],
        1 <= gs,
        0 <= x && x + gs < pre.width,
        0 <= y && y + gs < pre.height,
        0 <= ax && ax + gs < pre.width,
        0 <= ay && ay + gs < pre.height,
        x % (2 * gs) == 0,
        y % (2 * gs) == 0,
        ax % (2 * gs) == 0,
        ay % (2 * gs) == 0,
        !(ax == x && ay == y),
        !pre.quad_mergeable(ax, ay, gs),
    ensures
        !q.quad_mergeable(ax, ay, gs),
{
    let hd = pre.height as int;
    let wd = pre.width as int;
    lemma_quartet_slot_ne(hd, gs, ax, ay, x, y, 0, 0, 0, 0);
    lemma_quartet_slot_ne(hd, gs, ax, ay, x, y, 0, 0, gs, 0);
    lemma_quartet_slot_ne(hd, gs, ax, ay, x, y, 0, 0, 0, gs);
    lemma_quartet_slot_ne(hd, gs, ax, ay, x, y, 0, 0, gs, gs);
    lemma_quartet_slot_ne(hd, gs, ax, ay, x, y, gs, 0, 0, 0);
    lemma_quartet_slot_ne(hd, gs, ax, ay, x, y, gs, 0, gs, 0);
    lemma_quartet_slot_ne(hd, gs, ax, ay, x, y, gs, 0, 0, gs);
    lemma_quartet_slot_ne(hd, gs, ax, ay, x, y, gs, 0, gs, gs);
    lemma_quartet_slot_ne(hd, gs, ax, ay, x, y, 0, gs, 0, 0);
    lemma_quartet_slot_ne(hd, gs, ax, ay, x, y, 0, gs, gs, 0);
    lemma_quartet_slot_ne(hd, gs, ax, ay, x, y, 0, gs, 0, gs);
    lemma_quartet_slot_ne(hd, gs, ax, ay, x, y, 0, gs, gs, gs);
    lemma_quartet_slot_ne(hd, gs, ax, ay, x, y, gs, gs, 0, 0);
    lemma_quartet_slot_ne(hd, gs, ax, ay, x, y, gs, gs, gs, 0);
    lemma_quartet_slot_ne(hd, gs, ax, ay, x, y, gs, gs, 0, gs);
    lemma_quartet_slot_ne(hd, gs, ax, ay, x, y, gs, gs, gs, gs);
    lemma_flat_index(wd, hd, ax, ay);
    lemma_flat_index(wd, hd, ax + gs, ay);
    lemma_flat_index(wd, hd, ax, ay + gs);
    lemma_flat_index(wd, hd, ax + gs, ay + gs);
    assert(q.tiles@[pre.spec_index(ax, ay)] == pre.tiles@[pre.spec_index(ax, ay)]);
    assert(q.tiles@[pre.spec_index(ax + gs, ay)] == pre.tiles@[pre.spec_index(ax + gs, ay)]);
    assert(q.tiles@[pre.spec_index(ax, ay + gs)] == pre.tiles@[pre.spec_index(ax, ay + gs)]);
    assert(q.tiles@[pre.spec_index(ax + gs, ay + gs)] == pre.tiles@[pre.spec_index(
        ax + gs,
        ay + gs,
    )]);
}

/// Replacing one slot moves the live count by the difference in liveness.
pub proof fn lemma_live_count_update(s: Seq<Tile>, j: int, t: Tile)
    requires
        0 <= j < s.len(),
    ensures
        live_count(s.update(j, t)) + (if s[j].parent is None {
            1nat
        } else {
            0nat
        }) == live_count(s) + (if t.parent is None {
            1nat
        } else {
            0nat
        }),
    decreases s.len(),
{
    if j == s.len() - 1 {
        assert(s.update(j, t).drop_last() =~= s.drop_last());
    } else {
        assert(s.update(j, t).drop_last() =~= s.drop_last().update(j, t));
        lemma_live_count_update(s.drop_last(), j, t);
    }
}

/// Grids with slotwise equal liveness have equal live counts.
pub proof fn lemma_live_count_pointwise(s1: Seq<Tile>, s2: Seq<Tile>)
    requires
        s1.len() == s2.len(),
        forall|i: int|
            0 <= i < s1.len() ==> ((#[trigger] s1[i]).parent is None) == (s2[i].parent is None),
    ensures
        live_count(s1) == live_count(s2),
    decreases s1.len(),
{
    if s1.len() > 0 {
        lemma_live_count_pointwise(s1.drop_last(), s2.drop_last());
    }
}

/// Absorbing a run of distinct live tiles lowers the live count by exactly
/// the length of the run, when every other slot keeps its liveness.
pub proof fn lemma_live_count_absorbed(s1: Seq<Tile>, s2: Seq<Tile>, children: Seq<usize>)
    requires
        s1.len() == s2.len(),
        forall|j: int, k: int| 0 <= j < k < children.len() ==> children[j] != children[k],
        forall|j: int|
            0 <= j < children.len() ==> #[trigger] children[j] < s1.len() && s1[children[j] as int].parent
                is None && !(s2[children[j] as int].parent is None),
        forall|i: int|
            0 <= i < s1.len() && !in_prefix(children, children.len() as int, i) ==> ((
            #[trigger] s1[i]).parent is None) == (s2[i].parent is None),
    ensures
        live_count(s2) + children.len() == live_count(s1),
    decreases children.len(),
{
    if children.len() == 0 {
        lemma_live_count_pointwise(s1, s2);
    } else {
        let m = children.len() as int;
        let c = children[m - 1] as int;
        let s_mid = s2.update(c, s1[c]);
        lemma_live_count_update(s2, c, s1[c]);
        assert forall|j: int|
            0 <= j < m - 1 implies #[trigger] children.drop_last()[j] < s1.len()
            && s1[children.drop_last()[j] as int].parent is None && !(
        s_mid[children.drop_last()[j] as int].parent is None) by {
            assert(children.drop_last()[j] == children[j]);
            assert(children[j] != children[m - 1]);
        }
        assert forall|i: int|
            0 <= i < s1.len() && !in_prefix(children.drop_last(), m - 1, i) implies ((
        #[trigger] s1[i]).parent is None) == (s_mid[i].parent is None) by {
            if i == c {
            } else {
                if in_prefix(children, m, i) {
                    let j = choose|j: int| 0 <= j < m && children[j] == i;
                    assert(j != m - 1);
                    assert(children.drop_last()[j] == children[j]);
                    assert(in_prefix(children.drop_last(), m - 1, i));
                }
            }
        }
        lemma_live_count_absorbed(s1, s_mid, children.drop_last());
    }
}

/// Every tile that lost its live status points at an absorber of its own
/// colour and height: merges only ever combine matching tiles.
pub open spec fn absorbed_into_similar(tiles0: Seq<Tile>, tiles1: Seq<Tile>) -> bool {
    forall|i: int|
        0 <= i < tiles1.len() && tiles0[i].parent is None && !((#[trigger] tiles1[i]).parent
            is None) ==> {
            let p = tiles1[i].parent->Some_0 as int;
            &&& 0 <= p < tiles1.len()
            &&& tiles1[p].color == tiles1[i].color
            &&& tiles1[p].height == tiles1[i].height
        }
}

/// One merge step keeps `absorbed_into_similar` when its children are
/// absorbed into a live anchor of their own colour and height and nothing
/// else moves.
proof fn lemma_absorbed_similar_step(
    t0: Seq<Tile>,
    t1: Seq<Tile>,
    t2: Seq<Tile>,
    anchor: usize,
    ch: Seq<usize>,
)
    requires
        t0.len() == t1.len(),
        t1.len() == t2.len(),
        absorbed_into_similar(t0, t1),
        anchor < t1.len(),
        t1[anchor as int].parent is None,
        t2[anchor as int].parent is None,
        forall|j: int|
            0 <= j < ch.len() ==> #[trigger] ch[j] < t1.len() && t1[ch[j] as int].parent is None
                && t2[ch[j] as int].parent == Some(anchor) && t2[ch[j] as int].color
                == t2[anchor as int].color && t2[ch[j] as int].height == t2[anchor as int].height,
        forall|i: int|
            0 <= i < t1.len() ==> (#[trigger] t2[i]).color == t1[i].color && t2[i].height
                == t1[i].height,
        forall|i: int|
            0 <= i < t1.len() && i != anchor as int && !in_prefix(ch, ch.len() as int, i)
                ==> #[trigger] t2[i] == t1[i],
    ensures
        absorbed_into_similar(t0, t2),
{
    assert forall|i: int|
        0 <= i < t2.len() && t0[i].parent is None && !((#[trigger] t2[i]).parent is None) implies {
        let p = t2[i].parent->Some_0 as int;
        &&& 0 <= p < t2.len()
        &&& t2[p].color == t2[i].color
        &&& t2[p].height == t2[i].height
    } by {
        if t1[i].parent is None {
            // The tile fell dormant in this step, so it is one of the
            // absorbed children.
            if i != anchor as int && !in_prefix(ch, ch.len() as int, i) {
                assert(t2[i] == t1[i]);
                assert(false);
            }
            assert(i != anchor as int);
            assert(in_prefix(ch, ch.len() as int, i));
            let j = choose|j: int| 0 <= j < ch.len() && ch[j] == i;
            assert(t2[i].parent == Some(anchor));
        } else {
            // Dormant before the step: its slot and absorber data carry over.
            assert(i != anchor as int);
            if in_prefix(ch, ch.len() as int, i) {
                let j = choose|j: int| 0 <= j < ch.len() && ch[j] == i;
                assert(t1[ch[j] as int].parent is None);
                assert(false);
            }
            assert(t2[i] == t1[i]);
            let p = t1[i].parent->Some_0 as int;
            assert(0 <= p < t1.len() && t1[p].color == t1[i].color && t1[p].height
                == t1[i].height);
            assert(t2[p].color == t1[p].color && t2[p].height == t1[p].height);
        }
    }
}

} // verus!
