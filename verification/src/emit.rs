//! The brick emitter: every live, non-culled tile becomes a vertical stack
//! of one or more bricks.  The emitted list is pinned exactly by the
//! specification functions below, so everything about the output — counts,
//! footprints, colours, stacking — can be proved from them.

use crate::quad::{QuadTree, Tile};
use crate::util::{Brick, GenOptions, Material, MAX_BRICK_HEIGHT};
use vstd::prelude::*;

verus! {

/// Height step of a brick slice: studded bricks snap to multiples of 5,
/// everything else to multiples of 2.
pub open spec fn step_of(stud: bool) -> int {
    if stud {
        5
    } else {
        2
    }
}

/// The Z extent of the next brick of a stack with `dh` half-units left to
/// fill: the remainder clamped between the step and the tallest brick, then
/// rounded up by its own remainder modulo the step.
pub open spec fn slice_of(dh: int, stud: bool) -> int {
    let step = step_of(stud);
    let clamped = if dh < step {
        step
    } else if dh > MAX_BRICK_HEIGHT as int {
        MAX_BRICK_HEIGHT as int
    } else {
        dh
    };
    clamped + clamped % step
}

/// One emitted brick of tile `t`: footprint scaled by the stride, centre in
/// half-units, Z extent `h` ending 2 below `z`.
pub open spec fn mk_brick(t: Tile, o: GenOptions, h: int, z: int) -> Brick {
    Brick {
        asset: o.asset,
        size_x: (t.size.0 * o.size) as u16,
        size_y: (t.size.1 * o.size) as u16,
        size_z: (if o.img && o.micro {
            o.size as int
        } else {
            h
        }) as u16,
        pos_x: ((2 * t.center.0 + t.size.0) * o.size) as i32,
        pos_y: ((2 * t.center.1 + t.size.1) * o.size) as i32,
        pos_z: (z - h + 2) as i32,
        collide_player: !o.nocollide,
        collide_weapon: !o.nocollide,
        collide_interact: !o.nocollide,
        r: t.color[0],
        g: t.color[1],
        b: t.color[2],
        material: if o.glow {
            Material::Glow
        } else {
            Material::Plastic
        },
    }
}

/// The stack of bricks that fills `dh` half-units downward from `z`.
pub open spec fn spec_stack(t: Tile, o: GenOptions, dh: int, z: int) -> Seq<Brick>
    decreases (if dh > 0 {
        dh
    } else {
        0
    }),
{
    if dh <= 0 {
        Seq::empty()
    } else {
        let h = slice_of(dh, o.stud);
        seq![mk_brick(t, o, h, z)] + spec_stack(t, o, dh - h, z - 2 * h)
    }
}

/// Whether a tile is dropped by the `cull` option: zero height or fully
/// transparent.
pub open spec fn culled(t: Tile, o: GenOptions) -> bool {
    o.cull && (t.height == 0 || t.color[3] == 0)
}

/// Top Z of a tile's stack: the scaled height, rounded up to the grid when
/// `snap` is set.
pub open spec fn tile_z(t: Tile, o: GenOptions) -> int {
    let z0 = o.scale * t.height;
    if o.snap {
        z0 + 4 - z0 % 4
    } else {
        z0
    }
}

/// Raw vertical extent of a tile: down to its lowest recorded neighbour
/// height (zero when it has none), at least 2.
pub open spec fn tile_raw_h(t: Tile) -> int {
    let m = t.neighbors.spec_min_or_zero() as int;
    let raw = t.height - m + 1;
    if raw < 2 {
        2
    } else {
        raw
    }
}

/// Half-units of height a tile's stack must fill.
pub open spec fn tile_dh(t: Tile, o: GenOptions) -> int {
    let d0 = tile_raw_h(t) * o.scale / 2;
    let d1 = if d0 < 2 {
        2
    } else {
        d0
    };
    if o.snap {
        d1 + 4 - d1 % 4
    } else {
        d1
    }
}

/// All bricks a single tile contributes: none when dormant or culled.
pub open spec fn spec_tile_bricks(t: Tile, o: GenOptions) -> Seq<Brick> {
    if !(t.parent is None) || culled(t, o) {
        Seq::empty()
    } else {
        spec_stack(t, o, tile_dh(t, o), tile_z(t, o))
    }
}

/// The bricks of the first `n` grid slots, in slot order.
pub open spec fn spec_emit_to(tiles: Seq<Tile>, o: GenOptions, n: int) -> Seq<Brick>
    decreases n,
{
    if n <= 0 {
        Seq::empty()
    } else {
        spec_emit_to(tiles, o, n - 1) + spec_tile_bricks(tiles[n - 1], o)
    }
}

/// The full emitted brick list of a grid.
pub open spec fn spec_emit(tiles: Seq<Tile>, o: GenOptions) -> Seq<Brick> {
    spec_emit_to(tiles, o, tiles.len() as int)
}

impl QuadTree {
    /// No live tile's scaled height can overflow the output coordinates.
    pub open spec fn heights_ok(&self, scale: int) -> bool {
        forall|i: int|
            0 <= i < self.tiles@.len() && (#[trigger] self.tiles@[i]).parent is None
                ==> (self.tiles@[i].height + 1) * scale + 4 <= i32::MAX
    }

    /// The scaled grid fits the output coordinate range.
    pub open spec fn coords_ok(&self, stride: int) -> bool {
        &&& 2 * self.width * stride + 500 <= i32::MAX
        &&& 2 * self.height * stride + 500 <= i32::MAX
    }

    /// Convert the grid into bricks: every live tile that survives culling
    /// emits a stack of bricks, in grid order.
    pub fn into_bricks(&self, options: GenOptions) -> (r: Vec<Brick>)
        requires
            self.wf(),
            options.valid(),
            self.footprint_ok(options.size as int),
            self.heights_ok(options.scale as int),
            self.coords_ok(options.size as int),
        ensures
            r@ == spec_emit(self.tiles@, options),
    {
        let ghost o = options;
        let ghost wd = self.width as int;
        let ghost hd = self.height as int;
        let ghost len = self.tiles@.len() as int;
        let mut out: Vec<Brick> = Vec::new();
        let mut i: usize = 0;
        while i < self.tiles.len()
            invariant
                self.wf(),
                options.valid(),
                self.footprint_ok(options.size as int),
                self.heights_ok(options.scale as int),
                self.coords_ok(options.size as int),
                o == options,
                wd == self.width as int,
                hd == self.height as int,
                len == self.tiles@.len() as int,
                i <= len,
                out@ == spec_emit_to(self.tiles@, o, i as int),
            decreases len - i,
        {
            let t = &self.tiles[i];
            let ghost tv = self.tiles@[i as int];
            let live = t.parent.is_none();
            let keep = live && !(options.cull && (t.height == 0 || t.color[3] == 0));
            if keep {
                proof {
                    assert((tv.height + 1) * options.scale + 4 <= i32::MAX);
                    assert(tv.height * options.scale + options.scale + 4 <= i32::MAX
                        && options.scale * tv.height == tv.height * options.scale) by (
                    nonlinear_arith)
                        requires
                            (tv.height + 1) * options.scale + 4 <= i32::MAX,
                            0 <= tv.height,
                            1 <= options.scale,
                    ;
                }
                let z0 = (options.scale as u64) * (t.height as u64);
                let mut z: i32 = z0 as i32;
                let mn = t.neighbors.min_or_zero();
                let raw0 = t.height as i64 - mn as i64 + 1;
                let raw: i64 = if raw0 < 2 {
                    2
                } else {
                    raw0
                };
                proof {
                    assert(raw <= tv.height + 2);
                    assert(raw * options.scale <= (tv.height + 2) * options.scale && (tv.height + 2)
                        * options.scale == (tv.height + 1) * options.scale + options.scale) by (
                    nonlinear_arith)
                        requires
                            2 <= raw <= tv.height + 2,
                            1 <= options.scale,
                    ;
                }
                let d0 = raw * (options.scale as i64) / 2;
                let mut desired: i32 = if d0 < 2 {
                    2
                } else {
                    d0 as i32
                };
                if options.snap {
                    z = z + (4 - z % 4);
                    desired = desired + (4 - desired % 4);
                }
                proof {
                    assert(z as int == tile_z(tv, o));
                    assert(desired as int == tile_dh(tv, o));
                    let rs = (raw as int) * (options.scale as int);
                    assert(2 <= rs && rs <= tv.height * options.scale + 2 * options.scale) by (
                    nonlinear_arith)
                        requires
                            2 <= raw <= tv.height + 2,
                            1 <= options.scale,
                            0 <= tv.height,
                            rs == (raw as int) * (options.scale as int),
                    ;
                    assert(2 * (rs / 2) <= rs);
                    assert(2 * desired <= rs + 12);
                    assert(z as int >= tv.height * options.scale);
                    assert(z as int - 2 * desired >= -2 * (o.scale as int) - 12);
                }
                let ghost dh0 = desired as int;
                let ghost zz0 = z as int;
                let ghost out_before = out@;
                while desired > 0
                    invariant
                        self.wf(),
                        options.valid(),
                        self.footprint_ok(options.size as int),
                        self.coords_ok(options.size as int),
                        o == options,
                        i < len,
                        len == self.tiles@.len() as int,
                        wd == self.width as int,
                        hd == self.height as int,
                        tv == self.tiles@[i as int],
                        *t == tv,
                        tv.parent is None,
                        z as int - 2 * desired >= -2 * (o.scale as int) - 12,
                        z <= zz0,
                        out_before + spec_stack(tv, o, dh0, zz0) == out@ + spec_stack(
                            tv,
                            o,
                            desired as int,
                            z as int,
                        ),
                    decreases (if desired >= 0 {
                        desired as int
                    } else {
                        0
                    }),
                {
                    let step: i32 = if options.stud {
                        5
                    } else {
                        2
                    };
                    let h0: i32 = if desired < step {
                        step
                    } else if desired > 250 {
                        250
                    } else {
                        desired
                    };
                    let h: i32 = h0 + h0 % step;
                    proof {
                        assert(h as int == slice_of(desired as int, o.stud));
                        assert(2 <= h <= 254);
                        assert(tv.size.0 * options.size <= 500 && tv.size.1 * options.size <= 500);
                        assert(tv.center.0 + tv.size.0 <= wd && tv.center.1 + tv.size.1 <= hd);
                        assert((2 * tv.center.0 + tv.size.0) * options.size <= 2 * wd
                            * options.size + 500) by (nonlinear_arith)
                            requires
                                0 <= tv.center.0,
                                0 <= tv.size.0,
                                tv.center.0 + tv.size.0 <= wd,
                                tv.size.0 * options.size <= 500,
                                0 <= options.size,
                        ;
                        assert((2 * tv.center.1 + tv.size.1) * options.size <= 2 * hd
                            * options.size + 500) by (nonlinear_arith)
                            requires
                                0 <= tv.center.1,
                                0 <= tv.size.1,
                                tv.center.1 + tv.size.1 <= hd,
                                tv.size.1 * options.size <= 500,
                                0 <= options.size,
                        ;
                        assert(0 <= (2 * tv.center.0 + tv.size.0) * options.size) by (
                        nonlinear_arith)
                            requires
                                0 <= tv.center.0,
                                1 <= tv.size.0,
                                1 <= options.size,
                        ;
                        assert(0 <= (2 * tv.center.1 + tv.size.1) * options.size) by (
                        nonlinear_arith)
                            requires
                                0 <= tv.center.1,
                                1 <= tv.size.1,
                                1 <= options.size,
                        ;
                    }
                    proof {
                        assert(tv.size.0 * options.size <= 0xFFFFFFFF * 0xFFFF && tv.size.1
                            * options.size <= 0xFFFFFFFF * 0xFFFF && 0 <= tv.size.0 * options.size
                            && 0 <= tv.size.1 * options.size) by (nonlinear_arith)
                            requires
                                0 <= tv.size.0 <= 0xFFFFFFFF,
                                0 <= tv.size.1 <= 0xFFFFFFFF,
                                0 <= options.size <= 0xFFFF,
                        ;
                        assert((2 * tv.center.0 + tv.size.0) * options.size
                            < 0x4000000000000000 && (2 * tv.center.1 + tv.size.1) * options.size
                            < 0x4000000000000000) by (nonlinear_arith)
                            requires
                                0 <= tv.center.0 <= 0xFFFFFFFF,
                                0 <= tv.center.1 <= 0xFFFFFFFF,
                                0 <= tv.size.0 <= 0xFFFFFFFF,
                                0 <= tv.size.1 <= 0xFFFFFFFF,
                                0 <= options.size <= 0xFFFF,
                        ;
                    }
                    let sx = ((t.size.0 as u64) * (options.size as u64)) as u16;
                    let sy = ((t.size.1 as u64) * (options.size as u64)) as u16;
                    let sz: u16 = if options.img && options.micro {
                        options.size
                    } else {
                        h as u16
                    };
                    let px = ((2 * (t.center.0 as i64) + t.size.0 as i64) * (options.size as i64))
                        as i32;
                    let py = ((2 * (t.center.1 as i64) + t.size.1 as i64) * (options.size as i64))
                        as i32;
                    let brick = Brick {
                        asset: options.asset,
                        size_x: sx,
                        size_y: sy,
                        size_z: sz,
                        pos_x: px,
                        pos_y: py,
                        pos_z: z - h + 2,
                        collide_player: !options.nocollide,
                        collide_weapon: !options.nocollide,
                        collide_interact: !options.nocollide,
                        r: t.color[0],
                        g: t.color[1],
                        b: t.color[2],
                        material: if options.glow {
                            Material::Glow
                        } else {
                            Material::Plastic
                        },
                    };
                    proof {
                        assert(brick == mk_brick(tv, o, h as int, z as int));
                        assert(spec_stack(tv, o, desired as int, z as int) == seq![
                            mk_brick(tv, o, h as int, z as int),
                        ] + spec_stack(tv, o, desired - h, z - 2 * h));
                    }
                    let ghost out_pre = out@;
                    out.push(brick);
                    proof {
                        assert(out@ == out_pre.push(brick));
                        assert(out_pre + (seq![brick] + spec_stack(tv, o, desired - h, z - 2 * h))
                            =~= out@ + spec_stack(tv, o, desired - h, z - 2 * h));
                    }
                    desired = desired - h;
                    z = z - 2 * h;
                }
                proof {
                    assert(spec_stack(tv, o, desired as int, z as int) =~= Seq::<Brick>::empty());
                    assert(out@ =~= out_before + spec_stack(tv, o, dh0, zz0));
                    assert(spec_tile_bricks(tv, o) == spec_stack(tv, o, dh0, zz0));
                    assert(spec_emit_to(self.tiles@, o, i + 1) == spec_emit_to(self.tiles@, o, i as int)
                        + spec_tile_bricks(tv, o));
                }
            } else {
                proof {
                    assert(spec_tile_bricks(tv, o) =~= Seq::<Brick>::empty());
                    assert(spec_emit_to(self.tiles@, o, i + 1) =~= spec_emit_to(
                        self.tiles@,
                        o,
                        i as int,
                    ) + spec_tile_bricks(tv, o));
                    assert(out@ =~= spec_emit_to(self.tiles@, o, i + 1));
                }
            }
            i = i + 1;
        }
        out
    }
}

} // verus!
