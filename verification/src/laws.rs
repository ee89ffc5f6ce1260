//! Properties of the emitted brick list, proved from the emitter's
//! specification and the grid invariants: what every brick looks like,
//! that footprints cover the non-culled pixels exactly once, that colours
//! come from the colormap, and how stacks add up.

use crate::emit::{
    mk_brick, slice_of, spec_emit, spec_emit_to, spec_stack, spec_tile_bricks, step_of, tile_dh,
    tile_z,
};
use crate::quad::{
    lemma_rect_nbrs_single, lemma_slot_center, rect_nbrs, slot_nbrs, QuadTree, Tile,
};
use crate::util::{Brick, GenOptions};
use vstd::prelude::*;

verus! {

/// Sum of the Z extents of a brick list.
pub open spec fn sum_z(s: Seq<Brick>) -> int
    decreases s.len(),
{
    if s.len() == 0 {
        0
    } else {
        s[0].size_z + sum_z(s.drop_first())
    }
}

/// Every brick of a stack carries the tile's footprint, colour, material
/// and collision flags, and a Z extent between 2 and 253 half-units (the
/// stride itself for cubic micro-brick images).
pub proof fn lemma_stack_fields(t: Tile, o: GenOptions, dh: int, z: int, k: int)
    requires
        0 <= k < spec_stack(t, o, dh, z).len(),
    ensures
        ({
            let b = spec_stack(t, o, dh, z)[k];
            &&& b.asset == o.asset
            &&& b.size_x == (t.size.0 * o.size) as u16
            &&& b.size_y == (t.size.1 * o.size) as u16
            &&& (if o.img && o.micro {
                b.size_z == o.size
            } else {
                2 <= b.size_z <= 253
            })
            &&& b.pos_x == ((2 * t.center.0 + t.size.0) * o.size) as i32
            &&& b.pos_y == ((2 * t.center.1 + t.size.1) * o.size) as i32
            &&& b.collide_player == !o.nocollide
            &&& b.collide_weapon == !o.nocollide
            &&& b.collide_interact == !o.nocollide
            &&& b.r == t.color[0]
            &&& b.g == t.color[1]
            &&& b.b == t.color[2]
        }),
    decreases (if dh > 0 {
        dh
    } else {
        0
    }),
{
    let h = slice_of(dh, o.stud);
    assert(2 <= h <= 253);
    if k == 0 {
        assert(spec_stack(t, o, dh, z)[0] == mk_brick(t, o, h, z));
    } else {
        lemma_stack_fields(t, o, dh - h, z - 2 * h, k - 1);
        assert(spec_stack(t, o, dh, z)[k] == spec_stack(t, o, dh - h, z - 2 * h)[k - 1]);
    }
}

/// Height stacking: when the wanted extent is a positive multiple of the
/// step, the stack's Z extents add up to it exactly (one brick per 250
/// half-units plus a final remainder brick).
pub proof fn lemma_stack_sum(t: Tile, o: GenOptions, dh: int, z: int)
    requires
        dh > 0,
        dh % step_of(o.stud) == 0,
        !(o.img && o.micro),
    ensures
        sum_z(spec_stack(t, o, dh, z)) == dh,
    decreases dh,
{
    let step = step_of(o.stud);
    let h = slice_of(dh, o.stud);
    let s = spec_stack(t, o, dh, z);
    if dh <= 250 {
        assert(h == dh);
        assert(s[0] == mk_brick(t, o, h, z));
        assert(s.drop_first() =~= spec_stack(t, o, 0, z - 2 * h));
        assert(sum_z(s.drop_first()) == 0);
        assert(s[0].size_z == (dh as u16));
    } else {
        assert(250int % step == 0);
        assert(h == 250);
        vstd::arithmetic::div_mod::lemma_mod_sub_multiples_vanish(dh, step);
        assert((dh - step) % step == dh % step);
        assert((dh - 250) % step == 0) by {
            if o.stud {
                assert((dh - 250) % 5 == dh % 5) by (nonlinear_arith)
                    requires
                        dh > 250,
                ;
            } else {
                assert((dh - 250) % 2 == dh % 2) by (nonlinear_arith)
                    requires
                        dh > 250,
                ;
            }
        }
        lemma_stack_sum(t, o, dh - 250, z - 500);
        assert(s[0] == mk_brick(t, o, 250, z));
        assert(s.drop_first() =~= spec_stack(t, o, dh - 250, z - 500));
    }
}

/// A stack's length depends only on the extent to fill, not on the tile,
/// the options' looks, or the starting Z.
pub proof fn lemma_stack_len(t1: Tile, o1: GenOptions, z1: int, t2: Tile, o2: GenOptions, z2: int, dh: int)
    requires
        o1.stud == o2.stud,
    ensures
        spec_stack(t1, o1, dh, z1).len() == spec_stack(t2, o2, dh, z2).len(),
    decreases (if dh > 0 {
        dh
    } else {
        0
    }),
{
    if dh > 0 {
        let h = slice_of(dh, o1.stud);
        lemma_stack_len(t1, o1, z1 - 2 * h, t2, o2, z2 - 2 * h, dh - h);
    }
}

/// Monotone compression, stack level: a taller wanted extent never takes
/// fewer bricks.
pub proof fn lemma_stack_len_mono(t: Tile, o: GenOptions, z: int, dh1: int, dh2: int)
    requires
        dh1 <= dh2,
    ensures
        spec_stack(t, o, dh1, z).len() <= spec_stack(t, o, dh2, z).len(),
    decreases (if dh2 > 0 {
        dh2
    } else {
        0
    }),
{
    if dh1 <= 0 {
    } else {
        let h1 = slice_of(dh1, o.stud);
        let h2 = slice_of(dh2, o.stud);
        if dh2 <= 250 {
            // Both stacks finish in one brick.
            assert(h1 >= dh1 && h2 >= dh2);
            assert(spec_stack(t, o, dh1 - h1, z - 2 * h1).len() == 0);
            assert(spec_stack(t, o, dh2 - h2, z - 2 * h2).len() == 0);
        } else {
            assert(h2 == 250);
            if dh1 <= 250 {
                assert(h1 >= dh1);
            } else {
                assert(h1 == 250);
            }
            assert(dh1 - h1 <= dh2 - 250);
            lemma_stack_len_mono(t, o, z - 2 * h1, dh1 - h1, dh2 - 250);
            lemma_stack_len(t, o, z - 2 * h1, t, o, z - 2 * 250, dh2 - 250);
        }
    }
}

/// Brick `b` is one of the bricks tile `t` emits.
pub open spec fn tile_has_brick(t: Tile, o: GenOptions, b: Brick) -> bool {
    exists|k: int| 0 <= k < spec_tile_bricks(t, o).len() && spec_tile_bricks(t, o)[k] == b
}

/// Every emitted brick comes from a live, non-culled tile.
pub proof fn lemma_emit_source(tiles: Seq<Tile>, o: GenOptions, n: int, j: int)
    requires
        0 <= n <= tiles.len(),
        0 <= j < spec_emit_to(tiles, o, n).len(),
    ensures
        exists|i: int|
            0 <= i < n && (#[trigger] tiles[i]).parent is None && !crate::emit::culled(tiles[i], o)
                && tile_has_brick(tiles[i], o, spec_emit_to(tiles, o, n)[j]),
    decreases n,
{
    let prefix = spec_emit_to(tiles, o, n - 1);
    let block = spec_tile_bricks(tiles[n - 1], o);
    if j < prefix.len() {
        lemma_emit_source(tiles, o, n - 1, j);
        let i = choose|i: int|
            0 <= i < n - 1 && (#[trigger] tiles[i]).parent is None && !crate::emit::culled(
                tiles[i],
                o,
            ) && tile_has_brick(tiles[i], o, prefix[j]);
        assert(spec_emit_to(tiles, o, n)[j] == prefix[j]);
        assert(tiles[i].parent is None && !crate::emit::culled(tiles[i], o) && tile_has_brick(
            tiles[i],
            o,
            spec_emit_to(tiles, o, n)[j],
        ));
    } else {
        let k = j - prefix.len();
        assert(spec_emit_to(tiles, o, n)[j] == block[k]);
        assert(block.len() > 0);
        assert(tiles[n - 1].parent is None && !crate::emit::culled(tiles[n - 1], o));
        assert(tile_has_brick(tiles[n - 1], o, block[k]));
    }
}

/// Every brick a live, non-culled tile emits appears in the emitted list.
pub proof fn lemma_emit_contains(tiles: Seq<Tile>, o: GenOptions, n: int, i: int, k: int)
    requires
        0 <= i < n <= tiles.len(),
        0 <= k < spec_tile_bricks(tiles[i], o).len(),
    ensures
        exists|j: int|
            0 <= j < spec_emit_to(tiles, o, n).len() && #[trigger] spec_emit_to(tiles, o, n)[j]
                == spec_tile_bricks(tiles[i], o)[k],
    decreases n,
{
    let prefix = spec_emit_to(tiles, o, n - 1);
    if i < n - 1 {
        lemma_emit_contains(tiles, o, n - 1, i, k);
        let j = choose|j: int|
            0 <= j < prefix.len() && #[trigger] prefix[j] == spec_tile_bricks(tiles[i], o)[k];
        assert(spec_emit_to(tiles, o, n)[j] == spec_tile_bricks(tiles[i], o)[k]);
    } else {
        let j = prefix.len() + k;
        assert(spec_emit_to(tiles, o, n)[j] == spec_tile_bricks(tiles[i], o)[k]);
    }
}

/// Two distinct live tiles are separated along at least one axis.
pub proof fn lemma_live_disjoint(g: &QuadTree, i: int, j: int)
    requires
        g.wf(),
        0 <= i < g.tiles@.len(),
        0 <= j < g.tiles@.len(),
        i != j,
        g.tiles@[i].parent is None,
        g.tiles@[j].parent is None,
    ensures
        ({
            let a = g.tiles@[i];
            let b = g.tiles@[j];
            ||| a.center.0 + a.size.0 <= b.center.0
            ||| b.center.0 + b.size.0 <= a.center.0
            ||| a.center.1 + a.size.1 <= b.center.1
            ||| b.center.1 + b.size.1 <= a.center.1
        }),
{
    let a = g.tiles@[i];
    let b = g.tiles@[j];
    if a.center.0 + a.size.0 > b.center.0 && b.center.0 + b.size.0 > a.center.0 && a.center.1
        + a.size.1 > b.center.1 && b.center.1 + b.size.1 > a.center.1 {
        let px = if a.center.0 >= b.center.0 {
            a.center.0 as int
        } else {
            b.center.0 as int
        };
        let py = if a.center.1 >= b.center.1 {
            a.center.1 as int
        } else {
            b.center.1 as int
        };
        assert(g.covers(i, px, py));
        assert(g.covers(j, px, py));
    }
}

/// Non-overlap: two emitted bricks either share their whole footprint
/// (successive slices of one tile's stack) or their footprints are disjoint
/// along an axis.
pub proof fn lemma_emit_nonoverlap(g: &QuadTree, o: GenOptions, j1: int, j2: int)
    requires
        g.wf(),
        o.valid(),
        g.footprint_ok(o.size as int),
        g.coords_ok(o.size as int),
        0 <= j1 < spec_emit(g.tiles@, o).len(),
        0 <= j2 < spec_emit(g.tiles@, o).len(),
    ensures
        ({
            let a = spec_emit(g.tiles@, o)[j1];
            let b = spec_emit(g.tiles@, o)[j2];
            ||| (a.pos_x == b.pos_x && a.pos_y == b.pos_y && a.size_x == b.size_x && a.size_y
                == b.size_y)
            ||| a.pos_x + a.size_x <= b.pos_x - b.size_x
            ||| b.pos_x + b.size_x <= a.pos_x - a.size_x
            ||| a.pos_y + a.size_y <= b.pos_y - b.size_y
            ||| b.pos_y + b.size_y <= a.pos_y - a.size_y
        }),
{
    let tiles = g.tiles@;
    let n = tiles.len() as int;
    let a = spec_emit(tiles, o)[j1];
    let b = spec_emit(tiles, o)[j2];
    lemma_emit_source(tiles, o, n, j1);
    lemma_emit_source(tiles, o, n, j2);
    let i1 = choose|i: int|
        0 <= i < n && (#[trigger] tiles[i]).parent is None && !crate::emit::culled(tiles[i], o)
            && tile_has_brick(tiles[i], o, a);
    let i2 = choose|i: int|
        0 <= i < n && (#[trigger] tiles[i]).parent is None && !crate::emit::culled(tiles[i], o)
            && tile_has_brick(tiles[i], o, b);
    let k1 = choose|k: int|
        0 <= k < spec_tile_bricks(tiles[i1], o).len() && spec_tile_bricks(tiles[i1], o)[k] == a;
    let k2 = choose|k: int|
        0 <= k < spec_tile_bricks(tiles[i2], o).len() && spec_tile_bricks(tiles[i2], o)[k] == b;
    lemma_stack_fields(tiles[i1], o, tile_dh(tiles[i1], o), tile_z(tiles[i1], o), k1);
    lemma_stack_fields(tiles[i2], o, tile_dh(tiles[i2], o), tile_z(tiles[i2], o), k2);
    lemma_brick_coords(g, o, i1);
    lemma_brick_coords(g, o, i2);
    if i1 == i2 {
    } else {
        lemma_live_disjoint(g, i1, i2);
        let t1 = tiles[i1];
        let t2 = tiles[i2];
        let s = o.size as int;
        if t1.center.0 + t1.size.0 <= t2.center.0 {
            assert(2 * (t1.center.0 + t1.size.0) * s <= 2 * t2.center.0 * s) by (nonlinear_arith)
                requires
                    t1.center.0 + t1.size.0 <= t2.center.0,
                    0 <= s,
            ;
            assert((2 * t1.center.0 + t1.size.0) * s + t1.size.0 * s == 2 * (t1.center.0
                + t1.size.0) * s) by (nonlinear_arith);
            assert((2 * t2.center.0 + t2.size.0) * s - t2.size.0 * s == 2 * t2.center.0 * s) by (
            nonlinear_arith);
        } else if t2.center.0 + t2.size.0 <= t1.center.0 {
            assert(2 * (t2.center.0 + t2.size.0) * s <= 2 * t1.center.0 * s) by (nonlinear_arith)
                requires
                    t2.center.0 + t2.size.0 <= t1.center.0,
                    0 <= s,
            ;
            assert((2 * t2.center.0 + t2.size.0) * s + t2.size.0 * s == 2 * (t2.center.0
                + t2.size.0) * s) by (nonlinear_arith);
            assert((2 * t1.center.0 + t1.size.0) * s - t1.size.0 * s == 2 * t1.center.0 * s) by (
            nonlinear_arith);
        } else if t1.center.1 + t1.size.1 <= t2.center.1 {
            assert(2 * (t1.center.1 + t1.size.1) * s <= 2 * t2.center.1 * s) by (nonlinear_arith)
                requires
                    t1.center.1 + t1.size.1 <= t2.center.1,
                    0 <= s,
            ;
            assert((2 * t1.center.1 + t1.size.1) * s + t1.size.1 * s == 2 * (t1.center.1
                + t1.size.1) * s) by (nonlinear_arith);
            assert((2 * t2.center.1 + t2.size.1) * s - t2.size.1 * s == 2 * t2.center.1 * s) by (
            nonlinear_arith);
        } else {
            assert(2 * (t2.center.1 + t2.size.1) * s <= 2 * t1.center.1 * s) by (nonlinear_arith)
                requires
                    t2.center.1 + t2.size.1 <= t1.center.1,
                    0 <= s,
            ;
            assert((2 * t2.center.1 + t2.size.1) * s + t2.size.1 * s == 2 * (t2.center.1
                + t2.size.1) * s) by (nonlinear_arith);
            assert((2 * t1.center.1 + t1.size.1) * s - t1.size.1 * s == 2 * t1.center.1 * s) by (
            nonlinear_arith);
        }
    }
}

/// The scaled coordinates of a live tile's bricks fit the output range, so
/// the casts in the brick formulas change nothing.
pub proof fn lemma_brick_coords(g: &QuadTree, o: GenOptions, i: int)
    requires
        g.wf(),
        o.valid(),
        g.footprint_ok(o.size as int),
        g.coords_ok(o.size as int),
        0 <= i < g.tiles@.len(),
        g.tiles@[i].parent is None,
    ensures
        ({
            let t = g.tiles@[i];
            let s = o.size as int;
            &&& o.size <= t.size.0 * s <= 500
            &&& o.size <= t.size.1 * s <= 500
            &&& ((t.size.0 * o.size) as u16) == t.size.0 * s
            &&& ((t.size.1 * o.size) as u16) == t.size.1 * s
            &&& 0 <= (2 * t.center.0 + t.size.0) * s <= i32::MAX
            &&& 0 <= (2 * t.center.1 + t.size.1) * s <= i32::MAX
            &&& (((2 * t.center.0 + t.size.0) * o.size) as i32) == (2 * t.center.0 + t.size.0) * s
            &&& (((2 * t.center.1 + t.size.1) * o.size) as i32) == (2 * t.center.1 + t.size.1) * s
        }),
{
    let t = g.tiles@[i];
    let s = o.size as int;
    assert(t.size.0 * s <= 500 && t.size.1 * s <= 500);
    assert(s <= t.size.0 * s && s <= t.size.1 * s) by (nonlinear_arith)
        requires
            1 <= t.size.0,
            1 <= t.size.1,
            0 <= s,
    ;
    assert((2 * t.center.0 + t.size.0) * s <= 2 * g.width * s + 500 && 0 <= (2 * t.center.0
        + t.size.0) * s) by (nonlinear_arith)
        requires
            0 <= t.center.0,
            1 <= t.size.0,
            t.center.0 + t.size.0 <= g.width,
            t.size.0 * s <= 500,
            1 <= s,
    ;
    assert((2 * t.center.1 + t.size.1) * s <= 2 * g.height * s + 500 && 0 <= (2 * t.center.1
        + t.size.1) * s) by (nonlinear_arith)
        requires
            0 <= t.center.1,
            1 <= t.size.1,
            t.center.1 + t.size.1 <= g.height,
            t.size.1 * s <= 500,
            1 <= s,
    ;
}

/// Coverage: every in-bounds pixel that the cull option keeps lies under
/// the footprint of some emitted brick.
pub proof fn lemma_emit_coverage(g: &QuadTree, o: GenOptions, px: int, py: int)
    requires
        g.wf(),
        o.valid(),
        g.footprint_ok(o.size as int),
        g.coords_ok(o.size as int),
        0 <= px < g.width,
        0 <= py < g.height,
        !(o.cull && (g.ph(px, py) == 0 || g.pc(px, py)[3] == 0)),
    ensures
        exists|j: int|
            0 <= j < spec_emit(g.tiles@, o).len() && ({
                let b = #[trigger] spec_emit(g.tiles@, o)[j];
                &&& b.pos_x - b.size_x <= 2 * px * o.size
                &&& 2 * (px + 1) * o.size <= b.pos_x + b.size_x
                &&& b.pos_y - b.size_y <= 2 * py * o.size
                &&& 2 * (py + 1) * o.size <= b.pos_y + b.size_y
            }),
{
    let tiles = g.tiles@;
    let n = tiles.len() as int;
    let s = o.size as int;
    assert(g.pixel_covered(px, py));
    let i = choose|i: int| g.covers(i, px, py);
    let t = tiles[i];
    assert(g.ph(px, py) == t.height && g.pc(px, py) == t.color);
    assert(!crate::emit::culled(t, o));
    assert(tile_dh(t, o) >= 2);
    assert(spec_tile_bricks(t, o).len() >= 1);
    lemma_emit_contains(tiles, o, n, i, 0);
    let j = choose|j: int|
        0 <= j < spec_emit_to(tiles, o, n).len() && #[trigger] spec_emit_to(tiles, o, n)[j]
            == spec_tile_bricks(t, o)[0];
    lemma_stack_fields(t, o, tile_dh(t, o), tile_z(t, o), 0);
    lemma_brick_coords(g, o, i);
    let b = spec_emit(tiles, o)[j];
    assert((2 * t.center.0 + t.size.0) * s - t.size.0 * s == 2 * t.center.0 * s && (2 * t.center.0
        + t.size.0) * s + t.size.0 * s == 2 * (t.center.0 + t.size.0) * s) by (nonlinear_arith);
    assert((2 * t.center.1 + t.size.1) * s - t.size.1 * s == 2 * t.center.1 * s && (2 * t.center.1
        + t.size.1) * s + t.size.1 * s == 2 * (t.center.1 + t.size.1) * s) by (nonlinear_arith);
    assert(2 * t.center.0 * s <= 2 * px * s && 2 * (px + 1) * s <= 2 * (t.center.0 + t.size.0)
        * s) by (nonlinear_arith)
        requires
            t.center.0 <= px < t.center.0 + t.size.0,
            0 <= s,
    ;
    assert(2 * t.center.1 * s <= 2 * py * s && 2 * (py + 1) * s <= 2 * (t.center.1 + t.size.1)
        * s) by (nonlinear_arith)
        requires
            t.center.1 <= py < t.center.1 + t.size.1,
            0 <= s,
    ;
}

/// Colour fidelity: every emitted brick's RGB equals the colormap at the
/// top-left original pixel of the tile it came from, whose scaled corner
/// the brick's position encodes.
pub proof fn lemma_emit_color(g: &QuadTree, o: GenOptions, j: int)
    requires
        g.wf(),
        o.valid(),
        g.footprint_ok(o.size as int),
        g.coords_ok(o.size as int),
        0 <= j < spec_emit(g.tiles@, o).len(),
    ensures
        exists|x: int, y: int|
            0 <= x < g.width && 0 <= y < g.height && ({
                let b = spec_emit(g.tiles@, o)[j];
                let c = #[trigger] g.pc(x, y);
                &&& b.r == c[0]
                &&& b.g == c[1]
                &&& b.b == c[2]
                &&& b.pos_x - b.size_x == 2 * x * o.size
                &&& b.pos_y - b.size_y == 2 * y * o.size
            }),
{
    let tiles = g.tiles@;
    let n = tiles.len() as int;
    let s = o.size as int;
    lemma_emit_source(tiles, o, n, j);
    let i = choose|i: int|
        0 <= i < n && (#[trigger] tiles[i]).parent is None && !crate::emit::culled(tiles[i], o)
            && tile_has_brick(tiles[i], o, spec_emit(tiles, o)[j]);
    let t = tiles[i];
    let k = choose|k: int|
        0 <= k < spec_tile_bricks(t, o).len() && spec_tile_bricks(t, o)[k] == spec_emit(
            tiles,
            o,
        )[j];
    lemma_stack_fields(t, o, tile_dh(t, o), tile_z(t, o), k);
    lemma_brick_coords(g, o, i);
    let x = t.center.0 as int;
    let y = t.center.1 as int;
    assert(g.covers(i, x, y));
    assert(g.pc(x, y) == t.color);
    assert((2 * t.center.0 + t.size.0) * s == 2 * t.center.0 * s + t.size.0 * s) by (
    nonlinear_arith);
    assert((2 * t.center.1 + t.size.1) * s == 2 * t.center.1 * s + t.size.1 * s) by (
    nonlinear_arith);
    assert(0 <= x < g.width && 0 <= y < g.height && ({
        let b = spec_emit(g.tiles@, o)[j];
        let c = g.pc(x, y);
        &&& b.r == c[0]
        &&& b.g == c[1]
        &&& b.b == c[2]
        &&& b.pos_x - b.size_x == 2 * x * o.size
        &&& b.pos_y - b.size_y == 2 * y * o.size
    }));
}

/// A live tile that survives culling emits at least one brick.
pub proof fn lemma_tile_emits(t: Tile, o: GenOptions)
    requires
        t.parent is None,
        !crate::emit::culled(t, o),
    ensures
        spec_tile_bricks(t, o).len() >= 1,
{
    assert(tile_dh(t, o) >= 2);
}

/// Monotone compression, tile level: a merged tile emits exactly as many
/// bricks as the one of its pixels whose neighbourhood attains the tile's
/// lowest recorded neighbour height — so merging never adds bricks over
/// emitting that pixel alone, and every other absorbed pixel would have
/// added at least one more.
pub proof fn lemma_tile_stack_matches_pixel(g: &QuadTree, g0: &QuadTree, o: GenOptions, i: int)
    requires
        g.wf(),
        g0.wf(),
        g0.width == g.width,
        g0.height == g.height,
        g0.hmap == g.hmap,
        g0.cmap == g.cmap,
        forall|k: int|
            0 <= k < g0.tiles@.len() ==> (#[trigger] g0.tiles@[k]).parent is None
                && g0.tiles@[k].size == (1u32, 1u32),
        0 <= i < g.tiles@.len(),
        g.tiles@[i].parent is None,
    ensures
        exists|px: int, py: int|
            ({
                let t = g.tiles@[i];
                &&& t.center.0 <= px < t.center.0 + t.size.0
                &&& t.center.1 <= py < t.center.1 + t.size.1
                &&& spec_tile_bricks(t, o).len() == spec_tile_bricks(
                    g0.tiles@[#[trigger] g0.spec_index(px, py)],
                    o,
                ).len()
            }),
{
    let t = g.tiles@[i];
    let wd = g.width as int;
    let hd = g.height as int;
    let cx = t.center.0 as int;
    let cy = t.center.1 as int;
    let m = t.neighbors.spec_min_or_zero();
    t.neighbors.lemma_min_or_zero();
    assert(t.neighbors@ == rect_nbrs(g.hmap@, wd, hd, cx, cy, t.size.0 as int, t.size.1 as int));
    let (px, py): (int, int) = if t.neighbors@.is_empty() {
        (cx, cy)
    } else {
        assert(t.neighbors@.contains(m));
        choose|px: int, py: int|
            cx <= px < cx + t.size.0 && cy <= py < cy + t.size.1 && #[trigger] slot_nbrs(
                g.hmap@,
                wd,
                hd,
                px,
                py,
            ).contains(m)
    };
    assert(cx <= px < cx + t.size.0 && cy <= py < cy + t.size.1);
    lemma_slot_center(g0, px, py);
    let ui = g0.spec_index(px, py);
    let u = g0.tiles@[ui];
    assert(u.parent is None && u.size == (1u32, 1u32));
    assert(u.center.0 == px && u.center.1 == py);
    assert(u.neighbors@ == rect_nbrs(g0.hmap@, wd, hd, px, py, 1, 1));
    lemma_rect_nbrs_single(g0.hmap@, wd, hd, px, py);
    assert(u.neighbors@ == slot_nbrs(g.hmap@, wd, hd, px, py));
    u.neighbors.lemma_min_or_zero();
    // The pixel's neighbour heights are among the tile's.
    assert forall|v: u32| u.neighbors@.contains(v) implies t.neighbors@.contains(v) by {
        assert(cx <= px < cx + t.size.0 && cy <= py < cy + t.size.1 && slot_nbrs(
            g.hmap@,
            wd,
            hd,
            px,
            py,
        ).contains(v));
    }
    // Same lowest neighbour height (or none at all on either side).
    if t.neighbors@.is_empty() {
        if !u.neighbors@.is_empty() {
            let v = choose|v: u32| u.neighbors@.contains(v);
            assert(t.neighbors@.contains(v));
        }
        assert(u.neighbors@.is_empty());
        assert(t.neighbors.spec_min_or_zero() == 0 && u.neighbors.spec_min_or_zero() == 0);
    } else {
        assert(u.neighbors@.contains(m));
        assert(!u.neighbors@.is_empty());
        let mu = u.neighbors.spec_min_or_zero();
        assert(u.neighbors@.contains(mu));
        assert(t.neighbors@.contains(mu));
        assert(m <= mu);
        assert(mu <= m);
    }
    // Same height and colour, hence the same culling and wanted extent.
    assert(g.covers(i, px, py));
    assert(g0.covers(ui, px, py));
    assert(g.ph(px, py) == t.height && g.pc(px, py) == t.color);
    assert(g0.ph(px, py) == u.height && g0.pc(px, py) == u.color);
    assert(u.height == t.height && u.color == t.color);
    assert(crate::emit::culled(u, o) == crate::emit::culled(t, o));
    if crate::emit::culled(t, o) {
        assert(spec_tile_bricks(t, o).len() == 0 && spec_tile_bricks(u, o).len() == 0);
    } else {
        assert(t.neighbors.spec_min_or_zero() == u.neighbors.spec_min_or_zero());
        assert(tile_dh(t, o) == tile_dh(u, o));
        lemma_stack_len(t, o, tile_z(t, o), u, o, tile_z(u, o), tile_dh(t, o));
        assert(tile_z(t, o) == tile_z(u, o));
    }
    assert(spec_tile_bricks(t, o).len() == spec_tile_bricks(u, o).len());
}

/// Sum of a sequence of counts.
pub open spec fn sum_nat(s: Seq<nat>) -> nat
    decreases s.len(),
{
    if s.len() == 0 {
        0
    } else {
        sum_nat(s.drop_last()) + s.last()
    }
}

/// Updating one entry moves the sum by the difference.
pub proof fn lemma_sum_update(s: Seq<nat>, j: int, v: nat)
    requires
        0 <= j < s.len(),
    ensures
        sum_nat(s.update(j, v)) + s[j] == sum_nat(s) + v,
    decreases s.len(),
{
    if j == s.len() - 1 {
        assert(s.update(j, v).drop_last() =~= s.drop_last());
    } else {
        assert(s.update(j, v).drop_last() =~= s.drop_last().update(j, v));
        lemma_sum_update(s.drop_last(), j, v);
    }
}

/// Pointwise smaller counts give a smaller sum.
pub proof fn lemma_sum_pointwise_le(s1: Seq<nat>, s2: Seq<nat>)
    requires
        s1.len() == s2.len(),
        forall|j: int| 0 <= j < s1.len() ==> s1[j] <= s2[j],
    ensures
        sum_nat(s1) <= sum_nat(s2),
    decreases s1.len(),
{
    if s1.len() > 0 {
        lemma_sum_pointwise_le(s1.drop_last(), s2.drop_last());
    }
}

/// A sequence of zeros sums to zero.
pub proof fn lemma_sum_zero(s: Seq<nat>)
    requires
        forall|j: int| 0 <= j < s.len() ==> s[j] == 0,
    ensures
        sum_nat(s) == 0,
    decreases s.len(),
{
    if s.len() > 0 {
        lemma_sum_zero(s.drop_last());
    }
}

/// Total brick count of the first `n` grid slots.
pub open spec fn lens_to(tiles: Seq<Tile>, o: GenOptions, n: int) -> nat
    decreases n,
{
    if n <= 0 {
        0
    } else {
        lens_to(tiles, o, n - 1) + spec_tile_bricks(tiles[n - 1], o).len()
    }
}

/// The emitted list's length is the sum of the per-slot brick counts.
pub proof fn lemma_emit_len(tiles: Seq<Tile>, o: GenOptions, n: int)
    requires
        0 <= n <= tiles.len(),
    ensures
        spec_emit_to(tiles, o, n).len() == lens_to(tiles, o, n),
    decreases n,
{
    if n > 0 {
        lemma_emit_len(tiles, o, n - 1);
    }
}

/// The per-pixel brick counts of a fresh grid, slot by slot.
pub open spec fn fresh_lens(g0: &QuadTree, o: GenOptions) -> Seq<nat> {
    Seq::new(g0.tiles@.len(), |j: int| spec_tile_bricks(g0.tiles@[j], o).len())
}

/// `lens_to` over a whole grid equals the sum of its per-slot counts.
pub proof fn lemma_lens_to_sum(g0: &QuadTree, o: GenOptions, n: int)
    requires
        0 <= n <= g0.tiles@.len(),
    ensures
        sum_nat(fresh_lens(g0, o).subrange(0, n)) == lens_to(g0.tiles@, o, n),
    decreases n,
{
    if n > 0 {
        lemma_lens_to_sum(g0, o, n - 1);
        assert(fresh_lens(g0, o).subrange(0, n).drop_last() =~= fresh_lens(g0, o).subrange(
            0,
            n - 1,
        ));
    }
}

/// A fresh grid: every slot live, one pixel each.
pub open spec fn fresh_grid(g0: &QuadTree) -> bool {
    forall|k: int|
        0 <= k < g0.tiles@.len() ==> (#[trigger] g0.tiles@[k]).parent is None && g0.tiles@[k].size
            == (1u32, 1u32)
}

/// Distribute the brick counts of the first `n` tiles of a reduced grid
/// over the fresh grid's slots: each live tile books its whole count
/// against the one pixel that attains its lowest neighbour height.
proof fn build_mask(g: &QuadTree, g0: &QuadTree, o: GenOptions, n: int) -> (m: Seq<nat>)
    requires
        g.wf(),
        g0.wf(),
        g0.width == g.width,
        g0.height == g.height,
        g0.hmap == g.hmap,
        g0.cmap == g.cmap,
        fresh_grid(g0),
        0 <= n <= g.tiles@.len(),
    ensures
        m.len() == g0.tiles@.len(),
        forall|j: int| 0 <= j < m.len() ==> m[j] <= spec_tile_bricks(g0.tiles@[j], o).len(),
        forall|j: int|
            0 <= j < m.len() && m[j] != 0 ==> exists|i: int|
                0 <= i < n && #[trigger] g.covers(
                    i,
                    g0.tiles@[j].center.0 as int,
                    g0.tiles@[j].center.1 as int,
                ),
        sum_nat(m) == lens_to(g.tiles@, o, n),
    decreases n,
{
    let len0 = g0.tiles@.len() as int;
    if n <= 0 {
        let m = Seq::new(len0 as nat, |j: int| 0nat);
        lemma_sum_zero(m);
        m
    } else {
        let m0 = build_mask(g, g0, o, n - 1);
        let t = g.tiles@[n - 1];
        let a = spec_tile_bricks(t, o).len();
        if a == 0 {
            assert forall|j: int| 0 <= j < m0.len() && m0[j] != 0 implies exists|i: int|
                0 <= i < n && #[trigger] g.covers(
                    i,
                    g0.tiles@[j].center.0 as int,
                    g0.tiles@[j].center.1 as int,
                ) by {
                let i = choose|i: int|
                    0 <= i < n - 1 && #[trigger] g.covers(
                        i,
                        g0.tiles@[j].center.0 as int,
                        g0.tiles@[j].center.1 as int,
                    );
                assert(0 <= i < n);
            }
            m0
        } else {
            assert(t.parent is None);
            lemma_tile_stack_matches_pixel(g, g0, o, n - 1);
            let (px, py) = choose|px: int, py: int|
                {
                    &&& t.center.0 <= px < t.center.0 + t.size.0
                    &&& t.center.1 <= py < t.center.1 + t.size.1
                    &&& spec_tile_bricks(t, o).len() == spec_tile_bricks(
                        g0.tiles@[#[trigger] g0.spec_index(px, py)],
                        o,
                    ).len()
                };
            assert(0 <= px < g.width && 0 <= py < g.height);
            crate::quad::lemma_slot_center(g0, px, py);
            let j = g0.spec_index(px, py);
            assert(g.covers(n - 1, px, py));
            // No earlier tile booked this pixel: two bookings would mean
            // two live tiles covering it.
            if m0[j] != 0 {
                let i = choose|i: int|
                    0 <= i < n - 1 && #[trigger] g.covers(
                        i,
                        g0.tiles@[j].center.0 as int,
                        g0.tiles@[j].center.1 as int,
                    );
                assert(g.covers(i, px, py));
                assert(false);
            }
            let m = m0.update(j, a);
            lemma_sum_update(m0, j, a);
            assert forall|j2: int| 0 <= j2 < m.len() && m[j2] != 0 implies exists|i: int|
                0 <= i < n && #[trigger] g.covers(
                    i,
                    g0.tiles@[j2].center.0 as int,
                    g0.tiles@[j2].center.1 as int,
                ) by {
                if j2 == j {
                    assert(g.covers(
                        n - 1,
                        g0.tiles@[j].center.0 as int,
                        g0.tiles@[j].center.1 as int,
                    ));
                } else {
                    let i = choose|i: int|
                        0 <= i < n - 1 && #[trigger] g.covers(
                            i,
                            g0.tiles@[j2].center.0 as int,
                            g0.tiles@[j2].center.1 as int,
                        );
                    assert(0 <= i < n);
                }
            }
            m
        }
    }
}

/// Monotone compression: a reduced grid never emits more bricks than the
/// fresh one-tile-per-pixel grid over the same rasters.
pub proof fn lemma_monotone_compression(g: &QuadTree, g0: &QuadTree, o: GenOptions)
    requires
        g.wf(),
        g0.wf(),
        g0.width == g.width,
        g0.height == g.height,
        g0.hmap == g.hmap,
        g0.cmap == g.cmap,
        fresh_grid(g0),
        g.tiles@.len() == g0.tiles@.len(),
    ensures
        spec_emit(g.tiles@, o).len() <= spec_emit(g0.tiles@, o).len(),
{
    let n = g.tiles@.len() as int;
    let m = build_mask(g, g0, o, n);
    lemma_emit_len(g.tiles@, o, n);
    lemma_emit_len(g0.tiles@, o, n);
    lemma_lens_to_sum(g0, o, n);
    assert(fresh_lens(g0, o).subrange(0, n) =~= fresh_lens(g0, o));
    lemma_sum_pointwise_le(m, fresh_lens(g0, o));
}

/// The converse of coverage: a culled pixel lies under no emitted brick,
/// so the footprints cover exactly the non-culled pixels.
pub proof fn lemma_culled_uncovered(g: &QuadTree, o: GenOptions, px: int, py: int, j: int)
    requires
        g.wf(),
        o.valid(),
        g.footprint_ok(o.size as int),
        g.coords_ok(o.size as int),
        0 <= px < g.width,
        0 <= py < g.height,
        o.cull && (g.ph(px, py) == 0 || g.pc(px, py)[3] == 0),
        0 <= j < spec_emit(g.tiles@, o).len(),
    ensures
        ({
            let b = spec_emit(g.tiles@, o)[j];
            !(b.pos_x - b.size_x <= 2 * px * o.size && 2 * (px + 1) * o.size <= b.pos_x + b.size_x
                && b.pos_y - b.size_y <= 2 * py * o.size && 2 * (py + 1) * o.size <= b.pos_y
                + b.size_y)
        }),
{
    let tiles = g.tiles@;
    let n = tiles.len() as int;
    let s = o.size as int;
    let b = spec_emit(tiles, o)[j];
    lemma_emit_source(tiles, o, n, j);
    let i = choose|i: int|
        0 <= i < n && (#[trigger] tiles[i]).parent is None && !crate::emit::culled(tiles[i], o)
            && tile_has_brick(tiles[i], o, b);
    let t = tiles[i];
    let k = choose|k: int|
        0 <= k < spec_tile_bricks(t, o).len() && spec_tile_bricks(t, o)[k] == b;
    lemma_stack_fields(t, o, tile_dh(t, o), tile_z(t, o), k);
    lemma_brick_coords(g, o, i);
    if b.pos_x - b.size_x <= 2 * px * s && 2 * (px + 1) * s <= b.pos_x + b.size_x && b.pos_y
        - b.size_y <= 2 * py * s && 2 * (py + 1) * s <= b.pos_y + b.size_y {
        // The brick's footprint is the tile's rectangle, scaled; undo the
        // scaling to place the pixel inside the tile.
        assert((2 * t.center.0 + t.size.0) * s == 2 * t.center.0 * s + t.size.0 * s) by (
        nonlinear_arith);
        assert((2 * t.center.1 + t.size.1) * s == 2 * t.center.1 * s + t.size.1 * s) by (
        nonlinear_arith);
        assert(2 * (t.center.0 + t.size.0) * s == 2 * t.center.0 * s + 2 * (t.size.0 * s)) by (
        nonlinear_arith);
        assert(2 * (t.center.1 + t.size.1) * s == 2 * t.center.1 * s + 2 * (t.size.1 * s)) by (
        nonlinear_arith);
        assert(2 * t.center.0 * s <= 2 * px * s && 2 * (px + 1) * s <= 2 * (t.center.0 + t.size.0)
            * s);
        assert(t.center.0 <= px && px + 1 <= t.center.0 + t.size.0) by (nonlinear_arith)
            requires
                2 * t.center.0 * s <= 2 * px * s,
                2 * (px + 1) * s <= 2 * (t.center.0 + t.size.0) * s,
                1 <= s,
        ;
        assert(t.center.1 <= py && py + 1 <= t.center.1 + t.size.1) by (nonlinear_arith)
            requires
                2 * t.center.1 * s <= 2 * py * s,
                2 * (py + 1) * s <= 2 * (t.center.1 + t.size.1) * s,
                1 <= s,
        ;
        assert(g.covers(i, px, py));
        assert(g.ph(px, py) == t.height && g.pc(px, py) == t.color);
        assert(false);
    }
}

/// Height stacking at tile level: with `snap` set (and rectangular, non-stud
/// bricks), a tile's emitted Z extents add up exactly to its wanted extent.
pub proof fn lemma_tile_stack_sum(t: Tile, o: GenOptions)
    requires
        t.parent is None,
        !crate::emit::culled(t, o),
        o.snap,
        !o.stud,
        !(o.img && o.micro),
    ensures
        sum_z(spec_tile_bricks(t, o)) == tile_dh(t, o),
{
    let dh = tile_dh(t, o);
    assert(dh > 0 && dh % 4 == 0);
    assert(dh % 2 == 0) by (nonlinear_arith)
        requires
            dh % 4 == 0,
            dh > 0,
    ;
    lemma_stack_sum(t, o, dh, tile_z(t, o));
}

} // verus!
