//! The driver: initialise the grid, run the reducers to convergence, emit
//! bricks, with a cooperative progress/cancellation callback threaded
//! through.

use crate::emit::spec_emit;
use crate::map::{Colormap, Heightmap};
use crate::quad::{craster, hraster, lemma_live_count_strict, live_count, QuadTree};
use crate::util::{Brick, GenOptions};
use vstd::prelude::*;

verus! {

/// The only two error kinds that cross the boundary.
#[derive(Clone, Copy, PartialEq, Eq, Structural, Debug)]
pub enum GenError {
    /// Heightmap and colormap report different sizes.
    DimensionMismatch,
    /// The progress callback requested a stop.
    Cancelled,
}

/// A cooperative progress callback.  `report` is handed a progress value in
/// thousandths (0 to 1000); returning false requests cancellation.
pub trait ProgressSink {
    /// Whether the sink lets the run continue when handed this value.
    spec fn accepts(&self, permille: u32) -> bool;

    fn report(&self, permille: u32) -> (r: bool)
        ensures
            r == self.accepts(permille),
    ;
}

/// A sink that never cancels.
pub struct NoCancel {}

impl ProgressSink for NoCancel {
    open spec fn accepts(&self, permille: u32) -> bool {
        true
    }

    fn report(&self, _permille: u32) -> bool {
        true
    }
}

/// A sink that cancels as soon as progress reaches a threshold.
pub struct CancelAt {
    pub threshold: u32,
}

impl ProgressSink for CancelAt {
    open spec fn accepts(&self, permille: u32) -> bool {
        permille < self.threshold
    }

    fn report(&self, permille: u32) -> bool {
        permille < self.threshold
    }
}

/// What the reducer guarantees of the grid its bricks were emitted from: a
/// well-formed partition of the input rasters, within footprint budget, on
/// which a further line pass would change nothing.
pub open spec fn reduced_grid<HM: Heightmap, CM: Colormap>(
    g: QuadTree,
    heightmap: &HM,
    colormap: &CM,
    options: GenOptions,
) -> bool {
    &&& g.wf()
    &&& g.width == heightmap.spec_size().0
    &&& g.height == heightmap.spec_size().1
    &&& g.hmap@ == hraster(heightmap)
    &&& g.cmap@ == craster(colormap)
    &&& (forall|x: int, y: int|
        0 <= x < g.width && 0 <= y < g.height ==> #[trigger] g.ph(x, y) == heightmap.spec_at(x, y)
            && g.pc(x, y) == colormap.spec_at(x, y))
    &&& g.footprint_ok(options.size as int)
    &&& g.heights_ok(options.scale as int)
    &&& g.line_converged(options.size as int)
}

/// Convert a heightmap and a colormap into an optimised brick list: build
/// the tile grid, run the quad reducer level by level, run the line reducer
/// to convergence, then emit bricks — polling the progress sink throughout.
pub fn gen_opt_heightmap<HM: Heightmap, CM: Colormap, P: ProgressSink>(
    heightmap: &HM,
    colormap: &CM,
    options: GenOptions,
    progress: &P,
) -> (r: Result<Vec<Brick>, GenError>)
    requires
        heightmap.inv(),
        colormap.inv(),
        options.valid(),
        501 * heightmap.spec_size().0 * heightmap.spec_size().1 <= usize::MAX,
        2 * heightmap.spec_size().0 * options.size + 500 <= i32::MAX,
        2 * heightmap.spec_size().1 * options.size + 500 <= i32::MAX,
        forall|x: int, y: int|
            0 <= x < heightmap.spec_size().0 && 0 <= y < heightmap.spec_size().1 ==> (
            #[trigger] heightmap.spec_at(x, y) + 1) * options.scale + 4 <= i32::MAX,
    ensures
        r == Result::<Vec<Brick>, GenError>::Err(GenError::DimensionMismatch)
            ==> heightmap.spec_size() != colormap.spec_size(),
        r == Result::<Vec<Brick>, GenError>::Err(GenError::Cancelled) ==> exists|p: u32|
            p <= 1000 && !(#[trigger] progress.accepts(p)),
        !progress.accepts(0) ==> r == Result::<Vec<Brick>, GenError>::Err(GenError::Cancelled),
        heightmap.spec_size() == colormap.spec_size() && progress.accepts(0) && !progress.accepts(
            200,
        ) ==> r == Result::<Vec<Brick>, GenError>::Err(GenError::Cancelled),
        heightmap.spec_size() != colormap.spec_size() && progress.accepts(0) ==> r
            == Result::<Vec<Brick>, GenError>::Err(GenError::DimensionMismatch),
        heightmap.spec_size() == colormap.spec_size() && (forall|p: u32|
            p <= 1000 ==> #[trigger] progress.accepts(p)) ==> r is Ok,
        r is Ok ==> exists|g: QuadTree|
            #[trigger] reduced_grid(g, heightmap, colormap, options) && r->Ok_0@ == spec_emit(
                g.tiles@,
                options,
            ),
{
    let ghost wd = heightmap.spec_size().0 as int;
    let ghost hd = heightmap.spec_size().1 as int;
    if !progress.report(0) {
        proof {
            assert(!progress.accepts(0u32));
        }
        return Err(GenError::Cancelled);
    }
    proof {
        assert(wd * hd <= 501 * wd * hd) by (nonlinear_arith)
            requires
                0 <= wd,
                0 <= hd,
        ;
    }
    let mut quad = match QuadTree::new(heightmap, colormap) {
        Ok(q) => q,
        Err(_) => {
            return Err(GenError::DimensionMismatch);
        },
    };
    if !progress.report(200) {
        proof {
            assert(!progress.accepts(200u32));
        }
        return Err(GenError::Cancelled);
    }
    proof {
        assert(quad.heights_ok(options.scale as int));
        assert(quad.footprint_ok(options.size as int));
    }

    if options.quadtree {
        // Loop levels until the merged bricks would be too wide or a pass
        // stops merging.
        let mut level: u32 = 0;
        loop
            invariant_except_break
                heightmap.inv(),
                colormap.inv(),
                options.valid(),
                quad.wf(),
                quad.all_square(),
                quad.width == heightmap.spec_size().0,
                quad.height == heightmap.spec_size().1,
                wd == quad.width as int,
                hd == quad.height as int,
                501 * wd * hd <= usize::MAX,
                quad.hmap@ == hraster(heightmap),
                quad.cmap@ == craster(colormap),
                forall|x: int, y: int|
                    0 <= x < quad.width && 0 <= y < quad.height ==> #[trigger] quad.ph(x, y)
                        == heightmap.spec_at(x, y) && quad.pc(x, y) == colormap.spec_at(x, y),
                quad.footprint_ok(options.size as int),
                quad.heights_ok(options.scale as int),
                level <= 8,
                heightmap.spec_size() == colormap.spec_size(),
            ensures
                quad.wf(),
                quad.width == heightmap.spec_size().0,
                quad.height == heightmap.spec_size().1,
                quad.hmap@ == hraster(heightmap),
                quad.cmap@ == craster(colormap),
                forall|x: int, y: int|
                    0 <= x < quad.width && 0 <= y < quad.height ==> #[trigger] quad.ph(x, y)
                        == heightmap.spec_at(x, y) && quad.pc(x, y) == colormap.spec_at(x, y),
                quad.footprint_ok(options.size as int),
                quad.heights_ok(options.scale as int),
            decreases 9 - level,
        {
            let sp: u32 = 1u32 << level;
            proof {
                assert(1u32 <= (1u32 << level) && (1u32 << level) <= 256u32) by (bit_vector)
                    requires
                        level <= 8u32,
                ;
                assert((sp as int) * (options.size as int) <= 256 * 0xFFFF) by (nonlinear_arith)
                    requires
                        0 <= sp <= 256,
                        0 <= options.size <= 0xFFFF,
                ;
            }
            if (sp as u64) * (options.size as u64) >= 250 {
                break ;
            }
            proof {
                let gs = sp as int;
                assert(gs < 250) by (nonlinear_arith)
                    requires
                        gs * options.size < 250,
                        1 <= options.size,
                        0 <= gs,
                ;
                assert(level <= 7) by (bit_vector)
                    requires
                        (1u32 << level) < 250u32,
                        level <= 8,
                ;
            }
            if !progress.report(200 + 50 * level) {
                proof {
                    assert(!progress.accepts((200 + 50 * level) as u32));
                    assert(200 + 50 * level <= 1000);
                }
                return Err(GenError::Cancelled);
            }
            let ghost pre = quad;
            let count = quad.quad_optimize_level(level);
            proof {
                let gs = (1u32 << level) as int;
                assert forall|i: int|
                    0 <= i < quad.tiles@.len() && (#[trigger] quad.tiles@[i]).parent is None implies {
                    &&& quad.tiles@[i].size.0 * options.size <= 500
                    &&& quad.tiles@[i].size.1 * options.size <= 500
                } by {
                    if quad.tiles@[i].size == pre.tiles@[i].size {
                        assert(pre.tiles@[i].parent is None);
                    } else {
                        assert(quad.tiles@[i].size.0 == 2 * gs && quad.tiles@[i].size.1 == 2 * gs);
                        assert((2 * gs) * options.size < 500) by (nonlinear_arith)
                            requires
                                gs * (options.size as int) < 250,
                        ;
                    }
                }
                assert forall|i: int|
                    0 <= i < quad.tiles@.len() && (#[trigger] quad.tiles@[i]).parent is None implies (
                quad.tiles@[i].height + 1) * options.scale + 4 <= i32::MAX by {
                    assert(pre.tiles@[i].parent is None);
                    assert(quad.tiles@[i].height == pre.tiles@[i].height);
                }
                assert forall|x: int, y: int|
                    0 <= x < quad.width && 0 <= y < quad.height implies #[trigger] quad.ph(x, y)
                    == heightmap.spec_at(x, y) && quad.pc(x, y) == colormap.spec_at(x, y) by {
                    assert(quad.ph(x, y) == pre.ph(x, y) && quad.pc(x, y) == pre.pc(x, y));
                    assert(pre.ph(x, y) == heightmap.spec_at(x, y));
                }
            }
            if count == 0 {
                break ;
            }
            level = level + 1;
        }
        if !progress.report(700) {
            proof {
                assert(!progress.accepts(700u32));
            }
            return Err(GenError::Cancelled);
        }
    }
    let prog_base: u32 = if options.quadtree {
        700
    } else {
        200
    };
    let prog_step: u32 = if options.quadtree {
        50
    } else {
        150
    };
    let mut rounds: u32 = 0;
    loop
        invariant_except_break
            heightmap.inv(),
            colormap.inv(),
            options.valid(),
            quad.wf(),
            quad.width == heightmap.spec_size().0,
            quad.height == heightmap.spec_size().1,
            wd == quad.width as int,
            hd == quad.height as int,
            501 * wd * hd <= usize::MAX,
            quad.hmap@ == hraster(heightmap),
            quad.cmap@ == craster(colormap),
            forall|x: int, y: int|
                0 <= x < quad.width && 0 <= y < quad.height ==> #[trigger] quad.ph(x, y)
                    == heightmap.spec_at(x, y) && quad.pc(x, y) == colormap.spec_at(x, y),
            quad.footprint_ok(options.size as int),
            quad.heights_ok(options.scale as int),
            rounds <= 5,
            (prog_base == 700 && prog_step == 50) || (prog_base == 200 && prog_step == 150),
            heightmap.spec_size() == colormap.spec_size(),
            2 * heightmap.spec_size().0 * options.size + 500 <= i32::MAX,
            2 * heightmap.spec_size().1 * options.size + 500 <= i32::MAX,
        ensures
            quad.wf(),
            quad.width == heightmap.spec_size().0,
            quad.height == heightmap.spec_size().1,
            quad.hmap@ == hraster(heightmap),
            quad.cmap@ == craster(colormap),
            forall|x: int, y: int|
                0 <= x < quad.width && 0 <= y < quad.height ==> #[trigger] quad.ph(x, y)
                    == heightmap.spec_at(x, y) && quad.pc(x, y) == colormap.spec_at(x, y),
            quad.footprint_ok(options.size as int),
            quad.heights_ok(options.scale as int),
            quad.line_converged(options.size as int),
        decreases live_count(quad.tiles@),
    {
        let ghost pre = quad;
        let count = quad.line_optimize(options.size as u32);
        proof {
            assert forall|i: int|
                0 <= i < quad.tiles@.len() && (#[trigger] quad.tiles@[i]).parent is None implies {
                &&& quad.tiles@[i].size.0 * options.size <= 500
                &&& quad.tiles@[i].size.1 * options.size <= 500
                &&& (quad.tiles@[i].height + 1) * options.scale + 4 <= i32::MAX
            } by {
                assert(pre.tiles@[i].parent is None);
                assert(quad.tiles@[i].height == pre.tiles@[i].height);
            }
            assert forall|x: int, y: int|
                0 <= x < quad.width && 0 <= y < quad.height implies #[trigger] quad.ph(x, y)
                == heightmap.spec_at(x, y) && quad.pc(x, y) == colormap.spec_at(x, y) by {
                assert(quad.ph(x, y) == pre.ph(x, y) && quad.pc(x, y) == pre.pc(x, y));
                assert(pre.ph(x, y) == heightmap.spec_at(x, y));
            }
        }
        if rounds < 5 {
            rounds = rounds + 1;
        }
        if !progress.report(prog_base + prog_step * rounds) {
            proof {
                let p = (prog_base + prog_step * rounds) as u32;
                assert(p <= 1000);
                assert(!progress.accepts(p));
            }
            return Err(GenError::Cancelled);
        }
        if count == 0 {
            proof {
                assert(pre.tiles@ == quad.tiles@);
                assert(pre.line_converged(options.size as int));
                assert forall|i: int|
                    0 <= i < quad.tiles@.len() && quad.tiles@[i].parent is None implies !(
                #[trigger] quad.line_extendable(i, options.size as int)) by {
                    assert(!pre.line_extendable(i, options.size as int));
                    if quad.dir_extendable(i, options.size as int, false) {
                        assert(pre.dir_extendable(i, options.size as int, false));
                    }
                    if quad.dir_extendable(i, options.size as int, true) {
                        assert(pre.dir_extendable(i, options.size as int, true));
                    }
                }
            }
            break ;
        }
        proof {
            let w = choose|w: int|
                0 <= w < pre.tiles@.len() && (#[trigger] pre.tiles@[w]).parent is None && !(
                quad.tiles@[w].parent is None);
            lemma_live_count_strict(pre.tiles@, quad.tiles@, w);
        }
    }
    if !progress.report(950) {
        proof {
            assert(!progress.accepts(950u32));
        }
        return Err(GenError::Cancelled);
    }
    let bricks = quad.into_bricks(options);
    if !progress.report(1000) {
        proof {
            assert(!progress.accepts(1000u32));
        }
        return Err(GenError::Cancelled);
    }
    proof {
        assert(quad.wf());
        assert(quad.width == heightmap.spec_size().0);
        assert(quad.height == heightmap.spec_size().1);
        assert(forall|x: int, y: int|
            0 <= x < quad.width && 0 <= y < quad.height ==> #[trigger] quad.ph(x, y)
                == heightmap.spec_at(x, y) && quad.pc(x, y) == colormap.spec_at(x, y));
        assert(quad.footprint_ok(options.size as int));
        assert(quad.heights_ok(options.scale as int));
        assert(quad.line_converged(options.size as int));
        assert(reduced_grid(quad, heightmap, colormap, options));
        assert(bricks@ == spec_emit(quad.tiles@, options));
    }
    Ok(bricks)
}

} // verus!
