//! Unit tests for the sources, the neighbour-height sets, the gamma table
//! and cancellation.

use heightmap::hset::HeightSet;
use heightmap::quad::QuadTree;
use heightmap::map::{Colormap, ColormapGrid, Heightmap, HeightmapFlat, HeightmapGrid};
use heightmap::reduce::{gen_opt_heightmap, CancelAt, GenError, NoCancel, ProgressSink};
use heightmap::util::{to_linear_gamma, to_linear_rgb, BrickAsset, GenOptions};

fn plain_opts() -> GenOptions {
    GenOptions {
        size: 5,
        scale: 1,
        asset: BrickAsset::Default,
        cull: false,
        tile: false,
        micro: false,
        stud: false,
        snap: false,
        img: false,
        glow: false,
        hdmap: false,
        lrgb: false,
        nocollide: false,
        quadtree: true,
    }
}

#[test]
fn flat_heightmap_is_constant_one() {
    let hm = HeightmapFlat::new((3, 2)).unwrap();
    assert_eq!(hm.size(), (3, 2));
    assert_eq!(hm.at(0, 0), 1);
    assert_eq!(hm.at(2, 1), 1);
}

#[test]
fn grid_heightmap_reads_red_channel() {
    let pixels = vec![[7, 1, 2, 3], [9, 4, 5, 6]];
    let hm = HeightmapGrid::new(vec![pixels], 2, 1, false).unwrap();
    assert_eq!(hm.size(), (2, 1));
    assert_eq!(hm.at(0, 0), 7);
    assert_eq!(hm.at(1, 0), 9);
}

#[test]
fn grid_heightmap_decodes_big_endian() {
    let pixels = vec![[0, 0, 2, 88]];
    let hm = HeightmapGrid::new(vec![pixels], 1, 1, true).unwrap();
    assert_eq!(hm.at(0, 0), 600);
}

#[test]
fn grid_heightmap_sums_layers() {
    let a = vec![[2, 0, 0, 0]];
    let b = vec![[3, 0, 0, 0]];
    let hm = HeightmapGrid::new(vec![a, b], 1, 1, false).unwrap();
    assert_eq!(hm.at(0, 0), 5);
}

#[test]
fn grid_heightmap_rejects_bad_shapes() {
    assert!(HeightmapGrid::new(vec![], 1, 1, false).is_err());
    assert!(HeightmapGrid::new(vec![vec![[0, 0, 0, 0]]], 2, 1, false).is_err());
}

#[test]
fn grid_colormap_looks_up_row_major() {
    let px = vec![[1, 0, 0, 255], [2, 0, 0, 255], [3, 0, 0, 255], [4, 0, 0, 255]];
    let cm = ColormapGrid::new(px, 2, 2).unwrap();
    assert_eq!(cm.size(), (2, 2));
    assert_eq!(cm.at(0, 0), [1, 0, 0, 255]);
    assert_eq!(cm.at(1, 0), [2, 0, 0, 255]);
    assert_eq!(cm.at(0, 1), [3, 0, 0, 255]);
    assert_eq!(cm.at(1, 1), [4, 0, 0, 255]);
}

#[test]
fn grid_colormap_rejects_bad_shapes() {
    assert_eq!(
        ColormapGrid::new(vec![[0, 0, 0, 0]], 2, 1).err(),
        Some(GenError::DimensionMismatch)
    );
}

#[test]
fn height_sets_deduplicate_and_sort() {
    let mut s = HeightSet::empty();
    assert!(s.is_empty());
    s.insert(9);
    s.insert(3);
    s.insert(9);
    s.insert(7);
    assert!(!s.is_empty());
    assert!(s.contains(3) && s.contains(7) && s.contains(9));
    assert!(!s.contains(4));
    assert_eq!(s.min_or_zero(), 3);
}

#[test]
fn height_set_union_keeps_the_least() {
    let mut a = HeightSet::empty();
    a.insert(5);
    a.insert(8);
    let mut b = HeightSet::empty();
    b.insert(2);
    b.insert(8);
    a.union_with(&b);
    assert!(a.contains(2) && a.contains(5) && a.contains(8));
    assert_eq!(a.min_or_zero(), 2);
    let c = a.duplicate();
    assert_eq!(c.min_or_zero(), 2);
    assert!(c.contains(5));
}

#[test]
fn empty_height_set_reports_zero() {
    let s = HeightSet::empty();
    assert_eq!(s.min_or_zero(), 0);
}

#[test]
fn gamma_table_endpoints() {
    assert_eq!(to_linear_gamma(0), 0);
    assert_eq!(to_linear_gamma(10), 0);
    assert_eq!(to_linear_gamma(64), 13);
    assert_eq!(to_linear_gamma(128), 55);
    assert_eq!(to_linear_gamma(192), 134);
    assert_eq!(to_linear_gamma(255), 254);
}

#[test]
fn linear_rgb_keeps_alpha() {
    let out = to_linear_rgb([128, 64, 255, 77]);
    assert_eq!(out, [55, 13, 254, 77]);
}

#[test]
fn cancelling_at_the_start_stops_immediately() {
    let hm = HeightmapFlat::new((2, 2)).unwrap();
    let px = [9, 9, 9, 255];
    let cm = ColormapGrid::new(vec![px; 4], 2, 2).unwrap();
    let r = gen_opt_heightmap(&hm, &cm, plain_opts(), &CancelAt { threshold: 0 });
    assert_eq!(r, Err(GenError::Cancelled));
}

#[test]
fn cancelling_mid_run_returns_cancelled() {
    let hm = HeightmapFlat::new((2, 2)).unwrap();
    let px = [9, 9, 9, 255];
    let cm = ColormapGrid::new(vec![px; 4], 2, 2).unwrap();
    let r = gen_opt_heightmap(&hm, &cm, plain_opts(), &CancelAt { threshold: 500 });
    assert_eq!(r, Err(GenError::Cancelled));
}

#[test]
fn progress_sinks_answer_as_specified() {
    assert!(NoCancel {}.report(0));
    assert!(NoCancel {}.report(1000));
    assert!(CancelAt { threshold: 500 }.report(499));
    assert!(!CancelAt { threshold: 500 }.report(500));
}

#[test]
fn flat_heightmap_renders_an_image() {
    let px = vec![[1, 2, 3, 255], [4, 5, 6, 255]];
    let cm = ColormapGrid::new(px, 2, 1).unwrap();
    let hm = HeightmapFlat::new(cm.size()).unwrap();
    let mut o = plain_opts();
    o.img = true;
    o.micro = true;
    o.size = 1;
    o.asset = BrickAsset::Micro;
    let bricks = gen_opt_heightmap(&hm, &cm, o, &NoCancel {}).unwrap();
    assert_eq!(bricks.len(), 2);
    assert!(bricks.iter().all(|b| b.size_z == 1));
}

#[test]
fn quad_pass_deactivates_three_per_merge() {
    let px = [1, 0, 0, 255];
    let hm = HeightmapGrid::new(vec![vec![px; 4]], 2, 2, false).unwrap();
    let cm = ColormapGrid::new(vec![px; 4], 2, 2).unwrap();
    let mut q = QuadTree::new(&hm, &cm).unwrap();
    assert_eq!(q.quad_optimize_level(0), 3);
    assert_eq!(q.quad_optimize_level(0), 0);
    assert_eq!(q.into_bricks(plain_opts()).len(), 1);
}

#[test]
fn extra_line_pass_after_convergence_changes_nothing() {
    let heights: Vec<[u8; 4]> = vec![
        [1, 0, 0, 255],
        [1, 0, 0, 255],
        [2, 0, 0, 255],
        [1, 0, 0, 255],
        [1, 0, 0, 255],
        [2, 0, 0, 255],
    ];
    let hm = HeightmapGrid::new(vec![heights], 3, 2, false).unwrap();
    let c = [5, 6, 7, 255];
    let cm = ColormapGrid::new(vec![c; 6], 3, 2).unwrap();
    let mut q = QuadTree::new(&hm, &cm).unwrap();
    let mut passes = 0;
    while q.line_optimize(5) != 0 {
        passes += 1;
        assert!(passes < 100);
    }
    let before = q.into_bricks(plain_opts());
    // Convergence: one more pass merges nothing and leaves the grid as is.
    assert_eq!(q.line_optimize(5), 0);
    let after = q.into_bricks(plain_opts());
    assert_eq!(before, after);
}
