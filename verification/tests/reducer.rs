//! End-to-end scenarios for the quadtree brick reducer.

use heightmap::map::{ColormapGrid, HeightmapGrid};
use heightmap::quad::QuadTree;
use heightmap::reduce::{gen_opt_heightmap, GenError, NoCancel};
use heightmap::util::{Brick, BrickAsset, GenOptions, Material};

fn opts(size: u16, scale: u32) -> GenOptions {
    GenOptions {
        size,
        scale,
        asset: BrickAsset::Default,
        cull: false,
        tile: false,
        micro: false,
        stud: false,
        snap: false,
        img: false,
        glow: false,
        hdmap: false,
        lrgb: false,
        nocollide: false,
        quadtree: true,
    }
}

/// A heightmap whose pixels take the red channel as elevation.
fn hmap(width: u32, height: u32, heights: &[u8]) -> HeightmapGrid {
    let pixels: Vec<[u8; 4]> = heights.iter().map(|&h| [h, 0, 0, 255]).collect();
    HeightmapGrid::new(vec![pixels], width, height, false).unwrap()
}

fn cmap(width: u32, height: u32, colors: &[[u8; 4]]) -> ColormapGrid {
    ColormapGrid::new(colors.to_vec(), width, height).unwrap()
}

#[test]
fn culled_single_pixel_emits_nothing() {
    let hm = hmap(1, 1, &[0]);
    let cm = cmap(1, 1, &[[255, 0, 0, 255]]);
    let mut o = opts(5, 1);
    o.cull = true;
    let bricks = gen_opt_heightmap(&hm, &cm, o, &NoCancel {}).unwrap();
    assert!(bricks.is_empty());
}

#[test]
fn transparent_pixel_is_culled() {
    let hm = hmap(1, 1, &[7]);
    let cm = cmap(1, 1, &[[255, 0, 0, 0]]);
    let mut o = opts(5, 1);
    o.cull = true;
    let bricks = gen_opt_heightmap(&hm, &cm, o, &NoCancel {}).unwrap();
    assert!(bricks.is_empty());
}

#[test]
fn single_red_pixel() {
    let hm = hmap(1, 1, &[3]);
    let cm = cmap(1, 1, &[[255, 0, 0, 255]]);
    let bricks = gen_opt_heightmap(&hm, &cm, opts(5, 1), &NoCancel {}).unwrap();
    assert_eq!(bricks.len(), 1);
    let b = &bricks[0];
    assert_eq!((b.r, b.g, b.b), (255, 0, 0));
    assert_eq!((b.size_x, b.size_y, b.size_z), (5, 5, 2));
    assert_eq!((b.pos_x, b.pos_y, b.pos_z), (5, 5, 3));
    assert_eq!(b.material, Material::Plastic);
    assert!(b.collide_player && b.collide_weapon && b.collide_interact);
}

#[test]
fn uniform_square_quad_merges() {
    let hm = hmap(2, 2, &[5, 5, 5, 5]);
    let green = [0, 128, 0, 255];
    let cm = cmap(2, 2, &[green, green, green, green]);
    let bricks = gen_opt_heightmap(&hm, &cm, opts(5, 1), &NoCancel {}).unwrap();
    assert_eq!(bricks.len(), 1);
    let b = &bricks[0];
    assert_eq!((b.size_x, b.size_y), (10, 10));
    assert_eq!((b.pos_x, b.pos_y), (10, 10));
    assert!(b.size_z >= 2);
    assert_eq!((b.r, b.g, b.b), (0, 128, 0));
}

#[test]
fn row_merges_without_quadtree() {
    let hm = hmap(2, 1, &[1, 1]);
    let c = [10, 20, 30, 255];
    let cm = cmap(2, 1, &[c, c]);
    let mut o = opts(5, 1);
    o.quadtree = false;
    let bricks = gen_opt_heightmap(&hm, &cm, o, &NoCancel {}).unwrap();
    assert_eq!(bricks.len(), 1);
    assert_eq!((bricks[0].size_x, bricks[0].size_y), (10, 5));
}

#[test]
fn differing_corner_blocks_quad_merge() {
    let hm = hmap(2, 2, &[1, 1, 1, 2]);
    let c = [1, 2, 3, 255];
    let cm = cmap(2, 2, &[c, c, c, c]);
    let bricks = gen_opt_heightmap(&hm, &cm, opts(5, 1), &NoCancel {}).unwrap();
    assert_eq!(bricks.len(), 3);
}

#[test]
fn uniform_four_by_four_becomes_one_brick() {
    let hm = hmap(4, 4, &[7; 16]);
    let c = [9, 9, 9, 255];
    let cm = cmap(4, 4, &[c; 16]);
    let bricks = gen_opt_heightmap(&hm, &cm, opts(5, 1), &NoCancel {}).unwrap();
    assert_eq!(bricks.len(), 1);
    assert_eq!((bricks[0].size_x, bricks[0].size_y), (20, 20));
}

#[test]
fn mismatched_dimensions_are_rejected() {
    let hm = hmap(1, 1, &[1]);
    let cm = cmap(2, 1, &[[0, 0, 0, 255], [0, 0, 0, 255]]);
    let r = gen_opt_heightmap(&hm, &cm, opts(5, 1), &NoCancel {});
    assert_eq!(r, Err(GenError::DimensionMismatch));
}

#[test]
fn determinism_across_runs() {
    let hm = hmap(3, 3, &[1, 2, 1, 2, 2, 2, 1, 2, 3]);
    let colors: Vec<[u8; 4]> = (0..9).map(|i| [i as u8, 0, 0, 255]).collect();
    let cm = cmap(3, 3, &colors);
    let a = gen_opt_heightmap(&hm, &cm, opts(5, 2), &NoCancel {}).unwrap();
    let b = gen_opt_heightmap(&hm, &cm, opts(5, 2), &NoCancel {}).unwrap();
    let c = gen_opt_heightmap(&hm, &cm, opts(5, 2), &NoCancel {}).unwrap();
    assert_eq!(a, b);
    assert_eq!(b, c);
}

#[test]
fn colour_fidelity_per_pixel() {
    // Distinct colours block all merging, so each brick keeps its pixel's
    // colour.
    let hm = hmap(2, 1, &[4, 4]);
    let cm = cmap(2, 1, &[[10, 11, 12, 255], [20, 21, 22, 255]]);
    let bricks = gen_opt_heightmap(&hm, &cm, opts(5, 1), &NoCancel {}).unwrap();
    assert_eq!(bricks.len(), 2);
    let mut seen: Vec<(u8, u8, u8)> = bricks.iter().map(|b| (b.r, b.g, b.b)).collect();
    seen.sort();
    assert_eq!(seen, vec![(10, 11, 12), (20, 21, 22)]);
}

#[test]
fn glow_and_nocollide_are_forwarded() {
    let hm = hmap(1, 1, &[2]);
    let cm = cmap(1, 1, &[[1, 1, 1, 255]]);
    let mut o = opts(5, 1);
    o.glow = true;
    o.nocollide = true;
    o.asset = BrickAsset::Tile;
    let bricks = gen_opt_heightmap(&hm, &cm, o, &NoCancel {}).unwrap();
    assert_eq!(bricks.len(), 1);
    let b = &bricks[0];
    assert_eq!(b.material, Material::Glow);
    assert!(!b.collide_player && !b.collide_weapon && !b.collide_interact);
    assert_eq!(b.asset, BrickAsset::Tile);
}

#[test]
fn micro_image_bricks_are_cubes() {
    let hm = hmap(1, 1, &[3]);
    let cm = cmap(1, 1, &[[1, 1, 1, 255]]);
    let mut o = opts(1, 1);
    o.img = true;
    o.micro = true;
    o.asset = BrickAsset::Micro;
    let bricks = gen_opt_heightmap(&hm, &cm, o, &NoCancel {}).unwrap();
    assert_eq!(bricks.len(), 1);
    assert_eq!(bricks[0].size_z, 1);
}

#[test]
fn snap_rounds_up_to_the_grid() {
    let hm = hmap(1, 1, &[3]);
    let cm = cmap(1, 1, &[[255, 0, 0, 255]]);
    let mut o = opts(5, 1);
    o.snap = true;
    let bricks = gen_opt_heightmap(&hm, &cm, o, &NoCancel {}).unwrap();
    assert_eq!(bricks.len(), 1);
    let b = &bricks[0];
    // z snaps from 3 to 4, the wanted extent from 2 to 4.
    assert_eq!(b.size_z, 4);
    assert_eq!(b.pos_z, 2);
}

#[test]
fn stud_heights_step_by_five() {
    let hm = hmap(1, 1, &[3]);
    let cm = cmap(1, 1, &[[255, 0, 0, 255]]);
    let mut o = opts(5, 1);
    o.stud = true;
    o.asset = BrickAsset::Stud;
    let bricks = gen_opt_heightmap(&hm, &cm, o, &NoCancel {}).unwrap();
    assert_eq!(bricks.len(), 1);
    assert_eq!(bricks[0].size_z, 5);
    assert_eq!(bricks[0].pos_z, 0);
}

#[test]
fn rounding_overshoots_verbatim() {
    // The left pixel wants an extent of 3 half-units; rounding to the step
    // pushes its single brick to 4.
    let hm = hmap(2, 1, &[6, 1]);
    let c = [1, 1, 1, 255];
    let cm = cmap(2, 1, &[c, c]);
    let bricks = gen_opt_heightmap(&hm, &cm, opts(5, 1), &NoCancel {}).unwrap();
    assert_eq!(bricks.len(), 2);
    let tall = bricks.iter().find(|b| b.pos_z > 3).unwrap();
    assert_eq!(tall.size_z, 4);
}

#[test]
fn monotone_compression_against_trivial_emission() {
    let heights = [1, 1, 2, 2, 1, 1, 2, 3, 5, 5, 5, 5, 5, 5, 5, 5];
    let hm = hmap(4, 4, &heights);
    let c = [40, 50, 60, 255];
    let cm = cmap(4, 4, &[c; 16]);
    let o = opts(5, 1);
    let trivial = QuadTree::new(&hm, &cm).unwrap().into_bricks(o);
    let reduced = gen_opt_heightmap(&hm, &cm, o, &NoCancel {}).unwrap();
    assert!(reduced.len() <= trivial.len());
    assert!(reduced.len() < 16);
    assert_eq!(trivial.len(), 16);
}

#[test]
fn brick_footprints_partition_the_grid() {
    // Coverage and non-overlap, checked concretely: each of the 4x4=16
    // pixels is covered by exactly one brick footprint.
    let heights = [1, 1, 2, 2, 1, 1, 2, 3, 5, 5, 5, 5, 5, 5, 5, 5];
    let hm = hmap(4, 4, &heights);
    let c = [40, 50, 60, 255];
    let cm = cmap(4, 4, &[c; 16]);
    let o = opts(5, 1);
    let bricks = gen_opt_heightmap(&hm, &cm, o, &NoCancel {}).unwrap();
    for px in 0..4i32 {
        for py in 0..4i32 {
            let mut footprints: Vec<(i32, i32, u16, u16)> = Vec::new();
            for b in &bricks {
                let covers_x = b.pos_x - b.size_x as i32 <= 10 * px
                    && 10 * (px + 1) <= b.pos_x + b.size_x as i32;
                let covers_y = b.pos_y - b.size_y as i32 <= 10 * py
                    && 10 * (py + 1) <= b.pos_y + b.size_y as i32;
                if covers_x && covers_y {
                    footprints.push((b.pos_x, b.pos_y, b.size_x, b.size_y));
                }
            }
            footprints.sort();
            footprints.dedup();
            assert_eq!(footprints.len(), 1, "pixel ({px},{py})");
        }
    }
}

#[test]
fn stacked_extents_sum_to_the_wanted_height() {
    // One tall pixel: 600 half-units split into 250 + 250 + 100.
    let pixels = vec![[0, 0, 2, 88]];  // big-endian 600
    let hm = HeightmapGrid::new(vec![pixels], 1, 1, true).unwrap();
    let cm = cmap(1, 1, &[[9, 9, 9, 255]]);
    let bricks = gen_opt_heightmap(&hm, &cm, opts(5, 2), &NoCancel {}).unwrap();
    // raw extent 601, scaled and halved: 601.
    let total: i32 = bricks.iter().map(|b| b.size_z as i32).sum();
    assert!(bricks.len() >= 2);
    assert!(total >= 601);
    let z = 600u32.checked_mul(2).unwrap() as i32;
    assert_eq!(bricks[0].pos_z, z - bricks[0].size_z as i32 + 2);
}

fn brick_key(b: &Brick) -> (i32, i32, i32) {
    (b.pos_x, b.pos_y, b.pos_z)
}

#[test]
fn emission_order_is_grid_order() {
    let hm = hmap(2, 1, &[4, 7]);
    let cm = cmap(2, 1, &[[1, 0, 0, 255], [2, 0, 0, 255]]);
    let bricks = gen_opt_heightmap(&hm, &cm, opts(5, 1), &NoCancel {}).unwrap();
    assert_eq!(bricks.len(), 2);
    assert!(brick_key(&bricks[0]).0 < brick_key(&bricks[1]).0);
}
