use cocotools::coco::{PolygonRS, Segmentation};
use cocotools::convert::{convert_segmentation, SegmentationFormat};
use cocotools::draw::{color_palette, get_color, pack_0rgb, DrawOption};
use cocotools::mask::Mask;
use cocotools::poly::{mask_from_poly, polygon_rs_to_mask};

#[test]
fn rectangle_polygon_fills_its_interior() {
    // A closed square from (1,1) to (3,3) in a 5x5 image; the last
    // point repeats the first.
    let poly = PolygonRS { size: vec![5, 5], counts: vec![1, 1, 3, 1, 3, 3, 1, 3, 1, 1] };
    let mask = polygon_rs_to_mask(&poly);
    assert_eq!(mask.height, 5);
    assert_eq!(mask.width, 5);
    assert_eq!(mask.get(2, 2), 1);
    assert_eq!(mask.get(1, 1), 1);
    assert_eq!(mask.get(0, 0), 0);
    assert_eq!(mask.get(4, 4), 0);
    assert_eq!(mask.get(0, 2), 0);
}

#[test]
fn first_contour_rasterizes_without_size() {
    let poly = vec![vec![1, 1, 3, 1, 3, 3, 1, 3]];
    let mask = mask_from_poly(&poly, 5, 5);
    assert_eq!(mask.height, 5);
    assert_eq!(mask.width, 5);
    assert_eq!(mask.get(2, 2), 1);
    assert_eq!(mask.get(0, 0), 0);
}

#[test]
fn polygon_to_rle_counts_cover_the_grid() {
    let poly = PolygonRS { size: vec![4, 6], counts: vec![1, 1, 4, 1, 4, 2, 1, 2] };
    let seg = Segmentation::PolygonRS(poly);
    match convert_segmentation(&seg, SegmentationFormat::Rle).unwrap() {
        Segmentation::Rle(rle) => {
            assert_eq!(rle.size, vec![4, 6]);
            let sum: u64 = rle.counts.iter().map(|c| u64::from(*c)).sum();
            assert_eq!(sum, 24);
        }
        other => panic!("converted into the wrong representation: {other:?}"),
    }
}

#[test]
fn empty_polygon_paints_nothing() {
    let poly = PolygonRS { size: vec![3, 3], counts: vec![] };
    let mask = polygon_rs_to_mask(&poly);
    for r in 0..3 {
        for c in 0..3 {
            assert_eq!(mask.get(r, c), 0);
        }
    }
}

#[test]
fn masks_can_be_built_and_edited() {
    let mut mask = Mask::new(3, 4);
    assert_eq!(mask.get(2, 3), 0);
    mask.set(2, 3, 1);
    mask.set(0, 0, 1);
    assert_eq!(mask.get(2, 3), 1);
    assert_eq!(mask.get(0, 0), 1);
    assert_eq!(mask.get(1, 1), 0);
}

#[test]
fn palette_cycles_every_twenty_colors() {
    let palette = color_palette();
    assert_eq!(palette.len(), 20);
    assert_eq!(get_color(0), (0, 255, 127));
    assert_eq!(get_color(1), (255, 105, 180));
    assert_eq!(get_color(21), (255, 105, 180));
    assert_eq!(get_color(19), (95, 158, 160));
}

#[test]
fn draw_options_build_up() {
    let opt = DrawOption::new();
    assert!(!opt.with_bbox);
    assert!(!opt.with_mask);
    assert_eq!(opt.bbox_thickness, 5);
    assert_eq!(opt.color, (255, 105, 180));
    let opt = opt.with_bbox(true).with_mask(true).color((1, 2, 3)).bbox_thickness(2);
    assert!(opt.with_bbox);
    assert!(opt.with_mask);
    assert_eq!(opt.color, (1, 2, 3));
    assert_eq!(opt.bbox_thickness, 2);
}

#[test]
fn pixels_pack_into_opaque_0rgb() {
    assert_eq!(pack_0rgb(0, 0, 0), 0xFF00_0000);
    assert_eq!(pack_0rgb(255, 255, 255), 0xFFFF_FFFF);
    assert_eq!(pack_0rgb(0x12, 0x34, 0x56), 0xFF12_3456);
}
