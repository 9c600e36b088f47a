use cocotools::coco::{Annotation, EncodedRle, HashmapDataset, PolygonRS, Rle, Segmentation};
use cocotools::convert::{convert_coco_segmentation, convert_segmentation, SegmentationFormat};
use cocotools::errors::MaskError;
use cocotools::mask::Mask;
use cocotools::masks::{mask_to_rle, rle_to_mask};
use cocotools::rle_codec::{decode_rle, encode_rle};

fn square_mask() -> Mask {
    let rows: Vec<u8> = vec![
        0, 0, 0, 0, //
        0, 1, 1, 0, //
        0, 1, 1, 0, //
        0, 0, 0, 0,
    ];
    Mask::from_row_major(4, 4, &rows)
}

fn horizontal_line_mask() -> Mask {
    let rows: Vec<u8> = vec![
        0, 0, 0, 0, 0, //
        1, 1, 1, 1, 1, //
        0, 0, 0, 0, 0, //
        0, 0, 0, 0, 0,
    ];
    Mask::from_row_major(4, 5, &rows)
}

fn vertical_line_mask() -> Mask {
    let rows: Vec<u8> = vec![
        0, 0, 1, 0, 0, //
        0, 0, 1, 0, 0, //
        0, 0, 1, 0, 0, //
        0, 0, 1, 0, 0,
    ];
    Mask::from_row_major(4, 5, &rows)
}

#[test]
fn mask_to_rle_square() {
    let rle = mask_to_rle(&square_mask());
    assert_eq!(rle, Rle { size: vec![4, 4], counts: vec![5, 2, 2, 2, 5] });
}

#[test]
fn mask_to_rle_horizontal_line() {
    let rle = mask_to_rle(&horizontal_line_mask());
    assert_eq!(rle, Rle { size: vec![4, 5], counts: vec![1, 1, 3, 1, 3, 1, 3, 1, 3, 1, 2] });
}

#[test]
fn mask_to_rle_vertical_line() {
    let rle = mask_to_rle(&vertical_line_mask());
    assert_eq!(rle, Rle { size: vec![4, 5], counts: vec![8, 4, 8] });
}

#[test]
fn rle_to_mask_square() {
    let rle = Rle { size: vec![4, 4], counts: vec![5, 2, 2, 2, 5] };
    assert_eq!(rle_to_mask(&rle), square_mask());
}

#[test]
fn rle_to_mask_horizontal_line() {
    let rle = Rle { size: vec![4, 5], counts: vec![1, 1, 3, 1, 3, 1, 3, 1, 3, 1, 2] };
    assert_eq!(rle_to_mask(&rle), horizontal_line_mask());
}

#[test]
fn rle_to_mask_vertical_line() {
    let rle = Rle { size: vec![4, 5], counts: vec![8, 4, 8] };
    assert_eq!(rle_to_mask(&rle), vertical_line_mask());
}

#[test]
fn encode_rle_square() {
    let rle = Rle { counts: vec![6, 1, 40, 4, 5, 4, 5, 4, 21], size: vec![9, 10] };
    let encoded = encode_rle(&rle).unwrap();
    assert_eq!(
        encoded,
        EncodedRle { size: vec![9, 10], counts: "61X13mN000`0".to_string() }
    );
}

#[test]
fn encode_rle_large() {
    let rle = Rle { counts: vec![245, 5, 35, 5, 35, 5, 35, 5, 35, 5, 1190], size: vec![40, 40] };
    let encoded = encode_rle(&rle).unwrap();
    assert_eq!(
        encoded,
        EncodedRle { size: vec![40, 40], counts: "e75S10000000ST1".to_string() }
    );
}

#[test]
fn rle_decode_inverts_encode() {
    // The second case exercises negative deltas, hence the
    // sign-extension byte path.
    let cases: Vec<Rle> = vec![
        Rle { counts: vec![245, 5, 35, 5, 35, 5, 35, 5, 35, 5, 1190], size: vec![40, 40] },
        Rle { counts: vec![6, 1, 40, 4, 5, 4, 5, 4, 21], size: vec![9, 10] },
        Rle { counts: vec![0, 16], size: vec![4, 4] },
        Rle { counts: vec![16], size: vec![4, 4] },
    ];
    for rle in cases {
        let encoded = encode_rle(&rle).unwrap();
        let decoded = decode_rle(&encoded).unwrap();
        assert_eq!(decoded, rle);
    }
}

#[test]
fn decode_rle_square() {
    let enc = EncodedRle { size: vec![9, 10], counts: "61X13mN000`0".to_string() };
    let rle = decode_rle(&enc).unwrap();
    assert_eq!(rle, Rle { counts: vec![6, 1, 40, 4, 5, 4, 5, 4, 21], size: vec![9, 10] });
}

#[test]
fn decode_rle_large() {
    let enc = EncodedRle { size: vec![40, 40], counts: "e75S10000000ST1".to_string() };
    let rle = decode_rle(&enc).unwrap();
    assert_eq!(
        rle,
        Rle { counts: vec![245, 5, 35, 5, 35, 5, 35, 5, 35, 5, 1190], size: vec![40, 40] }
    );
}

#[test]
fn mask_round_trips_through_rle() {
    let masks = vec![square_mask(), horizontal_line_mask(), vertical_line_mask()];
    for mask in masks {
        let rle = mask_to_rle(&mask);
        assert_eq!(rle_to_mask(&rle), mask);
    }
}

#[test]
fn first_pixel_foreground_gives_zero_first_run() {
    let rows: Vec<u8> = vec![
        1, 0, //
        0, 1,
    ];
    let mask = Mask::from_row_major(2, 2, &rows);
    let rle = mask_to_rle(&mask);
    assert_eq!(rle.counts[0], 0);
    assert_eq!(rle.counts, vec![0, 1, 2, 1]);
    assert_eq!(rle_to_mask(&rle), mask);
}

#[test]
fn rle_counts_sum_to_pixel_count() {
    let masks = vec![square_mask(), horizontal_line_mask(), vertical_line_mask()];
    for mask in masks {
        let rle = mask_to_rle(&mask);
        let sum: u64 = rle.counts.iter().map(|c| u64::from(*c)).sum();
        assert_eq!(sum, u64::from(rle.size[0]) * u64::from(rle.size[1]));
    }
}

#[test]
fn decode_rejects_non_ascii() {
    let enc = EncodedRle { size: vec![2, 2], counts: "\u{e9}".to_string() };
    assert!(matches!(decode_rle(&enc), Err(MaskError::InvalidEncodedRle(_))));
}

#[test]
fn decode_rejects_byte_outside_alphabet() {
    let enc = EncodedRle { size: vec![2, 2], counts: "!4".to_string() };
    assert!(matches!(decode_rle(&enc), Err(MaskError::InvalidEncodedRle(_))));
}

#[test]
fn decode_rejects_truncated_integer() {
    // 'l' is 108: its continuation bit is set, so the integer never ends.
    let enc = EncodedRle { size: vec![2, 2], counts: "l".to_string() };
    assert!(matches!(decode_rle(&enc), Err(MaskError::InvalidEncodedRle(_))));
}

#[test]
fn decode_rejects_overlong_integer() {
    let enc = EncodedRle { size: vec![2, 2], counts: "llllllll0".to_string() };
    assert!(matches!(decode_rle(&enc), Err(MaskError::InvalidEncodedRle(_))));
}

#[test]
fn decode_drops_trailing_zero_runs() {
    // "00" encodes the integers 0, 0 with no preceding runs.
    let enc = EncodedRle { size: vec![0, 0], counts: "00".to_string() };
    let rle = decode_rle(&enc).unwrap();
    assert_eq!(rle.counts, Vec::<u32>::new());
}

#[test]
fn convert_rle_to_encoded_rle() {
    let rle = Rle { counts: vec![6, 1, 40, 4, 5, 4, 5, 4, 21], size: vec![9, 10] };
    let seg = Segmentation::Rle(rle);
    let out = convert_segmentation(&seg, SegmentationFormat::EncodedRle).unwrap();
    assert_eq!(
        out,
        Segmentation::EncodedRle(EncodedRle {
            size: vec![9, 10],
            counts: "61X13mN000`0".to_string()
        })
    );
}

#[test]
fn convert_encoded_rle_to_rle() {
    let enc = EncodedRle { size: vec![9, 10], counts: "61X13mN000`0".to_string() };
    let seg = Segmentation::EncodedRle(enc);
    let out = convert_segmentation(&seg, SegmentationFormat::Rle).unwrap();
    assert_eq!(
        out,
        Segmentation::Rle(Rle { counts: vec![6, 1, 40, 4, 5, 4, 5, 4, 21], size: vec![9, 10] })
    );
}

#[test]
fn convert_identity_legs() {
    let rle = Segmentation::Rle(Rle { size: vec![2, 2], counts: vec![4] });
    assert_eq!(convert_segmentation(&rle, SegmentationFormat::Rle).unwrap(), rle);
    let enc = Segmentation::EncodedRle(EncodedRle { size: vec![2, 2], counts: "40".to_string() });
    assert_eq!(convert_segmentation(&enc, SegmentationFormat::EncodedRle).unwrap(), enc);
    let poly = Segmentation::Polygon(vec![vec![0, 0, 1, 0, 1, 1]]);
    assert_eq!(convert_segmentation(&poly, SegmentationFormat::Polygon).unwrap(), poly);
}

#[test]
fn convert_polygon_rs_drops_size() {
    let poly = PolygonRS { size: vec![5, 5], counts: vec![1, 1, 3, 1, 3, 3, 1, 3] };
    let out = convert_segmentation(
        &Segmentation::PolygonRS(poly),
        SegmentationFormat::Polygon,
    )
    .unwrap();
    assert_eq!(out, Segmentation::Polygon(vec![vec![1, 1, 3, 1, 3, 3, 1, 3]]));
}

#[test]
fn convert_unsupported_legs_are_typed_errors() {
    let rle = Segmentation::Rle(Rle { size: vec![2, 2], counts: vec![4] });
    assert!(matches!(
        convert_segmentation(&rle, SegmentationFormat::Polygon),
        Err(MaskError::UnsupportedConversion(_, _))
    ));
    let poly = Segmentation::Polygon(vec![vec![0, 0, 1, 0, 1, 1]]);
    assert!(matches!(
        convert_segmentation(&poly, SegmentationFormat::Rle),
        Err(MaskError::UnsupportedConversion(_, _))
    ));
    let poly_rs = Segmentation::PolygonRS(PolygonRS { size: vec![5, 5], counts: vec![1, 1] });
    assert!(matches!(
        convert_segmentation(&poly_rs, SegmentationFormat::EncodedRle),
        Err(MaskError::UnsupportedConversion(_, _))
    ));
}

fn ann(id: u64, seg: Segmentation) -> Annotation {
    Annotation { id, image_id: 1, category_id: 1, segmentation: seg, iscrowd: 0 }
}

#[test]
fn dataset_conversion_converts_every_annotation() {
    let mut dataset = HashmapDataset::new();
    dataset.add_ann(&ann(1, Segmentation::Rle(Rle { size: vec![4, 4], counts: vec![5, 2, 2, 2, 5] })));
    dataset.add_ann(&ann(
        2,
        Segmentation::Rle(Rle { counts: vec![6, 1, 40, 4, 5, 4, 5, 4, 21], size: vec![9, 10] }),
    ));
    convert_coco_segmentation(&mut dataset, SegmentationFormat::EncodedRle).unwrap();
    let anns = dataset.get_anns();
    assert_eq!(anns.len(), 2);
    assert_eq!(anns[0].id, 1);
    match &anns[1].segmentation {
        Segmentation::EncodedRle(enc) => assert_eq!(enc.counts, "61X13mN000`0"),
        other => panic!("converted into the wrong representation: {other:?}"),
    }
}

#[test]
fn dataset_conversion_fails_whole_on_unsupported_leg() {
    let mut dataset = HashmapDataset::new();
    dataset.add_ann(&ann(1, Segmentation::Rle(Rle { size: vec![2, 2], counts: vec![4] })));
    dataset.add_ann(&ann(2, Segmentation::Polygon(vec![vec![0, 0, 1, 0, 1, 1]])));
    let before = dataset.get_anns().clone();
    let result = convert_coco_segmentation(&mut dataset, SegmentationFormat::Rle);
    assert!(matches!(result, Err(MaskError::UnsupportedConversion(_, _))));
    assert_eq!(dataset.get_anns(), &before);
}

#[test]
fn dataset_upsert_replaces_by_id() {
    let mut dataset = HashmapDataset::new();
    dataset.add_ann(&ann(7, Segmentation::Rle(Rle { size: vec![2, 2], counts: vec![4] })));
    dataset.add_ann(&ann(7, Segmentation::Rle(Rle { size: vec![2, 2], counts: vec![0, 4] })));
    assert_eq!(dataset.get_anns().len(), 1);
    assert_eq!(
        dataset.get_ann(7).unwrap().segmentation,
        Segmentation::Rle(Rle { size: vec![2, 2], counts: vec![0, 4] })
    );
    assert!(dataset.get_ann(8).is_none());
}
