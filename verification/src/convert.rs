//! The segmentation dispatcher: converts one segmentation value, or
//! every annotation of a dataset, to a chosen target representation.
//! Every pair of the conversion matrix is handled explicitly; the
//! unimplemented pairs are typed, recoverable errors rather than
//! fatal.

use crate::coco::{
    clone_u32_vec, ints, Annotation, HashmapDataset, Segmentation, SegmentationView,
};
use crate::errors::{MaskError, SegmentationKind};
use crate::masks::{mask_to_rle, runs_of};
use crate::poly::{polygon_pixels, polygon_rs_to_mask};
use crate::rle_codec::{ascii_bytes, decode_rle, decoded_counts, encode_counts, encode_rle};
use vstd::prelude::*;
use vstd::utf8::is_ascii_chars;

verus! {

/// The representation a batch conversion aims at.
#[derive(Debug, PartialEq, Eq, Structural, Clone, Copy)]
pub enum SegmentationFormat {
    Rle,
    EncodedRle,
    Polygon,
}

/// Which representation a segmentation value uses.
pub open spec fn seg_kind(s: SegmentationView) -> SegmentationKind {
    match s {
        SegmentationView::Rle(_) => SegmentationKind::Rle,
        SegmentationView::EncodedRle(_) => SegmentationKind::EncodedRle,
        SegmentationView::PolygonRS(_) => SegmentationKind::PolygonRS,
        SegmentationView::Polygon(_) => SegmentationKind::Polygon,
    }
}

/// The representation a target format names.
pub open spec fn format_kind(t: SegmentationFormat) -> SegmentationKind {
    match t {
        SegmentationFormat::Rle => SegmentationKind::Rle,
        SegmentationFormat::EncodedRle => SegmentationKind::EncodedRle,
        SegmentationFormat::Polygon => SegmentationKind::Polygon,
    }
}

/// Whether converting `s` to format `t` succeeds: the conversion
/// matrix has the leg, and, for decoding, the encoded string is
/// well-formed.
pub open spec fn seg_convert_ok(s: SegmentationView, t: SegmentationFormat) -> bool {
    match (s, t) {
        (SegmentationView::Rle(_), SegmentationFormat::Rle) => true,
        (SegmentationView::Rle(_), SegmentationFormat::EncodedRle) => true,
        (SegmentationView::Rle(_), SegmentationFormat::Polygon) => false,
        (SegmentationView::EncodedRle(e), SegmentationFormat::Rle) => is_ascii_chars(e.counts)
            && decoded_counts(ascii_bytes(e.counts)) is Some,
        (SegmentationView::EncodedRle(_), SegmentationFormat::EncodedRle) => true,
        (SegmentationView::EncodedRle(_), SegmentationFormat::Polygon) => false,
        (SegmentationView::PolygonRS(_), SegmentationFormat::Rle) => true,
        (SegmentationView::PolygonRS(_), SegmentationFormat::EncodedRle) => false,
        (SegmentationView::PolygonRS(_), SegmentationFormat::Polygon) => true,
        (SegmentationView::Polygon(_), SegmentationFormat::Rle) => false,
        (SegmentationView::Polygon(_), SegmentationFormat::EncodedRle) => false,
        (SegmentationView::Polygon(_), SegmentationFormat::Polygon) => true,
    }
}

/// What a successful conversion of `s` to format `t` produces.
pub open spec fn seg_converted(
    s: SegmentationView,
    t: SegmentationFormat,
    out: SegmentationView,
) -> bool {
    match (s, t) {
        (SegmentationView::Rle(_), SegmentationFormat::Rle) => out == s,
        (SegmentationView::Rle(r0), SegmentationFormat::EncodedRle) => match out {
            SegmentationView::EncodedRle(e) => e.size == r0.size && ascii_bytes(e.counts)
                == encode_counts(ints(r0.counts)) && is_ascii_chars(e.counts),
            _ => false,
        },
        (SegmentationView::EncodedRle(e0), SegmentationFormat::Rle) => match out {
            SegmentationView::Rle(rv) => rv.size == e0.size && decoded_counts(
                ascii_bytes(e0.counts),
            ) == Some(ints(rv.counts)),
            _ => false,
        },
        (SegmentationView::EncodedRle(_), SegmentationFormat::EncodedRle) => out == s,
        (SegmentationView::PolygonRS(p), SegmentationFormat::Rle) => match out {
            SegmentationView::Rle(rv) => rv.size =~= seq![p.size[0], p.size[1]] && ints(rv.counts)
                == runs_of(polygon_pixels(p)),
            _ => false,
        },
        (SegmentationView::PolygonRS(p), SegmentationFormat::Polygon) => match out {
            SegmentationView::Polygon(ps) => ps =~= seq![p.counts],
            _ => false,
        },
        (SegmentationView::Polygon(_), SegmentationFormat::Polygon) => out == s,
        _ => false,
    }
}

/// Converts one segmentation value to the target format, following
/// the conversion matrix; an unsupported pair is a typed error, and a
/// malformed encoded string is rejected.
pub fn convert_segmentation(seg: &Segmentation, target: SegmentationFormat) -> (r: Result<
    Segmentation,
    MaskError,
>)
    requires
        seg matches Segmentation::PolygonRS(p) ==> (target is Rle ==> p@.wf()),
    ensures
        r is Ok <==> seg_convert_ok(seg@, target),
        match r {
            Result::Ok(out) => seg_converted(seg@, target, out@),
            Result::Err(e) => match e {
                MaskError::UnsupportedConversion(from, to) => from == seg_kind(seg@) && to
                    == format_kind(target),
                MaskError::InvalidEncodedRle(_) => seg@ is EncodedRle && target is Rle,
                _ => false,
            },
        },
{
    match seg {
        Segmentation::Rle(rle) => match target {
            SegmentationFormat::Rle => Ok(Segmentation::Rle(rle.clone())),
            SegmentationFormat::EncodedRle => match encode_rle(rle) {
                Result::Ok(enc) => Ok(Segmentation::EncodedRle(enc)),
                Result::Err(e) => Err(e),
            },
            SegmentationFormat::Polygon => Err(
                MaskError::UnsupportedConversion(SegmentationKind::Rle, SegmentationKind::Polygon),
            ),
        },
        Segmentation::EncodedRle(enc) => match target {
            SegmentationFormat::Rle => match decode_rle(enc) {
                Result::Ok(rle) => Ok(Segmentation::Rle(rle)),
                Result::Err(e) => Err(e),
            },
            SegmentationFormat::EncodedRle => Ok(Segmentation::EncodedRle(enc.clone())),
            SegmentationFormat::Polygon => Err(
                MaskError::UnsupportedConversion(
                    SegmentationKind::EncodedRle,
                    SegmentationKind::Polygon,
                ),
            ),
        },
        Segmentation::PolygonRS(poly) => match target {
            SegmentationFormat::Rle => {
                let mask = polygon_rs_to_mask(poly);
                let rle = mask_to_rle(&mask);
                Ok(Segmentation::Rle(rle))
            },
            SegmentationFormat::EncodedRle => Err(
                MaskError::UnsupportedConversion(
                    SegmentationKind::PolygonRS,
                    SegmentationKind::EncodedRle,
                ),
            ),
            SegmentationFormat::Polygon => {
                let mut contours: Vec<Vec<u32>> = Vec::new();
                contours.push(clone_u32_vec(&poly.counts));
                proof {
                    assert(contours.deep_view() =~~= seq![poly.counts@]);
                }
                Ok(Segmentation::Polygon(contours))
            },
        },
        Segmentation::Polygon(poly) => match target {
            SegmentationFormat::Rle => Err(
                MaskError::UnsupportedConversion(SegmentationKind::Polygon, SegmentationKind::Rle),
            ),
            SegmentationFormat::EncodedRle => Err(
                MaskError::UnsupportedConversion(
                    SegmentationKind::Polygon,
                    SegmentationKind::EncodedRle,
                ),
            ),
            SegmentationFormat::Polygon => Ok(
                Segmentation::Polygon(crate::coco::clone_polygon(poly)),
            ),
        },
    }
}

/// Whether every sized polygon in the dataset carries its invariant,
/// as far as the target format needs it.
pub open spec fn anns_convertible(
    anns: Seq<crate::coco::AnnotationView>,
    t: SegmentationFormat,
) -> bool {
    forall|i: int|
        0 <= i < anns.len() ==> match #[trigger] anns[i].segmentation {
            SegmentationView::PolygonRS(p) => t is Rle ==> p.wf(),
            _ => true,
        }
}

/// Converts every annotation's segmentation to the target format and
/// writes the converted annotations back, all other fields unchanged.
///
/// The whole dataset is converted first and committed only then: on
/// an unsupported pair or a malformed encoded string the first error
/// is returned and the dataset is left untouched.
pub fn convert_coco_segmentation(
    dataset: &mut HashmapDataset,
    target_segmentation: SegmentationFormat,
) -> (r: Result<(), MaskError>)
    requires
        old(dataset).wf(),
        anns_convertible(old(dataset)@, target_segmentation),
    ensures
        r is Ok <==> forall|i: int|
            0 <= i < old(dataset)@.len() ==> seg_convert_ok(
                #[trigger] old(dataset)@[i].segmentation,
                target_segmentation,
            ),
        match r {
            Result::Ok(_) => {
                &&& final(dataset).wf()
                &&& final(dataset)@.len() == old(dataset)@.len()
                &&& forall|i: int|
                    0 <= i < old(dataset)@.len() ==> {
                        let a0 = old(dataset)@[i];
                        let a1 = #[trigger] final(dataset)@[i];
                        a1.id == a0.id && a1.image_id == a0.image_id && a1.category_id
                            == a0.category_id && a1.iscrowd == a0.iscrowd && seg_converted(
                            a0.segmentation,
                            target_segmentation,
                            a1.segmentation,
                        )
                    }
            },
            Result::Err(e) => {
                &&& *final(dataset) == *old(dataset)
                &&& exists|i: int|
                    0 <= i < old(dataset)@.len() && !seg_convert_ok(
                        #[trigger] old(dataset)@[i].segmentation,
                        target_segmentation,
                    )
            },
        },
{
    let n = dataset.anns.len();
    let mut converted: Vec<Annotation> = Vec::new();
    let mut i: usize = 0;
    while i < n
        invariant
            *dataset == *old(dataset),
            old(dataset).wf(),
            anns_convertible(old(dataset)@, target_segmentation),
            n == dataset.anns@.len(),
            i <= n,
            converted@.len() == i,
            forall|j: int|
                0 <= j < i as int ==> {
                    let a0 = old(dataset)@[j];
                    let a1 = #[trigger] converted@[j]@;
                    a1.id == a0.id && a1.image_id == a0.image_id && a1.category_id
                        == a0.category_id && a1.iscrowd == a0.iscrowd && seg_converted(
                        a0.segmentation,
                        target_segmentation,
                        a1.segmentation,
                    )
                },
            forall|j: int|
                0 <= j < i as int ==> seg_convert_ok(
                    #[trigger] old(dataset)@[j].segmentation,
                    target_segmentation,
                ),
        decreases n - i,
    {
        let ann = &dataset.anns[i];
        let new_seg = match convert_segmentation(&ann.segmentation, target_segmentation) {
            Result::Ok(s) => s,
            Result::Err(e) => {
                proof {
                    assert(!seg_convert_ok(old(dataset)@[i as int].segmentation,
                        target_segmentation));
                }
                return Err(e);
            },
        };
        let new_ann = Annotation {
            id: ann.id,
            image_id: ann.image_id,
            category_id: ann.category_id,
            segmentation: new_seg,
            iscrowd: ann.iscrowd,
        };
        converted.push(new_ann);
        i = i + 1;
    }
    dataset.anns = converted;
    proof {
        assert forall|a: int, b: int| 0 <= a < b < dataset@.len() implies dataset@[a].id
            != dataset@[b].id by {
            assert(old(dataset)@[a].id != old(dataset)@[b].id);
        }
    }
    Ok(())
}

} // verus!
