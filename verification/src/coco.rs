//! The segmentation value types of the annotation format, the
//! annotation record that owns one of them, and the dataset that stores
//! annotations keyed by their identifier.

use vstd::prelude::*;

verus! {

/// Widens a sequence of run lengths to mathematical integers.
pub open spec fn ints(c: Seq<u32>) -> Seq<int> {
    c.map_values(|x: u32| x as int)
}

/// The sum of a sequence of integers.
pub open spec fn seq_sum(s: Seq<int>) -> int
    decreases s.len(),
{
    if s.len() == 0 {
        0
    } else {
        s[0] + seq_sum(s.skip(1))
    }
}

/// Run-length form of a mask: `size = [height, width]`, and `counts`
/// holds alternating background/foreground run lengths of the
/// column-major pixel traversal, starting with a background run.
#[derive(Debug, PartialEq, Eq)]
pub struct Rle {
    pub size: Vec<u32>,
    pub counts: Vec<u32>,
}

/// The mathematical content of an [`Rle`].
pub struct RleView {
    pub size: Seq<u32>,
    pub counts: Seq<u32>,
}

impl View for Rle {
    type V = RleView;

    open spec fn view(&self) -> RleView {
        RleView { size: self.size@, counts: self.counts@ }
    }
}

impl RleView {
    /// The run lengths describe a full `height x width` grid whose
    /// pixel count is itself representable as a run length.
    pub open spec fn wf(&self) -> bool {
        &&& self.size.len() == 2
        &&& seq_sum(ints(self.counts)) == (self.size[0] as int) * (self.size[1] as int)
        &&& (self.size[0] as int) * (self.size[1] as int) <= u32::MAX as int
    }
}

/// Compressed ASCII form of an [`Rle`]: each (delta-coded) run length
/// is stored as a variable-length integer over the ASCII bytes 48-111.
#[derive(Debug, PartialEq, Eq)]
pub struct EncodedRle {
    pub size: Vec<u32>,
    pub counts: String,
}

/// The mathematical content of an [`EncodedRle`].
pub struct EncodedRleView {
    pub size: Seq<u32>,
    pub counts: Seq<char>,
}

impl View for EncodedRle {
    type V = EncodedRleView;

    open spec fn view(&self) -> EncodedRleView {
        EncodedRleView { size: self.size@, counts: self.counts@ }
    }
}

/// One closed polygon contour together with the size of the image it
/// belongs to: `size = [height, width]`, `counts` holds flat
/// alternating x, y pixel coordinates.
#[derive(Debug, PartialEq, Eq)]
pub struct PolygonRS {
    pub size: Vec<u32>,
    pub counts: Vec<u32>,
}

/// The mathematical content of a [`PolygonRS`].
pub struct PolygonRSView {
    pub size: Seq<u32>,
    pub counts: Seq<u32>,
}

impl View for PolygonRS {
    type V = PolygonRSView;

    open spec fn view(&self) -> PolygonRSView {
        PolygonRSView { size: self.size@, counts: self.counts@ }
    }
}

impl PolygonRSView {
    /// Coordinates pair up and lie inside the image, every coordinate
    /// fits the rasterizer's signed points, and the pixel count is
    /// representable as a run length.
    pub open spec fn wf(&self) -> bool {
        &&& self.size.len() == 2
        &&& self.counts.len() % 2 == 0
        &&& (self.size[0] as int) * (self.size[1] as int) <= u32::MAX as int
        &&& self.size[0] <= i32::MAX as u32
        &&& self.size[1] <= i32::MAX as u32
        &&& forall|i: int|
            0 <= i < self.counts.len() ==> (self.counts[i] as int) < if i % 2 == 0 {
                self.size[1] as int
            } else {
                self.size[0] as int
            }
    }
}

/// A size-less polygon contour set: one coordinate list per contour,
/// used where width and height are supplied externally.
pub type Polygon = Vec<Vec<u32>>;

/// A segmentation in exactly one of the four representations.
#[derive(Debug, PartialEq, Eq)]
pub enum Segmentation {
    Rle(Rle),
    EncodedRle(EncodedRle),
    PolygonRS(PolygonRS),
    Polygon(Polygon),
}

/// The mathematical content of a [`Segmentation`].
pub enum SegmentationView {
    Rle(RleView),
    EncodedRle(EncodedRleView),
    PolygonRS(PolygonRSView),
    Polygon(Seq<Seq<u32>>),
}

impl View for Segmentation {
    type V = SegmentationView;

    open spec fn view(&self) -> SegmentationView {
        match self {
            Segmentation::Rle(rle) => SegmentationView::Rle(rle@),
            Segmentation::EncodedRle(enc) => SegmentationView::EncodedRle(enc@),
            Segmentation::PolygonRS(poly) => SegmentationView::PolygonRS(poly@),
            Segmentation::Polygon(poly) => SegmentationView::Polygon(poly.deep_view()),
        }
    }
}

/// Copies a vector of run lengths or coordinates.
pub fn clone_u32_vec(v: &Vec<u32>) -> (r: Vec<u32>)
    ensures
        r@ == v@,
{
    let r = v.clone();
    proof {
        assert(r@ =~= v@);
    }
    r
}

/// Copies a contour list.
pub fn clone_polygon(poly: &Polygon) -> (r: Polygon)
    ensures
        r.deep_view() == poly.deep_view(),
{
    let mut r: Polygon = Vec::new();
    let mut i: usize = 0;
    while i < poly.len()
        invariant
            i <= poly@.len(),
            r@.len() == i as int,
            forall|k: int| 0 <= k < i as int ==> r@[k]@ == poly@[k]@,
        decreases poly@.len() - i as int,
    {
        r.push(clone_u32_vec(&poly[i]));
        i = i + 1;
    }
    proof {
        assert(r.deep_view() =~~= poly.deep_view());
    }
    r
}

impl Clone for Rle {
    fn clone(&self) -> (res: Self)
        ensures
            res@ == self@,
    {
        Rle { size: clone_u32_vec(&self.size), counts: clone_u32_vec(&self.counts) }
    }
}

impl Clone for EncodedRle {
    fn clone(&self) -> (res: Self)
        ensures
            res@ == self@,
    {
        EncodedRle { size: clone_u32_vec(&self.size), counts: self.counts.clone() }
    }
}

impl Clone for PolygonRS {
    fn clone(&self) -> (res: Self)
        ensures
            res@ == self@,
    {
        PolygonRS { size: clone_u32_vec(&self.size), counts: clone_u32_vec(&self.counts) }
    }
}

impl Clone for Segmentation {
    fn clone(&self) -> (res: Self)
        ensures
            res@ == self@,
    {
        match self {
            Segmentation::Rle(rle) => Segmentation::Rle(rle.clone()),
            Segmentation::EncodedRle(enc) => Segmentation::EncodedRle(enc.clone()),
            Segmentation::PolygonRS(poly) => Segmentation::PolygonRS(poly.clone()),
            Segmentation::Polygon(poly) => Segmentation::Polygon(clone_polygon(poly)),
        }
    }
}

/// One object-instance record; it owns exactly one segmentation value,
/// and every other field passes through conversions unmodified.
#[derive(Debug, PartialEq, Eq)]
pub struct Annotation {
    pub id: u64,
    pub image_id: u64,
    pub category_id: u32,
    pub segmentation: Segmentation,
    pub iscrowd: u32,
}

/// The mathematical content of an [`Annotation`].
pub struct AnnotationView {
    pub id: u64,
    pub image_id: u64,
    pub category_id: u32,
    pub segmentation: SegmentationView,
    pub iscrowd: u32,
}

impl View for Annotation {
    type V = AnnotationView;

    open spec fn view(&self) -> AnnotationView {
        AnnotationView {
            id: self.id,
            image_id: self.image_id,
            category_id: self.category_id,
            segmentation: self.segmentation@,
            iscrowd: self.iscrowd,
        }
    }
}

impl Clone for Annotation {
    fn clone(&self) -> (res: Self)
        ensures
            res@ == self@,
    {
        Annotation {
            id: self.id,
            image_id: self.image_id,
            category_id: self.category_id,
            segmentation: self.segmentation.clone(),
            iscrowd: self.iscrowd,
        }
    }
}

/// A dataset of annotations, each reachable by its identifier.
#[derive(Debug)]
pub struct HashmapDataset {
    pub anns: Vec<Annotation>,
}

impl View for HashmapDataset {
    type V = Seq<AnnotationView>;

    open spec fn view(&self) -> Seq<AnnotationView> {
        self.anns@.map_values(|a: Annotation| a@)
    }
}

impl HashmapDataset {
    /// No two stored annotations share an identifier.
    pub open spec fn wf(&self) -> bool {
        forall|i: int, j: int|
            #![trigger self@[i].id, self@[j].id]
            0 <= i < j < self@.len() ==> self@[i].id != self@[j].id
    }

    /// An empty dataset.
    pub fn new() -> (d: HashmapDataset)
        ensures
            d.wf(),
            d@.len() == 0,
    {
        HashmapDataset { anns: Vec::new() }
    }

    /// The annotations currently stored, in storage order.
    pub fn get_anns(&self) -> (r: &Vec<Annotation>)
        ensures
            r@.map_values(|a: Annotation| a@) == self@,
    {
        &self.anns
    }

    /// The annotation with the given identifier, if any.
    pub fn get_ann(&self, id: u64) -> (r: Option<&Annotation>)
        requires
            self.wf(),
        ensures
            match r {
                Some(ann) => exists|i: int| 0 <= i < self@.len() && self@[i] == ann@ && ann@.id == id,
                None => forall|i: int| 0 <= i < self@.len() ==> self@[i].id != id,
            },
    {
        let mut i: usize = 0;
        while i < self.anns.len()
            invariant
                i <= self@.len(),
                forall|j: int| 0 <= j < i as int ==> self@[j].id != id,
            decreases self@.len() - i as int,
        {
            if self.anns[i].id == id {
                proof {
                    assert(0 <= (i as int) < self@.len() && self@[i as int] == self.anns@[i as int]@
                        && self@[i as int].id == id);
                }
                return Some(&self.anns[i]);
            }
            i = i + 1;
        }
        None
    }

    /// Inserts the annotation, replacing any stored annotation that has
    /// the same identifier.
    pub fn add_ann(&mut self, ann: &Annotation)
        requires
            old(self).wf(),
        ensures
            final(self).wf(),
            if exists|i: int| 0 <= i < old(self)@.len() && old(self)@[i].id == ann@.id {
                final(self)@ == old(self)@.update(
                    choose|i: int| 0 <= i < old(self)@.len() && old(self)@[i].id == ann@.id,
                    ann@,
                )
            } else {
                final(self)@ == old(self)@.push(ann@)
            },
    {
        let mut i: usize = 0;
        while i < self.anns.len()
            invariant
                *self == *old(self),
                old(self).wf(),
                i <= self@.len(),
                forall|j: int| 0 <= j < i as int ==> self@[j].id != ann@.id,
            decreases self@.len() - i as int,
        {
            if self.anns[i].id == ann.id {
                self.anns.set(i, ann.clone());
                proof {
                    let s0 = old(self)@;
                    assert(self@ =~= s0.update(i as int, ann@));
                    assert(forall|x: int| 0 <= x < self@.len() ==> self@[x].id == s0[x].id);
                    assert forall|a: int, b: int| 0 <= a < b < self@.len() implies self@[a].id
                        != self@[b].id by {
                        assert(0 <= a < b < s0.len());
                        assert(s0[a].id != s0[b].id);
                        assert(self@[a].id == s0[a].id);
                        assert(self@[b].id == s0[b].id);
                    }
                    assert forall|k: int|
                        0 <= k < s0.len() && s0[k].id == ann@.id implies k == i as int by {
                        if k < i as int {
                            assert(s0[k].id != s0[i as int].id);
                        } else if k > i as int {
                            assert(s0[i as int].id != s0[k].id);
                        }
                    }
                }
                return ;
            }
            i = i + 1;
        }
        self.anns.push(ann.clone());
        proof {
            let s0 = old(self)@;
            assert(self@ =~= s0.push(ann@));
            assert forall|a: int, b: int| 0 <= a < b < self@.len() implies self@[a].id
                != self@[b].id by {
                if b < s0.len() {
                    assert(s0[a].id != s0[b].id);
                } else {
                    assert(self@[b] == ann@);
                    assert(s0[a].id != ann@.id);
                }
            }
        }
    }
}

} // verus!
