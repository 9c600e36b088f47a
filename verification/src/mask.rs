//! Dense binary masks: a `height x width` grid of pixels, each 0
//! (background) or 1 (foreground), stored in column-major order so that
//! the run-length traversal of the grid is the linear order of `data`.

use vstd::arithmetic::div_mod::{
    lemma_fundamental_div_mod_converse_div, lemma_fundamental_div_mod_converse_mod,
};
use vstd::arithmetic::mul::lemma_mul_inequality;
use vstd::prelude::*;

verus! {

/// A boolean mask indicating for each pixel whether it belongs to the
/// object or not. `data[c * height + r]` is the pixel at row `r`,
/// column `c`.
#[derive(Debug, PartialEq, Eq)]
pub struct Mask {
    pub height: u32,
    pub width: u32,
    pub data: Vec<u8>,
}

impl Mask {
    /// The grid really is `height x width`, every pixel is 0 or 1, and
    /// the pixel count is representable as a run length.
    pub open spec fn wf(&self) -> bool {
        &&& self.data@.len() == (self.height as int) * (self.width as int)
        &&& (self.height as int) * (self.width as int) <= u32::MAX as int
        &&& forall|i: int| 0 <= i < self.data@.len() ==> self.data@[i] <= 1
    }

    /// Position of pixel (r, c) in the column-major linear order.
    pub open spec fn spec_index_of(&self, r: int, c: int) -> int {
        c * (self.height as int) + r
    }

    /// The pixel at row `r`, column `c`.
    pub open spec fn spec_pixel(&self, r: int, c: int) -> u8 {
        self.data@[self.spec_index_of(r, c)]
    }

    /// Two grid positions share a linear index only if they are the
    /// same position.
    pub proof fn lemma_index_injective(&self, r1: int, c1: int, r2: int, c2: int)
        requires
            0 <= r1 < self.height as int,
            0 <= c1 < self.width as int,
            0 <= r2 < self.height as int,
            0 <= c2 < self.width as int,
            self.spec_index_of(r1, c1) == self.spec_index_of(r2, c2),
        ensures
            r1 == r2 && c1 == c2,
    {
        let h = self.height as int;
        lemma_fundamental_div_mod_converse_mod(c1 * h + r1, h, c1, r1);
        lemma_fundamental_div_mod_converse_mod(c2 * h + r2, h, c2, r2);
        lemma_fundamental_div_mod_converse_div(c1 * h + r1, h, c1, r1);
        lemma_fundamental_div_mod_converse_div(c2 * h + r2, h, c2, r2);
    }

    /// Every linear index of a grid position is within the data buffer.
    pub proof fn lemma_index_in_range(&self, r: int, c: int)
        requires
            self.wf(),
            0 <= r < self.height as int,
            0 <= c < self.width as int,
        ensures
            0 <= self.spec_index_of(r, c) < self.data@.len(),
    {
        let h = self.height as int;
        let w = self.width as int;
        lemma_mul_inequality(c + 1, w, h);
        assert((c + 1) * h == c * h + h) by (nonlinear_arith);
    }

    /// An all-background mask of the given dimensions.
    pub fn new(height: u32, width: u32) -> (m: Mask)
        requires
            (height as int) * (width as int) <= u32::MAX as int,
        ensures
            m.wf(),
            m.height == height,
            m.width == width,
            forall|i: int| 0 <= i < m.data@.len() ==> m.data@[i] == 0u8,
    {
        let n: usize = (height as usize) * (width as usize);
        let data: Vec<u8> = vec![0u8; n];
        Mask { height, width, data }
    }

    /// Reads the pixel at row `r`, column `c`.
    pub fn get(&self, r: u32, c: u32) -> (v: u8)
        requires
            self.wf(),
            r < self.height,
            c < self.width,
        ensures
            v == self.spec_pixel(r as int, c as int),
    {
        proof {
            self.lemma_index_in_range(r as int, c as int);
        }
        let idx: usize = (c as usize) * (self.height as usize) + (r as usize);
        self.data[idx]
    }

    /// Writes the pixel at row `r`, column `c`; every other pixel keeps
    /// its value.
    pub fn set(&mut self, r: u32, c: u32, v: u8)
        requires
            old(self).wf(),
            r < old(self).height,
            c < old(self).width,
            v <= 1,
        ensures
            final(self).wf(),
            final(self).height == old(self).height,
            final(self).width == old(self).width,
            final(self).data@ == old(self).data@.update(
                old(self).spec_index_of(r as int, c as int),
                v,
            ),
            final(self).spec_pixel(r as int, c as int) == v,
            forall|r2: int, c2: int|
                0 <= r2 < old(self).height as int && 0 <= c2 < old(self).width as int && !(r2 == r
                    as int && c2 == c as int) ==> final(self).spec_pixel(r2, c2) == old(
                    self,
                ).spec_pixel(r2, c2),
    {
        proof {
            self.lemma_index_in_range(r as int, c as int);
        }
        let idx: usize = (c as usize) * (self.height as usize) + (r as usize);
        self.data.set(idx, v);
        proof {
            assert forall|r2: int, c2: int|
                0 <= r2 < self.height as int && 0 <= c2 < self.width as int && !(r2 == r as int
                    && c2 == c as int) implies self.spec_pixel(r2, c2) == old(self).spec_pixel(
                r2,
                c2,
            ) by {
                old(self).lemma_index_in_range(r2, c2);
                if old(self).spec_index_of(r2, c2) == old(self).spec_index_of(r as int, c as int) {
                    old(self).lemma_index_injective(r2, c2, r as int, c as int);
                }
            }
        }
    }

    /// Builds a mask from its pixels listed row by row, the order in
    /// which a grid is usually written down.
    pub fn from_row_major(height: u32, width: u32, vals: &Vec<u8>) -> (m: Mask)
        requires
            (height as int) * (width as int) <= u32::MAX as int,
            vals@.len() == (height as int) * (width as int),
            forall|i: int| 0 <= i < vals@.len() ==> vals@[i] <= 1,
        ensures
            m.wf(),
            m.height == height,
            m.width == width,
            forall|r: int, c: int|
                0 <= r < height as int && 0 <= c < width as int ==> m.spec_pixel(r, c) == vals@[r
                    * (width as int) + c],
    {
        let mut m = Mask::new(height, width);
        let mut r: u32 = 0;
        while r < height
            invariant
                m.wf(),
                m.height == height,
                m.width == width,
                r <= height,
                vals@.len() == (height as int) * (width as int),
                forall|i: int| 0 <= i < vals@.len() ==> vals@[i] <= 1,
                forall|r2: int, c2: int|
                    0 <= r2 < r as int && 0 <= c2 < width as int ==> m.spec_pixel(r2, c2)
                        == vals@[r2 * (width as int) + c2],
            decreases height as int - r as int,
        {
            let mut c: u32 = 0;
            while c < width
                invariant
                    m.wf(),
                    m.height == height,
                    m.width == width,
                    r < height,
                    c <= width,
                    vals@.len() == (height as int) * (width as int),
                    forall|i: int| 0 <= i < vals@.len() ==> vals@[i] <= 1,
                    forall|r2: int, c2: int|
                        0 <= r2 < r as int && 0 <= c2 < width as int ==> m.spec_pixel(r2, c2)
                            == vals@[r2 * (width as int) + c2],
                    forall|c2: int|
                        0 <= c2 < c as int ==> m.spec_pixel(r as int, c2) == vals@[(r as int) * (
                        width as int) + c2],
                decreases width as int - c as int,
            {
                proof {
                    lemma_mul_inequality(r as int + 1, height as int, width as int);
                    assert((r as int + 1) * (width as int) == (r as int) * (width as int) + (width
                        as int)) by (nonlinear_arith);
                }
                let idx: usize = (r as usize) * (width as usize) + (c as usize);
                m.set(r, c, vals[idx]);
                c = c + 1;
            }
            r = r + 1;
        }
        m
    }
}

} // verus!
