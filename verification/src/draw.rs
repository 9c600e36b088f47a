//! The drawing options and color choices used when annotations are
//! painted over an image, and the pixel packing used when a painted
//! image is handed to a framebuffer window.

use vstd::prelude::*;

verus! {

/// The fixed palette that annotation colors are drawn from.
pub open spec fn spec_color_palette() -> Seq<(u8, u8, u8)> {
    seq![
        (0u8, 255u8, 127u8),
        (255u8, 105u8, 180u8),
        (255u8, 99u8, 71u8),
        (255u8, 215u8, 0u8),
        (188u8, 143u8, 143u8),
        (0u8, 191u8, 255u8),
        (143u8, 188u8, 143u8),
        (238u8, 130u8, 238u8),
        (154u8, 205u8, 50u8),
        (205u8, 133u8, 63u8),
        (30u8, 144u8, 255u8),
        (112u8, 128u8, 144u8),
        (127u8, 255u8, 212u8),
        (51u8, 153u8, 255u8),
        (0u8, 255u8, 255u8),
        (138u8, 43u8, 226u8),
        (165u8, 42u8, 42u8),
        (216u8, 191u8, 216u8),
        (240u8, 255u8, 255u8),
        (95u8, 158u8, 160u8),
    ]
}

/// The palette as a vector: spring green, hot pink, tomato, gold,
/// rosy brown, deep sky blue, dark sea green, violet, yellow green,
/// peru, dodger blue, slate gray, aqua marine, blue, cyan, blue
/// violet, brown, thistle, azure, cadet blue.
pub fn color_palette() -> (r: Vec<(u8, u8, u8)>)
    ensures
        r@ == spec_color_palette(),
        r@.len() == 20,
{
    let mut r: Vec<(u8, u8, u8)> = Vec::new();
    r.push((0, 255, 127));
    r.push((255, 105, 180));
    r.push((255, 99, 71));
    r.push((255, 215, 0));
    r.push((188, 143, 143));
    r.push((0, 191, 255));
    r.push((143, 188, 143));
    r.push((238, 130, 238));
    r.push((154, 205, 50));
    r.push((205, 133, 63));
    r.push((30, 144, 255));
    r.push((112, 128, 144));
    r.push((127, 255, 212));
    r.push((51, 153, 255));
    r.push((0, 255, 255));
    r.push((138, 43, 226));
    r.push((165, 42, 42));
    r.push((216, 191, 216));
    r.push((240, 255, 255));
    r.push((95, 158, 160));
    proof {
        assert(r@ =~= spec_color_palette());
    }
    r
}

/// The palette color for annotation number `n`: colors repeat every
/// twenty annotations.
pub fn get_color(n: usize) -> (c: (u8, u8, u8))
    ensures
        c == spec_color_palette()[n as int % 20],
{
    let palette = color_palette();
    palette[n % palette.len()]
}

/// Packs one RGB pixel into a `0RGB` 32-bit value with a fully opaque
/// alpha channel, the layout framebuffer windows want.
pub fn pack_0rgb(r: u8, g: u8, b: u8) -> (p: u32)
    ensures
        p == 0xFF00_0000u32 + (r as u32) * 0x1_0000 + (g as u32) * 0x100 + (b as u32),
{
    0xFF00_0000u32 + (r as u32) * 0x1_0000 + (g as u32) * 0x100 + (b as u32)
}

/// How annotations are painted: whether bounding boxes and masks are
/// drawn, in which color, and how thick a bounding box is.
#[derive(Debug, Clone, Copy)]
pub struct DrawOption {
    pub with_bbox: bool,
    pub with_mask: bool,
    pub color: (u8, u8, u8),
    pub bbox_thickness: u32,
}

impl Default for DrawOption {
    /// Nothing drawn yet, in the second palette color, with a box
    /// five pixels thick.
    fn default() -> (d: Self)
        ensures
            d.with_bbox == false,
            d.with_mask == false,
            d.color == spec_color_palette()[1],
            d.bbox_thickness == 5,
    {
        DrawOption {
            with_bbox: false,
            with_mask: false,
            color: get_color(1),
            bbox_thickness: 5,
        }
    }
}

impl DrawOption {
    /// The default options.
    pub fn new() -> (d: Self)
        ensures
            d.with_bbox == false,
            d.with_mask == false,
            d.color == spec_color_palette()[1],
            d.bbox_thickness == 5,
    {
        DrawOption::default()
    }

    /// The same options with bounding-box drawing switched.
    pub fn with_bbox(self, x: bool) -> (d: Self)
        ensures
            d == (DrawOption { with_bbox: x, ..self }),
    {
        DrawOption { with_bbox: x, ..self }
    }

    /// The same options with mask drawing switched.
    pub fn with_mask(self, x: bool) -> (d: Self)
        ensures
            d == (DrawOption { with_mask: x, ..self }),
    {
        DrawOption { with_mask: x, ..self }
    }

    /// The same options in another color.
    pub fn color(self, x: (u8, u8, u8)) -> (d: Self)
        ensures
            d == (DrawOption { color: x, ..self }),
    {
        DrawOption { color: x, ..self }
    }

    /// The same options with another box thickness.
    pub fn bbox_thickness(self, x: u32) -> (d: Self)
        ensures
            d == (DrawOption { bbox_thickness: x, ..self }),
    {
        DrawOption { bbox_thickness: x, ..self }
    }
}

} // verus!
