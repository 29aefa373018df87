//! What layout knows about images: a snapshot of sizes, no network.

use vstd::prelude::*;

use crate::cells::fit_wide;
use crate::dom::NodeId;
use crate::style::nearest;

verus! {

/// One discovered image and its natural size in cells.
#[derive(Debug)]
pub struct ImageEntry {
    pub node: NodeId,
    /// Absolute URL.
    pub url: String,
    pub alt: String,
    pub cells_w: u16,
    pub cells_h: u16,
    /// The size is known, so a late decode changes nothing.
    pub firm: bool,
}

/// The value of an [`ImageEntry`].
pub struct ImageView {
    pub url: Seq<char>,
    pub alt: Seq<char>,
    pub cells_w: u16,
    pub cells_h: u16,
    pub firm: bool,
}

impl View for ImageEntry {
    type V = ImageView;

    open spec fn view(&self) -> ImageView {
        ImageView {
            url: self.url@,
            alt: self.alt@,
            cells_w: self.cells_w,
            cells_h: self.cells_h,
            firm: self.firm,
        }
    }
}

/// The images of a page.
#[derive(Debug)]
pub enum ImageContext {
    /// No image is known.
    Nothing,
    Known(Vec<ImageEntry>),
}

/// The first entry from the `i`th on for that node.
pub open spec fn image_from(entries: Seq<ImageEntry>, node: NodeId, i: int) -> Option<ImageView>
    decreases entries.len() - i,
{
    if i >= entries.len() {
        None
    } else if entries[i].node == node {
        Some(entries[i]@)
    } else {
        image_from(entries, node, i + 1)
    }
}

/// An image's cell size in a column `containing` cells wide: its natural size,
/// scaled down to the column where it is wider.
pub open spec fn image_size(img: ImageView, containing: i32) -> (i32, i32) {
    if img.cells_w > containing && containing >= 1 {
        (containing, nearest(img.cells_h * containing, img.cells_w as int) as i32)
    } else {
        (img.cells_w as i32, img.cells_h as i32)
    }
}

impl ImageContext {
    /// No image is known.
    pub fn empty() -> (r: ImageContext)
        ensures
            r == ImageContext::Nothing,
    {
        ImageContext::Nothing
    }

    /// The image of a node, if one was discovered there.
    pub open spec fn of(&self, node: NodeId) -> Option<ImageView> {
        match self {
            ImageContext::Nothing => None,
            ImageContext::Known(entries) => image_from(entries@, node, 0),
        }
    }

    /// See [`of`](Self::of).
    pub fn get(&self, node: NodeId) -> (r: Option<&ImageEntry>)
        ensures
            (match r {
                Some(e) => self.of(node) == Some(e@),
                None => self.of(node) == None::<ImageView>,
            }),
    {
        let entries: &Vec<ImageEntry> = match self {
            ImageContext::Nothing => {
                return None;
            },
            ImageContext::Known(entries) => entries,
        };
        let mut i: usize = 0;
        while i < entries.len()
            invariant
                i <= entries@.len(),
                image_from(entries@, node, 0) == image_from(entries@, node, i as int),
                self.of(node) == image_from(entries@, node, 0),
            decreases entries@.len() - i,
        {
            if entries[i].node == node {
                return Some(&entries[i]);
            }
            i += 1;
        }
        None
    }

    /// See [`image_size`].
    pub fn size_for(&self, img: &ImageEntry, containing: i32) -> (r: (i32, i32, bool))
        ensures
            (r.0, r.1) == image_size(img@, containing),
            r.2 == img@.firm,
    {
        if img.cells_w as i32 > containing && containing >= 1 {
            let d: i128 = img.cells_w as i128;
            proof {
                scaling_keeps_the_range(img.cells_h as int, containing as int, d as int);
                assert(0 <= img.cells_h * containing <= 0x1_0000 * 0x8000_0000) by (nonlinear_arith)
                    requires
                        0 <= img.cells_h < 0x1_0000,
                        1 <= containing <= 0x7fff_ffff,
                ;
            }
            let n: i128 = img.cells_h as i128 * containing as i128;
            let h: i128 = (2 * n + d) / (2 * d);
            (containing, fit_wide(h), img.firm)
        } else {
            (img.cells_w as i32, img.cells_h as i32, img.firm)
        }
    }
}

/// Scaling a height down by `c / w` keeps it within its own range.
proof fn scaling_keeps_the_range(h: int, c: int, w: int)
    requires
        1 <= c < w,
        0 <= h,
    ensures
        0 <= nearest(h * c, w) <= h,
{
    let a = h * c;
    assert(0 <= a && 2 * a + w <= (2 * w) * h + w) by (nonlinear_arith)
        requires
            a == h * c,
            1 <= c < w,
            0 <= h,
    ;
    assert(0 <= (2 * a + w) / (2 * w) <= h) by (nonlinear_arith)
        requires
            0 <= a,
            1 < w,
            0 <= h,
            2 * a + w <= (2 * w) * h + w,
    ;
}

impl Default for ImageContext {
    fn default() -> (r: ImageContext)
        ensures
            r == ImageContext::Nothing,
    {
        ImageContext::Nothing
    }
}

} // verus!
