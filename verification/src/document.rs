//! What callers ask of layout: a document's tree or its lines, and a page that
//! hides everything shown all the same.

use vstd::prelude::*;

use crate::boxes::{in_range, paint_order, BoxId, BoxKind, BoxView, LayoutBox, LayoutTree, TreeView};
use crate::boxmodel::Hidden;
use crate::context::Ctx;
use crate::dom::Dom;
use crate::image::ImageContext;
use crate::lines::{from_tree, lines_of_tree, rows_fit, Line};
use crate::page::{layout_tree, layout_tree_with};
use crate::style::Styles;
use crate::views::views;

verus! {

broadcast use crate::views::group_views;

/// A box that puts something on screen. A form is content too.
pub open spec fn shows_content(b: BoxView) -> bool {
    match b.kind {
        BoxKind::Text => b.text matches Some(t) && t.len() > 0,
        BoxKind::Image => true,
        BoxKind::Field(_) => true,
        _ => false,
    }
}

fn is_content(b: &LayoutBox) -> (r: bool)
    ensures
        r == shows_content(b@),
{
    match b.kind {
        BoxKind::Text => match &b.text {
            Some(t) => !t.as_str().is_empty(),
            None => false,
        },
        BoxKind::Image => true,
        BoxKind::Field(_) => true,
        _ => false,
    }
}

/// A tree that puts something on screen: it has rows, and some box in it shows
/// content.
pub open spec fn can_be_read(tree: TreeView) -> bool {
    let walk = paint_order(tree.boxes, tree.boxes.len(), tree.root);
    tree.height > 0 && exists|i: int|
        0 <= i < walk.len() && shows_content(tree.boxes[(#[trigger] walk[i]).0 as int])
}

/// See [`can_be_read`].
pub fn has_visible_content(tree: &LayoutTree) -> (r: bool)
    ensures
        r == can_be_read(tree@),
{
    if tree.height <= 0 {
        return false;
    }
    let walk: Vec<BoxId> = tree.walk(tree.root);
    let mut i: usize = 0;
    while i < walk.len()
        invariant
            tree.height > 0,
            walk@ == paint_order(tree.list(), tree.depth(), tree.root),
            in_range(walk@, tree.boxes@.len()),
            i <= walk@.len(),
            forall|k: int|
                0 <= k < i ==> !shows_content(tree.list()[(#[trigger] walk@[k]).0 as int]),
        decreases walk@.len() - i,
    {
        proof {
            assert(walk@[i as int].0 < tree.boxes@.len());
        }
        if is_content(tree.get(walk[i])) {
            proof {
                let page = tree@;
                assert(walk@ == paint_order(page.boxes, page.boxes.len(), page.root));
                assert(shows_content(page.boxes[walk@[i as int].0 as int]));
            }
            return true;
        }
        i += 1;
    }
    false
}

/// Which of a document's two trees is the page, and whether it hid itself and
/// was overruled.
pub open spec fn readable(respect: TreeView, reveal: TreeView) -> (TreeView, bool) {
    if !can_be_read(respect) && can_be_read(reveal) {
        (reveal, true)
    } else {
        (respect, false)
    }
}

/// A page is blank only if there is nothing to show either way, and what the
/// page hid is revealed only if it would otherwise be blank.
pub proof fn a_page_is_never_blank_without_need(respect: TreeView, reveal: TreeView)
    ensures
        can_be_read(readable(respect, reveal).0) == (can_be_read(respect) || can_be_read(reveal)),
        readable(respect, reveal).1 ==> !can_be_read(respect),
        can_be_read(respect) ==> readable(respect, reveal) == (respect, false),
{
}

/// The tree of a page: the one that honours `display: none`, or the revealed
/// one when that leaves nothing to read. The flag says that the page hid itself
/// and was overruled.
pub fn layout_document_readable(
    dom: &Dom,
    styles: &Styles,
    width: u16,
    images: &ImageContext,
) -> (r: (LayoutTree, bool))
    requires
        dom.wf(),
    ensures
        (r.0@, r.1) == readable(
            (Ctx { dom, styles, images, hidden: Hidden::Respect }).page(width, 1),
            (Ctx { dom, styles, images, hidden: Hidden::Reveal }).page(width, 1),
        ),
        r.0.of(dom),
        r.0.sized(),
{
    let tree: LayoutTree = layout_tree_with(dom, styles, width, Hidden::Respect, images);
    if has_visible_content(&tree) {
        return (tree, false);
    }
    let revealed: LayoutTree = layout_tree_with(dom, styles, width, Hidden::Reveal, images);
    if has_visible_content(&revealed) {
        (revealed, true)
    } else {
        (tree, false)
    }
}

/// The lines of [`layout_document_readable`].
pub fn layout_readable_with(dom: &Dom, styles: &Styles, width: u16, images: &ImageContext) -> (r: (
    Vec<Line>,
    bool,
))
    requires
        dom.wf(),
    ensures
        ({
            let page = readable(
                (Ctx { dom, styles, images, hidden: Hidden::Respect }).page(width, 1),
                (Ctx { dom, styles, images, hidden: Hidden::Reveal }).page(width, 1),
            );
            views(r.0@) == lines_of_tree(page.0) && r.1 == page.1
        }),
{
    let (tree, revealed): (LayoutTree, bool) = layout_document_readable(
        dom,
        styles,
        width,
        images,
    );
    (from_tree(&tree), revealed)
}

/// [`layout_readable_with`] with no known images.
pub fn layout_readable(dom: &Dom, styles: &Styles, width: u16) -> (r: (Vec<Line>, bool))
    requires
        dom.wf(),
    ensures
        ({
            let images = &ImageContext::Nothing;
            let page = readable(
                (Ctx { dom, styles, images, hidden: Hidden::Respect }).page(width, 1),
                (Ctx { dom, styles, images, hidden: Hidden::Reveal }).page(width, 1),
            );
            views(r.0@) == lines_of_tree(page.0) && r.1 == page.1
        }),
{
    let images: ImageContext = ImageContext::empty();
    layout_readable_with(dom, styles, width, &images)
}

/// Lay the document out and return its lines.
pub fn layout(dom: &Dom, styles: &Styles, width: u16, hidden: Hidden) -> (r: Vec<Line>)
    requires
        dom.wf(),
    ensures
        views(r@) == lines_of_tree(
            (Ctx { dom, styles, images: &ImageContext::Nothing, hidden }).page(width, 1),
        ),
        rows_fit((Ctx { dom, styles, images: &ImageContext::Nothing, hidden }).page(width, 1)),
{
    let images: ImageContext = ImageContext::empty();
    from_tree(&layout_tree_with(dom, styles, width, hidden, &images))
}

/// The full box tree.
pub fn layout_document(dom: &Dom, styles: &Styles, width: u16, hidden: Hidden) -> (r: LayoutTree)
    requires
        dom.wf(),
    ensures
        r@ == (Ctx { dom, styles, images: &ImageContext::Nothing, hidden }).page(width, 1),
        r.of(dom),
        r.sized(),
{
    layout_tree(dom, styles, width, hidden)
}

/// The full box tree, with what is known about the images.
pub fn layout_document_with(
    dom: &Dom,
    styles: &Styles,
    width: u16,
    hidden: Hidden,
    images: &ImageContext,
) -> (r: LayoutTree)
    requires
        dom.wf(),
    ensures
        r@ == (Ctx { dom, styles, images, hidden }).page(width, 1),
        r.of(dom),
        r.sized(),
{
    layout_tree_with(dom, styles, width, hidden, images)
}

/// Rasterise a laid-out tree: the tree that is painted is the tree that is
/// read.
pub fn lines_from_tree(tree: &LayoutTree) -> (r: Vec<Line>)
    ensures
        views(r@) == lines_of_tree(tree@),
        rows_fit(tree@),
{
    from_tree(tree)
}

} // verus!
