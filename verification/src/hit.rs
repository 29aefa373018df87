//! Hit-testing and link discovery over the layout tree.
//!
//! Pure queries: document cells in, nodes out. Content clipped away by
//! `overflow` is not here: a box that the reader cannot see is not clickable
//! and gets no link hint. The rule is [`Clip`]'s, the one that paint trims with.

use vstd::prelude::*;

use crate::boxes::{
    boxes_known, clipped_children, clipped_order, in_range, known, paint_order, pairs_in_range,
    BoxId, BoxView, LayoutBox, LayoutTree,
};
use crate::clip::Clip;
use crate::dimensions::Rect;
use crate::dom::{Dom, NodeData, NodeId};
use crate::field::{kind, kind_of, Kind};
use crate::text::{alike, owned, same_word};
use crate::views::views;

verus! {

broadcast use crate::views::group_views;

/// One link found in the layout tree, with the position of its first visible
/// fragment in document cells.
#[derive(Debug, PartialEq, Eq)]
pub struct LinkHit {
    pub node: NodeId,
    pub href: String,
    pub x: i32,
    pub y: i32,
}

/// The value of a [`LinkHit`].
pub struct LinkView {
    pub node: NodeId,
    pub href: Seq<char>,
    pub x: i32,
    pub y: i32,
}

impl View for LinkHit {
    type V = LinkView;

    open spec fn view(&self) -> LinkView {
        LinkView { node: self.node, href: self.href@, x: self.x, y: self.y }
    }
}

/// An `<a>` with an `href`.
pub open spec fn is_link(dom: &Dom, id: NodeId) -> bool {
    dom.is_element(id) && alike(dom.tag_of(id), "a"@) && dom.attr_of(id, "href"@) is Some
}

pub open spec fn href_of(dom: &Dom, id: NodeId) -> Seq<char> {
    dom.attr_of(id, "href"@)->0
}

/// The nearest link at or above a node.
pub open spec fn link_above(dom: &Dom, id: NodeId) -> Option<NodeId>
    decreases dom.climb(id),
    when dom.wf() && dom.has(id)
    via link_climbs
{
    if is_link(dom, id) {
        Some(id)
    } else {
        match dom.parent_of(id) {
            Some(p) => link_above(dom, p),
            None => None,
        }
    }
}

#[via_fn]
proof fn link_climbs(dom: &Dom, id: NodeId) {
    if dom.parent_of(id) is Some {
        dom.parents_are_nearer_the_peak(id);
    }
}

/// Where a node's `href` is, if it is a link.
fn link_href<'d>(dom: &'d Dom, id: NodeId) -> (r: Option<&'d str>)
    requires
        dom.wf(),
        dom.has(id),
    ensures
        r is Some == is_link(dom, id),
        r matches Some(h) ==> h@ == href_of(dom, id),
{
    match &dom.node(id).data {
        NodeData::Element { tag, .. } => if same_word(tag.as_str(), "a") {
            dom.attr(id, "href")
        } else {
            None
        },
        _ => None,
    }
}

/// Walk from `node` up to the nearest `<a href>`.
pub fn nearest_link(dom: &Dom, node: NodeId) -> (r: Option<(NodeId, String)>)
    requires
        dom.wf(),
        dom.has(node),
    ensures
        match link_above(dom, node) {
            Some(id) => r matches Some(found) && found.0 == id && found.1@ == href_of(dom, id),
            None => r is None,
        },
{
    let mut cur: NodeId = node;
    loop
        invariant
            dom.wf(),
            dom.has(cur),
            link_above(dom, node) == link_above(dom, cur),
        decreases dom.climb(cur),
    {
        match link_href(dom, cur) {
            Some(href) => {
                return Some((cur, owned(href)));
            },
            None => {},
        }
        match dom.parent(cur) {
            Some(p) => {
                proof {
                    dom.parents_are_nearer_the_peak(cur);
                }
                cur = p;
            },
            None => {
                return None;
            },
        }
    }
}

/// A form control that the Tab cycle stops at: it has a box and is not
/// disabled.
pub open spec fn is_field(dom: &Dom, id: NodeId) -> bool {
    dom.is_element(id) && dom.attr_of(id, "disabled"@) is None && (match kind_of(
        dom,
        id,
        dom.tag_of(id),
    ) {
        Some(k) => !(k is Absent),
        None => false,
    })
}

fn takes_focus(dom: &Dom, id: NodeId) -> (r: bool)
    requires
        dom.wf(),
        dom.has(id),
    ensures
        r == is_field(dom, id),
{
    match &dom.node(id).data {
        NodeData::Element { tag, .. } => !dom.has_attr(id, "disabled") && match kind(
            dom,
            id,
            tag.as_str(),
        ) {
            Some(k) => !matches!(k, Kind::Absent),
            None => false,
        },
        _ => false,
    }
}

/// The nearest control at or above a node.
pub open spec fn field_above(dom: &Dom, id: NodeId) -> Option<NodeId>
    decreases dom.climb(id),
    when dom.wf() && dom.has(id)
    via field_climbs
{
    if is_field(dom, id) {
        Some(id)
    } else {
        match dom.parent_of(id) {
            Some(p) => field_above(dom, p),
            None => None,
        }
    }
}

#[via_fn]
proof fn field_climbs(dom: &Dom, id: NodeId) {
    if dom.parent_of(id) is Some {
        dom.parents_are_nearer_the_peak(id);
    }
}

/// Walk from `node` up to the nearest control that takes focus.
pub fn nearest_field(dom: &Dom, node: NodeId) -> (r: Option<NodeId>)
    requires
        dom.wf(),
        dom.has(node),
    ensures
        r == field_above(dom, node),
{
    let mut cur: NodeId = node;
    loop
        invariant
            dom.wf(),
            dom.has(cur),
            field_above(dom, node) == field_above(dom, cur),
        decreases dom.climb(cur),
    {
        if takes_focus(dom, cur) {
            return Some(cur);
        }
        match dom.parent(cur) {
            Some(p) => {
                proof {
                    dom.parents_are_nearer_the_peak(cur);
                }
                cur = p;
            },
            None => {
                return None;
            },
        }
    }
}

#[verifier::allow_in_spec]
pub fn rect_holds(rect: Rect, x: i32, y: i32) -> (r: bool)
    returns
        (x >= rect.x && x < rect.right() && y >= rect.y && y < rect.bottom()),
{
    x >= rect.x && x < rect.right() && y >= rect.y && y < rect.bottom()
}

/// A box's own cells include this one, and the clips above it leave it visible.
pub open spec fn covers_cell(b: BoxView, clip: Clip, x: i32, y: i32) -> bool {
    clip.contains(x, y) && rect_holds(b.dimensions.border_box(), x, y)
}

/// The node of the topmost box of a subtree at a cell: a descendant before its
/// ancestor, a later sibling before an earlier one.
pub open spec fn hit_at(boxes: Seq<BoxView>, depth: nat, id: BoxId, x: i32, y: i32, clip: Clip) -> Option<
    NodeId,
>
    decreases depth, 0nat,
{
    if depth == 0 || id.0 >= boxes.len() {
        None
    } else {
        let b = boxes[id.0 as int];
        let inside = clip.inside_of(b);
        let below = if inside.is_empty() {
            None
        } else {
            hit_among(boxes, depth, b.children, b.children.len() as int, x, y, inside)
        };
        if below is Some {
            below
        } else if covers_cell(b, clip, x, y) {
            b.node
        } else {
            None
        }
    }
}

/// The hit of the last of the first `n` children that has one.
pub open spec fn hit_among(
    boxes: Seq<BoxView>,
    depth: nat,
    kids: Seq<BoxId>,
    n: int,
    x: i32,
    y: i32,
    clip: Clip,
) -> Option<NodeId>
    decreases depth, 0nat, n,
{
    if depth == 0 || n <= 0 {
        None
    } else {
        let last = hit_at(boxes, (depth - 1) as nat, kids[n - 1], x, y, clip);
        if last is Some {
            last
        } else {
            hit_among(boxes, depth, kids, n - 1, x, y, clip)
        }
    }
}

fn hit_box(boxes: &Vec<LayoutBox>, depth: usize, id: BoxId, x: i32, y: i32, clip: Clip) -> (r: Option<
    NodeId,
>)
    ensures
        r == hit_at(views(boxes@), depth as nat, id, x, y, clip),
    decreases depth,
{
    if depth == 0 || id.0 >= boxes.len() {
        return None;
    }
    let ghost all = views(boxes@);
    let b: &LayoutBox = &boxes[id.0];
    let inside: Clip = clip.inside(b);
    if !inside.is_empty() {
        let ghost kids = b.children@;
        let mut n: usize = b.children.len();
        while n > 0
            invariant
                depth > 0,
                all == views(boxes@),
                kids == b.children@,
                n <= kids.len(),
                hit_among(all, depth as nat, kids, kids.len() as int, x, y, inside) == hit_among(
                    all,
                    depth as nat,
                    kids,
                    n as int,
                    x,
                    y,
                    inside,
                ),
                b@ == all[id.0 as int],
                id.0 < all.len(),
                inside == clip.inside_of(b@),
                !inside.is_empty(),
            decreases n,
        {
            let found: Option<NodeId> = hit_box(boxes, depth - 1, b.children[n - 1], x, y, inside);
            if found.is_some() {
                return found;
            }
            n -= 1;
        }
    }
    if clip.contains(x, y) && rect_holds(b.dimensions.border_box(), x, y) {
        return b.node;
    }
    None
}

/// The deepest box at a cell that has a node and that the clips above it leave
/// visible.
pub fn hit_test(tree: &LayoutTree, x: i32, y: i32) -> (r: Option<NodeId>)
    ensures
        r == hit_at(tree.list(), tree.depth(), tree.root, x, y, Clip::none()),
{
    hit_box(&tree.boxes, tree.boxes.len(), tree.root, x, y, Clip::none())
}

/// A hit names a node of a box that shows that very cell.
pub proof fn a_hit_is_seen(boxes: Seq<BoxView>, depth: nat, id: BoxId, x: i32, y: i32, clip: Clip)
    ensures
        hit_at(boxes, depth, id, x, y, clip) matches Some(n) ==> exists|i: int|
            #![trigger clipped_order(boxes, depth, id, clip)[i]]
            {
                let walk = clipped_order(boxes, depth, id, clip);
                &&& 0 <= i < walk.len()
                &&& walk[i].0.0 < boxes.len()
                &&& boxes[walk[i].0.0 as int].node == Some(n)
                &&& covers_cell(boxes[walk[i].0.0 as int], walk[i].1, x, y)
            },
    decreases depth, 0nat,
{
    if depth == 0 || id.0 >= boxes.len() {
        return ;
    }
    let b = boxes[id.0 as int];
    let inside = clip.inside_of(b);
    let walk = clipped_order(boxes, depth, id, clip);
    if !inside.is_empty() && hit_among(
        boxes,
        depth,
        b.children,
        b.children.len() as int,
        x,
        y,
        inside,
    ) is Some {
        let kids = clipped_children(boxes, depth, b.children, 0, inside);
        let j = a_hit_among_is_seen(
            boxes,
            depth,
            b.children,
            b.children.len() as int,
            x,
            y,
            inside,
        );
        assert(walk[j + 1] == kids[j]);
    } else if covers_cell(b, clip, x, y) {
        assert(walk[0] == (id, clip));
    }
}

proof fn a_hit_among_is_seen(
    boxes: Seq<BoxView>,
    depth: nat,
    kids: Seq<BoxId>,
    n: int,
    x: i32,
    y: i32,
    clip: Clip,
) -> (j: int)
    requires
        0 <= n <= kids.len(),
        hit_among(boxes, depth, kids, n, x, y, clip) is Some,
    ensures
        ({
            let walk = clipped_children(boxes, depth, kids, 0, clip);
            &&& 0 <= j < walk.len()
            &&& walk[j].0.0 < boxes.len()
            &&& boxes[walk[j].0.0 as int].node == hit_among(boxes, depth, kids, n, x, y, clip)
            &&& covers_cell(boxes[walk[j].0.0 as int], walk[j].1, x, y)
        }),
    decreases depth, 0nat, n,
{
    let below = (depth - 1) as nat;
    let last = hit_at(boxes, below, kids[n - 1], x, y, clip);
    if last is Some {
        a_hit_is_seen(boxes, below, kids[n - 1], x, y, clip);
        let part = clipped_order(boxes, below, kids[n - 1], clip);
        let i = choose|i: int|
            #![trigger clipped_order(boxes, below, kids[n - 1], clip)[i]]
            {
                &&& 0 <= i < part.len()
                &&& part[i].0.0 < boxes.len()
                &&& boxes[part[i].0.0 as int].node == last
                &&& covers_cell(boxes[part[i].0.0 as int], part[i].1, x, y)
            };
        child_part(boxes, depth, kids, 0, n - 1, clip) + i
    } else {
        a_hit_among_is_seen(boxes, depth, kids, n - 1, x, y, clip)
    }
}

/// The node of the last of the first `n` boxes of a walk that have one and show
/// a cell.
pub open spec fn last_cover(
    boxes: Seq<BoxView>,
    walk: Seq<(BoxId, Clip)>,
    n: int,
    x: i32,
    y: i32,
) -> Option<NodeId>
    decreases n,
{
    if n <= 0 {
        None
    } else {
        let (id, clip) = walk[n - 1];
        let b = boxes[id.0 as int];
        if covers_cell(b, clip, x, y) && b.node is Some {
            b.node
        } else {
            last_cover(boxes, walk, n - 1, x, y)
        }
    }
}

proof fn last_cover_of_two(
    boxes: Seq<BoxView>,
    a: Seq<(BoxId, Clip)>,
    b: Seq<(BoxId, Clip)>,
    n: int,
    x: i32,
    y: i32,
)
    requires
        0 <= n <= b.len(),
    ensures
        last_cover(boxes, a + b, a.len() + n, x, y) == (if last_cover(boxes, b, n, x, y) is Some {
            last_cover(boxes, b, n, x, y)
        } else {
            last_cover(boxes, a, a.len() as int, x, y)
        }),
    decreases n,
{
    if n > 0 {
        assert((a + b)[a.len() + n - 1] == b[n - 1]);
        last_cover_of_two(boxes, a, b, n - 1, x, y);
    } else {
        last_cover_of_the_first(boxes, a, b, a.len() as int, x, y);
    }
}

proof fn last_cover_of_the_first(
    boxes: Seq<BoxView>,
    a: Seq<(BoxId, Clip)>,
    b: Seq<(BoxId, Clip)>,
    n: int,
    x: i32,
    y: i32,
)
    requires
        0 <= n <= a.len(),
    ensures
        last_cover(boxes, a + b, n, x, y) == last_cover(boxes, a, n, x, y),
    decreases n,
{
    if n > 0 {
        assert((a + b)[n - 1] == a[n - 1]);
        last_cover_of_the_first(boxes, a, b, n - 1, x, y);
    }
}

/// A hit is the last box of the walk that shows the cell, and there is none only
/// if no box with a node does.
pub proof fn a_hit_is_the_topmost(
    boxes: Seq<BoxView>,
    depth: nat,
    id: BoxId,
    x: i32,
    y: i32,
    clip: Clip,
)
    ensures
        hit_at(boxes, depth, id, x, y, clip) == last_cover(
            boxes,
            clipped_order(boxes, depth, id, clip),
            clipped_order(boxes, depth, id, clip).len() as int,
            x,
            y,
        ),
    decreases depth, 0nat,
{
    if depth > 0 && id.0 < boxes.len() {
        let b = boxes[id.0 as int];
        let inside = clip.inside_of(b);
        let own = seq![(id, clip)];
        let below = if inside.is_empty() {
            Seq::empty()
        } else {
            clipped_children(boxes, depth, b.children, 0, inside)
        };
        assert(clipped_order(boxes, depth, id, clip) == own + below);
        last_cover_of_two(boxes, own, below, below.len() as int, x, y);
        assert(last_cover(boxes, own, 0, x, y) is None);
        if !inside.is_empty() {
            hits_among_are_topmost(boxes, depth, b.children, 0, x, y, inside);
        }
    }
}

proof fn hits_among_are_topmost(
    boxes: Seq<BoxView>,
    depth: nat,
    kids: Seq<BoxId>,
    k: int,
    x: i32,
    y: i32,
    clip: Clip,
)
    requires
        depth > 0,
        0 <= k <= kids.len(),
    ensures
        ({
            let walk = clipped_children(boxes, depth, kids, k, clip);
            let last = last_cover(boxes, walk, walk.len() as int, x, y);
            hit_among(boxes, depth, kids, kids.len() as int, x, y, clip) == (if last is Some {
                last
            } else {
                hit_among(boxes, depth, kids, k, x, y, clip)
            })
        }),
    decreases depth, 0nat, kids.len() - k,
{
    if k < kids.len() {
        let first = clipped_order(boxes, (depth - 1) as nat, kids[k], clip);
        let rest = clipped_children(boxes, depth, kids, k + 1, clip);
        last_cover_of_two(boxes, first, rest, rest.len() as int, x, y);
        hits_among_are_topmost(boxes, depth, kids, k + 1, x, y, clip);
        a_hit_is_the_topmost(boxes, (depth - 1) as nat, kids[k], x, y, clip);
    }
}

/// Where in the children's walk the `m`th child's own part starts.
proof fn child_part(boxes: Seq<BoxView>, depth: nat, kids: Seq<BoxId>, k: int, m: int, clip: Clip) -> (at:
    int)
    requires
        depth > 0,
        0 <= k <= m < kids.len(),
    ensures
        ({
            let walk = clipped_children(boxes, depth, kids, k, clip);
            let part = clipped_order(boxes, (depth - 1) as nat, kids[m], clip);
            &&& 0 <= at
            &&& at + part.len() <= walk.len()
            &&& forall|i: int| 0 <= i < part.len() ==> walk[at + i] == #[trigger] part[i]
        }),
    decreases m - k,
{
    let first = clipped_order(boxes, (depth - 1) as nat, kids[k], clip);
    let rest = clipped_children(boxes, depth, kids, k + 1, clip);
    let walk = clipped_children(boxes, depth, kids, k, clip);
    assert(walk == first + rest);
    if k == m {
        assert forall|i: int| 0 <= i < first.len() implies walk[0 + i] == #[trigger] first[i] by {}
        0
    } else {
        let at = child_part(boxes, depth, kids, k + 1, m, clip);
        let part = clipped_order(boxes, (depth - 1) as nat, kids[m], clip);
        assert forall|i: int| 0 <= i < part.len() implies walk[first.len() + at + i]
            == #[trigger] part[i] by {
            assert(rest[at + i] == part[i]);
        }
        first.len() + at
    }
}

proof fn hits_are_known(
    dom: &Dom,
    boxes: Seq<BoxView>,
    depth: nat,
    id: BoxId,
    x: i32,
    y: i32,
    clip: Clip,
)
    requires
        boxes_known(dom, boxes),
    ensures
        known(dom, hit_at(boxes, depth, id, x, y, clip)),
{
    a_hit_is_seen(boxes, depth, id, x, y, clip);
    if let Some(n) = hit_at(boxes, depth, id, x, y, clip) {
        let walk = clipped_order(boxes, depth, id, clip);
        let i = choose|i: int|
            #![trigger clipped_order(boxes, depth, id, clip)[i]]
            0 <= i < walk.len() && walk[i].0.0 < boxes.len() && boxes[walk[i].0.0 as int].node
                == Some(n) && covers_cell(boxes[walk[i].0.0 as int], walk[i].1, x, y);
        assert(known(dom, boxes[walk[i].0.0 as int].node));
    }
}

/// The link under a cell: the deepest box there, then up to the nearest
/// ancestor with an `href`.
pub fn link_at(tree: &LayoutTree, dom: &Dom, x: i32, y: i32) -> (r: Option<(NodeId, String)>)
    requires
        dom.wf(),
        tree.of(dom),
    ensures
        match hit_at(tree.list(), tree.depth(), tree.root, x, y, Clip::none()) {
            Some(node) => match link_above(dom, node) {
                Some(id) => r matches Some(found) && found.0 == id && found.1@ == href_of(dom, id),
                None => r is None,
            },
            None => r is None,
        },
{
    proof {
        hits_are_known(dom, tree.list(), tree.depth(), tree.root, x, y, Clip::none());
    }
    match hit_test(tree, x, y) {
        Some(node) => nearest_link(dom, node),
        None => None,
    }
}

/// The link that a box of a walk stands for: its node's, if the clip lets the
/// box be seen.
pub open spec fn link_shown(dom: &Dom, b: BoxView, clip: Clip) -> Option<NodeId> {
    match b.node {
        Some(node) => if clip.reveals(b) {
            link_above(dom, node)
        } else {
            None
        },
        None => None,
    }
}

pub open spec fn listed(out: Seq<LinkView>, node: NodeId) -> bool {
    exists|k: int| 0 <= k < out.len() && (#[trigger] out[k]).node == node
}

/// The links of a walk from the `i`th box on, each where it is first seen.
pub open spec fn links_from(
    dom: &Dom,
    boxes: Seq<BoxView>,
    walk: Seq<(BoxId, Clip)>,
    i: int,
    out: Seq<LinkView>,
) -> Seq<LinkView>
    decreases walk.len() - i,
{
    if i >= walk.len() {
        out
    } else {
        let b = boxes[walk[i].0.0 as int];
        match link_shown(dom, b, walk[i].1) {
            Some(link) if !listed(out, link) => links_from(
                dom,
                boxes,
                walk,
                i + 1,
                out.push(
                    LinkView {
                        node: link,
                        href: href_of(dom, link),
                        x: b.dimensions.content.x,
                        y: b.dimensions.content.y,
                    },
                ),
            ),
            _ => links_from(dom, boxes, walk, i + 1, out),
        }
    }
}

/// Every link of the page that can be seen.
pub open spec fn links_of(tree: &LayoutTree, dom: &Dom) -> Seq<LinkView> {
    links_from(
        dom,
        tree.list(),
        clipped_order(tree.list(), tree.depth(), tree.root, Clip::none()),
        0,
        Seq::empty(),
    )
}

fn is_listed(out: &Vec<LinkHit>, node: NodeId) -> (r: bool)
    ensures
        r == listed(views(out@), node),
{
    let mut k: usize = 0;
    while k < out.len()
        invariant
            k <= out@.len(),
            forall|j: int| 0 <= j < k ==> (#[trigger] views(out@)[j]).node != node,
        decreases out@.len() - k,
    {
        if out[k].node == node {
            proof {
                assert(views(out@)[k as int].node == node);
            }
            return true;
        }
        k += 1;
    }
    false
}

/// Every link with at least one visible box, in document order of first
/// appearance, each at its first visible fragment.
pub fn collect_links(tree: &LayoutTree, dom: &Dom) -> (r: Vec<LinkHit>)
    requires
        dom.wf(),
        tree.of(dom),
    ensures
        views(r@) == links_of(tree, dom),
{
    let walk: Vec<(BoxId, Clip)> = tree.walk_clipped();
    let mut out: Vec<LinkHit> = Vec::new();
    let ghost all = tree.list();
    let mut i: usize = 0;
    while i < walk.len()
        invariant
            dom.wf(),
            tree.of(dom),
            all == tree.list(),
            pairs_in_range(walk@, tree.boxes@.len()),
            walk@ == clipped_order(all, tree.depth(), tree.root, Clip::none()),
            i <= walk@.len(),
            links_of(tree, dom) == links_from(dom, all, walk@, i as int, views(out@)),
        decreases walk@.len() - i,
    {
        let (id, clip): (BoxId, Clip) = walk[i];
        proof {
            assert(walk@[i as int].0.0 < tree.boxes@.len());
            assert(known(dom, all[id.0 as int].node));
        }
        let b: &LayoutBox = tree.get(id);
        match b.node {
            Some(node) => {
                if clip.shows(b) {
                    match nearest_link(dom, node) {
                        Some((link, href)) => {
                            if !is_listed(&out, link) {
                                out.push(
                                    LinkHit {
                                        node: link,
                                        href,
                                        x: b.dimensions.content.x,
                                        y: b.dimensions.content.y,
                                    },
                                );
                            }
                        },
                        None => {},
                    }
                }
            },
            None => {},
        }
        i += 1;
    }
    out
}

/// No link is listed twice, and every listed one is a link with its own `href`.
pub open spec fn distinct_links(dom: &Dom, out: Seq<LinkView>) -> bool {
    &&& forall|i: int, j: int|
        0 <= i < j < out.len() ==> (#[trigger] out[i]).node != (#[trigger] out[j]).node
    &&& forall|i: int|
        0 <= i < out.len() ==> is_link(dom, (#[trigger] out[i]).node) && out[i].href == href_of(
            dom,
            out[i].node,
        )
}

proof fn the_nearest_link_is_one(dom: &Dom, id: NodeId)
    requires
        dom.wf(),
        dom.has(id),
    ensures
        link_above(dom, id) matches Some(l) ==> is_link(dom, l) && dom.under(id, l),
    decreases dom.climb(id),
{
    if !is_link(dom, id) {
        if let Some(p) = dom.parent_of(id) {
            dom.parents_are_nearer_the_peak(id);
            the_nearest_link_is_one(dom, p);
        }
    }
}

proof fn links_are_listed_once(
    dom: &Dom,
    boxes: Seq<BoxView>,
    walk: Seq<(BoxId, Clip)>,
    i: int,
    out: Seq<LinkView>,
)
    requires
        dom.wf(),
        boxes_known(dom, boxes),
        pairs_in_range(walk, boxes.len()),
        0 <= i,
        distinct_links(dom, out),
    ensures
        distinct_links(dom, links_from(dom, boxes, walk, i, out)),
        forall|node: NodeId| #[trigger]
            listed(links_from(dom, boxes, walk, i, out), node) <==> listed(out, node) || exists|
                k: int,
            |
                i <= k < walk.len() && link_shown(
                    dom,
                    boxes[(#[trigger] walk[k]).0.0 as int],
                    walk[k].1,
                ) == Some(node),
    decreases walk.len() - i,
{
    if i < walk.len() {
        let b = boxes[walk[i].0.0 as int];
        assert(walk[i].0.0 < boxes.len());
        assert(known(dom, b.node));
        let shown = link_shown(dom, b, walk[i].1);
        let next = match shown {
            Some(link) if !listed(out, link) => out.push(
                LinkView {
                    node: link,
                    href: href_of(dom, link),
                    x: b.dimensions.content.x,
                    y: b.dimensions.content.y,
                },
            ),
            _ => out,
        };
        if let Some(link) = shown {
            the_nearest_link_is_one(dom, b.node->0);
            if !listed(out, link) {
                assert forall|j: int| 0 <= j < out.len() implies (#[trigger] out[j]).node
                    != link by {}
                assert(forall|j: int| 0 <= j < out.len() ==> next[j] == #[trigger] out[j]);
            }
        }
        assert(distinct_links(dom, next));
        assert forall|node: NodeId| #[trigger] listed(next, node) <==> listed(out, node) || shown
            == Some(node) by {
            if listed(out, node) {
                let k = choose|k: int| 0 <= k < out.len() && (#[trigger] out[k]).node == node;
                assert(next[k].node == node);
            }
            if shown == Some(node) && !listed(out, node) {
                assert(next[out.len() as int].node == node);
            }
            if listed(next, node) {
                let k = choose|k: int| 0 <= k < next.len() && (#[trigger] next[k]).node == node;
                if k < out.len() {
                    assert(out[k].node == node);
                }
            }
        }
        links_are_listed_once(dom, boxes, walk, i + 1, next);
        let end = links_from(dom, boxes, walk, i + 1, next);
        assert forall|node: NodeId| #[trigger] listed(end, node) <==> listed(out, node) || exists|
            k: int,
        |
            i <= k < walk.len() && link_shown(
                dom,
                boxes[(#[trigger] walk[k]).0.0 as int],
                walk[k].1,
            ) == Some(node) by {
            assert(listed(next, node) <==> listed(out, node) || shown == Some(node));
            if shown == Some(node) {
                assert(link_shown(dom, boxes[walk[i].0.0 as int], walk[i].1) == Some(node));
            }
        }
    }
}

/// Links are collected once each, and a link is collected exactly when it has
/// a box that can be seen.
pub proof fn every_visible_link_is_collected_once(tree: &LayoutTree, dom: &Dom)
    requires
        dom.wf(),
        tree.of(dom),
    ensures
        distinct_links(dom, links_of(tree, dom)),
        ({
            let walk = clipped_order(tree.list(), tree.depth(), tree.root, Clip::none());
            forall|node: NodeId| #[trigger]
                listed(links_of(tree, dom), node) <==> exists|k: int|
                    0 <= k < walk.len() && link_shown(
                        dom,
                        tree.list()[(#[trigger] walk[k]).0.0 as int],
                        walk[k].1,
                    ) == Some(node)
        }),
{
    let walk = clipped_order(tree.list(), tree.depth(), tree.root, Clip::none());
    crate::boxes::clipped_walks_stay_in_range(
        tree.list(),
        tree.depth(),
        tree.root,
        Clip::none(),
    );
    links_are_listed_once(dom, tree.list(), walk, 0, Seq::empty());
}

/// The first box of a walk from the `i`th on that shows a link, or the walk's
/// length if none does.
pub open spec fn first_shown(
    dom: &Dom,
    boxes: Seq<BoxView>,
    walk: Seq<(BoxId, Clip)>,
    i: int,
    node: NodeId,
) -> int
    decreases walk.len() - i,
{
    if i >= walk.len() {
        walk.len() as int
    } else if link_shown(dom, boxes[walk[i].0.0 as int], walk[i].1) == Some(node) {
        i
    } else {
        first_shown(dom, boxes, walk, i + 1, node)
    }
}

proof fn the_first_is_first(
    dom: &Dom,
    boxes: Seq<BoxView>,
    walk: Seq<(BoxId, Clip)>,
    i: int,
    node: NodeId,
    k: int,
)
    requires
        0 <= i <= walk.len(),
    ensures
        ({
            let f = first_shown(dom, boxes, walk, i, node);
            &&& i <= f <= walk.len()
            &&& f < walk.len() ==> link_shown(dom, boxes[walk[f].0.0 as int], walk[f].1) == Some(
                node,
            )
            &&& i <= k < walk.len() && link_shown(dom, boxes[walk[k].0.0 as int], walk[k].1)
                == Some(node) ==> f <= k
        }),
    decreases walk.len() - i,
{
    if i < walk.len() {
        the_first_is_first(dom, boxes, walk, i + 1, node, k);
    }
}

/// Links listed in the order in which the boxes of a walk before the `i`th
/// first show them, each where it is first shown.
spec fn in_order_of_appearance(
    dom: &Dom,
    boxes: Seq<BoxView>,
    walk: Seq<(BoxId, Clip)>,
    i: int,
    out: Seq<LinkView>,
) -> bool {
    &&& forall|a: int, b: int|
        0 <= a < b < out.len() ==> first_shown(dom, boxes, walk, 0, (#[trigger] out[a]).node)
            < first_shown(dom, boxes, walk, 0, (#[trigger] out[b]).node)
    &&& forall|a: int|
        0 <= a < out.len() ==> {
            let f = first_shown(dom, boxes, walk, 0, (#[trigger] out[a]).node);
            &&& 0 <= f < i
            &&& f < walk.len()
            &&& out[a].x == boxes[walk[f].0.0 as int].dimensions.content.x
            &&& out[a].y == boxes[walk[f].0.0 as int].dimensions.content.y
        }
    &&& forall|node: NodeId|
        first_shown(dom, boxes, walk, 0, node) < i && first_shown(dom, boxes, walk, 0, node)
            < walk.len() ==> #[trigger] listed(out, node)
}

proof fn links_are_listed_in_order(
    dom: &Dom,
    boxes: Seq<BoxView>,
    walk: Seq<(BoxId, Clip)>,
    i: int,
    out: Seq<LinkView>,
)
    requires
        0 <= i <= walk.len(),
        in_order_of_appearance(dom, boxes, walk, i, out),
    ensures
        in_order_of_appearance(
            dom,
            boxes,
            walk,
            walk.len() as int,
            links_from(dom, boxes, walk, i, out),
        ),
    decreases walk.len() - i,
{
    if i < walk.len() {
        let b = boxes[walk[i].0.0 as int];
        let shown = link_shown(dom, b, walk[i].1);
        let next = match shown {
            Some(link) if !listed(out, link) => out.push(
                LinkView {
                    node: link,
                    href: href_of(dom, link),
                    x: b.dimensions.content.x,
                    y: b.dimensions.content.y,
                },
            ),
            _ => out,
        };
        if let Some(link) = shown {
            the_first_is_first(dom, boxes, walk, 0, link, i);
        }
        assert forall|a: int, c: int| 0 <= a < c < next.len() implies first_shown(
            dom,
            boxes,
            walk,
            0,
            (#[trigger] next[a]).node,
        ) < first_shown(dom, boxes, walk, 0, (#[trigger] next[c]).node) by {
            assert(next[a] == out[a]);
            if c < out.len() {
                assert(next[c] == out[c]);
            }
        }
        assert forall|a: int| 0 <= a < next.len() implies {
            let f = first_shown(dom, boxes, walk, 0, (#[trigger] next[a]).node);
            &&& 0 <= f < i + 1
            &&& f < walk.len()
            &&& next[a].x == boxes[walk[f].0.0 as int].dimensions.content.x
            &&& next[a].y == boxes[walk[f].0.0 as int].dimensions.content.y
        } by {
            if a < out.len() {
                assert(next[a] == out[a]);
            }
        }
        assert forall|node: NodeId|
            first_shown(dom, boxes, walk, 0, node) < i + 1 && first_shown(dom, boxes, walk, 0, node)
                < walk.len() implies #[trigger] listed(next, node) by {
            the_first_is_first(dom, boxes, walk, 0, node, i);
            if first_shown(dom, boxes, walk, 0, node) < i {
                assert(listed(out, node));
                let j = choose|j: int| 0 <= j < out.len() && (#[trigger] out[j]).node == node;
                assert(next[j] == out[j]);
            } else {
                assert(shown == Some(node));
                if listed(out, node) {
                    let j = choose|j: int| 0 <= j < out.len() && (#[trigger] out[j]).node == node;
                    assert(next[j] == out[j]);
                } else {
                    assert(next[out.len() as int].node == node);
                }
            }
        }
        links_are_listed_in_order(dom, boxes, walk, i + 1, next);
    }
}

/// Links come in the order in which they first appear on the page.
pub proof fn links_come_in_order_of_appearance(tree: &LayoutTree, dom: &Dom, a: int, b: int)
    requires
        0 <= a < b < links_of(tree, dom).len(),
    ensures
        ({
            let walk = clipped_order(tree.list(), tree.depth(), tree.root, Clip::none());
            let links = links_of(tree, dom);
            first_shown(dom, tree.list(), walk, 0, links[a].node) < first_shown(
                dom,
                tree.list(),
                walk,
                0,
                links[b].node,
            )
        }),
{
    let walk = clipped_order(tree.list(), tree.depth(), tree.root, Clip::none());
    assert forall|node: NodeId| first_shown(dom, tree.list(), walk, 0, node) < 0 implies
        #[trigger] listed(Seq::<LinkView>::empty(), node) by {
        the_first_is_first(dom, tree.list(), walk, 0, node, 0);
    }
    links_are_listed_in_order(dom, tree.list(), walk, 0, Seq::empty());
}

/// The links of a list that lie in rows `top..bottom`.
pub open spec fn links_between(links: Seq<LinkView>, i: int, top: i32, bottom: i32) -> Seq<LinkView>
    decreases links.len() - i,
{
    if i >= links.len() {
        Seq::empty()
    } else if top <= links[i].y < bottom {
        seq![links[i]] + links_between(links, i + 1, top, bottom)
    } else {
        links_between(links, i + 1, top, bottom)
    }
}

/// A link of a page is visible exactly where its row is one of those on show:
/// none that was scrolled off above or is still below, and every one between,
/// as often as the page lists it.
pub proof fn a_visible_link_is_one_on_show(
    links: Seq<LinkView>,
    i: int,
    top: i32,
    bottom: i32,
    l: LinkView,
)
    requires
        0 <= i <= links.len(),
    ensures
        links_between(links, i, top, bottom).contains(l) <==> links.skip(i).contains(l) && top <= l.y
            && l.y < bottom,
        links_between(links, i, top, bottom).to_multiset().count(l) == if top <= l.y && l.y < bottom {
            links.skip(i).to_multiset().count(l)
        } else {
            0
        },
    decreases links.len() - i,
{
    broadcast use vstd::seq_lib::group_to_multiset_ensures;

    let rest = links.skip(i);
    let shown = links_between(links, i, top, bottom);
    if i < links.len() {
        let one = seq![links[i]];
        a_visible_link_is_one_on_show(links, i + 1, top, bottom, l);
        let more = links_between(links, i + 1, top, bottom);
        assert(rest =~= one + links.skip(i + 1));
        vstd::seq_lib::lemma_multiset_commutative(one, links.skip(i + 1));
        assert(one =~= Seq::<LinkView>::empty().push(links[i]));
        assert(one.to_multiset().count(l) == if l == links[i] {
            1nat
        } else {
            0
        });
        if top <= links[i].y < bottom {
            vstd::seq_lib::lemma_multiset_commutative(one, more);
        }
    }
    assert(shown.contains(l) <==> shown.to_multiset().count(l) > 0);
    assert(rest.contains(l) <==> rest.to_multiset().count(l) > 0);
}

/// Of two links on show, the one the page lists first is listed first.
pub proof fn visible_links_keep_their_order(
    links: Seq<LinkView>,
    i: int,
    top: i32,
    bottom: i32,
    a: int,
    b: int,
) -> (at: (int, int))
    requires
        0 <= i <= a < b < links.len(),
        top <= links[a].y < bottom,
        top <= links[b].y < bottom,
    ensures
        ({
            let shown = links_between(links, i, top, bottom);
            &&& 0 <= at.0 < at.1 < shown.len()
            &&& shown[at.0] == links[a]
            &&& shown[at.1] == links[b]
        }),
    decreases links.len() - i,
{
    let here: int = if top <= links[i].y < bottom {
        1
    } else {
        0
    };
    let more = links_between(links, i + 1, top, bottom);
    let shown = links_between(links, i, top, bottom);
    if i < a {
        let (p, q) = visible_links_keep_their_order(links, i + 1, top, bottom, a, b);
        assert(shown[p + here] == more[p]);
        assert(shown[q + here] == more[q]);
        (p + here, q + here)
    } else {
        a_visible_link_is_one_on_show(links, i + 1, top, bottom, links[b]);
        assert(links.skip(i + 1)[b - i - 1] == links[b]);
        assert(links.skip(i + 1).contains(links[b]));
        let q = choose|q: int| 0 <= q < more.len() && more[q] == links[b];
        assert(shown[q + 1] == more[q]);
        (0, q + 1)
    }
}

/// The links whose first visible fragment lies in rows `top..bottom`.
pub fn visible_links(tree: &LayoutTree, dom: &Dom, top: i32, bottom: i32) -> (r: Vec<LinkHit>)
    requires
        dom.wf(),
        tree.of(dom),
    ensures
        views(r@) == links_between(links_of(tree, dom), 0, top, bottom),
        forall|l: LinkView|
            #[trigger] views(r@).contains(l) <==> links_of(tree, dom).contains(l) && top <= l.y
                && l.y < bottom,
{
    let links: Vec<LinkHit> = collect_links(tree, dom);
    let ghost all = views(links@);
    let mut out: Vec<LinkHit> = Vec::new();
    let mut i: usize = 0;
    while i < links.len()
        invariant
            all == views(links@),
            i <= links@.len(),
            links_between(all, 0, top, bottom) =~= views(out@) + links_between(
                all,
                i as int,
                top,
                bottom,
            ),
        decreases links@.len() - i,
    {
        let l: &LinkHit = &links[i];
        if l.y >= top && l.y < bottom {
            let copy: LinkHit = LinkHit {
                node: l.node,
                href: owned(l.href.as_str()),
                x: l.x,
                y: l.y,
            };
            out.push(copy);
        }
        i += 1;
    }
    proof {
        assert forall|l: LinkView|
            #[trigger] views(out@).contains(l) <==> all.contains(l) && top <= l.y && l.y < bottom by {
            a_visible_link_is_one_on_show(all, 0, top, bottom, l);
            assert(all.skip(0) =~= all);
        }
    }
    out
}

/// Is `node` `ancestor`, or inside it?
pub fn is_under(dom: &Dom, node: NodeId, ancestor: NodeId) -> (r: bool)
    requires
        dom.wf(),
        dom.has(node),
    ensures
        r == dom.under(node, ancestor),
{
    dom.is_under(node, ancestor)
}

/// The links among `order[i..]`.
pub open spec fn links_in(dom: &Dom, order: Seq<NodeId>, i: int) -> Seq<(NodeId, Seq<char>)>
    decreases order.len() - i,
{
    if i >= order.len() {
        Seq::empty()
    } else if is_link(dom, order[i]) {
        seq![(order[i], href_of(dom, order[i]))] + links_in(dom, order, i + 1)
    } else {
        links_in(dom, order, i + 1)
    }
}

/// A list of links as plain values.
pub open spec fn link_pairs(links: Seq<(NodeId, String)>) -> Seq<(NodeId, Seq<char>)> {
    links.map_values(|l: (NodeId, String)| (l.0, l.1@))
}

/// Every `<a href>` of the document, in document order.
pub fn dom_links(dom: &Dom) -> (r: Vec<(NodeId, String)>)
    requires
        dom.wf(),
    ensures
        link_pairs(r@) == links_in(dom, dom.doc_order(dom.root), 0),
{
    let order: Vec<NodeId> = dom.in_doc_order();
    let mut out: Vec<(NodeId, String)> = Vec::new();
    let mut i: usize = 0;
    while i < order.len()
        invariant
            dom.wf(),
            i <= order@.len(),
            forall|k: int| 0 <= k < order@.len() ==> dom.has(#[trigger] order@[k]),
            links_in(dom, order@, 0) =~= link_pairs(out@) + links_in(dom, order@, i as int),
        decreases order@.len() - i,
    {
        match link_href(dom, order[i]) {
            Some(href) => {
                let ghost before = link_pairs(out@);
                let found: (NodeId, String) = (order[i], owned(href));
                out.push(found);
                proof {
                    assert(link_pairs(out@) =~= before.push((found.0, found.1@)));
                }
            },
            None => {},
        }
        i += 1;
    }
    proof {
        assert(link_pairs(out@) =~= links_in(dom, order@, 0));
    }
    out
}

proof fn links_in_holds(dom: &Dom, order: Seq<NodeId>, i: int, k: int)
    requires
        0 <= i <= k < order.len(),
        is_link(dom, order[k]),
    ensures
        links_in(dom, order, i).contains((order[k], href_of(dom, order[k]))),
    decreases k - i,
{
    let rest = links_in(dom, order, i + 1);
    let found = (order[k], href_of(dom, order[k]));
    let all = links_in(dom, order, i);
    if i == k {
        assert(all[0] == found);
    } else {
        links_in_holds(dom, order, i + 1, k);
        let at = rest.index_of(found);
        if is_link(dom, order[i]) {
            assert(all[at + 1] == found);
        } else {
            assert(all[at] == found);
        }
    }
}

/// The link that a click on part of the document follows is one that the Tab
/// cycle visits, with the same address.
pub proof fn a_clicked_link_is_in_the_tab_cycle(dom: &Dom, node: NodeId)
    requires
        dom.wf(),
        dom.has(node),
        dom.under(node, dom.root),
        dom.parent_of(dom.root) is None,
    ensures
        link_above(dom, node) matches Some(link) ==> links_in(
            dom,
            dom.doc_order(dom.root),
            0,
        ).contains((link, href_of(dom, link))),
{
    if let Some(link) = link_above(dom, node) {
        the_nearest_link_is_one(dom, node);
        the_nearest_link_is_inside(dom, node);
        dom.document_order_lists_what_is_inside(dom.root, link);
        let order = dom.doc_order(dom.root);
        links_in_holds(dom, order, 0, order.index_of(link));
    }
}

proof fn the_nearest_link_is_inside(dom: &Dom, node: NodeId)
    requires
        dom.wf(),
        dom.has(node),
        dom.under(node, dom.root),
        dom.parent_of(dom.root) is None,
        link_above(dom, node) is Some,
    ensures
        dom.has(link_above(dom, node)->0),
        dom.under(link_above(dom, node)->0, dom.root),
    decreases dom.climb(node),
{
    if !is_link(dom, node) {
        let p = dom.parent_of(node)->0;
        dom.parents_are_nearer_the_peak(node);
        the_nearest_link_is_inside(dom, p);
    }
}

/// A link or a control that the Tab cycle stops at.
pub open spec fn is_focusable(dom: &Dom, id: NodeId) -> bool {
    is_link(dom, id) || is_field(dom, id)
}

/// The nearest such node at or above a node.
pub open spec fn focus_above(dom: &Dom, id: NodeId) -> Option<NodeId>
    decreases dom.climb(id),
    when dom.wf() && dom.has(id)
    via focus_climbs
{
    if is_focusable(dom, id) {
        Some(id)
    } else {
        match dom.parent_of(id) {
            Some(p) => focus_above(dom, p),
            None => None,
        }
    }
}

#[via_fn]
proof fn focus_climbs(dom: &Dom, id: NodeId) {
    if dom.parent_of(id) is Some {
        dom.parents_are_nearer_the_peak(id);
    }
}

fn nearest_focus(dom: &Dom, node: NodeId) -> (r: Option<NodeId>)
    requires
        dom.wf(),
        dom.has(node),
    ensures
        r == focus_above(dom, node),
{
    let mut cur: NodeId = node;
    loop
        invariant
            dom.wf(),
            dom.has(cur),
            focus_above(dom, node) == focus_above(dom, cur),
        decreases dom.climb(cur),
    {
        if link_href(dom, cur).is_some() || takes_focus(dom, cur) {
            return Some(cur);
        }
        match dom.parent(cur) {
            Some(p) => {
                proof {
                    dom.parents_are_nearer_the_peak(cur);
                }
                cur = p;
            },
            None => {
                return None;
            },
        }
    }
}

/// What a walk from the `i`th box on lets the reader focus.
pub open spec fn focus_from(
    dom: &Dom,
    boxes: Seq<BoxView>,
    walk: Seq<(BoxId, Clip)>,
    i: int,
    out: Seq<NodeId>,
) -> Seq<NodeId>
    decreases walk.len() - i,
{
    if i >= walk.len() {
        out
    } else {
        let b = boxes[walk[i].0.0 as int];
        let next = match b.node {
            Some(node) if walk[i].1.reveals(b) => match focus_above(dom, node) {
                Some(f) if !out.contains(f) => out.push(f),
                _ => out,
            },
            _ => out,
        };
        focus_from(dom, boxes, walk, i + 1, next)
    }
}

fn has_node(nodes: &Vec<NodeId>, node: NodeId) -> (r: bool)
    ensures
        r == nodes@.contains(node),
{
    let mut k: usize = 0;
    while k < nodes.len()
        invariant
            k <= nodes@.len(),
            forall|j: int| 0 <= j < k ==> nodes@[j] != node,
        decreases nodes@.len() - k,
    {
        if nodes[k] == node {
            return true;
        }
        k += 1;
    }
    false
}

/// The links and controls that have a visible box, in document order of first
/// appearance.
pub fn focusables(tree: &LayoutTree, dom: &Dom) -> (r: Vec<NodeId>)
    requires
        dom.wf(),
        tree.of(dom),
    ensures
        r@ == focus_from(
            dom,
            tree.list(),
            clipped_order(tree.list(), tree.depth(), tree.root, Clip::none()),
            0,
            Seq::empty(),
        ),
{
    let walk: Vec<(BoxId, Clip)> = tree.walk_clipped();
    let mut out: Vec<NodeId> = Vec::new();
    let ghost all = tree.list();
    let ghost goal = focus_from(dom, all, walk@, 0, Seq::empty());
    let mut i: usize = 0;
    while i < walk.len()
        invariant
            dom.wf(),
            tree.of(dom),
            all == tree.list(),
            pairs_in_range(walk@, tree.boxes@.len()),
            i <= walk@.len(),
            goal == focus_from(dom, all, walk@, i as int, out@),
        decreases walk@.len() - i,
    {
        let (id, clip): (BoxId, Clip) = walk[i];
        proof {
            assert(walk@[i as int].0.0 < tree.boxes@.len());
            assert(known(dom, all[id.0 as int].node));
        }
        let b: &LayoutBox = tree.get(id);
        match b.node {
            Some(node) => {
                if clip.shows(b) {
                    match nearest_focus(dom, node) {
                        Some(f) => {
                            if !has_node(&out, f) {
                                out.push(f);
                            }
                        },
                        None => {},
                    }
                }
            },
            None => {},
        }
        i += 1;
    }
    out
}

/// What of `order[i..]` takes focus.
pub open spec fn focus_in(dom: &Dom, order: Seq<NodeId>, i: int) -> Seq<NodeId>
    decreases order.len() - i,
{
    if i >= order.len() {
        Seq::empty()
    } else if is_focusable(dom, order[i]) {
        seq![order[i]] + focus_in(dom, order, i + 1)
    } else {
        focus_in(dom, order, i + 1)
    }
}

/// Every link and control of the document that takes focus, in document order.
pub fn dom_focusables(dom: &Dom) -> (r: Vec<NodeId>)
    requires
        dom.wf(),
    ensures
        r@ == focus_in(dom, dom.doc_order(dom.root), 0),
{
    let order: Vec<NodeId> = dom.in_doc_order();
    let mut out: Vec<NodeId> = Vec::new();
    let mut i: usize = 0;
    while i < order.len()
        invariant
            dom.wf(),
            i <= order@.len(),
            forall|k: int| 0 <= k < order@.len() ==> dom.has(#[trigger] order@[k]),
            focus_in(dom, order@, 0) =~= out@ + focus_in(dom, order@, i as int),
        decreases order@.len() - i,
    {
        if link_href(dom, order[i]).is_some() || takes_focus(dom, order[i]) {
            out.push(order[i]);
        }
        i += 1;
    }
    out
}

/// The row of the first box of a node in `walk[i..]`.
pub open spec fn row_of(boxes: Seq<BoxView>, walk: Seq<BoxId>, i: int, node: NodeId) -> Option<i32>
    decreases walk.len() - i,
{
    if i >= walk.len() {
        None
    } else if boxes[walk[i].0 as int].node == Some(node) {
        Some(boxes[walk[i].0 as int].dimensions.content.y)
    } else {
        row_of(boxes, walk, i + 1, node)
    }
}

/// The first content row of `node` in the layout tree, if a box was generated.
pub fn first_y(tree: &LayoutTree, node: NodeId) -> (r: Option<i32>)
    ensures
        r == row_of(tree.list(), paint_order(tree.list(), tree.depth(), tree.root), 0, node),
{
    let walk: Vec<BoxId> = tree.walk(tree.root);
    let ghost all = tree.list();
    let mut i: usize = 0;
    while i < walk.len()
        invariant
            all == tree.list(),
            in_range(walk@, tree.boxes@.len()),
            i <= walk@.len(),
            walk@ == paint_order(all, tree.depth(), tree.root),
            row_of(all, walk@, 0, node) == row_of(all, walk@, i as int, node),
        decreases walk@.len() - i,
    {
        proof {
            assert(walk@[i as int].0 < tree.boxes@.len());
        }
        let b: &LayoutBox = tree.get(walk[i]);
        match b.node {
            Some(n) => {
                if n == node {
                    return Some(b.dimensions.content.y);
                }
            },
            None => {},
        }
        i += 1;
    }
    None
}

/// The ancestors of a node, nearest first.
pub open spec fn ancestors_of(dom: &Dom, id: NodeId) -> Seq<NodeId>
    decreases dom.climb(id),
    when dom.wf() && dom.has(id)
    via ancestors_climb
{
    match dom.parent_of(id) {
        Some(p) => seq![p] + ancestors_of(dom, p),
        None => Seq::empty(),
    }
}

#[via_fn]
proof fn ancestors_climb(dom: &Dom, id: NodeId) {
    if dom.parent_of(id) is Some {
        dom.parents_are_nearer_the_peak(id);
    }
}

fn ancestors(dom: &Dom, id: NodeId) -> (r: Vec<NodeId>)
    requires
        dom.wf(),
        dom.has(id),
    ensures
        r@ == ancestors_of(dom, id),
{
    let mut out: Vec<NodeId> = Vec::new();
    let mut cur: NodeId = id;
    loop
        invariant
            dom.wf(),
            dom.has(cur),
            ancestors_of(dom, id) =~= out@ + ancestors_of(dom, cur),
        decreases dom.climb(cur),
    {
        match dom.parent(cur) {
            Some(p) => {
                proof {
                    dom.parents_are_nearer_the_peak(cur);
                }
                out.push(p);
                cur = p;
            },
            None => {
                return out;
            },
        }
    }
}

/// The index of `node` in `nodes[i..]`, the first one.
pub open spec fn place_in(nodes: Seq<NodeId>, node: NodeId, i: int) -> Option<int>
    decreases nodes.len() - i,
{
    if i >= nodes.len() {
        None
    } else if nodes[i] == node {
        Some(i)
    } else {
        place_in(nodes, node, i + 1)
    }
}

fn find_place(nodes: &Vec<NodeId>, node: NodeId) -> (r: Option<usize>)
    ensures
        match place_in(nodes@, node, 0) {
            Some(i) => r matches Some(found) && found == i,
            None => r is None,
        },
{
    let mut i: usize = 0;
    while i < nodes.len()
        invariant
            i <= nodes@.len(),
            place_in(nodes@, node, 0) == place_in(nodes@, node, i as int),
        decreases nodes@.len() - i,
    {
        if nodes[i] == node {
            return Some(i);
        }
        i += 1;
    }
    None
}

/// The row to show for a node, from the boxes `walk[i..]`: the first one inside
/// the node, or else the first box of its nearest ancestor that has one.
/// `near` is the nearest ancestor met so far, with its row.
pub open spec fn near_row(
    dom: &Dom,
    boxes: Seq<BoxView>,
    walk: Seq<BoxId>,
    i: int,
    node: NodeId,
    near: Option<(int, i32)>,
) -> Option<i32>
    decreases walk.len() - i,
{
    if i >= walk.len() {
        match near {
            Some((_, y)) => Some(y),
            None => None,
        }
    } else {
        let b = boxes[walk[i].0 as int];
        let y = b.dimensions.content.y;
        match b.node {
            None => near_row(dom, boxes, walk, i + 1, node, near),
            Some(n) => if dom.under(n, node) {
                Some(y)
            } else {
                near_row(
                    dom,
                    boxes,
                    walk,
                    i + 1,
                    node,
                    match (place_in(ancestors_of(dom, node), n, 0), near) {
                        (Some(d), Some((best, _))) if d >= best => near,
                        (Some(d), _) => Some((d, y)),
                        (None, _) => near,
                    },
                )
            },
        }
    }
}

/// The row to scroll to in order to show `node`: the first box of the node or
/// of anything inside it; failing that, the first box of its nearest ancestor
/// that was laid out.
pub fn nearest_y(tree: &LayoutTree, dom: &Dom, node: NodeId) -> (r: Option<i32>)
    requires
        dom.wf(),
        dom.has(node),
        tree.of(dom),
    ensures
        r == near_row(
            dom,
            tree.list(),
            paint_order(tree.list(), tree.depth(), tree.root),
            0,
            node,
            None,
        ),
{
    let up: Vec<NodeId> = ancestors(dom, node);
    let walk: Vec<BoxId> = tree.walk(tree.root);
    let ghost all = tree.list();
    let ghost goal = near_row(dom, all, walk@, 0, node, None);
    let mut near: Option<(usize, i32)> = None;
    let mut i: usize = 0;
    while i < walk.len()
        invariant
            dom.wf(),
            dom.has(node),
            tree.of(dom),
            all == tree.list(),
            up@ == ancestors_of(dom, node),
            goal == near_row(
                dom,
                all,
                paint_order(all, tree.depth(), tree.root),
                0,
                node,
                None,
            ),
            in_range(walk@, tree.boxes@.len()),
            i <= walk@.len(),
            goal == near_row(
                dom,
                all,
                walk@,
                i as int,
                node,
                match near {
                    Some((d, y)) => Some((d as int, y)),
                    None => None,
                },
            ),
        decreases walk@.len() - i,
    {
        proof {
            assert(walk@[i as int].0 < tree.boxes@.len());
            assert(known(dom, all[walk@[i as int].0 as int].node));
        }
        let b: &LayoutBox = tree.get(walk[i]);
        let y: i32 = b.dimensions.content.y;
        match b.node {
            None => {},
            Some(n) => {
                if dom.is_under(n, node) {
                    return Some(y);
                }
                match find_place(&up, n) {
                    Some(d) => {
                        let closer: bool = match near {
                            Some((best, _)) => d < best,
                            None => true,
                        };
                        if closer {
                            near = Some((d, y));
                        }
                    },
                    None => {},
                }
            },
        }
        i += 1;
    }
    match near {
        Some((_, y)) => Some(y),
        None => None,
    }
}

proof fn rows_inside_come_first(
    dom: &Dom,
    boxes: Seq<BoxView>,
    walk: Seq<BoxId>,
    i: int,
    node: NodeId,
    near: Option<(int, i32)>,
)
    requires
        dom.wf(),
        dom.has(node),
        boxes_known(dom, boxes),
        in_range(walk, boxes.len()),
        0 <= i,
    ensures
        near is Some ==> near_row(dom, boxes, walk, i, node, near) is Some,
        row_of(boxes, walk, i, node) is Some ==> near_row(dom, boxes, walk, i, node, near) is Some,
    decreases walk.len() - i,
{
    if i < walk.len() {
        assert(walk[i].0 < boxes.len());
        let b = boxes[walk[i].0 as int];
        assert(known(dom, b.node));
        let y = b.dimensions.content.y;
        match b.node {
            None => {
                rows_inside_come_first(dom, boxes, walk, i + 1, node, near);
            },
            Some(n) => {
                let next = match (place_in(ancestors_of(dom, node), n, 0), near) {
                    (Some(d), Some((best, _))) if d >= best => near,
                    (Some(d), _) => Some((d, y)),
                    (None, _) => near,
                };
                rows_inside_come_first(dom, boxes, walk, i + 1, node, next);
            },
        }
    }
}

/// A node that was laid out can always be scrolled to.
pub proof fn what_was_laid_out_can_be_shown(tree: &LayoutTree, dom: &Dom, node: NodeId)
    requires
        dom.wf(),
        dom.has(node),
        tree.of(dom),
    ensures
        ({
            let walk = paint_order(tree.list(), tree.depth(), tree.root);
            row_of(tree.list(), walk, 0, node) is Some ==> near_row(
                dom,
                tree.list(),
                walk,
                0,
                node,
                None,
            ) is Some
        }),
{
    crate::boxes::walks_stay_in_range(tree.list(), tree.depth(), tree.root);
    rows_inside_come_first(
        dom,
        tree.list(),
        paint_order(tree.list(), tree.depth(), tree.root),
        0,
        node,
        None,
    );
}

} // verus!
