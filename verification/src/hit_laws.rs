//! What can be clicked, focused and scrolled to.

use vstd::prelude::*;

use crate::boxes::{BoxId, BoxView};
use crate::clip::Clip;
use crate::dom::{Dom, NodeId};
use crate::hit::{
    ancestors_of, field_above, focus_above, focus_from, focus_in, href_of, is_field, is_focusable,
    is_link, link_above, links_in, near_row, place_in, row_of,
};

verus! {

/// The nearest link at or above a node is one, holds the node, and lies inside
/// every other link that does.
pub proof fn the_nearest_link_is_inside_all_others(dom: &Dom, id: NodeId, other: NodeId)
    requires
        dom.wf(),
        dom.has(id),
    ensures
        link_above(dom, id) matches Some(l) ==> is_link(dom, l) && dom.under(id, l),
        is_link(dom, other) && dom.under(id, other) ==> (link_above(dom, id) matches Some(l)
            && dom.has(l) && dom.under(l, other)),
    decreases dom.climb(id),
{
    if !is_link(dom, id) {
        if let Some(p) = dom.parent_of(id) {
            dom.parents_are_nearer_the_peak(id);
            the_nearest_link_is_inside_all_others(dom, p, other);
        }
    }
}

/// The nearest control at or above a node is one that takes focus, holds the
/// node, and lies inside every other that does.
pub proof fn the_nearest_field_is_inside_all_others(dom: &Dom, id: NodeId, other: NodeId)
    requires
        dom.wf(),
        dom.has(id),
    ensures
        field_above(dom, id) matches Some(l) ==> is_field(dom, l) && dom.under(id, l),
        is_field(dom, other) && dom.under(id, other) ==> (field_above(dom, id) matches Some(l)
            && dom.has(l) && dom.under(l, other)),
    decreases dom.climb(id),
{
    if !is_field(dom, id) {
        if let Some(p) = dom.parent_of(id) {
            dom.parents_are_nearer_the_peak(id);
            the_nearest_field_is_inside_all_others(dom, p, other);
        }
    }
}

/// The nearest node at or above another that takes focus is a link or a control,
/// holds that other, and lies inside every other that does.
pub proof fn the_nearest_focus_is_inside_all_others(dom: &Dom, id: NodeId, other: NodeId)
    requires
        dom.wf(),
        dom.has(id),
    ensures
        focus_above(dom, id) matches Some(l) ==> (is_link(dom, l) || is_field(dom, l)) && dom.under(
            id,
            l,
        ),
        (is_link(dom, other) || is_field(dom, other)) && dom.under(id, other) ==> (focus_above(
            dom,
            id,
        ) matches Some(l) && dom.has(l) && dom.under(l, other)),
    decreases dom.climb(id),
{
    if !is_focusable(dom, id) {
        if let Some(p) = dom.parent_of(id) {
            dom.parents_are_nearer_the_peak(id);
            the_nearest_focus_is_inside_all_others(dom, p, other);
        }
    }
}

proof fn a_pair_more(
    first: (NodeId, Seq<char>),
    rest: Seq<(NodeId, Seq<char>)>,
    p: (NodeId, Seq<char>),
)
    ensures
        (seq![first] + rest).contains(p) <==> p == first || rest.contains(p),
{
    let all = seq![first] + rest;
    if p == first {
        assert(all[0] == p);
    }
    if rest.contains(p) {
        let i = choose|i: int| 0 <= i < rest.len() && rest[i] == p;
        assert(all[i + 1] == p);
    }
    if all.contains(p) {
        let i = choose|i: int| 0 <= i < all.len() && all[i] == p;
        if i > 0 {
            assert(rest[i - 1] == p);
        }
    }
}

/// The links of a document are its nodes that are links, each with where it
/// leads, and no others.
pub proof fn every_link_of_a_document_is_listed(
    dom: &Dom,
    order: Seq<NodeId>,
    i: int,
    node: NodeId,
    href: Seq<char>,
)
    requires
        0 <= i <= order.len(),
    ensures
        links_in(dom, order, i).contains((node, href)) <==> order.skip(i).contains(node) && is_link(
            dom,
            node,
        ) && href == href_of(dom, node),
    decreases order.len() - i,
{
    if i < order.len() {
        every_link_of_a_document_is_listed(dom, order, i + 1, node, href);
        let n = order[i];
        assert(order.skip(i) =~= seq![n] + order.skip(i + 1));
        a_node_more(n, order.skip(i + 1), node);
        a_pair_more((n, href_of(dom, n)), links_in(dom, order, i + 1), (node, href));
    } else {
        assert(!order.skip(i).contains(node));
        assert(!links_in(dom, order, i).contains((node, href)));
    }
}

proof fn a_node_more(first: NodeId, rest: Seq<NodeId>, n: NodeId)
    ensures
        (seq![first] + rest).contains(n) <==> n == first || rest.contains(n),
{
    let all = seq![first] + rest;
    if n == first {
        assert(all[0] == n);
    }
    if rest.contains(n) {
        let i = choose|i: int| 0 <= i < rest.len() && rest[i] == n;
        assert(all[i + 1] == n);
    }
    if all.contains(n) {
        let i = choose|i: int| 0 <= i < all.len() && all[i] == n;
        if i > 0 {
            assert(rest[i - 1] == n);
        }
    }
}

/// Of two links, the one the document has first is listed first.
pub proof fn links_of_a_document_keep_their_order(
    dom: &Dom,
    order: Seq<NodeId>,
    i: int,
    a: int,
    b: int,
) -> (at: (int, int))
    requires
        0 <= i <= a < b < order.len(),
        is_link(dom, order[a]),
        is_link(dom, order[b]),
    ensures
        ({
            let all = links_in(dom, order, i);
            &&& 0 <= at.0 < at.1 < all.len()
            &&& all[at.0].0 == order[a]
            &&& all[at.1].0 == order[b]
        }),
    decreases order.len() - i,
{
    let more = links_in(dom, order, i + 1);
    let all = links_in(dom, order, i);
    let here: int = if is_link(dom, order[i]) {
        1
    } else {
        0
    };
    if i < a {
        let (p, q) = links_of_a_document_keep_their_order(dom, order, i + 1, a, b);
        assert(all[p + here] == more[p]);
        assert(all[q + here] == more[q]);
        (p + here, q + here)
    } else {
        let l = (order[b], href_of(dom, order[b]));
        every_link_of_a_document_is_listed(dom, order, i + 1, order[b], l.1);
        assert(order.skip(i + 1)[b - i - 1] == order[b]);
        let q = choose|q: int| 0 <= q < more.len() && more[q] == l;
        assert(all[q + 1] == more[q]);
        (0, q + 1)
    }
}

/// What takes focus in a document is its links and its controls that are not
/// disabled, and nothing else.
pub proof fn every_focus_of_a_document_is_listed(
    dom: &Dom,
    order: Seq<NodeId>,
    i: int,
    node: NodeId,
)
    requires
        0 <= i <= order.len(),
    ensures
        focus_in(dom, order, i).contains(node) <==> order.skip(i).contains(node) && (is_link(
            dom,
            node,
        ) || is_field(dom, node)),
    decreases order.len() - i,
{
    if i < order.len() {
        every_focus_of_a_document_is_listed(dom, order, i + 1, node);
        let n = order[i];
        assert(order.skip(i) =~= seq![n] + order.skip(i + 1));
        a_node_more(n, order.skip(i + 1), node);
        a_node_more(n, focus_in(dom, order, i + 1), node);
    } else {
        assert(!order.skip(i).contains(node));
        assert(!focus_in(dom, order, i).contains(node));
    }
}

/// Box `k` of a walk shows `node`, or something inside it with no other focus
/// between.
pub open spec fn shows_focus(
    dom: &Dom,
    boxes: Seq<BoxView>,
    walk: Seq<(BoxId, Clip)>,
    k: int,
    node: NodeId,
) -> bool {
    let b = boxes[walk[k].0.0 as int];
    walk[k].1.reveals(b) && (b.node matches Some(n) && focus_above(dom, n) == Some(node))
}

/// What takes focus on a page is what some box that can be seen shows, each
/// once.
pub proof fn every_visible_focus_is_listed_once(
    dom: &Dom,
    boxes: Seq<BoxView>,
    walk: Seq<(BoxId, Clip)>,
    i: int,
    out: Seq<NodeId>,
    node: NodeId,
)
    requires
        0 <= i <= walk.len(),
        out.no_duplicates(),
    ensures
        focus_from(dom, boxes, walk, i, out).no_duplicates(),
        focus_from(dom, boxes, walk, i, out).contains(node) <==> out.contains(node) || exists|k: int|
            i <= k < walk.len() && #[trigger] shows_focus(dom, boxes, walk, k, node),
    decreases walk.len() - i,
{
    if i < walk.len() {
        let b = boxes[walk[i].0.0 as int];
        let next = match b.node {
            Some(n) if walk[i].1.reveals(b) => match focus_above(dom, n) {
                Some(f) if !out.contains(f) => out.push(f),
                _ => out,
            },
            _ => out,
        };
        assert(next.no_duplicates());
        if next.len() > out.len() {
            let f = next.last();
            assert(next =~= out.push(f));
            assert(next.contains(node) <==> out.contains(node) || node == f) by {
                if out.contains(node) {
                    let j = choose|j: int| 0 <= j < out.len() && out[j] == node;
                    assert(next[j] == node);
                }
                if node == f {
                    assert(next[out.len() as int] == node);
                }
                if next.contains(node) {
                    let j = choose|j: int| 0 <= j < next.len() && next[j] == node;
                    if j < out.len() {
                        assert(out[j] == node);
                    }
                }
            }
        }
        every_visible_focus_is_listed_once(dom, boxes, walk, i + 1, next, node);
        assert(next.contains(node) <==> out.contains(node) || shows_focus(
            dom,
            boxes,
            walk,
            i,
            node,
        ));
    }
}

/// The row of a node is that of the first box it has, and it has none if no box
/// is its own.
pub proof fn a_node_is_found_on_its_first_row(
    boxes: Seq<BoxView>,
    walk: Seq<BoxId>,
    i: int,
    node: NodeId,
    k: int,
)
    requires
        0 <= i <= k < walk.len(),
        boxes[walk[k].0 as int].node == Some(node),
        forall|j: int| i <= j < k ==> boxes[(#[trigger] walk[j]).0 as int].node != Some(node),
    ensures
        row_of(boxes, walk, i, node) == Some(boxes[walk[k].0 as int].dimensions.content.y),
    decreases k - i,
{
    if i < k {
        assert(boxes[walk[i].0 as int].node != Some(node));
        a_node_is_found_on_its_first_row(boxes, walk, i + 1, node, k);
    }
}

pub proof fn a_node_without_a_box_has_no_row(
    boxes: Seq<BoxView>,
    walk: Seq<BoxId>,
    i: int,
    node: NodeId,
)
    requires
        0 <= i <= walk.len(),
        forall|j: int|
            i <= j < walk.len() ==> boxes[(#[trigger] walk[j]).0 as int].node != Some(node),
    ensures
        row_of(boxes, walk, i, node) is None,
    decreases walk.len() - i,
{
    if i < walk.len() {
        assert(boxes[walk[i].0 as int].node != Some(node));
        a_node_without_a_box_has_no_row(boxes, walk, i + 1, node);
    }
}

/// To show a node the page is scrolled to the first box of it or of anything
/// inside it.
pub proof fn scrolling_shows_the_first_of_a_node(
    dom: &Dom,
    boxes: Seq<BoxView>,
    walk: Seq<BoxId>,
    i: int,
    node: NodeId,
    near: Option<(int, i32)>,
    k: int,
)
    requires
        0 <= i <= k < walk.len(),
        boxes[walk[k].0 as int].node matches Some(n) && dom.under(n, node),
        forall|j: int|
            i <= j < k ==> (boxes[(#[trigger] walk[j]).0 as int].node matches Some(n) ==> !dom.under(
                n,
                node,
            )),
    ensures
        near_row(dom, boxes, walk, i, node, near) == Some(
            boxes[walk[k].0 as int].dimensions.content.y,
        ),
    decreases k - i,
{
    if i < k {
        let b = boxes[walk[i].0 as int];
        let y = b.dimensions.content.y;
        assert(boxes[walk[i].0 as int].node matches Some(n) ==> !dom.under(n, node));
        let next = match b.node {
            None => near,
            Some(n) => match (place_in(ancestors_of(dom, node), n, 0), near) {
                (Some(d), Some((best, _))) if d >= best => near,
                (Some(d), _) => Some((d, y)),
                (None, _) => near,
            },
        };
        scrolling_shows_the_first_of_a_node(dom, boxes, walk, i + 1, node, next, k);
    }
}

} // verus!
