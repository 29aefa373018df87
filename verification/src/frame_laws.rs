//! Laying something out leaves everything else alone.
//!
//! In a document of text, blocks and flex containers, what a box is filled with
//! is put behind every box there is, and holds only boxes that were made for
//! it. So moving a box moves nothing that is not inside it.

use vstd::prelude::*;

use crate::blocks::{heights_of, BlockHeight, BoxArgs, FlowEnv, FlowView, Recipe};
use crate::boxes::{BoxId, BoxKind, BoxView};
use crate::boxmodel::{from_far_edge, lays_out_as_flex, lays_out_as_grid};
use crate::breaker::{chunk, hard_broken, piece_placed, wrapped};
use crate::cells::{larger, minus, plus};
use crate::context::{text_source, ChildMode, Ctx, SourceView};
use crate::dimensions::{Dimensions, Rect};
use crate::dom::NodeId;
use crate::engine::{moved_box, moving_only_moves, plain_box, shifted, shifted_kids, Canvas};
use crate::flex::{
    a_line_ends_past_its_start, cross_places, line_end, lines_from, CrossItem, CrossPlaced, Item,
    PlacedLine,
};
use crate::flexbox::{
    column_placed, cross_aligned, crossed, in_order, line_crossed, lines_crossed, placement,
    plan_cross, plan_line, stretched, CrossPlan, FlexAxis, FlexEnv, FlexItem, ItemPlacement,
    LinePlan,
};
use crate::inline::{frags_from, word_piece, FragView, InlineItem, PieceKind, PieceView};
use crate::line_laws::{
    all_text, breaking_adds, chunks_are_not_negative, closing_adds, closing_keeps_text,
    is_text_piece, merging_keeps_text, placing_a_piece_adds, placing_adds, placing_text, text_frags,
    text_items,
};
use crate::linebox::{
    align_shift, closed, emitted, empty_line, extent_from, merged, placed_from, without_space,
    Extent, LineView,
};
use crate::order::sorting_sorts;
use crate::page_laws::ordinary_tag;
use crate::style::{ComputedStyle, TextAlign};

verus! {

/// Boxes from the `n`th on, before the `m`th.
pub open spec fn all_from(n: nat, ids: Seq<BoxId>, m: nat) -> bool {
    forall|k: int| 0 <= k < ids.len() ==> n <= (#[trigger] ids[k]).0 < m
}

/// What boxes from the `n`th on hold was made after them too.
pub open spec fn sealed(n: nat, boxes: Seq<BoxView>) -> bool {
    forall|i: int| n <= i < boxes.len() ==> all_from(n, (#[trigger] boxes[i]).children, boxes.len())
}

/// The first `n` boxes are as they were.
pub open spec fn kept(n: nat, a: Seq<BoxView>, b: Seq<BoxView>) -> bool {
    a.len() <= b.len() && forall|i: int| 0 <= i < n ==> #[trigger] b[i] == a[i]
}

/// Boxes from the `s`th on are one tree, the `s`th its root, and nothing holds
/// the root.
pub open spec fn rooted(s: nat, boxes: Seq<BoxView>) -> bool {
    s < boxes.len() && forall|i: int|
        s <= i < boxes.len() ==> all_from(s + 1, (#[trigger] boxes[i]).children, boxes.len())
}

proof fn a_rooted_tree_is_sealed(n: nat, s: nat, a: Seq<BoxView>, b: Seq<BoxView>)
    requires
        n <= s,
        s == a.len(),
        sealed(n, a),
        kept(s, a, b),
        rooted(s, b),
    ensures
        sealed(n, b),
{
    assert forall|i: int| n <= i < b.len() implies all_from(
        n,
        (#[trigger] b[i]).children,
        b.len(),
    ) by {
        if i < s {
            assert(b[i] == a[i]);
            assert(all_from(n, a[i].children, a.len()));
            assert forall|k: int| 0 <= k < b[i].children.len() implies n <= (
            #[trigger] b[i].children[k]).0 < b.len() by {
                assert(n <= a[i].children[k].0 < a.len());
            }
        } else {
            assert(all_from(s + 1, b[i].children, b.len()));
            assert forall|k: int| 0 <= k < b[i].children.len() implies n <= (
            #[trigger] b[i].children[k]).0 < b.len() by {
                assert(s + 1 <= b[i].children[k].0);
            }
        }
    }
}

/// Moving a box that is sealed off moves nothing before the seal.
proof fn a_move_stays_inside(
    n: nat,
    m: nat,
    boxes: Seq<BoxView>,
    depth: nat,
    id: BoxId,
    dx: i32,
    dy: i32,
)
    requires
        n <= id.0 < m <= boxes.len(),
        forall|i: int| n <= i < m ==> all_from(n, (#[trigger] boxes[i]).children, m),
    ensures
        ({
            let r = shifted(boxes, depth, id, dx, dy);
            &&& r.len() == boxes.len()
            &&& forall|i: int| 0 <= i < n || m <= i < boxes.len() ==> #[trigger] r[i] == boxes[i]
            &&& forall|i: int|
                0 <= i < boxes.len() ==> (#[trigger] r[i]).children == boxes[i].children
        }),
    decreases depth, 0nat,
{
    moving_only_moves(boxes, depth, id, dx, dy);
    if depth > 0 && (dx != 0 || dy != 0) {
        let b = boxes[id.0 as int];
        let next = boxes.update(id.0 as int, moved_box(b, dx, dy));
        assert forall|i: int| n <= i < m implies all_from(n, (#[trigger] next[i]).children, m) by {
            assert(all_from(n, boxes[i].children, m));
        }
        assert(all_from(n, boxes[id.0 as int].children, m));
        moves_stay_inside(n, m, next, depth, b.children, 0, dx, dy);
    }
}

proof fn moves_stay_inside(
    n: nat,
    m: nat,
    boxes: Seq<BoxView>,
    depth: nat,
    kids: Seq<BoxId>,
    k: int,
    dx: i32,
    dy: i32,
)
    requires
        m <= boxes.len(),
        0 <= k,
        all_from(n, kids, m),
        forall|i: int| n <= i < m ==> all_from(n, (#[trigger] boxes[i]).children, m),
    ensures
        ({
            let r = shifted_kids(boxes, depth, kids, k, dx, dy);
            &&& r.len() == boxes.len()
            &&& forall|i: int| 0 <= i < n || m <= i < boxes.len() ==> #[trigger] r[i] == boxes[i]
            &&& forall|i: int|
                0 <= i < boxes.len() ==> (#[trigger] r[i]).children == boxes[i].children
        }),
    decreases depth, 0nat, kids.len() - k,
{
    if depth > 0 && k < kids.len() {
        assert(n <= kids[k].0 < m);
        let next = shifted(boxes, (depth - 1) as nat, kids[k], dx, dy);
        a_move_stays_inside(n, m, boxes, (depth - 1) as nat, kids[k], dx, dy);
        assert forall|i: int| n <= i < m implies all_from(n, (#[trigger] next[i]).children, m) by {
            assert(all_from(n, boxes[i].children, m));
        }
        moves_stay_inside(n, m, next, depth, kids, k + 1, dx, dy);
    }
}

/// Moving the root of a tree moves it once, and nothing outside the tree.
pub(crate) proof fn moving_a_root(s: nat, e: nat, boxes: Seq<BoxView>, id: BoxId, dx: i32, dy: i32)
    requires
        id.0 == s,
        s < e <= boxes.len(),
        forall|i: int| s <= i < e ==> all_from(s + 1, (#[trigger] boxes[i]).children, e),
    ensures
        ({
            let r = shifted(boxes, boxes.len(), id, dx, dy);
            &&& r.len() == boxes.len()
            &&& forall|i: int| 0 <= i < s || e <= i < boxes.len() ==> #[trigger] r[i] == boxes[i]
            &&& forall|i: int|
                0 <= i < boxes.len() ==> (#[trigger] r[i]).children == boxes[i].children
            &&& r[s as int] == moved_box(boxes[s as int], dx, dy) || (dx == 0 && dy == 0 && r
                == boxes)
        }),
{
    if dx != 0 || dy != 0 {
        let b = boxes[s as int];
        let next = boxes.update(s as int, moved_box(b, dx, dy));
        assert(all_from(s + 1, boxes[s as int].children, e));
        assert forall|i: int| s + 1 <= i < e implies all_from(
            s + 1,
            (#[trigger] next[i]).children,
            e,
        ) by {
            assert(all_from(s + 1, boxes[i].children, e));
        }
        moves_stay_inside(s + 1, e, next, boxes.len(), b.children, 0, dx, dy);
    }
}

// ---- text ------------------------------------------------------------------

/// Where a text stands: the lines it was broken into so far are behind `n`.
spec fn text_behind(n: nat, start: Seq<BoxView>, cv: Canvas, lb: LineView) -> bool {
    &&& all_text(lb.cur)
    &&& n <= start.len()
    &&& kept(n, start, cv.boxes)
    &&& sealed(n, cv.boxes)
    &&& all_from(n, lb.lines, cv.boxes.len())
}

proof fn closing_stays_behind(
    n: nat,
    start: Seq<BoxView>,
    cv: Canvas,
    lb: LineView,
    x: i32,
    width: i32,
    align: TextAlign,
)
    requires
        text_behind(n, start, cv, lb),
        emitted(cv, lb, x, width, align).0.boxes.len() <= usize::MAX,
    ensures
        ({
            let r = emitted(cv, lb, x, width, align);
            text_behind(n, start, r.0, r.1)
        }),
{
    closing_adds(cv, lb, x, width, align);
    closing_keeps_text(lb.cur);
    let cur = closed(lb.cur);
    if cur.len() > 0 {
        merging_keeps_text(cur, 0, Seq::empty());
        let pieces = merged(cur);
        let zero = Extent { cells: 0, above: 0, below: 0 };
        let e = extent_from(cv.boxes, cur, 0, zero);
        let height = plus(plus(e.above, 1), e.below);
        let line = cv.next_id();
        let with_line = cv.with_box(
            plain_box(
                BoxKind::Line,
                None,
                Dimensions::bare(Rect { x, y: lb.y, width, height }),
                ComputedStyle::initial(),
            ),
        );
        let cx = plus(x, align_shift(align, width, e.cells));
        let row = plus(lb.y, e.above);
        placing_adds(with_line, pieces, 0, cx, row, width, Seq::empty());
        placing_text(with_line, pieces, 0, cx, row, width, Seq::empty());
        placed_text_holds_nothing(with_line, pieces, 0, cx, row, width, Seq::empty());
        let (full, ids) = placed_from(with_line, pieces, 0, cx, row, width, Seq::empty());
        let after = full.with_children(line, ids).boxes;
        let r = emitted(cv, lb, x, width, align);
        assert(r.0.boxes == after);
        let m = cv.boxes.len() as int;
        assert forall|i: int| 0 <= i < m implies #[trigger] after[i] == cv.boxes[i] by {
            assert(full.boxes[i] == with_line.boxes[i]);
        }
        assert forall|i: int| n <= i < after.len() implies all_from(
            n,
            (#[trigger] after[i]).children,
            after.len(),
        ) by {
            if i < m {
                assert(all_from(n, cv.boxes[i].children, cv.boxes.len()));
                assert forall|k: int| 0 <= k < after[i].children.len() implies n <= (
                #[trigger] after[i].children[k]).0 < after.len() by {
                    assert(n <= cv.boxes[i].children[k].0 < cv.boxes.len());
                }
            } else if i == m {
                assert(after[i].children == ids);
            } else {
                assert(after[i] == full.boxes[i]);
            }
        }
        assert forall|k: int| 0 <= k < r.1.lines.len() implies n <= (#[trigger] r.1.lines[k]).0
            < after.len() by {
            if k < lb.lines.len() {
                assert(n <= lb.lines[k].0 < cv.boxes.len());
            }
        }
    }
}

proof fn placed_text_holds_nothing(
    cv: Canvas,
    pieces: Seq<PieceView>,
    i: int,
    cx: i32,
    row: i32,
    width: i32,
    ids: Seq<BoxId>,
)
    requires
        0 <= i <= pieces.len(),
        all_text(pieces),
    ensures
        ({
            let r = placed_from(cv, pieces, i, cx, row, width, ids).0.boxes;
            &&& cv.boxes.len() <= r.len()
            &&& forall|k: int| 0 <= k < cv.boxes.len() ==> #[trigger] r[k] == cv.boxes[k]
            &&& forall|k: int|
                cv.boxes.len() <= k < r.len() ==> (#[trigger] r[k]).children.len() == 0
        }),
    decreases pieces.len() - i,
{
    if i < pieces.len() {
        let p = pieces[i];
        assert(is_text_piece(p));
        let b = crate::engine::text_box(
            p.node,
            Rect { x: cx, y: row, width: p.cells, height: 1 },
            p.text,
            p.style,
        );
        let next = cv.with_box(b);
        placed_text_holds_nothing(
            next,
            pieces,
            i + 1,
            plus(cx, p.cells),
            row,
            width,
            ids.push(cv.next_id()),
        );
        let r = placed_from(cv, pieces, i, cx, row, width, ids).0.boxes;
        assert forall|k: int| 0 <= k < cv.boxes.len() implies #[trigger] r[k] == cv.boxes[k] by {
            assert(r[k] == next.boxes[k]);
        }
        assert forall|k: int| cv.boxes.len() <= k < r.len() implies (
        #[trigger] r[k]).children.len() == 0 by {
            if k == cv.boxes.len() {
                assert(r[k] == next.boxes[k]);
            }
        }
    }
}

proof fn breaking_stays_behind(
    n: nat,
    start: Seq<BoxView>,
    cv: Canvas,
    lb: LineView,
    p: PieceView,
    from: int,
    x: i32,
    width: i32,
    align: TextAlign,
)
    requires
        0 <= from,
        text_behind(n, start, cv, lb),
        hard_broken(cv, lb, p, from, x, width, align).0.boxes.len() <= usize::MAX,
    ensures
        ({
            let r = hard_broken(cv, lb, p, from, x, width, align);
            text_behind(n, start, r.0, r.1)
        }),
    decreases p.text.len() - from,
{
    if from < p.text.len() {
        crate::breaker::chunk_moves_on(p.text, from, from, 0, width);
        let (end, cells) = chunk(p.text, from, from, 0, width);
        chunks_are_not_negative(p.text, from, from, 0, width);
        let part = word_piece(p.text.subrange(from, end), cells, p.style, p.node);
        let with = lb.with_cur(lb.cur.push(part));
        assert forall|i: int| 0 <= i < with.cur.len() implies is_text_piece(
            #[trigger] with.cur[i],
        ) by {
            if i < lb.cur.len() {
                assert(is_text_piece(lb.cur[i]));
            }
        }
        if end < p.text.len() {
            let (cv2, lb2) = emitted(cv, with, x, width, align);
            closing_adds(cv, with, x, width, align);
            breaking_adds(cv2, lb2, p, end, x, width, align);
            closing_stays_behind(n, start, cv, with, x, width, align);
            breaking_stays_behind(n, start, cv2, lb2, p, end, x, width, align);
        }
    }
}

proof fn placing_stays_behind(
    n: nat,
    start: Seq<BoxView>,
    cv: Canvas,
    lb: LineView,
    p: PieceView,
    x: i32,
    width: i32,
    align: TextAlign,
)
    requires
        text_behind(n, start, cv, lb),
        is_text_piece(p),
        piece_placed(cv, lb, p, x, width, align).0.boxes.len() <= usize::MAX,
    ensures
        ({
            let r = piece_placed(cv, lb, p, x, width, align);
            text_behind(n, start, r.0, r.1)
        }),
{
    placing_a_piece_adds(cv, lb, p, x, width, align);
    let dropped = lb.with_cur(without_space(lb.cur));
    assert forall|i: int| 0 <= i < dropped.cur.len() implies is_text_piece(
        #[trigger] dropped.cur[i],
    ) by {
        assert(is_text_piece(lb.cur[i]));
    }
    match p.kind {
        PieceKind::Break => {
            if lb.cur.len() == 0 {
                let r = empty_line(cv, lb, x, width);
                assert forall|i: int| n <= i < r.0.boxes.len() implies all_from(
                    n,
                    (#[trigger] r.0.boxes[i]).children,
                    r.0.boxes.len(),
                ) by {
                    if i < cv.boxes.len() {
                        assert(all_from(n, cv.boxes[i].children, cv.boxes.len()));
                    }
                }
            } else {
                closing_stays_behind(n, start, cv, lb, x, width, align);
            }
        },
        PieceKind::Word => {
            if p.cells > width {
                let (cv2, lb2) = wrapped(cv, lb, x, width, align);
                closing_adds(cv, dropped, x, width, align);
                breaking_adds(cv2, lb2, p, 0, x, width, align);
                closing_stays_behind(n, start, cv, dropped, x, width, align);
                breaking_stays_behind(n, start, cv2, lb2, p, 0, x, width, align);
            } else if lb.cur.len() > 0 && plus(lb.cells, p.cells) > width {
                closing_stays_behind(n, start, cv, dropped, x, width, align);
            }
        },
        _ => {},
    }
}

impl<'a> Ctx<'a> {
    proof fn placing_frags_stays_behind(
        &self,
        n: nat,
        start: Seq<BoxView>,
        rec: Recipe,
        cv: Canvas,
        lb: LineView,
        frags: Seq<FragView>,
        i: int,
        x: i32,
        width: i32,
        align: TextAlign,
    )
        requires
            0 <= i <= frags.len(),
            text_frags(frags),
            text_behind(n, start, cv, lb),
            self.frags_placed(rec, cv, lb, frags, i, x, width, align).0.boxes.len() <= usize::MAX,
        ensures
            ({
                let r = self.frags_placed(rec, cv, lb, frags, i, x, width, align);
                text_behind(n, start, r.0, r.1)
            }),
        decreases frags.len() - i,
    {
        if i < frags.len() {
            let p = frags[i]->Piece_0;
            assert(frags[i] matches FragView::Piece(q) && is_text_piece(q));
            let (cv2, lb2) = piece_placed(cv, lb, p, x, width, align);
            self.placing_a_piece(rec, cv, lb, frags, i, p, x, width, align);
            placing_a_piece_adds(cv, lb, p, x, width, align);
            self.placing_frags_adds(rec, cv2, lb2, frags, i + 1, x, width, align);
            placing_stays_behind(n, start, cv, lb, p, x, width, align);
            self.placing_frags_stays_behind(
                n,
                start,
                rec,
                cv2,
                lb2,
                frags,
                i + 1,
                x,
                width,
                align,
            );
        }
    }

    proof fn a_text_stays_behind(
        &self,
        rec: Recipe,
        cv: Canvas,
        items: Seq<InlineItem>,
        x: i32,
        y: i32,
        width: i32,
        align: TextAlign,
    )
        requires
            text_items(items),
            self.inline_laid(rec, cv, items, x, y, width, align).0.boxes.len() <= usize::MAX,
        ensures
            ({
                let (after, lines) = self.inline_laid(rec, cv, items, x, y, width, align);
                &&& kept(cv.boxes.len(), cv.boxes, after.boxes)
                &&& sealed(cv.boxes.len(), after.boxes)
                &&& all_from(cv.boxes.len(), lines, after.boxes.len())
            }),
    {
        reveal(Ctx::inline_laid);
        let w = larger(width, 1);
        let frags = frags_from(self.dom, items, 0, None);
        self.items_are_text(items, 0, None);
        let begin = LineView::begin(y);
        let n = cv.boxes.len();
        let (cv2, lb) = self.frags_placed(rec, cv, begin, frags, 0, x, w, align);
        self.text_stays_text(rec, cv, begin, frags, 0, x, w, align);
        closing_adds(cv2, lb, x, w, align);
        self.placing_frags_stays_behind(n, cv.boxes, rec, cv, begin, frags, 0, x, w, align);
        closing_stays_behind(n, cv.boxes, cv2, lb, x, w, align);
    }

    /// A run of text in its anonymous block: one tree, behind everything.
    pub(crate) proof fn a_run_is_rooted(
        &self,
        rec: Recipe,
        cv: Canvas,
        x: i32,
        width: i32,
        y: i32,
        prev: i32,
        items: Seq<InlineItem>,
        align: TextAlign,
    )
        requires
            text_items(items),
            items.len() > 0,
        ensures
            ({
                let laid = self.anonymous(rec, cv, x, width, y, prev, items, align, false);
                let s = cv.boxes.len();
                &&& s < laid.cv.boxes.len()
                &&& laid.id is Some
                &&& laid.cv.boxes.len() <= usize::MAX ==> {
                    &&& laid.id == Some(BoxId(s as usize))
                    &&& kept(s, cv.boxes, laid.cv.boxes)
                    &&& rooted(s, laid.cv.boxes)
                    &&& exists|top: i32, height: i32|
                        laid.cv.boxes[s as int].dimensions == #[trigger] Dimensions::bare(
                            Rect { x, y: top, width, height },
                        ) && (i32::MIN <= y - prev <= i32::MAX ==> top == y)
                    &&& laid.cv.boxes[s as int].node is None
                    &&& laid.cv.boxes[s as int].computed == ComputedStyle::initial()
                }
            }),
    {
        reveal(Ctx::anonymous);
        let after = minus(y, prev);
        let used_top = if after == 0 && prev == 0 {
            0
        } else {
            prev
        };
        let top = plus(after, used_top);
        let with = cv.with_box(
            plain_box(
                BoxKind::AnonymousBlock,
                None,
                Dimensions::bare(Rect { x, y: top, width, height: 0 }),
                ComputedStyle::initial(),
            ),
        );
        self.breaking_text_adds(rec, with, items, x, top, width, align);
        let laid = self.anonymous(rec, cv, x, width, y, prev, items, align, false);
        let s = cv.boxes.len();
        let (inner, lines) = self.inline_laid(rec, with, items, x, top, width, align);
        if laid.cv.boxes.len() <= usize::MAX {
            self.a_text_stays_behind(rec, with, items, x, top, width, align);
            let b = laid.cv.boxes;
            assert(b.len() == inner.boxes.len());
            assert(inner.boxes[s as int] == with.boxes[s as int]);
            assert forall|i: int| 0 <= i < s implies #[trigger] b[i] == cv.boxes[i] by {
                assert(inner.boxes[i] == with.boxes[i]);
            }
            assert forall|i: int| s <= i < b.len() implies all_from(
                s + 1,
                (#[trigger] b[i]).children,
                b.len(),
            ) by {
                if i == s {
                    assert(b[i].children == lines);
                } else {
                    assert(b[i] == inner.boxes[i]);
                    assert(all_from(s + 1, inner.boxes[i].children, inner.boxes.len()));
                }
            }
            let height = b[s as int].dimensions.content.height;
            assert(b[s as int].dimensions == Dimensions::bare(Rect { x, y: top, width, height }));
        }
    }
}

// ---- blocks ----------------------------------------------------------------

/// Where a container's contents stand: everything made for it is behind `n`,
/// and so are the boxes it is to hold.
pub open spec fn behind(n: nat, start: Seq<BoxView>, cv: Canvas, ids: Seq<BoxId>) -> bool {
    &&& n <= start.len() <= cv.boxes.len()
    &&& forall|k: int| 0 <= k < ids.len() ==> (#[trigger] ids[k]).0 < cv.boxes.len()
    &&& cv.boxes.len() <= usize::MAX ==> {
        &&& kept(n, start, cv.boxes)
        &&& sealed(n, cv.boxes)
        &&& all_from(n, ids, cv.boxes.len())
    }
}

pub(crate) proof fn one_tree_more(n: nat, start: Seq<BoxView>, cv: Canvas, ids: Seq<BoxId>, next: Canvas, id: BoxId)
    requires
        behind(n, start, cv, ids),
        cv.boxes.len() < next.boxes.len(),
        id.0 < next.boxes.len(),
        next.boxes.len() <= usize::MAX ==> {
            &&& id == BoxId(cv.boxes.len() as usize)
            &&& kept(cv.boxes.len(), cv.boxes, next.boxes)
            &&& rooted(cv.boxes.len(), next.boxes)
        },
    ensures
        behind(n, start, next, ids.push(id)),
        behind(n, start, next, ids),
{
    let more = ids.push(id);
    assert forall|k: int| 0 <= k < more.len() implies (#[trigger] more[k]).0 < next.boxes.len() by {
        if k < ids.len() {
            assert(ids[k].0 < cv.boxes.len());
        }
    }
    assert forall|k: int| 0 <= k < ids.len() implies (#[trigger] ids[k]).0 < next.boxes.len() by {
        assert(more[k] == ids[k]);
    }
    if next.boxes.len() <= usize::MAX {
        a_rooted_tree_is_sealed(n, cv.boxes.len(), cv.boxes, next.boxes);
        assert forall|i: int| 0 <= i < n implies #[trigger] next.boxes[i] == start[i] by {
            assert(cv.boxes[i] == start[i]);
        }
        assert forall|k: int| 0 <= k < more.len() implies n <= (#[trigger] more[k]).0
            < next.boxes.len() by {
            if k < ids.len() {
                assert(n <= ids[k].0 < cv.boxes.len());
            }
        }
        assert forall|k: int| 0 <= k < ids.len() implies n <= (#[trigger] ids[k]).0
            < next.boxes.len() by {
            assert(more[k] == ids[k]);
        }
    }
}

proof fn a_touch_stays_behind(
    n: nat,
    start: Seq<BoxView>,
    cv: Canvas,
    ids: Seq<BoxId>,
    id: BoxId,
    dims: Dimensions,
)
    requires
        behind(n, start, cv, ids),
        id.0 < cv.boxes.len(),
        cv.boxes.len() <= usize::MAX ==> n <= id.0,
    ensures
        behind(n, start, cv.with_dims(id, dims), ids),
        cv.with_dims(id, dims).boxes.len() == cv.boxes.len(),
{
    let next = cv.with_dims(id, dims);
    if cv.boxes.len() <= usize::MAX {
        assert forall|i: int| n <= i < next.boxes.len() implies all_from(
            n,
            (#[trigger] next.boxes[i]).children,
            next.boxes.len(),
        ) by {
            assert(all_from(n, cv.boxes[i].children, cv.boxes.len()));
        }
    }
}

proof fn a_move_stays_behind(
    n: nat,
    start: Seq<BoxView>,
    cv: Canvas,
    ids: Seq<BoxId>,
    id: BoxId,
    dx: i32,
    dy: i32,
)
    requires
        behind(n, start, cv, ids),
        id.0 < cv.boxes.len(),
        cv.boxes.len() <= usize::MAX ==> n <= id.0,
    ensures
        behind(n, start, cv.moved(id, dx, dy), ids),
        cv.moved(id, dx, dy).boxes.len() == cv.boxes.len(),
{
    let next = cv.moved(id, dx, dy);
    moving_only_moves(cv.boxes, cv.boxes.len(), id, dx, dy);
    if cv.boxes.len() <= usize::MAX {
        a_move_stays_inside(n, cv.boxes.len(), cv.boxes, cv.boxes.len(), id, dx, dy);
        assert forall|i: int| n <= i < next.boxes.len() implies all_from(
            n,
            (#[trigger] next.boxes[i]).children,
            next.boxes.len(),
        ) by {
            assert(all_from(n, cv.boxes[i].children, cv.boxes.len()));
        }
        assert forall|i: int| 0 <= i < n implies #[trigger] next.boxes[i] == start[i] by {
            assert(cv.boxes[i] == start[i]);
        }
    }
}

/// Edges, place and width as asked for.
pub open spec fn placed_as(a: Dimensions, b: Dimensions) -> bool {
    &&& a.padding == b.padding
    &&& a.border == b.border
    &&& a.margin == b.margin
    &&& a.content.x == b.content.x
    &&& a.content.y == b.content.y
    &&& a.content.width == b.content.width
}

impl<'a> Ctx<'a> {
    /// An element in the flow whose style alone decides its layout: text in an
    /// inline, a block, or a flex container.
    pub open spec fn flows_or_flexes(&self, id: NodeId) -> bool {
        let c = self.style(id);
        c.position is Static && (self.hides(id) || (ordinary_tag(self.dom.tag_of(id)) && (
        c.display is Inline || c.display is Block || c.display is Flex)))
    }

    /// A document of text, blocks and flex containers.
    pub open spec fn is_flowing(&self) -> bool {
        forall|id: NodeId|
            self.dom.has(id) && self.dom.is_element(id) ==> #[trigger] self.flows_or_flexes(id)
    }

    pub(crate) proof fn flowing_items_are_text(&self, id: NodeId, width: i32)
        requires
            self.wf(),
            self.is_flowing(),
            self.dom.has(id),
        ensures
            text_items(self.inline_items(id, width)),
        decreases self.dom.rank_of(id), 1nat,
    {
        if self.dom.is_element(id) {
            assert(self.flows_or_flexes(id));
        }
        self.flowing_kid_items_are_text(id, width, 0);
    }

    proof fn flowing_kid_items_are_text(&self, id: NodeId, width: i32, k: int)
        requires
            self.wf(),
            self.is_flowing(),
            self.dom.has(id),
            0 <= k,
        ensures
            text_items(self.kid_items(id, width, k)),
        decreases self.dom.rank_of(id), 0nat, self.dom.kids(id).len() - k,
    {
        if k < self.dom.kids(id).len() {
            let c = self.dom.kids(id)[k];
            assert(self.dom.nodes@[id.0 as int].children@[k] == c);
            self.flowing_items_are_text(c, width);
            self.flowing_kid_items_are_text(id, width, k + 1);
        }
    }

    pub(crate) proof fn nothing_flowing_is_loose(&self, id: NodeId, k: int)
        requires
            self.wf(),
            self.is_flowing(),
            self.dom.has(id),
            0 <= k,
        ensures
            self.loose_absolutes(id, k) == Seq::<NodeId>::empty(),
        decreases self.dom.rank_of(id), self.dom.kids(id).len() - k,
    {
        if k < self.dom.kids(id).len() {
            let c = self.dom.kids(id)[k];
            assert(self.dom.nodes@[id.0 as int].children@[k] == c);
            if self.dom.is_element(c) {
                assert(self.flows_or_flexes(c));
                if self.style(c).display is Inline {
                    self.nothing_flowing_is_loose(c, 0);
                }
            }
            self.nothing_flowing_is_loose(id, k + 1);
            assert(self.loose_absolutes(id, k) =~= Seq::<NodeId>::empty());
        }
    }

    pub(crate) proof fn no_flowing_kid_leaves(&self, id: NodeId, k: int)
        requires
            self.wf(),
            self.is_flowing(),
            self.dom.has(id),
            0 <= k,
        ensures
            self.out_of_flow_kids(self.dom.kids(id), k) == Seq::<NodeId>::empty(),
        decreases self.dom.kids(id).len() - k,
    {
        if k < self.dom.kids(id).len() {
            let c = self.dom.kids(id)[k];
            assert(self.dom.nodes@[id.0 as int].children@[k] == c);
            if self.dom.is_element(c) {
                assert(self.flows_or_flexes(c));
            }
            self.no_flowing_kid_leaves(id, k + 1);
            assert(self.out_of_flow_kids(self.dom.kids(id), k) =~= Seq::<NodeId>::empty());
        }
    }

    /// Boxes are built behind everything, each the root of what is inside it.
    pub open spec fn builds_behind(&self, rec: Recipe, h: nat) -> bool {
        forall|a: BoxArgs|
            self.low(a.id, h) && self.dom.is_element(a.id) && !self.hides(a.id) && !a.pre
                && !lays_out_as_grid(&a.computed) ==> {
                let b = #[trigger] (rec.build)(a);
                let s = a.cv.boxes.len();
                &&& s < b.cv.boxes.len()
                &&& b.id.0 < b.cv.boxes.len()
                &&& b.cv.boxes.len() <= usize::MAX ==> {
                    &&& b.id == BoxId(s as usize)
                    &&& kept(s, a.cv.boxes, b.cv.boxes)
                    &&& rooted(s, b.cv.boxes)
                    &&& placed_as(b.cv.boxes[s as int].dimensions, a.dims)
                    &&& b.cv.boxes[s as int].computed == a.computed
                    &&& b.cv.boxes[s as int].node == Some(a.id)
                }
            }
    }

    pub(crate) proof fn a_block_is_behind(
        &self,
        rec: Recipe,
        h: nat,
        cv: Canvas,
        id: NodeId,
        x: i32,
        width: i32,
        ch: Option<i32>,
        y: i32,
        prev: i32,
    )
        requires
            self.wf(),
            self.is_flowing(),
            self.builds_behind(rec, h),
            self.low(id, h),
            self.dom.is_element(id),
            !self.hides(id),
            !(self.style(id).display is Inline),
        ensures
            ({
                let laid = self.lay_node(rec, cv, id, x, width, ch, y, prev, false);
                let s = cv.boxes.len();
                &&& s < laid.cv.boxes.len()
                &&& laid.id is Some
                &&& (laid.id->0).0 < laid.cv.boxes.len()
                &&& laid.cv.boxes.len() <= usize::MAX ==> {
                    &&& laid.id == Some(BoxId(s as usize))
                    &&& kept(s, cv.boxes, laid.cv.boxes)
                    &&& rooted(s, laid.cv.boxes)
                }
            }),
    {
        reveal(Ctx::lay_node);
        reveal(Ctx::element_laid);
        reveal(Ctx::block_laid);
        assert(self.flows_or_flexes(id));
    }

    pub(crate) proof fn a_flow_is_behind(
        &self,
        rec: Recipe,
        h: nat,
        n: nat,
        start: Seq<BoxView>,
        cv: Canvas,
        flow: FlowView,
        env: FlowEnv,
        id: NodeId,
        k: int,
    )
        requires
            self.wf(),
            self.is_flowing(),
            self.builds_behind(rec, h),
            self.dom.has(id),
            self.dom.height(id) <= h,
            0 <= k,
            !env.pre,
            !flow.marker,
            flow.absolutes.len() == 0,
            text_items(flow.run),
            behind(n, start, cv, flow.children),
        ensures
            ({
                let (end, last) = self.flow_children(rec, cv, flow, env, self.dom.kids(id), k);
                &&& behind(n, start, end, last.children)
                &&& cv.boxes.len() <= end.boxes.len()
                &&& !last.marker
                &&& last.absolutes.len() == 0
                &&& text_items(last.run)
            }),
        decreases self.dom.kids(id).len() - k,
    {
        let kids = self.dom.kids(id);
        if k < kids.len() {
            reveal(Ctx::flow_child);
            let c = kids[k];
            assert(self.dom.nodes@[id.0 as int].children@[k] == c);
            self.dom.a_kid_is_lower(id, k);
            if self.dom.is_element(c) {
                assert(self.flows_or_flexes(c));
            }
            assert(!self.leaves_flow(c));
            let (cv2, flow2) = self.flow_child(rec, cv, flow, env, c);
            match self.mode_of(c) {
                ChildMode::Skip => {},
                ChildMode::Inline => {
                    self.flowing_items_are_text(c, env.width);
                    self.nothing_flowing_is_loose(c, 0);
                },
                ChildMode::Block => {
                    self.a_flush_is_behind(rec, n, start, cv, flow, env);
                    let (cv1, flow1) = self.flow_flushed(rec, cv, flow, env);
                    self.a_block_is_behind(
                        rec,
                        h,
                        cv1,
                        c,
                        env.x,
                        env.width,
                        env.height,
                        flow1.y,
                        flow1.prev,
                    );
                    let laid = self.lay_node(
                        rec,
                        cv1,
                        c,
                        env.x,
                        env.width,
                        env.height,
                        flow1.y,
                        flow1.prev,
                        false,
                    );
                    one_tree_more(n, start, cv1, flow1.children, laid.cv, laid.id->0);
                    assert(flow2.run.len() == 0);
                },
            }
            self.a_flow_is_behind(rec, h, n, start, cv2, flow2, env, id, k + 1);
        }
    }

    pub(crate) proof fn a_flush_is_behind(
        &self,
        rec: Recipe,
        n: nat,
        start: Seq<BoxView>,
        cv: Canvas,
        flow: FlowView,
        env: FlowEnv,
    )
        requires
            !env.pre,
            text_items(flow.run),
            behind(n, start, cv, flow.children),
        ensures
            ({
                let (end, last) = self.flow_flushed(rec, cv, flow, env);
                &&& behind(n, start, end, last.children)
                &&& cv.boxes.len() <= end.boxes.len()
                &&& last.marker == flow.marker
                &&& last.absolutes == flow.absolutes
                &&& last.run.len() == 0
            }),
    {
        reveal(Ctx::flow_flushed);
        if flow.run.len() > 0 {
            self.a_run_is_rooted(
                rec,
                cv,
                env.x,
                env.width,
                flow.y,
                flow.prev,
                flow.run,
                env.align,
            );
            let laid = self.anonymous(
                rec,
                cv,
                env.x,
                env.width,
                flow.y,
                flow.prev,
                flow.run,
                env.align,
                false,
            );
            assert((laid.id->0).0 < laid.cv.boxes.len()) by {
                reveal(Ctx::anonymous);
            }
            one_tree_more(n, start, cv, flow.children, laid.cv, laid.id->0);
        } else {
            reveal(Ctx::anonymous);
        }
    }

    /// A container filled: only its own list of children changed before `n`.
    pub open spec fn fills_behind(&self, n: nat, bid: BoxId, cv: Canvas, r: Canvas) -> bool {
        &&& cv.boxes.len() <= r.boxes.len()
        &&& r.boxes.len() <= usize::MAX ==> {
            &&& forall|i: int|
                0 <= i < n && i != bid.0 ==> #[trigger] r.boxes[i] == cv.boxes[i]
            &&& r.boxes[bid.0 as int] == (BoxView {
                children: r.boxes[bid.0 as int].children,
                ..cv.boxes[bid.0 as int]
            })
            &&& all_from(n, r.boxes[bid.0 as int].children, r.boxes.len())
            &&& sealed(n, r.boxes)
        }
    }

    proof fn handing_over_children(
        &self,
        n: nat,
        bid: BoxId,
        cv: Canvas,
        end: Canvas,
        ids: Seq<BoxId>,
    )
        requires
            bid.0 < n,
            behind(n, cv.boxes, end, ids),
        ensures
            self.fills_behind(n, bid, cv, end.with_children(bid, ids)),
    {
        let r = end.with_children(bid, ids);
        if r.boxes.len() <= usize::MAX {
            assert(end.boxes[bid.0 as int] == cv.boxes[bid.0 as int]);
            assert forall|i: int| n <= i < r.boxes.len() implies all_from(
                n,
                (#[trigger] r.boxes[i]).children,
                r.boxes.len(),
            ) by {
                assert(all_from(n, end.boxes[i].children, end.boxes.len()));
            }
        }
    }

    proof fn block_contents_are_behind(
        &self,
        rec: Recipe,
        h: nat,
        n: nat,
        cv: Canvas,
        id: NodeId,
        computed: ComputedStyle,
        bid: BoxId,
        heights: BlockHeight,
    )
        requires
            self.wf(),
            self.is_flowing(),
            self.builds_behind(rec, h),
            self.dom.has(id),
            self.dom.height(id) <= h,
            self.dom.tag_of(id) != "li"@,
            bid.0 < n <= cv.boxes.len(),
            cv.boxes.len() <= usize::MAX ==> sealed(n, cv.boxes),
        ensures
            self.fills_behind(
                n,
                bid,
                cv,
                self.block_contents(rec, cv, id, computed, bid, heights, false).0,
            ),
    {
        reveal(Ctx::block_contents);
        let dims = cv.dims(bid);
        let env = FlowEnv {
            x: dims.content.x,
            width: dims.content.width,
            height: heights.specified,
            align: computed.text_align,
            pre: false,
        };
        let start = FlowView {
            y: dims.content.y,
            prev: 0,
            children: Seq::empty(),
            run: Seq::empty(),
            marker: false,
            absolutes: Seq::empty(),
        };
        self.a_flow_is_behind(rec, h, n, cv.boxes, cv, start, env, id, 0);
        let (cv1, flow1) = self.flow_children(rec, cv, start, env, self.dom.kids(id), 0);
        self.a_flush_is_behind(rec, n, cv.boxes, cv1, flow1, env);
        let (cv2, flow2) = self.flow_flushed(rec, cv1, flow1, env);
        assert(self.absolutes_laid(rec, cv2, flow2.absolutes, 0, bid, false, flow2.children) == (
            cv2,
            flow2.children,
        ));
        self.handing_over_children(n, bid, cv, cv2, flow2.children);
    }
}

// ---- flex ------------------------------------------------------------------

/// Lines follow one another without a gap, from the `i`th item to the last.
pub open spec fn lines_are_consecutive(lines: Seq<(usize, usize)>, i: int, n: int) -> bool {
    &&& lines.len() > 0 ==> lines[0].0 == i
    &&& lines.len() == 0 ==> i == n
    &&& forall|k: int|
        0 <= k < lines.len() ==> {
            &&& (#[trigger] lines[k]).0 < lines[k].1 <= n
            &&& k + 1 < lines.len() ==> lines[k].1 == lines[k + 1].0
            &&& k + 1 == lines.len() ==> lines[k].1 == n
        }
}

pub(crate) proof fn items_are_lined_up(items: Seq<Item>, main: i32, gap: i32, wraps: bool, i: int)
    requires
        0 <= i <= items.len() <= usize::MAX,
    ensures
        lines_are_consecutive(lines_from(items, main, gap, wraps, i), i, items.len() as int),
    decreases items.len() - i,
{
    if i < items.len() {
        a_line_ends_past_its_start(
            items,
            main,
            gap,
            wraps,
            i + 1,
            plus(items[i].hypothetical, items[i].outer_edges),
        );
        let end = line_end(items, main, gap, wraps, i);
        items_are_lined_up(items, main, gap, wraps, end);
        let rest = lines_from(items, main, gap, wraps, end);
        let all = lines_from(items, main, gap, wraps, i);
        assert(all =~= seq![(i as usize, end as usize)] + rest);
        assert forall|k: int| 0 <= k < all.len() implies {
            &&& (#[trigger] all[k]).0 < all[k].1 <= items.len()
            &&& k + 1 < all.len() ==> all[k].1 == all[k + 1].0
            &&& k + 1 == all.len() ==> all[k].1 == items.len()
        } by {
            if k > 0 {
                assert(all[k] == rest[k - 1]);
                if k + 1 < all.len() {
                    assert(all[k + 1] == rest[k]);
                }
            } else if rest.len() > 0 {
                assert(all[1] == rest[0]);
            }
        }
    }
}

/// Items that stand for sources there are, and whose boxes, if they are built,
/// are behind `n`.
pub open spec fn items_behind(n: nat, items: Seq<FlexItem>, sources: nat, cv: Canvas) -> bool {
    forall|j: int|
        0 <= j < items.len() ==> {
            &&& (#[trigger] items[j]).source < sources
            &&& !lays_out_as_grid(&items[j].computed)
            &&& items[j].built matches Some(id) ==> {
                &&& id.0 < cv.boxes.len()
                &&& cv.boxes.len() <= usize::MAX ==> n <= id.0
            }
        }
}

pub(crate) proof fn items_stay_behind(n: nat, items: Seq<FlexItem>, sources: nat, cv: Canvas, next: Canvas)
    requires
        items_behind(n, items, sources, cv),
        cv.boxes.len() <= next.boxes.len(),
    ensures
        items_behind(n, items, sources, next),
{
    assert forall|j: int| 0 <= j < items.len() implies {
        &&& (#[trigger] items[j]).source < sources
        &&& !lays_out_as_grid(&items[j].computed)
        &&& items[j].built matches Some(id) ==> {
            &&& id.0 < next.boxes.len()
            &&& next.boxes.len() <= usize::MAX ==> n <= id.0
        }
    } by {}
}

pub(crate) proof fn part_of_items_behind(
    n: nat,
    items: Seq<FlexItem>,
    sources: nat,
    cv: Canvas,
    a: int,
    b: int,
)
    requires
        items_behind(n, items, sources, cv),
        0 <= a <= b <= items.len(),
    ensures
        items_behind(n, items.subrange(a, b), sources, cv),
{
    let line = items.subrange(a, b);
    assert forall|j: int| 0 <= j < line.len() implies {
        &&& (#[trigger] line[j]).source < sources
        &&& !lays_out_as_grid(&line[j].computed)
        &&& line[j].built matches Some(id) ==> {
            &&& id.0 < cv.boxes.len()
            &&& cv.boxes.len() <= usize::MAX ==> n <= id.0
        }
    } by {
        assert(line[j] == items[a + j]);
    }
}

pub(crate) proof fn ordering_keeps_items_behind(n: nat, items: Seq<FlexItem>, sources: nat, cv: Canvas)
    requires
        items_behind(n, items, sources, cv),
        items.len() <= usize::MAX,
    ensures
        items_behind(n, in_order(items), sources, cv),
        in_order(items).len() == items.len(),
{
    let keys = items.map_values(|i: FlexItem| i.order as i128);
    sorting_sorts(keys, keys.len() as int);
    let order = crate::order::sorted_indices(keys, keys.len() as int);
    let sorted = in_order(items);
    assert forall|j: int| 0 <= j < sorted.len() implies {
        &&& (#[trigger] sorted[j]).source < sources
        &&& !lays_out_as_grid(&sorted[j].computed)
        &&& sorted[j].built matches Some(id) ==> {
            &&& id.0 < cv.boxes.len()
            &&& cv.boxes.len() <= usize::MAX ==> n <= id.0
        }
    } by {
        assert(order[j] < keys.len());
        assert(sorted[j] == items[order[j] as int]);
    }
}

proof fn crossing_stays_behind(
    n: nat,
    start: Seq<BoxView>,
    cv: Canvas,
    items: Seq<FlexItem>,
    ids: Seq<BoxId>,
    cross: Seq<CrossItem>,
    placed: Seq<CrossPlaced>,
    j: int,
    axis: FlexAxis,
    near: i32,
    line: PlacedLine,
)
    requires
        0 <= j,
        ids.len() == items.len(),
        behind(n, start, cv, ids),
    ensures
        behind(n, start, line_crossed(cv, items, ids, cross, placed, j, axis, near, line), ids),
        line_crossed(cv, items, ids, cross, placed, j, axis, near, line).boxes.len()
            == cv.boxes.len(),
    decreases items.len() - j,
{
    if j < items.len() {
        let id = ids[j];
        assert(ids[j].0 < cv.boxes.len());
        one_crossing_stays_behind(
            n,
            start,
            cv,
            ids,
            items[j],
            id,
            cross[j],
            placed[j],
            axis,
            near,
            line,
        );
        let next = crossed(cv, items[j], id, cross[j], placed[j], axis, near, line);
        crossing_stays_behind(n, start, next, items, ids, cross, placed, j + 1, axis, near, line);
    }
}

proof fn one_crossing_stays_behind(
    n: nat,
    start: Seq<BoxView>,
    cv: Canvas,
    ids: Seq<BoxId>,
    item: FlexItem,
    id: BoxId,
    ci: CrossItem,
    p: CrossPlaced,
    axis: FlexAxis,
    near: i32,
    line: PlacedLine,
)
    requires
        behind(n, start, cv, ids),
        id.0 < cv.boxes.len(),
        cv.boxes.len() <= usize::MAX ==> n <= id.0,
    ensures
        behind(n, start, crossed(cv, item, id, ci, p, axis, near, line), ids),
        crossed(cv, item, id, ci, p, axis, near, line).boxes.len() == cv.boxes.len(),
{
    reveal(crossed);
    reveal(stretched);
    let sized = if ci.align is Stretch {
        stretched(cv, id, item.computed, axis, line.cross)
    } else {
        cv
    };
    a_touch_stays_behind(n, start, cv, ids, id, sized.dims(id));
    assert(sized.boxes =~= cv.with_dims(id, sized.dims(id)).boxes);
    assert(behind(n, start, sized, ids));
    let r = crossed(cv, item, id, ci, p, axis, near, line);
    assert forall|dx: i32, dy: i32| behind(n, start, #[trigger] sized.moved(id, dx, dy), ids)
        && sized.moved(id, dx, dy).boxes.len() == cv.boxes.len() by {
        a_move_stays_behind(n, start, sized, ids, id, dx, dy);
    }
    assert forall|dx: i32, dy: i32, dims: Dimensions| behind(
        n,
        start,
        (#[trigger] sized.moved(id, dx, dy).with_dims(id, dims)),
        ids,
    ) by {
        let there = sized.moved(id, dx, dy);
        assert(behind(n, start, there, ids));
        a_touch_stays_behind(n, start, there, ids, id, dims);
    }
}

impl<'a> Ctx<'a> {
    /// A source of a flex container in a flowing document.
    pub open spec fn is_flowing_source(&self, source: SourceView, h: nat) -> bool {
        match source {
            SourceView::Element(node) => self.low(node, h) && self.dom.is_element(node)
                && !self.hides(node),
            SourceView::Text(nodes) => nodes.len() > 0 && self.all_are_texts(nodes),
        }
    }

    pub open spec fn all_are_texts(&self, nodes: Seq<NodeId>) -> bool {
        forall|i: int|
            0 <= i < nodes.len() ==> self.dom.has(#[trigger] nodes[i]) && self.dom.is_text(nodes[i])
    }

    pub open spec fn sources_flow(&self, sources: Seq<SourceView>, h: nat) -> bool {
        forall|i: int| 0 <= i < sources.len() ==> self.is_flowing_source(#[trigger] sources[i], h)
    }

    pub(crate) proof fn kids_make_flowing_sources(&self, kids: Seq<NodeId>, k: int, run: Seq<NodeId>, h: nat)
        requires
            self.wf(),
            self.nodes_low(kids, h),
            self.all_are_texts(run),
            0 <= k,
        ensures
            self.sources_flow(self.sources_from(kids, false, k, run), h),
        decreases kids.len() - k,
    {
        let here = text_source(self.dom, run, false);
        assert(self.sources_flow(here, h));
        if k < kids.len() {
            let c = kids[k];
            assert(self.low(kids[k], h));
            if self.dom.is_text(c) {
                let more = run.push(c);
                assert forall|i: int| 0 <= i < more.len() implies self.dom.has(#[trigger] more[i])
                    && self.dom.is_text(more[i]) by {
                    if i < run.len() {
                        assert(self.dom.has(run[i]));
                    }
                }
                self.kids_make_flowing_sources(kids, k + 1, more, h);
            } else if self.dom.is_element(c) && !self.hides(c) {
                self.kids_make_flowing_sources(kids, k + 1, Seq::empty(), h);
            } else {
                self.kids_make_flowing_sources(kids, k + 1, run, h);
            }
        }
    }

    pub(crate) proof fn text_runs_are_text(&self, nodes: Seq<NodeId>, width: i32, i: int)
        requires
            self.wf(),
            self.all_are_texts(nodes),
            0 <= i <= nodes.len(),
        ensures
            text_items(self.run_items(nodes, width, i)),
            self.run_items(nodes, width, i).len() == nodes.len() - i,
        decreases nodes.len() - i,
    {
        if i < nodes.len() {
            assert(self.dom.is_text(nodes[i]));
            self.text_runs_are_text(nodes, width, i + 1);
        }
    }

    /// A flex item's box just built: behind everything, a root, and where the
    /// plan put it.
    pub open spec fn item_is_rooted(&self, cv: Canvas, next: Canvas, id: BoxId) -> bool {
        &&& cv.boxes.len() < next.boxes.len()
        &&& id.0 < next.boxes.len()
        &&& next.boxes.len() <= usize::MAX ==> {
            &&& id == BoxId(cv.boxes.len() as usize)
            &&& kept(cv.boxes.len(), cv.boxes, next.boxes)
            &&& rooted(cv.boxes.len(), next.boxes)
        }
    }

    pub(crate) proof fn a_column_item_is_rooted(
        &self,
        rec: Recipe,
        h: nat,
        cv: Canvas,
        source: SourceView,
        k: usize,
        env: FlexEnv,
    )
        requires
            self.wf(),
            self.is_flowing(),
            self.builds_behind(rec, h),
            self.is_flowing_source(source, h),
            !env.pre,
        ensures
            ({
                let (next, item) = self.column_item(rec, cv, source, k, env);
                &&& item.source == k
                &&& !lays_out_as_grid(&item.computed)
                &&& item.built is Some
                &&& self.item_is_rooted(cv, next, item.built->0)
            }),
    {
        reveal(Ctx::column_item);
        match source {
            SourceView::Element(node) => {
                reveal(Ctx::column_box);
                assert(self.flows_or_flexes(node));
            },
            SourceView::Text(nodes) => {
                let (min, max) = self.run_widths_of(nodes);
                let cross = if crate::boxmodel::column_cross_align(
                    env.style.align_items,
                ) is Stretch && !env.axis.wraps {
                    env.content.width
                } else {
                    crate::boxmodel::shrink_to_fit(min, max, env.content.width)
                };
                self.text_runs_are_text(nodes, cross, 0);
                self.a_run_is_rooted(
                    rec,
                    cv,
                    env.content.x,
                    cross,
                    env.content.y,
                    0,
                    self.run_items(nodes, cross, 0),
                    env.style.text_align,
                );
                reveal(Ctx::anonymous);
            },
        }
    }

    pub(crate) proof fn a_row_item_is_rooted(
        &self,
        rec: Recipe,
        h: nat,
        cv: Canvas,
        item: FlexItem,
        source: SourceView,
        p: ItemPlacement,
        env: FlexEnv,
    )
        requires
            self.wf(),
            self.is_flowing(),
            self.builds_behind(rec, h),
            self.is_flowing_source(source, h),
            !lays_out_as_grid(&item.computed),
            !env.pre,
        ensures
            ({
                let (next, id) = self.row_box(rec, cv, item, source, p, env);
                self.item_is_rooted(cv, next, id)
            }),
    {
        reveal(Ctx::row_box);
        match source {
            SourceView::Element(node) => {
                assert(self.flows_or_flexes(node));
            },
            SourceView::Text(nodes) => {
                self.text_runs_are_text(nodes, p.main_size, 0);
                self.a_run_is_rooted(
                    rec,
                    cv,
                    p.near,
                    p.main_size,
                    env.content.y,
                    0,
                    self.run_items(nodes, p.main_size, 0),
                    env.style.text_align,
                );
                reveal(Ctx::anonymous);
            },
        }
    }

    #[verifier::rlimit(100)]
    #[verifier::spinoff_prover]
    pub(crate) proof fn flex_items_are_behind(
        &self,
        rec: Recipe,
        h: nat,
        n: nat,
        start: Seq<BoxView>,
        cv: Canvas,
        sources: Seq<SourceView>,
        k: int,
        env: FlexEnv,
        items: Seq<FlexItem>,
    )
        requires
            self.wf(),
            self.is_flowing(),
            self.builds_behind(rec, h),
            self.sources_flow(sources, h),
            sources.len() <= usize::MAX,
            0 <= k <= sources.len(),
            !env.pre,
            items.len() == k,
            behind(n, start, cv, Seq::empty()),
            items_behind(n, items, sources.len(), cv),
        ensures
            ({
                let (end, all) = self.flex_items_from(rec, cv, sources, k, env, items);
                &&& behind(n, start, end, Seq::empty())
                &&& cv.boxes.len() <= end.boxes.len()
                &&& items_behind(n, all, sources.len(), end)
                &&& all.len() == sources.len()
            }),
        decreases sources.len() - k,
    {
        if k < sources.len() {
            assert(self.is_flowing_source(sources[k], h));
            let none = Seq::<BoxId>::empty();
            if env.axis.vertical {
                self.a_column_item_is_rooted(rec, h, cv, sources[k], k as usize, env);
                let (cv2, item) = self.column_item(rec, cv, sources[k], k as usize, env);
                one_tree_more(n, start, cv, none, cv2, item.built->0);
                items_stay_behind(n, items, sources.len(), cv, cv2);
                let next = items.push(item);
                assert(items_behind(n, next, sources.len(), cv2));
                self.flex_items_are_behind(
                    rec,
                    h,
                    n,
                    start,
                    cv2,
                    sources,
                    k + 1,
                    env,
                    next,
                );
            } else {
                reveal(Ctx::row_item);
                let item = self.row_item(sources[k], k as usize, env.axis);
                if let SourceView::Element(node) = sources[k] {
                    assert(self.flows_or_flexes(node));
                }
                let next = items.push(item);
                assert(items_behind(n, next, sources.len(), cv));
                self.flex_items_are_behind(rec, h, n, start, cv, sources, k + 1, env, next);
            }
        }
    }

    #[verifier::rlimit(100)]
    #[verifier::spinoff_prover]
    pub(crate) proof fn a_line_is_behind(
        &self,
        rec: Recipe,
        h: nat,
        n: nat,
        start: Seq<BoxView>,
        cv: Canvas,
        items: Seq<FlexItem>,
        sources: Seq<SourceView>,
        plan: LinePlan,
        j: int,
        env: FlexEnv,
        main: i32,
        children: Seq<BoxId>,
    )
        requires
            self.wf(),
            self.is_flowing(),
            self.builds_behind(rec, h),
            self.sources_flow(sources, h),
            !env.pre,
            0 <= j <= items.len(),
            behind(n, start, cv, children),
            items_behind(n, items, sources.len(), cv),
        ensures
            ({
                let (end, ids) = self.line_laid(
                    rec,
                    cv,
                    items,
                    sources,
                    plan,
                    j,
                    env,
                    main,
                    children,
                );
                &&& behind(n, start, end, ids)
                &&& cv.boxes.len() <= end.boxes.len()
                &&& ids.len() == children.len() + (items.len() - j)
            }),
        decreases items.len() - j,
    {
        if j < items.len() {
            assert(items[j].source < sources.len());
            let p = placement(plan, j, env, main);
            let source = sources[items[j].source as int];
            assert(self.is_flowing_source(source, h));
            let (cv2, id) = match items[j].built {
                Some(id) => (column_placed(cv, id, items[j], env.axis, p), id),
                None => self.row_box(rec, cv, items[j], source, p, env),
            };
            match items[j].built {
                Some(id) => {
                    self.placing_a_column_item_stays_behind(
                        n,
                        start,
                        cv,
                        children,
                        id,
                        items[j],
                        env.axis,
                        p,
                    );
                },
                None => {
                    self.a_row_item_is_rooted(rec, h, cv, items[j], source, p, env);
                    one_tree_more(n, start, cv, children, cv2, id);
                },
            }
            items_stay_behind(n, items, sources.len(), cv, cv2);
            assert(behind(n, start, cv2, children.push(id)));
            self.a_line_is_behind(
                rec,
                h,
                n,
                start,
                cv2,
                items,
                sources,
                plan,
                j + 1,
                env,
                main,
                children.push(id),
            );
        }
    }

    pub(crate) proof fn placing_a_column_item_stays_behind(
        &self,
        n: nat,
        start: Seq<BoxView>,
        cv: Canvas,
        ids: Seq<BoxId>,
        id: BoxId,
        item: FlexItem,
        axis: FlexAxis,
        p: ItemPlacement,
    )
        requires
            behind(n, start, cv, ids),
            id.0 < cv.boxes.len(),
            cv.boxes.len() <= usize::MAX ==> n <= id.0,
        ensures
            behind(n, start, column_placed(cv, id, item, axis, p), ids.push(id)),
            column_placed(cv, id, item, axis, p).boxes.len() == cv.boxes.len(),
    {
        reveal(column_placed);
        let more = ids.push(id);
        assert(behind(n, start, cv, more)) by {
            assert forall|k: int| 0 <= k < more.len() implies (#[trigger] more[k]).0
                < cv.boxes.len() by {
                if k < ids.len() {
                    assert(ids[k].0 < cv.boxes.len());
                }
            }
            if cv.boxes.len() <= usize::MAX {
                assert forall|k: int| 0 <= k < more.len() implies n <= (#[trigger] more[k]).0
                    < cv.boxes.len() by {
                    if k < ids.len() {
                        assert(n <= ids[k].0 < cv.boxes.len());
                    }
                }
            }
        }
        assert forall|dx: i32, dy: i32, dims: Dimensions| behind(
            n,
            start,
            (#[trigger] cv.moved(id, dx, dy).with_dims(id, dims)),
            more,
        ) && cv.moved(id, dx, dy).with_dims(id, dims).boxes.len() == cv.boxes.len() by {
            a_move_stays_behind(n, start, cv, more, id, dx, dy);
            a_touch_stays_behind(n, start, cv.moved(id, dx, dy), more, id, dims);
        }
    }

    #[verifier::rlimit(100)]
    #[verifier::spinoff_prover]
    pub(crate) proof fn lines_are_behind(
        &self,
        rec: Recipe,
        h: nat,
        n: nat,
        start: Seq<BoxView>,
        cv: Canvas,
        items: Seq<FlexItem>,
        sources: Seq<SourceView>,
        lines: Seq<(usize, usize)>,
        k: int,
        env: FlexEnv,
        main: i32,
        gap: i32,
        children: Seq<BoxId>,
    )
        requires
            self.wf(),
            self.is_flowing(),
            self.builds_behind(rec, h),
            self.sources_flow(sources, h),
            !env.pre,
            0 <= k <= lines.len(),
            lines_are_consecutive(lines, 0, items.len() as int),
            children.len() == (if k < lines.len() {
                lines[k].0 as int
            } else {
                items.len() as int
            }),
            behind(n, start, cv, children),
            items_behind(n, items, sources.len(), cv),
        ensures
            ({
                let (end, ids) = self.lines_laid(
                    rec,
                    cv,
                    items,
                    sources,
                    lines,
                    k,
                    env,
                    main,
                    gap,
                    children,
                );
                &&& behind(n, start, end, ids)
                &&& cv.boxes.len() <= end.boxes.len()
                &&& ids.len() == items.len()
            }),
        decreases lines.len() - k,
    {
        if k < lines.len() {
            assert(lines[k].0 < lines[k].1 <= items.len());
            let line = items.subrange(lines[k].0 as int, lines[k].1 as int);
            let plan = plan_line(line, env, main, gap);
            part_of_items_behind(n, items, sources.len(), cv, lines[k].0 as int, lines[k].1 as int);
            self.a_line_is_behind(
                rec,
                h,
                n,
                start,
                cv,
                line,
                sources,
                plan,
                0,
                env,
                main,
                children,
            );
            let (cv2, next) = self.line_laid(
                rec,
                cv,
                line,
                sources,
                plan,
                0,
                env,
                main,
                children,
            );
            items_stay_behind(n, items, sources.len(), cv, cv2);
            self.lines_are_behind(
                rec,
                h,
                n,
                start,
                cv2,
                items,
                sources,
                lines,
                k + 1,
                env,
                main,
                gap,
                next,
            );
        }
    }
}

pub(crate) proof fn lines_crossed_stay_behind(
    n: nat,
    start: Seq<BoxView>,
    cv: Canvas,
    items: Seq<FlexItem>,
    ids: Seq<BoxId>,
    lines: Seq<(usize, usize)>,
    plan: CrossPlan,
    k: int,
    axis: FlexAxis,
    origin: i32,
)
    requires
        0 <= k,
        ids.len() == items.len(),
        lines_are_consecutive(lines, 0, items.len() as int),
        behind(n, start, cv, ids),
    ensures
        behind(n, start, lines_crossed(cv, items, ids, lines, plan, k, axis, origin), ids),
    decreases lines.len() - k,
{
    if k < lines.len() {
        assert(lines[k].0 < lines[k].1 <= items.len());
        let (a, b) = (lines[k].0 as int, lines[k].1 as int);
        let line = plan.lines[k];
        let near = if axis.cross_reverse {
            from_far_edge(origin, plan.inner, plan.occupied, line.cross_start, line.cross)
        } else {
            plus(origin, line.cross_start)
        };
        let cross = plan.cross.subrange(a, b);
        let placed = cross_places(cross, line.cross);
        let some = ids.subrange(a, b);
        assert(behind(n, start, cv, some)) by {
            assert forall|m: int| 0 <= m < some.len() implies (#[trigger] some[m]).0
                < cv.boxes.len() by {
                assert(some[m] == ids[a + m]);
            }
            if cv.boxes.len() <= usize::MAX {
                assert forall|m: int| 0 <= m < some.len() implies n <= (#[trigger] some[m]).0
                    < cv.boxes.len() by {
                    assert(some[m] == ids[a + m]);
                }
            }
        }
        crossing_stays_behind(
            n,
            start,
            cv,
            items.subrange(a, b),
            some,
            cross,
            placed,
            0,
            axis,
            near,
            line,
        );
        let next = line_crossed(
            cv,
            items.subrange(a, b),
            some,
            cross,
            placed,
            0,
            axis,
            near,
            line,
        );
        assert(behind(n, start, next, ids));
        lines_crossed_stay_behind(n, start, next, items, ids, lines, plan, k + 1, axis, origin);
    }
}

impl<'a> Ctx<'a> {
    #[verifier::rlimit(100)]
    #[verifier::spinoff_prover]
    proof fn flex_contents_are_behind(
        &self,
        rec: Recipe,
        h: nat,
        n: nat,
        cv: Canvas,
        id: NodeId,
        computed: ComputedStyle,
        bid: BoxId,
        heights: BlockHeight,
    )
        requires
            self.wf(),
            self.is_flowing(),
            self.builds_behind(rec, h),
            self.dom.has(id),
            self.dom.height(id) <= h,
            bid.0 < n <= cv.boxes.len(),
            cv.boxes.len() <= usize::MAX ==> sealed(n, cv.boxes),
            cv.boxes.len() <= usize::MAX ==> cv.boxes[bid.0 as int].children.len() == 0,
        ensures
            self.fills_behind(
                n,
                bid,
                cv,
                self.flex_contents(rec, cv, id, computed, bid, heights, false).0,
            ),
    {
        reveal(Ctx::flex_contents);
        reveal(cross_aligned);
        let content = cv.dims(bid).content;
        let env = FlexEnv {
            axis: FlexAxis::of(
                computed.flex_direction,
                computed.flex_wrap,
                content.width,
                heights,
            ),
            style: computed,
            content,
            height: heights.specified,
            pre: false,
        };
        let none = Seq::<BoxId>::empty();
        let kids = self.dom.kids(id);
        let sources = self.sources_of(id, false);
        self.kids_are_low(id);
        assert(self.nodes_low(kids, h)) by {
            assert forall|k: int| 0 <= k < kids.len() implies self.low(#[trigger] kids[k], h) by {
                assert(self.low(kids[k], self.dom.height(id)));
            }
        }
        self.kids_make_flowing_sources(kids, 0, Seq::empty(), h);
        assert(self.dom.nodes@[id.0 as int].children@.len() <= self.dom.nodes@.len());
        self.no_more_sources_than_kids(kids, false, 0, Seq::empty());
        self.flex_items_are_behind(rec, h, n, cv.boxes, cv, sources, 0, env, Seq::empty());
        let (cv1, found) = self.flex_items_from(rec, cv, sources, 0, env, Seq::empty());
        if found.len() == 0 {
            if cv1.boxes.len() <= usize::MAX {
                assert(cv1.boxes[bid.0 as int] == cv.boxes[bid.0 as int]);
            }
        } else {
            let items = in_order(found);
            ordering_keeps_items_behind(n, found, sources.len(), cv1);
            let gap = env.axis.main_gap(computed.gap);
            let main = self.inner_main(cv1, items, bid, env, heights, gap);
            let metrics = items.map_values(|i: FlexItem| i.metrics);
            let lines = lines_from(metrics, main, gap, env.axis.wraps, 0);
            items_are_lined_up(metrics, main, gap, env.axis.wraps, 0);
            self.lines_are_behind(
                rec,
                h,
                n,
                cv.boxes,
                cv1,
                items,
                sources,
                lines,
                0,
                env,
                main,
                gap,
                none,
            );
            let (cv2, ids) = self.lines_laid(
                rec,
                cv1,
                items,
                sources,
                lines,
                0,
                env,
                main,
                gap,
                none,
            );
            let plan = plan_cross(cv2, items, ids, lines, env, bid, heights);
            let c2 = cv2.dims(bid).content;
            let origin = if env.axis.vertical {
                c2.x
            } else {
                c2.y
            };
            lines_crossed_stay_behind(
                n,
                cv.boxes,
                cv2,
                items,
                ids,
                lines,
                plan,
                0,
                env.axis,
                origin,
            );
            let cv3 = lines_crossed(cv2, items, ids, lines, plan, 0, env.axis, origin);
            self.no_flowing_kid_leaves(id, 0);
            self.handing_over_children(n, bid, cv, cv3, ids);
        }
    }

    #[verifier::rlimit(60)]
    pub(crate) proof fn contents_are_behind(
        &self,
        rec: Recipe,
        h: nat,
        n: nat,
        cv: Canvas,
        id: NodeId,
        computed: ComputedStyle,
        bid: BoxId,
        heights: BlockHeight,
    )
        requires
            self.wf(),
            self.is_flowing(),
            self.builds_behind(rec, h),
            self.dom.has(id),
            self.dom.height(id) <= h,
            self.dom.is_element(id),
            !self.hides(id),
            bid.0 < n <= cv.boxes.len(),
            !lays_out_as_grid(&computed),
            cv.boxes.len() <= usize::MAX ==> sealed(n, cv.boxes),
            cv.boxes.len() <= usize::MAX ==> cv.boxes[bid.0 as int].children.len() == 0,
        ensures
            self.fills_behind(
                n,
                bid,
                cv,
                self.any_contents(rec, cv, id, computed, bid, heights, false).0,
            ),
    {
        reveal(Ctx::any_contents);
        reveal(Ctx::contents);
        assert(self.flows_or_flexes(id));
        if lays_out_as_flex(&computed) {
            self.flex_contents_are_behind(rec, h, n, cv, id, computed, bid, heights);
        } else {
            self.block_contents_are_behind(rec, h, n, cv, id, computed, bid, heights);
        }
    }

    /// A box and everything inside it: one tree, behind everything, with the
    /// edges, place and width that were asked for.
    pub proof fn a_box_is_built_behind(&self, viewport: i32, fuel: nat, a: BoxArgs)
        requires
            self.wf(),
            self.is_flowing(),
            self.dom.has(a.id),
            self.dom.height(a.id) <= fuel,
            self.dom.is_element(a.id),
            !self.hides(a.id),
            !a.pre,
            !lays_out_as_grid(&a.computed),
        ensures
            ({
                let b = self.box_at(viewport, fuel, a);
                let s = a.cv.boxes.len();
                &&& s < b.cv.boxes.len()
                &&& b.id.0 < b.cv.boxes.len()
                &&& b.cv.boxes.len() <= usize::MAX ==> {
                    &&& b.id == BoxId(s as usize)
                    &&& kept(s, a.cv.boxes, b.cv.boxes)
                    &&& rooted(s, b.cv.boxes)
                    &&& placed_as(b.cv.boxes[s as int].dimensions, a.dims)
                    &&& b.cv.boxes[s as int].computed == a.computed
                    &&& b.cv.boxes[s as int].node == Some(a.id)
                }
            }),
        decreases fuel, 0nat,
    {
        reveal(Ctx::box_with);
        let h = self.dom.height(a.id);
        let rec = self.builder(viewport, (fuel - 1) as nat);
        assert(self.flows_or_flexes(a.id));
        self.a_builder_builds_behind(viewport, (fuel - 1) as nat, h);
        let with = a.cv.with_box(self.bare_box(a.id, a.computed, a.dims));
        let bid = a.cv.next_id();
        let heights = heights_of(a.dims, &a.computed, a.ch);
        let s = a.cv.boxes.len();
        let n = s + 1;
        assert(bid.0 < n);
        self.contents_are_behind(rec, h, n, with, a.id, a.computed, bid, heights);
        let (full, content) = self.any_contents(
            rec,
            with,
            a.id,
            a.computed,
            bid,
            heights,
            false,
        );
        let b = self.box_at(viewport, fuel, a);
        assert(b.cv.boxes.len() == full.boxes.len());
        if full.boxes.len() <= usize::MAX {
            assert forall|i: int| 0 <= i < s implies #[trigger] b.cv.boxes[i]
                == a.cv.boxes[i] by {
                assert(full.boxes[i] == with.boxes[i]);
            }
            assert forall|i: int| s <= i < b.cv.boxes.len() implies all_from(
                s + 1,
                (#[trigger] b.cv.boxes[i]).children,
                b.cv.boxes.len(),
            ) by {
                if i > s {
                    assert(all_from(n, full.boxes[i].children, full.boxes.len()));
                }
            }
        }
    }

    pub(crate) proof fn a_builder_builds_behind(&self, viewport: i32, fuel: nat, h: nat)
        requires
            self.wf(),
            self.is_flowing(),
            h <= fuel + 1,
        ensures
            self.builds_behind(self.builder(viewport, fuel), h),
        decreases fuel, 1nat,
    {
        let rec = self.builder(viewport, fuel);
        assert forall|a: BoxArgs|
            self.low(a.id, h) && self.dom.is_element(a.id) && !self.hides(a.id) && !a.pre
                && !lays_out_as_grid(&a.computed) implies {
            let b = #[trigger] (rec.build)(a);
            let s = a.cv.boxes.len();
            &&& s < b.cv.boxes.len()
            &&& b.id.0 < b.cv.boxes.len()
            &&& b.cv.boxes.len() <= usize::MAX ==> {
                &&& b.id == BoxId(s as usize)
                &&& kept(s, a.cv.boxes, b.cv.boxes)
                &&& rooted(s, b.cv.boxes)
                &&& placed_as(b.cv.boxes[s as int].dimensions, a.dims)
                &&& b.cv.boxes[s as int].computed == a.computed
                &&& b.cv.boxes[s as int].node == Some(a.id)
            }
        } by {
            self.a_box_is_built_behind(viewport, fuel, a);
        }
    }
}

} // verus!
