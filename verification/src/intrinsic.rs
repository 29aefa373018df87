//! Intrinsic widths: how wide a box *wants* to be.
//!
//! Two answers, both in cells and both content-box widths:
//!
//! - **max-content**: the width at which the box never wraps.
//! - **min-content**: the width of the widest piece that cannot be broken.
//!
//! Nothing is laid out to find them. A length that needs a containing block is
//! unresolvable here: such a *size* falls back to `auto`, and such an *edge* to
//! zero cells.

use vstd::prelude::*;

use crate::boxmodel::{is_column, lays_out_as_flex, Axis};
use crate::cells::{count, fit, larger, minus, plus, times};
use crate::context::{
    nodes_below, source_below, sources_below, ChildMode, Ctx, FlexItemSource, SourceView,
};
use crate::dom::{peak, Dom, NodeData, NodeId};
use crate::field::{control, control_of, control_tag, is_control_tag};
use crate::image::{image_size, ImageContext};
use crate::style::{ComputedStyle, FlexBasis, Length, Styles};
use crate::text::{
    cells_of, chars_of, is_html_space, lines_of, same, split_lines, str_cells, words, words_of,
    Spaces,
};
use crate::views::views;

verus! {

broadcast use crate::views::group_views;

/// The bullet before a list item's content.
pub open spec fn list_marker() -> Seq<char> {
    "• "@
}

/// A box's two intrinsic widths.
#[derive(Clone, Copy, PartialEq, Eq, Debug, Structural)]
pub struct Sizes {
    pub min: i32,
    pub max: i32,
}

impl Sizes {
    #[verifier::allow_in_spec]
    pub fn both(cells: i32) -> (r: Sizes)
        returns
            (Sizes { min: cells, max: cells }),
    {
        Sizes { min: cells, max: cells }
    }

    /// These sizes seen from the parent, edges included.
    #[verifier::allow_in_spec]
    pub fn grown_by(self, edges: i32) -> (r: Sizes)
        returns
            (Sizes { min: plus(self.min, edges), max: plus(self.max, edges) }),
    {
        Sizes { min: plus(self.min, edges), max: plus(self.max, edges) }
    }

    #[verifier::allow_in_spec]
    pub fn max_with(self, other: Sizes) -> (r: Sizes)
        returns
            (Sizes { min: larger(self.min, other.min), max: larger(self.max, other.max) }),
    {
        Sizes { min: larger(self.min, other.min), max: larger(self.max, other.max) }
    }

    #[verifier::allow_in_spec]
    pub fn beside(self, other: Sizes) -> (r: Sizes)
        returns
            (Sizes { min: plus(self.min, other.min), max: plus(self.max, other.max) }),
    {
        Sizes { min: plus(self.min, other.min), max: plus(self.max, other.max) }
    }
}

/// One inline formatting context being measured.
#[derive(Clone, Copy, PartialEq, Eq, Debug, Structural)]
pub struct Run {
    /// Nothing collapses and nothing wraps.
    pub pre: bool,
    /// Widest unbreakable piece seen.
    pub min: i32,
    /// Widest completed segment.
    pub max: i32,
    /// The segment being accumulated.
    pub cur: i32,
    /// Nothing on this segment yet.
    pub at_start: bool,
    /// A collapsed space is owed before the next piece.
    pub pending_space: bool,
}

impl Run {
    #[verifier::allow_in_spec]
    pub fn new(pre: bool) -> (r: Run)
        returns
            (Run { pre, min: 0, max: 0, cur: 0, at_start: true, pending_space: false }),
    {
        Run { pre, min: 0, max: 0, cur: 0, at_start: true, pending_space: false }
    }

    /// A box that can be as narrow as `sizes.min` and takes `sizes.max` when
    /// there is room.
    #[verifier::allow_in_spec]
    pub fn atomic(self, sizes: Sizes) -> (r: Run)
        returns
            (Run {
                cur: plus(
                    if self.pending_space && !self.at_start {
                        plus(self.cur, 1)
                    } else {
                        self.cur
                    },
                    sizes.max,
                ),
                min: larger(self.min, sizes.min),
                at_start: false,
                pending_space: false,
                ..self
            }),
    {
        Run {
            pre: self.pre,
            max: self.max,
            cur: plus(
                if self.pending_space && !self.at_start {
                    plus(self.cur, 1)
                } else {
                    self.cur
                },
                sizes.max,
            ),
            min: larger(self.min, sizes.min),
            at_start: false,
            pending_space: false,
        }
    }

    /// An unbreakable piece.
    #[verifier::allow_in_spec]
    pub fn piece(self, cells: i32) -> (r: Run)
        returns
            self.atomic(Sizes::both(cells)),
    {
        self.atomic(Sizes::both(cells))
    }

    /// Collapsible whitespace: at most one cell, and only between pieces.
    #[verifier::allow_in_spec]
    pub fn space(self) -> (r: Run)
        returns
            (Run { pending_space: true, ..self }),
    {
        Run {
            pre: self.pre,
            min: self.min,
            max: self.max,
            cur: self.cur,
            at_start: self.at_start,
            pending_space: true,
        }
    }

    /// End the current segment. A space owed at a line end is dropped.
    #[verifier::allow_in_spec]
    pub fn line_break(self) -> (r: Run)
        returns
            (Run {
                max: larger(self.max, self.cur),
                cur: 0,
                at_start: true,
                pending_space: false,
                ..self
            }),
    {
        Run {
            pre: self.pre,
            min: self.min,
            max: larger(self.max, self.cur),
            cur: 0,
            at_start: true,
            pending_space: false,
        }
    }

    /// An atomic replaced box, which takes a line to itself.
    #[verifier::allow_in_spec]
    pub fn replaced(self, cells: i32) -> (r: Run)
        returns
            self.line_break().piece(cells).line_break(),
    {
        self.line_break().piece(cells).line_break()
    }

    /// The widths of the whole run. Where nothing wraps, the narrowest it can
    /// be is still its widest line.
    #[verifier::allow_in_spec]
    pub fn finish(self) -> (r: Sizes)
        returns
            ({
                let end = self.line_break();
                Sizes {
                    min: if self.pre {
                        end.max
                    } else {
                        end.min
                    },
                    max: end.max,
                }
            }),
    {
        let end: Run = self.line_break();
        Sizes {
            min: if self.pre {
                end.max
            } else {
                end.min
            },
            max: end.max,
        }
    }
}

/// A horizontal size property, or `None` where it behaves as `auto`.
#[verifier::allow_in_spec]
pub fn definite_h(len: Length) -> (r: Option<i32>)
    returns
        (if len.is_auto() || len.is_percent() {
            None
        } else {
            Some(len.to_cells_h(0))
        }),
{
    if len.is_auto() || len.is_percent() {
        None
    } else {
        Some(len.to_cells_h(0))
    }
}

/// Padding and border on the inline axis.
#[verifier::allow_in_spec]
pub fn axis_h(computed: &ComputedStyle) -> (r: Axis)
    returns
        (Axis {
            edges: plus(
                plus(
                    plus(computed.padding.left.to_cells_h(0), computed.padding.right.to_cells_h(0)),
                    computed.border.left.to_cells_h(0),
                ),
                computed.border.right.to_cells_h(0),
            ),
            box_sizing: computed.box_sizing,
        }),
{
    Axis {
        edges: plus(
            plus(
                plus(computed.padding.left.to_cells_h(0), computed.padding.right.to_cells_h(0)),
                computed.border.left.to_cells_h(0),
            ),
            computed.border.right.to_cells_h(0),
        ),
        box_sizing: computed.box_sizing,
    }
}

/// Horizontal margin, border and padding.
#[verifier::allow_in_spec]
pub fn outer_edges(computed: &ComputedStyle) -> (r: i32)
    returns
        plus(
            plus(computed.margin.left.to_cells_h(0), computed.margin.right.to_cells_h(0)),
            axis_h(computed).edges,
        ),
{
    plus(
        plus(computed.margin.left.to_cells_h(0), computed.margin.right.to_cells_h(0)),
        axis_h(computed).edges,
    )
}

/// A flex item's main size when `flex-basis` alone decides it.
#[verifier::allow_in_spec]
pub fn definite_basis(computed: &ComputedStyle) -> (r: Option<i32>)
    returns
        (match computed.flex.basis {
            FlexBasis::Size(len) => match definite_h(len) {
                Some(basis) => Some(
                    axis_h(computed).clamp(
                        axis_h(computed).content_from(basis),
                        definite_h(computed.min_width),
                        definite_h(computed.max_width),
                    ),
                ),
                None => None,
            },
            _ => None,
        }),
{
    match computed.flex.basis {
        FlexBasis::Size(len) => match definite_h(len) {
            Some(basis) => Some(
                axis_h(computed).clamp(
                    axis_h(computed).content_from(basis),
                    definite_h(computed.min_width),
                    definite_h(computed.max_width),
                ),
            ),
            None => None,
        },
        _ => None,
    }
}

/// What a flex row asks of an item with these widths: a definite basis decides
/// the side on which the item cannot flex.
#[verifier::allow_in_spec]
pub fn row_item_sizes(computed: &ComputedStyle, content: Sizes) -> (r: Sizes)
    returns
        (match definite_basis(computed) {
            None => content,
            Some(basis) => Sizes {
                max: if computed.flex.grow == 0 {
                    basis
                } else {
                    larger(basis, content.max)
                },
                min: if computed.flex.shrink == 0 {
                    basis
                } else {
                    content.min
                },
            },
        }),
{
    match definite_basis(computed) {
        None => content,
        Some(basis) => Sizes {
            max: if computed.flex.grow == 0 {
                basis
            } else {
                larger(basis, content.max)
            },
            min: if computed.flex.shrink == 0 {
                basis
            } else {
                content.min
            },
        },
    }
}

/// Lines of preformatted text from the `i`th on: each newline closes a line,
/// and everything between two of them is one piece.
pub open spec fn pre_pieces(lines: Seq<Seq<char>>, i: int, run: Run) -> Run
    decreases lines.len() - i,
{
    if i >= lines.len() {
        run
    } else {
        let with = if lines[i].len() > 0 {
            run.piece(cells_of(lines[i]))
        } else {
            run
        };
        pre_pieces(
            lines,
            i + 1,
            if i + 1 < lines.len() {
                with.line_break()
            } else {
                with
            },
        )
    }
}

/// Words from the `i`th on, with a space between each two.
pub open spec fn word_pieces(words: Seq<Seq<char>>, i: int, run: Run) -> Run
    decreases words.len() - i,
{
    if i >= words.len() {
        run
    } else {
        word_pieces(
            words,
            i + 1,
            (if i > 0 {
                run.space()
            } else {
                run
            }).piece(cells_of(words[i])),
        )
    }
}

/// A text's pieces: what the line breaker refuses to break.
pub open spec fn text_pieces(text: Seq<char>, run: Run) -> Run {
    if run.pre {
        pre_pieces(lines_of(text), 0, run)
    } else {
        let lead = if text.len() > 0 && is_html_space(text[0]) {
            run.space()
        } else {
            run
        };
        let all = word_pieces(words_of(text, Spaces::Html), 0, lead);
        if text.len() > 0 && is_html_space(text[text.len() - 1]) {
            all.space()
        } else {
            all
        }
    }
}

/// See [`text_pieces`].
pub fn measure_text(text: &str, run: Run) -> (r: Run)
    ensures
        r == text_pieces(text@, run),
{
    let mut run: Run = run;
    if run.pre {
        let lines: Vec<String> = split_lines(text);
        let ghost goal = pre_pieces(views(lines@), 0, run);
        let mut i: usize = 0;
        while i < lines.len()
            invariant
                i <= lines@.len(),
                goal == pre_pieces(views(lines@), i as int, run),
            decreases lines@.len() - i,
        {
            if !lines[i].as_str().is_empty() {
                run = run.piece(str_cells(lines[i].as_str()));
            }
            if i + 1 < lines.len() {
                run = run.line_break();
            }
            i += 1;
        }
        run
    } else {
        let chars: Vec<char> = chars_of(text);
        let n: usize = chars.len();
        if n > 0 && is_html_space(chars[0]) {
            run = run.space();
        }
        let parts: Vec<String> = words(text, Spaces::Html);
        let ghost goal = word_pieces(views(parts@), 0, run);
        let mut i: usize = 0;
        while i < parts.len()
            invariant
                i <= parts@.len(),
                goal == word_pieces(views(parts@), i as int, run),
            decreases parts@.len() - i,
        {
            if i > 0 {
                run = run.space();
            }
            run = run.piece(str_cells(parts[i].as_str()));
            i += 1;
        }
        if n > 0 && is_html_space(chars[n - 1]) {
            run = run.space();
        }
        run
    }
}

impl<'a> Ctx<'a> {
    /// The replaced box's cell width, if the image is known.
    pub open spec fn image_cells(&self, id: NodeId) -> Option<i32> {
        match self.images.of(id) {
            Some(img) => Some(image_size(img, i32::MAX).0),
            None => None,
        }
    }

    fn image_width(&self, id: NodeId) -> (r: Option<i32>)
        ensures
            r == self.image_cells(id),
    {
        match self.images.get(id) {
            Some(img) => Some(self.images.size_for(img, i32::MAX).0),
            None => None,
        }
    }

    /// Is this element one piece of the run that holds it?
    pub open spec fn measured_whole(&self, id: NodeId, nested: bool) -> bool {
        control_tag(self.dom.tag_of(id)) || (!nested && self.goes_whole(id))
    }

    /// Flatten an inline subtree into a run's pieces. Every child of an inline
    /// is flattened too, whatever its `display`; only a form control is a box
    /// wherever it stands.
    pub open spec fn pieces(&self, id: NodeId, nested: bool, run: Run) -> Run
        decreases self.dom.rank_of(id), 9nat,
        when self.wf() && self.dom.has(id)
    {
        let tag = self.dom.tag_of(id);
        let c = self.style(id);
        if self.dom.is_text(id) {
            text_pieces(self.dom.text_of(id), run)
        } else if !self.dom.is_element(id) || self.hides(id) || crate::boxmodel::is_out_of_flow(
            c.position,
        ) {
            run
        } else if tag == "br"@ {
            run.line_break()
        } else if tag == "img"@ {
            match self.image_cells(id) {
                Some(cells) => run.replaced(cells),
                None => run,
            }
        } else if crate::field::kind_of(self.dom, id, tag) == Some(crate::field::Kind::Absent) {
            run
        } else if self.measured_whole(id, nested) {
            run.atomic(self.sizes(id).grown_by(outer_edges(&c)))
        } else {
            let lead = plus(
                plus(c.margin.left.to_cells_h(0), c.padding.left.to_cells_h(0)),
                c.border.left.to_cells_h(0),
            );
            let trail = plus(
                plus(c.margin.right.to_cells_h(0), c.padding.right.to_cells_h(0)),
                c.border.right.to_cells_h(0),
            );
            let before = if lead > 0 {
                run.piece(lead)
            } else {
                run
            };
            let inner = self.kid_pieces(id, 0, before);
            if trail > 0 {
                inner.piece(trail)
            } else {
                inner
            }
        }
    }

    /// The pieces of the children from the `k`th on.
    pub open spec fn kid_pieces(&self, id: NodeId, k: int, run: Run) -> Run
        decreases self.dom.rank_of(id), 1nat, self.dom.kids(id).len() - k,
        when self.wf() && self.dom.has(id) && k >= 0
    {
        if k >= self.dom.kids(id).len() {
            run
        } else {
            self.kid_pieces(id, k + 1, self.pieces(self.dom.kids(id)[k], true, run))
        }
    }

    /// The pieces of a run of sibling nodes from the `i`th on.
    pub open spec fn run_pieces(&self, limit: nat, nodes: Seq<NodeId>, i: int, run: Run) -> Run
        decreases limit, 0nat, nodes.len() - i,
        when self.wf() && nodes_below(self.dom, nodes, limit) && i >= 0
    {
        if i >= nodes.len() {
            run
        } else {
            self.run_pieces(limit, nodes, i + 1, self.pieces(nodes[i], false, run))
        }
    }

    /// The widths of one run of sibling nodes measured as a single inline
    /// formatting context.
    pub open spec fn run_sizes(&self, limit: nat, nodes: Seq<NodeId>) -> Sizes
        decreases limit, 1nat,
        when self.wf() && nodes_below(self.dom, nodes, limit)
    {
        self.run_pieces(
            limit,
            nodes,
            0,
            Run::new(nodes.len() > 0 && self.inside_pre(nodes[0])),
        ).finish()
    }

    /// A block container's sizes: the children from the `k`th on, with `out`
    /// the widest so far and `run` the inline run being built.
    pub open spec fn block_sizes(&self, id: NodeId, k: int, out: Sizes, run: Run) -> Sizes
        decreases self.dom.rank_of(id), 1nat, self.dom.kids(id).len() - k,
        when self.wf() && self.dom.has(id) && k >= 0
    {
        if k >= self.dom.kids(id).len() {
            out.max_with(run.finish())
        } else {
            let c = self.dom.kids(id)[k];
            if self.leaves_flow(c) {
                self.block_sizes(id, k + 1, out, run)
            } else {
                match self.mode_of(c) {
                    ChildMode::Skip => self.block_sizes(id, k + 1, out, run),
                    ChildMode::Inline => self.block_sizes(
                        id,
                        k + 1,
                        out,
                        self.pieces(c, false, run),
                    ),
                    ChildMode::Block => self.block_sizes(
                        id,
                        k + 1,
                        out.max_with(run.finish()).max_with(
                            self.sizes(c).grown_by(outer_edges(&self.style(c))),
                        ),
                        Run::new(run.pre),
                    ),
                }
            }
        }
    }

    /// The max over what each child asks for. A list item's marker joins its
    /// first inline run.
    pub open spec fn children_sizes(&self, id: NodeId) -> Sizes
        decreases self.dom.rank_of(id), 2nat,
        when self.wf() && self.dom.has(id)
    {
        let run = Run::new(self.inside_pre(id));
        self.block_sizes(
            id,
            0,
            Sizes::both(0),
            if self.dom.is_element(id) && self.dom.tag_of(id) == "li"@ {
                run.piece(cells_of(list_marker()))
            } else {
                run
            },
        )
    }

    /// What one flex item asks for.
    pub open spec fn source_sizes(&self, limit: nat, column: bool, source: SourceView) -> Sizes
        decreases limit, 2nat,
        when self.wf() && source_below(self.dom, source, limit)
    {
        match source {
            SourceView::Element(c) => {
                let own = self.sizes(c);
                (if column {
                    own
                } else {
                    row_item_sizes(&self.style(c), own)
                }).grown_by(outer_edges(&self.style(c)))
            },
            SourceView::Text(nodes) => self.run_sizes(limit, nodes),
        }
    }

    /// The items from the `i`th on: a row's sit side by side, a column's stack.
    pub open spec fn items_sizes(
        &self,
        limit: nat,
        column: bool,
        sources: Seq<SourceView>,
        i: int,
        out: Sizes,
    ) -> Sizes
        decreases limit, 3nat, sources.len() - i,
        when self.wf() && sources_below(self.dom, sources, limit) && i >= 0
    {
        if i >= sources.len() {
            out
        } else {
            let one = self.source_sizes(limit, column, sources[i]);
            self.items_sizes(
                limit,
                column,
                sources,
                i + 1,
                if column {
                    out.max_with(one)
                } else {
                    out.beside(one)
                },
            )
        }
    }

    /// A flex container's sizes. Gaps between a row's items are part of what it
    /// asks for.
    pub open spec fn flex_sizes(&self, id: NodeId) -> Sizes
        decreases self.dom.rank_of(id), 4nat,
        when self.wf() && self.dom.has(id)
    {
        let c = self.style(id);
        let sources = self.sources_of(id, self.inside_pre(id));
        if sources.len() == 0 {
            Sizes::both(0)
        } else if !sources_below(self.dom, sources, self.dom.rank_of(id)) {
            Sizes::both(0)
        } else {
            let gap = if is_column(&c) {
                0
            } else {
                times(
                    larger(c.gap.column.to_cells_h(0), 0),
                    minus(fit(sources.len() as int), 1),
                )
            };
            self.items_sizes(
                self.dom.rank_of(id),
                is_column(&c),
                sources,
                0,
                Sizes::both(gap),
            )
        }
    }

    /// What an element's content wants, ignoring any `width` of its own.
    pub open spec fn content_sizes(&self, id: NodeId) -> Sizes
        decreases self.dom.rank_of(id), 5nat,
        when self.wf() && self.dom.has(id)
    {
        let tag = self.dom.tag_of(id);
        if tag == "img"@ {
            Sizes::both(
                match self.image_cells(id) {
                    Some(cells) => cells,
                    None => 0,
                },
            )
        } else {
            match control_of(self.dom, id, tag) {
                Some(field) => Sizes::both(field.cols),
                None => if lays_out_as_flex(&self.style(id)) {
                    self.flex_sizes(id)
                } else {
                    self.children_sizes(id)
                },
            }
        }
    }

    /// An element's sizes: its specified width or else its content's, between
    /// its own bounds.
    pub open spec fn element_sizes(&self, id: NodeId) -> Sizes
        decreases self.dom.rank_of(id), 6nat,
        when self.wf() && self.dom.has(id)
    {
        let c = self.style(id);
        if self.hides(id) {
            Sizes::both(0)
        } else {
            let axis = axis_h(&c);
            let base = match definite_h(c.width) {
                Some(w) if self.dom.tag_of(id) != "img"@ => Sizes::both(axis.content_from(w)),
                _ => self.content_sizes(id),
            };
            Sizes {
                min: axis.clamp(base.min, definite_h(c.min_width), definite_h(c.max_width)),
                max: axis.clamp(base.max, definite_h(c.min_width), definite_h(c.max_width)),
            }
        }
    }

    /// The two intrinsic widths of a node.
    pub open spec fn sizes(&self, id: NodeId) -> Sizes
        decreases self.dom.rank_of(id), 7nat,
        when self.wf() && self.dom.has(id)
    {
        match self.dom.nodes@[id.0 as int].data {
            NodeData::Comment(_) | NodeData::Doctype(_) => Sizes::both(0),
            NodeData::Document => self.children_sizes(id),
            NodeData::Text(text) => text_pieces(text@, Run::new(self.inside_pre(id))).finish(),
            NodeData::Element { .. } => self.element_sizes(id),
        }
    }

    /// The widths of a node's content, any `width` of its own set aside.
    pub open spec fn inner_sizes(&self, id: NodeId) -> Sizes {
        if self.dom.is_element(id) {
            if self.hides(id) {
                Sizes::both(0)
            } else {
                self.content_sizes(id)
            }
        } else {
            self.sizes(id)
        }
    }

    /// [`inner_sizes`](Self::inner_sizes) as `(min, max)`.
    pub open spec fn content_widths_of(&self, id: NodeId) -> (i32, i32) {
        (self.inner_sizes(id).min, self.inner_sizes(id).max)
    }

    /// A number that no node of the document has below it.
    pub open spec fn above_all(&self) -> nat {
        peak(self.dom.rank@) + 1
    }

    /// The widths of a run of sibling nodes, `(min, max)`.
    pub open spec fn run_widths_of(&self, nodes: Seq<NodeId>) -> (i32, i32) {
        let s = self.run_sizes(self.above_all(), nodes);
        (s.min, s.max)
    }
}

/// How many entries of a memo are filled.
pub open spec fn filled(memo: Seq<Option<Sizes>>) -> nat
    decreases memo.len(),
{
    if memo.len() == 0 {
        0
    } else {
        filled(memo.drop_last()) + if memo.last() is Some {
            1nat
        } else {
            0nat
        }
    }
}

proof fn filled_at_most(memo: Seq<Option<Sizes>>)
    ensures
        filled(memo) <= memo.len(),
    decreases memo.len(),
{
    if memo.len() > 0 {
        filled_at_most(memo.drop_last());
    }
}

proof fn filling_one(memo: Seq<Option<Sizes>>, i: int, s: Sizes)
    requires
        0 <= i < memo.len(),
        memo[i] is None,
    ensures
        filled(memo.update(i, Some(s))) == filled(memo) + 1,
    decreases memo.len(),
{
    let next = memo.update(i, Some(s));
    if i == memo.len() - 1 {
        assert(next.drop_last() =~= memo.drop_last());
    } else {
        filling_one(memo.drop_last(), i, s);
        assert(next.drop_last() =~= memo.drop_last().update(i, Some(s)));
    }
}

/// One layout pass's intrinsic-size scratchpad.
///
/// The memo lives and dies with the pass that created it, and is what keeps
/// the work linear where measurements nest.
pub struct IntrinsicSizer<'a> {
    pub ctx: Ctx<'a>,
    pub memo: Vec<Option<Sizes>>,
    /// How many nodes this pass has measured.
    pub measured: usize,
}

impl<'a> IntrinsicSizer<'a> {
    /// Every remembered width is the node's own, and each was measured once.
    pub open spec fn ok(&self) -> bool {
        &&& self.ctx.wf()
        &&& self.memo@.len() == self.ctx.dom.nodes@.len()
        &&& forall|i: int|
            0 <= i < self.memo@.len() ==> match #[trigger] self.memo@[i] {
                Some(s) => s == self.ctx.sizes(NodeId(i as u32)),
                None => true,
            }
        &&& self.measured == filled(self.memo@)
    }

    /// Nothing is remembered about nodes with at least `limit` below them that
    /// was not remembered in `old`.
    pub open spec fn extends(&self, old: Self, limit: nat) -> bool {
        &&& self.ctx == old.ctx
        &&& self.ok()
        &&& forall|i: int|
            0 <= i < self.memo@.len() && self.ctx.dom.rank@[i] >= limit ==> #[trigger] self.memo@[i]
                == old.memo@[i]
        &&& forall|i: int|
            0 <= i < self.memo@.len() && old.memo@[i] is Some ==> #[trigger] self.memo@[i]
                == old.memo@[i]
    }

    pub fn new(
        dom: &'a Dom,
        styles: &'a Styles,
        images: &'a ImageContext,
        hidden: crate::boxmodel::Hidden,
    ) -> (r: IntrinsicSizer<'a>)
        requires
            dom.wf(),
        ensures
            r.ok(),
            r.ctx == (Ctx { dom, styles, images, hidden }),
            r.measured == 0,
    {
        let mut memo: Vec<Option<Sizes>> = Vec::new();
        let mut i: usize = 0;
        while i < dom.node_count()
            invariant
                i <= dom.nodes@.len(),
                memo@.len() == i,
                filled(memo@) == 0,
                forall|j: int| 0 <= j < i ==> #[trigger] memo@[j] is None,
            decreases dom.nodes@.len() - i,
        {
            let ghost before = memo@;
            memo.push(None);
            proof {
                assert(memo@.drop_last() =~= before);
            }
            i += 1;
        }
        IntrinsicSizer { ctx: Ctx { dom, styles, images, hidden }, memo, measured: 0 }
    }

    /// How many nodes this pass has measured: as many as it remembers, so no
    /// node was ever measured twice.
    pub fn measured_nodes(&self) -> (r: usize)
        requires
            self.ok(),
        ensures
            r == filled(self.memo@),
    {
        self.measured
    }

    /// Narrowest width this node's content can be squeezed into without a
    /// piece having to be broken.
    pub fn min_content_width(&mut self, node: NodeId) -> (r: i32)
        requires
            old(self).ok(),
            old(self).ctx.dom.has(node),
        ensures
            r == old(self).ctx.sizes(node).min,
            final(self).extends(*old(self), old(self).ctx.dom.rank_of(node) + 1),
            final(self).memo@[node.0 as int] is Some,
    {
        self.sizes(node).min
    }

    /// Width this node's content takes when nothing wraps it.
    pub fn max_content_width(&mut self, node: NodeId) -> (r: i32)
        requires
            old(self).ok(),
            old(self).ctx.dom.has(node),
        ensures
            r == old(self).ctx.sizes(node).max,
            final(self).extends(*old(self), old(self).ctx.dom.rank_of(node) + 1),
            final(self).memo@[node.0 as int] is Some,
    {
        self.sizes(node).max
    }

    /// The two widths of one run of sibling nodes, `(min, max)`. Measuring the
    /// nodes separately and summing would be wrong in both directions.
    pub fn run_widths(&mut self, nodes: &Vec<NodeId>) -> (r: (i32, i32))
        requires
            old(self).ok(),
            nodes_below(old(self).ctx.dom, nodes@, old(self).ctx.above_all()),
        ensures
            r == old(self).ctx.run_widths_of(nodes@),
            final(self).extends(*old(self), old(self).ctx.above_all()),
    {
        let s: Sizes = self.measure_run(nodes, Ghost(self.ctx.above_all()));
        (s.min, s.max)
    }

    fn measure_run(&mut self, nodes: &Vec<NodeId>, Ghost(limit): Ghost<nat>) -> (r: Sizes)
        requires
            old(self).ok(),
            nodes_below(old(self).ctx.dom, nodes@, limit),
        ensures
            r == old(self).ctx.run_sizes(limit, nodes@),
            final(self).extends(*old(self), limit),
        decreases limit, 1nat,
    {
        let pre: bool = if nodes.len() > 0 {
            proof {
                assert(self.ctx.dom.has(nodes@[0]));
            }
            self.ctx.in_pre(nodes[0])
        } else {
            false
        };
        let mut run: Run = Run::new(pre);
        let ghost start = *self;
        let ghost goal = self.ctx.run_pieces(limit, nodes@, 0, run);
        let mut i: usize = 0;
        while i < nodes.len()
            invariant
                self.extends(start, limit),
                nodes_below(self.ctx.dom, nodes@, limit),
                i <= nodes@.len(),
                goal == self.ctx.run_pieces(limit, nodes@, i as int, run),
            decreases nodes@.len() - i,
        {
            proof {
                assert(self.ctx.dom.has(nodes@[i as int]));
            }
            run = self.push_pieces(nodes[i], false, run);
            i += 1;
        }
        run.finish()
    }

    fn sizes(&mut self, node: NodeId) -> (r: Sizes)
        requires
            old(self).ok(),
            old(self).ctx.dom.has(node),
        ensures
            r == old(self).ctx.sizes(node),
            final(self).extends(*old(self), old(self).ctx.dom.rank_of(node) + 1),
            final(self).memo@[node.0 as int] is Some,
        decreases old(self).ctx.dom.rank_of(node), 7nat,
    {
        let i: usize = node.0 as usize;
        match self.memo[i] {
            Some(known) => {
                return known;
            },
            None => {},
        }
        let s: Sizes = self.measure(node);
        proof {
            filled_at_most(self.memo@);
            filling_one(self.memo@, i as int, s);
            filled_at_most(self.memo@.update(i as int, Some(s)));
            assert(NodeId(i as u32) == node);
        }
        self.measured = self.measured + 1;
        self.memo.set(i, Some(s));
        s
    }

    fn measure(&mut self, node: NodeId) -> (r: Sizes)
        requires
            old(self).ok(),
            old(self).ctx.dom.has(node),
        ensures
            r == old(self).ctx.sizes(node),
            final(self).extends(*old(self), old(self).ctx.dom.rank_of(node)),
        decreases old(self).ctx.dom.rank_of(node), 6nat,
    {
        let dom: &Dom = self.ctx.dom;
        match &dom.node(node).data {
            NodeData::Comment(_) => Sizes::both(0),
            NodeData::Doctype(_) => Sizes::both(0),
            NodeData::Document => self.children_sizes(node),
            NodeData::Text(text) => {
                let run: Run = Run::new(self.ctx.in_pre(node));
                measure_text(text.as_str(), run).finish()
            },
            NodeData::Element { .. } => {
                if self.ctx.is_hidden(node) {
                    return Sizes::both(0);
                }
                let c: ComputedStyle = self.ctx.styles.get(node);
                let axis: Axis = axis_h(&c);
                let base: Sizes = match definite_h(c.width) {
                    Some(w) => if !dom.is_tag(node, "img") {
                        Sizes::both(axis.content_from(w))
                    } else {
                        self.content_sizes(node)
                    },
                    None => self.content_sizes(node),
                };
                Sizes {
                    min: axis.clamp(base.min, definite_h(c.min_width), definite_h(c.max_width)),
                    max: axis.clamp(base.max, definite_h(c.min_width), definite_h(c.max_width)),
                }
            },
        }
    }

    /// What this element's **content** wants, ignoring any `width` the page put
    /// on the element itself: `(min, max)`.
    pub fn content_widths(&mut self, node: NodeId) -> (r: (i32, i32))
        requires
            old(self).ok(),
            old(self).ctx.dom.has(node),
        ensures
            r == old(self).ctx.content_widths_of(node),
            final(self).extends(*old(self), old(self).ctx.dom.rank_of(node) + 1),
    {
        let s: Sizes = if matches!(self.ctx.dom.node(node).data, NodeData::Element { .. }) {
            if self.ctx.is_hidden(node) {
                Sizes::both(0)
            } else {
                self.content_sizes(node)
            }
        } else {
            self.sizes(node)
        };
        (s.min, s.max)
    }

    fn content_sizes(&mut self, node: NodeId) -> (r: Sizes)
        requires
            old(self).ok(),
            old(self).ctx.dom.has(node),
        ensures
            r == old(self).ctx.content_sizes(node),
            final(self).extends(*old(self), old(self).ctx.dom.rank_of(node)),
        decreases old(self).ctx.dom.rank_of(node), 5nat,
    {
        let dom: &Dom = self.ctx.dom;
        let tag: &str = dom.tag(node);
        if same(tag, "img") {
            return Sizes::both(
                match self.ctx.image_width(node) {
                    Some(cells) => cells,
                    None => 0,
                },
            );
        }
        match control(dom, node, tag) {
            Some(field) => {
                return Sizes::both(field.cols);
            },
            None => {},
        }
        let c: ComputedStyle = self.ctx.styles.get(node);
        if lays_out_as_flex(&c) {
            self.flex_sizes(node)
        } else {
            self.children_sizes(node)
        }
    }

    fn flex_sizes(&mut self, node: NodeId) -> (r: Sizes)
        requires
            old(self).ok(),
            old(self).ctx.dom.has(node),
        ensures
            r == old(self).ctx.flex_sizes(node),
            final(self).extends(*old(self), old(self).ctx.dom.rank_of(node)),
        decreases old(self).ctx.dom.rank_of(node), 4nat,
    {
        let c: ComputedStyle = self.ctx.styles.get(node);
        let ghost limit = self.ctx.dom.rank_of(node);
        let ghost start = *self;
        let pre: bool = self.ctx.in_pre(node);
        let sources: Vec<FlexItemSource> = self.ctx.flex_sources(node, pre);
        if sources.len() == 0 {
            return Sizes::both(0);
        }
        let column: bool = is_column(&c);
        let gap: i32 = if column {
            0
        } else {
            times(larger(c.gap.column.to_cells_h(0), 0), minus(count(sources.len()), 1))
        };
        let mut out: Sizes = Sizes::both(gap);
        let ghost all = views(sources@);
        let ghost goal = self.ctx.items_sizes(limit, column, all, 0, out);
        let mut i: usize = 0;
        while i < sources.len()
            invariant
                self.extends(start, limit),
                self.ctx == old(self).ctx,
                limit == start.ctx.dom.rank_of(node),
                all == views(sources@),
                sources_below(self.ctx.dom, all, limit),
                i <= sources@.len(),
                goal == self.ctx.items_sizes(limit, column, all, i as int, out),
            decreases sources@.len() - i,
        {
            proof {
                assert(source_below(self.ctx.dom, all[i as int], limit));
            }
            let one: Sizes = match &sources[i] {
                FlexItemSource::Element(child) => {
                    let style: ComputedStyle = self.ctx.styles.get(*child);
                    let own: Sizes = self.sizes(*child);
                    (if column {
                        own
                    } else {
                        row_item_sizes(&style, own)
                    }).grown_by(outer_edges(&style))
                },
                FlexItemSource::Text(nodes) => self.measure_run(nodes, Ghost(limit)),
            };
            assert(one == self.ctx.source_sizes(limit, column, all[i as int]));
            out = if column {
                out.max_with(one)
            } else {
                out.beside(one)
            };
            i += 1;
        }
        out
    }

    fn children_sizes(&mut self, node: NodeId) -> (r: Sizes)
        requires
            old(self).ok(),
            old(self).ctx.dom.has(node),
        ensures
            r == old(self).ctx.children_sizes(node),
            final(self).extends(*old(self), old(self).ctx.dom.rank_of(node)),
        decreases old(self).ctx.dom.rank_of(node), 2nat,
    {
        let dom: &Dom = self.ctx.dom;
        let ghost limit = dom.rank_of(node);
        let ghost start = *self;
        let mut run: Run = Run::new(self.ctx.in_pre(node));
        if dom.is_tag(node, "li") {
            run = run.piece(str_cells("• "));
        }
        let mut out: Sizes = Sizes::both(0);
        let kids: &Vec<NodeId> = dom.children(node);
        let ghost goal = self.ctx.block_sizes(node, 0, out, run);
        let mut k: usize = 0;
        while k < kids.len()
            invariant
                self.extends(start, limit),
                self.ctx == old(self).ctx,
                dom == self.ctx.dom,
                dom.has(node),
                limit == dom.rank_of(node),
                kids@ == dom.kids(node),
                k <= kids@.len(),
                goal == self.ctx.block_sizes(node, k as int, out, run),
            decreases kids@.len() - k,
        {
            let c: NodeId = kids[k];
            proof {
                assert(dom.nodes@[node.0 as int].children@[k as int] == c);
            }
            if !self.ctx.is_element_out_of_flow(c) {
                match self.ctx.child_mode(c) {
                    ChildMode::Skip => {},
                    ChildMode::Inline => {
                        run = self.push_pieces(c, false, run);
                    },
                    ChildMode::Block => {
                        let style: ComputedStyle = self.ctx.styles.get(c);
                        let own: Sizes = self.sizes(c);
                        out = out.max_with(run.finish()).max_with(
                            own.grown_by(outer_edges(&style)),
                        );
                        run = Run::new(run.pre);
                    },
                }
            }
            k += 1;
        }
        out.max_with(run.finish())
    }

    fn push_pieces(&mut self, node: NodeId, nested: bool, run: Run) -> (r: Run)
        requires
            old(self).ok(),
            old(self).ctx.dom.has(node),
        ensures
            r == old(self).ctx.pieces(node, nested, run),
            final(self).extends(*old(self), old(self).ctx.dom.rank_of(node) + 1),
        decreases old(self).ctx.dom.rank_of(node), 9nat,
    {
        let dom: &Dom = self.ctx.dom;
        let ghost limit = dom.rank_of(node);
        let ghost start = *self;
        match &dom.node(node).data {
            NodeData::Text(text) => measure_text(text.as_str(), run),
            NodeData::Element { tag, .. } => {
                let tag: &str = tag.as_str();
                let c: ComputedStyle = self.ctx.styles.get(node);
                if self.ctx.is_hidden(node) || crate::boxmodel::is_out_of_flow(c.position) {
                    return run;
                }
                if same(tag, "br") {
                    return run.line_break();
                }
                if same(tag, "img") {
                    return match self.ctx.image_width(node) {
                        Some(cells) => run.replaced(cells),
                        None => run,
                    };
                }
                if crate::field::generates_no_box(dom, node, tag) {
                    return run;
                }
                if is_control_tag(tag) || (!nested && self.ctx.is_whole(node)) {
                    let own: Sizes = self.sizes(node);
                    return run.atomic(own.grown_by(outer_edges(&c)));
                }
                let lead: i32 = plus(
                    plus(c.margin.left.to_cells_h(0), c.padding.left.to_cells_h(0)),
                    c.border.left.to_cells_h(0),
                );
                let trail: i32 = plus(
                    plus(c.margin.right.to_cells_h(0), c.padding.right.to_cells_h(0)),
                    c.border.right.to_cells_h(0),
                );
                let mut run: Run = run;
                if lead > 0 {
                    run = run.piece(lead);
                }
                let kids: &Vec<NodeId> = dom.children(node);
                let ghost goal = self.ctx.kid_pieces(node, 0, run);
                let mut k: usize = 0;
                while k < kids.len()
                    invariant
                        self.extends(start, limit),
                        self.ctx == old(self).ctx,
                        dom == self.ctx.dom,
                        dom.has(node),
                        limit == dom.rank_of(node),
                        kids@ == dom.kids(node),
                        k <= kids@.len(),
                        goal == self.ctx.kid_pieces(node, k as int, run),
                    decreases kids@.len() - k,
                {
                    proof {
                        assert(dom.nodes@[node.0 as int].children@[k as int] == kids@[k as int]);
                    }
                    run = self.push_pieces(kids[k], true, run);
                    k += 1;
                }
                if trail > 0 {
                    run = run.piece(trail);
                }
                run
            },
            _ => run,
        }
    }
}

} // verus!
