//! What one layout pass reads, and the questions about a node that measuring
//! and laying out must answer alike.

use vstd::prelude::*;

use crate::boxmodel::{is_atomic_inline, is_block_level, is_out_of_flow, is_shifted, Hidden};
use crate::dom::{Dom, NodeData, NodeId};
use crate::field::{control_tag, generates_no_box, is_control_tag, kind_of, Kind};
use crate::image::ImageContext;
use crate::style::{ComputedStyle, Display, Styles};
use crate::text::{blank, is_blank, same};
use crate::views::views;

verus! {

broadcast use crate::views::group_views;

/// The inputs of one layout pass.
#[derive(Clone, Copy)]
pub struct Ctx<'a> {
    pub dom: &'a Dom,
    pub styles: &'a Styles,
    pub images: &'a ImageContext,
    pub hidden: Hidden,
}

/// Which formatting context a child of a block container joins.
#[derive(Clone, Copy, PartialEq, Eq, Debug, Structural)]
pub enum ChildMode {
    Skip,
    Block,
    Inline,
}

/// What becomes one flex item.
#[derive(Debug)]
pub enum FlexItemSource {
    Element(NodeId),
    /// A contiguous run of text between two element children: one anonymous
    /// item wrapping one inline formatting context.
    Text(Vec<NodeId>),
}

/// The value of a [`FlexItemSource`].
pub enum SourceView {
    Element(NodeId),
    Text(Seq<NodeId>),
}

impl View for FlexItemSource {
    type V = SourceView;

    open spec fn view(&self) -> SourceView {
        match self {
            FlexItemSource::Element(id) => SourceView::Element(*id),
            FlexItemSource::Text(nodes) => SourceView::Text(nodes@),
        }
    }
}

/// Every node is one of the document, with less below it than `limit`.
pub open spec fn nodes_below(dom: &Dom, nodes: Seq<NodeId>, limit: nat) -> bool {
    forall|i: int|
        0 <= i < nodes.len() ==> dom.has(#[trigger] nodes[i]) && dom.rank_of(nodes[i]) < limit
}

/// [`nodes_below`] for what one flex item is made of.
pub open spec fn source_below(dom: &Dom, source: SourceView, limit: nat) -> bool {
    match source {
        SourceView::Element(id) => dom.has(id) && dom.is_element(id) && dom.rank_of(id) < limit,
        SourceView::Text(nodes) => nodes.len() > 0 && texts_below(dom, nodes, limit),
    }
}

/// [`nodes_below`] for text nodes.
pub open spec fn texts_below(dom: &Dom, nodes: Seq<NodeId>, limit: nat) -> bool {
    forall|i: int|
        0 <= i < nodes.len() ==> dom.has(#[trigger] nodes[i]) && dom.is_text(nodes[i])
            && dom.rank_of(nodes[i]) < limit
}

pub open spec fn sources_below(dom: &Dom, sources: Seq<SourceView>, limit: nat) -> bool {
    forall|i: int| 0 <= i < sources.len() ==> source_below(dom, #[trigger] sources[i], limit)
}

/// Does a run of text make an item? One that is only whitespace does not,
/// unless whitespace is kept.
pub open spec fn has_content(dom: &Dom, run: Seq<NodeId>, pre: bool) -> bool {
    exists|i: int|
        0 <= i < run.len() && dom.is_text(#[trigger] run[i]) && (pre || !blank(
            dom.text_of(run[i]),
        ))
}

pub open spec fn text_source(dom: &Dom, run: Seq<NodeId>, pre: bool) -> Seq<SourceView> {
    if has_content(dom, run, pre) {
        seq![SourceView::Text(run)]
    } else {
        Seq::empty()
    }
}

impl<'a> Ctx<'a> {
    pub open spec fn wf(&self) -> bool {
        self.dom.wf()
    }

    pub open spec fn style(&self, id: NodeId) -> ComputedStyle {
        self.styles.of(id)
    }

    /// Generates no box at all, because its `display` says so.
    pub open spec fn hides(&self, id: NodeId) -> bool {
        self.style(id).display is NoBox && (self.hidden is Respect || self.style(id).hidden_by_ua)
    }

    /// See [`hides`](Self::hides).
    pub fn is_hidden(&self, id: NodeId) -> (r: bool)
        ensures
            r == self.hides(id),
    {
        let c: ComputedStyle = self.styles.get(id);
        matches!(c.display, Display::NoBox) && (matches!(self.hidden, Hidden::Respect)
            || c.hidden_by_ua)
    }

    /// Is this an element that leaves the normal flow?
    pub open spec fn leaves_flow(&self, id: NodeId) -> bool {
        self.dom.is_element(id) && is_out_of_flow(self.style(id).position)
    }

    /// See [`leaves_flow`](Self::leaves_flow).
    pub fn is_element_out_of_flow(&self, id: NodeId) -> (r: bool)
        requires
            self.dom.has(id),
        ensures
            r == self.leaves_flow(id),
    {
        matches!(self.dom.node(id).data, NodeData::Element { .. }) && is_out_of_flow(
            self.styles.get(id).position,
        )
    }

    /// How a child of a block container is laid out.
    pub open spec fn mode_of(&self, id: NodeId) -> ChildMode {
        if self.dom.is_text(id) {
            ChildMode::Inline
        } else if !self.dom.is_element(id) {
            ChildMode::Skip
        } else {
            let tag = self.dom.tag_of(id);
            let display = self.style(id).display;
            if self.hides(id) {
                ChildMode::Skip
            } else if tag == "br"@ || tag == "hr"@ {
                ChildMode::Block
            } else if kind_of(self.dom, id, tag) == Some(Kind::Absent) {
                ChildMode::Skip
            } else if tag == "img"@ {
                if is_block_level(display) {
                    ChildMode::Block
                } else {
                    ChildMode::Inline
                }
            } else if display is Inline || is_atomic_inline(display) {
                ChildMode::Inline
            } else {
                ChildMode::Block
            }
        }
    }

    /// See [`mode_of`](Self::mode_of).
    pub fn child_mode(&self, id: NodeId) -> (r: ChildMode)
        requires
            self.dom.has(id),
        ensures
            r == self.mode_of(id),
    {
        match &self.dom.node(id).data {
            NodeData::Text(_) => ChildMode::Inline,
            NodeData::Element { tag, .. } => {
                let tag: &str = tag.as_str();
                let display: Display = self.styles.get(id).display;
                if self.is_hidden(id) {
                    ChildMode::Skip
                } else if same(tag, "br") || same(tag, "hr") {
                    ChildMode::Block
                } else if generates_no_box(self.dom, id, tag) {
                    ChildMode::Skip
                } else if same(tag, "img") {
                    if is_block_level(display) {
                        ChildMode::Block
                    } else {
                        ChildMode::Inline
                    }
                } else if matches!(display, Display::Inline) || is_atomic_inline(display) {
                    ChildMode::Inline
                } else {
                    ChildMode::Block
                }
            },
            _ => ChildMode::Skip,
        }
    }

    /// Does this element go on a line as one box? A form control does whatever
    /// its `display`, and so does an inline that moves from its place.
    pub open spec fn goes_whole(&self, id: NodeId) -> bool {
        control_tag(self.dom.tag_of(id)) || is_shifted(self.style(id).position) || is_atomic_inline(
            self.style(id).display,
        )
    }

    /// See [`goes_whole`](Self::goes_whole).
    pub fn is_whole(&self, id: NodeId) -> (r: bool)
        requires
            self.dom.has(id),
        ensures
            r == self.goes_whole(id),
    {
        is_control_tag(self.dom.tag(id)) || is_shifted(self.styles.get(id).position)
            || is_atomic_inline(self.styles.get(id).display)
    }

    /// The flex items that the children from the `k`th on become, with `run`
    /// the text seen since the last element.
    pub open spec fn sources_from(
        &self,
        kids: Seq<NodeId>,
        pre: bool,
        k: int,
        run: Seq<NodeId>,
    ) -> Seq<SourceView>
        decreases kids.len() - k,
    {
        if k >= kids.len() {
            text_source(self.dom, run, pre)
        } else {
            let c = kids[k];
            if self.dom.is_text(c) {
                self.sources_from(kids, pre, k + 1, run.push(c))
            } else if self.dom.is_element(c) && !self.hides(c) {
                let rest = self.sources_from(kids, pre, k + 1, Seq::empty());
                (text_source(self.dom, run, pre) + if is_out_of_flow(self.style(c).position) {
                    Seq::empty()
                } else {
                    seq![SourceView::Element(c)]
                }) + rest
            } else {
                self.sources_from(kids, pre, k + 1, run)
            }
        }
    }

    /// The flex items of a container: every element child that is laid out in
    /// the flow is one, and so is every run of text between elements.
    pub open spec fn sources_of(&self, container: NodeId, pre: bool) -> Seq<SourceView> {
        self.sources_from(self.dom.kids(container), pre, 0, Seq::empty())
    }

    /// See [`sources_of`](Self::sources_of).
    pub fn flex_sources(&self, container: NodeId, pre: bool) -> (r: Vec<FlexItemSource>)
        requires
            self.wf(),
            self.dom.has(container),
        ensures
            views(r@) == self.sources_of(container, pre),
            sources_below(self.dom, views(r@), self.dom.rank_of(container)),
            r@.len() <= u32::MAX,
    {
        let kids: &Vec<NodeId> = self.dom.children(container);
        assert(self.dom.nodes@[container.0 as int].children@.len() <= self.dom.nodes@.len());
        let ghost limit = self.dom.rank_of(container);
        let mut out: Vec<FlexItemSource> = Vec::new();
        let mut run: Vec<NodeId> = Vec::new();
        let mut k: usize = 0;
        proof {
            let all = self.sources_of(container, pre);
            assert(views(out@) + all =~= all);
        }
        while k < kids.len()
            invariant
                self.wf(),
                self.dom.has(container),
                kids@ == self.dom.kids(container),
                limit == self.dom.rank_of(container),
                k <= kids@.len(),
                out@.len() + (if run@.len() > 0 {
                    1int
                } else {
                    0int
                }) <= k,
                texts_below(self.dom, run@, limit),
                sources_below(self.dom, views(out@), limit),
                views(out@) + self.sources_from(kids@, pre, k as int, run@) == self.sources_of(
                    container,
                    pre,
                ),
            decreases kids@.len() - k,
        {
            let c: NodeId = kids[k];
            proof {
                assert(self.dom.nodes@[container.0 as int].children@[k as int] == c);
            }
            match &self.dom.node(c).data {
                NodeData::Text(_) => {
                    run.push(c);
                },
                NodeData::Element { .. } => {
                    if !self.is_hidden(c) {
                        let ghost before = views(out@);
                        let ghost was = run@;
                        let content: bool = self.run_has_content(&run, pre);
                        if content {
                            out.push(FlexItemSource::Text(run));
                        }
                        run = Vec::new();
                        if !is_out_of_flow(self.styles.get(c).position) {
                            out.push(FlexItemSource::Element(c));
                        }
                        proof {
                            let rest = self.sources_from(kids@, pre, k + 1, Seq::empty());
                            let own = if is_out_of_flow(self.style(c).position) {
                                Seq::empty()
                            } else {
                                seq![SourceView::Element(c)]
                            };
                            let here = text_source(self.dom, was, pre) + own;
                            assert(views(out@) =~= before + here);
                            assert((before + here) + rest =~= before + (here + rest));
                        }
                    }
                },
                _ => {},
            }
            k += 1;
        }
        let ghost before = views(out@);
        let ghost was = run@;
        if self.run_has_content(&run, pre) {
            out.push(FlexItemSource::Text(run));
        }
        proof {
            assert(views(out@) =~= before + text_source(self.dom, was, pre));
        }
        out
    }

    fn run_has_content(&self, run: &Vec<NodeId>, pre: bool) -> (r: bool)
        requires
            self.wf(),
            forall|i: int| 0 <= i < run@.len() ==> self.dom.has(#[trigger] run@[i]),
        ensures
            r == has_content(self.dom, run@, pre),
    {
        let mut i: usize = 0;
        while i < run.len()
            invariant
                self.wf(),
                i <= run@.len(),
                forall|j: int| 0 <= j < run@.len() ==> self.dom.has(#[trigger] run@[j]),
                forall|j: int|
                    0 <= j < i ==> !(self.dom.is_text(#[trigger] run@[j]) && (pre || !blank(
                        self.dom.text_of(run@[j]),
                    ))),
            decreases run@.len() - i,
        {
            let id: NodeId = run[i];
            match &self.dom.node(id).data {
                NodeData::Text(text) => {
                    if pre || !is_blank(text.as_str()) {
                        proof {
                            assert(self.dom.is_text(run@[i as int]));
                        }
                        return true;
                    }
                },
                _ => {},
            }
            i += 1;
        }
        false
    }

    /// Is this node inside a `<pre>`?
    pub open spec fn inside_pre(&self, id: NodeId) -> bool
        decreases self.dom.climb(id),
        when self.wf() && self.dom.has(id)
        via Self::inside_pre_climbs
    {
        (self.dom.is_element(id) && self.dom.tag_of(id) == "pre"@) || match self.dom.parent_of(id) {
            Some(p) => self.inside_pre(p),
            None => false,
        }
    }

    #[via_fn]
    proof fn inside_pre_climbs(&self, id: NodeId) {
        if self.dom.parent_of(id) is Some {
            self.dom.parents_are_nearer_the_peak(id);
        }
    }

    /// See [`inside_pre`](Self::inside_pre).
    pub fn in_pre(&self, id: NodeId) -> (r: bool)
        requires
            self.wf(),
            self.dom.has(id),
        ensures
            r == self.inside_pre(id),
    {
        let mut cur: NodeId = id;
        loop
            invariant
                self.wf(),
                self.dom.has(cur),
                self.inside_pre(id) == self.inside_pre(cur),
            decreases self.dom.climb(cur),
        {
            if self.dom.is_tag(cur, "pre") {
                return true;
            }
            match self.dom.parent(cur) {
                Some(p) => {
                    proof {
                        self.dom.parents_are_nearer_the_peak(cur);
                    }
                    cur = p;
                },
                None => {
                    return false;
                },
            }
        }
    }
}

} // verus!
