//! The document: an arena of nodes, linked by index.
//!
//! What a reader typed or chose is state beside the tree, not an attribute of
//! an element: an attribute is only the default it started from.

use vstd::prelude::*;

use crate::text::same;

verus! {

/// Index into [`Dom::nodes`].
#[derive(Clone, Copy, PartialEq, Eq, Debug, Structural)]
pub struct NodeId(pub u32);

#[derive(Debug)]
pub struct Attr {
    pub name: String,
    pub value: String,
}

#[derive(Debug)]
pub enum NodeData {
    Document,
    Doctype(String),
    Comment(String),
    Text(String),
    Element { tag: String, attrs: Vec<Attr> },
}

#[derive(Debug)]
pub struct Node {
    pub data: NodeData,
    pub parent: Option<NodeId>,
    pub children: Vec<NodeId>,
}

/// What a reader did to one node: the value they typed, the choice they made.
#[derive(Debug)]
pub struct FieldState {
    pub value: Option<String>,
    pub choice: Option<bool>,
}

pub struct Dom {
    pub nodes: Vec<Node>,
    pub states: Vec<FieldState>,
    pub root: NodeId,
    /// A number that is larger on a parent than on its children.
    pub rank: Ghost<Seq<nat>>,
}

/// Why a node could not be put where it was asked to go.
#[derive(Clone, Copy, PartialEq, Eq, Debug, Structural)]
pub enum DomError {
    /// The node would have become its own ancestor.
    Cycle,
}

/// The largest number of a list, zero for an empty one.
pub open spec fn peak(s: Seq<nat>) -> nat
    decreases s.len(),
{
    if s.len() == 0 {
        0
    } else if peak(s.drop_last()) >= s.last() {
        peak(s.drop_last())
    } else {
        s.last()
    }
}

pub proof fn below_the_peak(s: Seq<nat>, i: int)
    requires
        0 <= i < s.len(),
    ensures
        s[i] <= peak(s),
    decreases s.len(),
{
    if i < s.len() - 1 {
        below_the_peak(s.drop_last(), i);
    }
}

impl Dom {
    pub open spec fn has(&self, id: NodeId) -> bool {
        id.0 < self.nodes@.len()
    }

    pub open spec fn rank_of(&self, id: NodeId) -> nat {
        self.rank@[id.0 as int]
    }

    /// The links agree with each other and make a forest.
    pub open spec fn wf(&self) -> bool {
        &&& self.nodes@.len() <= u32::MAX
        &&& self.has(self.root)
        &&& self.states@.len() == self.nodes@.len()
        &&& self.rank@.len() == self.nodes@.len()
        &&& forall|p: int, k: int|
            #![trigger self.nodes@[p].children@[k]]
            0 <= p < self.nodes@.len() && 0 <= k < self.nodes@[p].children@.len() ==> {
                let c = self.nodes@[p].children@[k];
                &&& self.has(c)
                &&& self.nodes@[c.0 as int].parent == Some(NodeId(p as u32))
                &&& self.rank@[c.0 as int] < self.rank@[p]
            }
        &&& forall|c: int|
            0 <= c < self.nodes@.len() ==> match #[trigger] self.nodes@[c].parent {
                Some(p) => {
                    &&& self.has(p)
                    &&& self.rank@[c] < self.rank@[p.0 as int]
                    &&& self.nodes@[p.0 as int].children@.contains(NodeId(c as u32))
                },
                None => true,
            }
        &&& forall|p: int|
            0 <= p < self.nodes@.len()
                ==> #[trigger] self.nodes@[p].children@.no_duplicates()
        &&& forall|p: int|
            0 <= p < self.nodes@.len() ==> #[trigger] self.nodes@[p].children@.len()
                <= self.nodes@.len()
    }

    /// How far a climb from `id` towards the root can still go.
    pub open spec fn climb(&self, id: NodeId) -> nat {
        (peak(self.rank@) - self.rank_of(id)) as nat
    }

    pub open spec fn parent_of(&self, id: NodeId) -> Option<NodeId> {
        self.nodes@[id.0 as int].parent
    }

    pub open spec fn kids(&self, id: NodeId) -> Seq<NodeId> {
        self.nodes@[id.0 as int].children@
    }

    pub proof fn parents_are_nearer_the_peak(&self, id: NodeId)
        requires
            self.wf(),
            self.has(id),
            self.parent_of(id) is Some,
        ensures
            self.has(self.parent_of(id)->0),
            self.climb(self.parent_of(id)->0) < self.climb(id),
    {
        let p = self.parent_of(id)->0;
        assert(self.nodes@[id.0 as int].parent == Some(p));
        below_the_peak(self.rank@, p.0 as int);
    }

    /// The tag of an element; empty for anything else.
    pub open spec fn tag_of(&self, id: NodeId) -> Seq<char> {
        match self.nodes@[id.0 as int].data {
            NodeData::Element { tag, .. } => tag@,
            _ => Seq::empty(),
        }
    }

    pub open spec fn is_element(&self, id: NodeId) -> bool {
        self.nodes@[id.0 as int].data is Element
    }

    /// The characters of a text node; empty for anything else.
    pub open spec fn text_of(&self, id: NodeId) -> Seq<char> {
        match self.nodes@[id.0 as int].data {
            NodeData::Text(text) => text@,
            _ => Seq::empty(),
        }
    }

    pub open spec fn is_text(&self, id: NodeId) -> bool {
        self.nodes@[id.0 as int].data is Text
    }

    pub open spec fn attrs_of(&self, id: NodeId) -> Seq<Attr> {
        match self.nodes@[id.0 as int].data {
            NodeData::Element { attrs, .. } => attrs@,
            _ => Seq::empty(),
        }
    }

    /// The value of the first attribute of that name.
    pub open spec fn attr_of(&self, id: NodeId, name: Seq<char>) -> Option<Seq<char>> {
        attr_from(self.attrs_of(id), name, 0)
    }

    /// What a reader typed into `id`.
    pub open spec fn typed(&self, id: NodeId) -> Option<Seq<char>> {
        match self.states@[id.0 as int].value {
            Some(s) => Some(s@),
            None => None,
        }
    }

    /// What a reader chose on `id`.
    pub open spec fn chosen(&self, id: NodeId) -> Option<bool> {
        self.states@[id.0 as int].choice
    }

    /// Is `ancestor` found on the way up from `id`, `id` itself included?
    pub open spec fn under(&self, id: NodeId, ancestor: NodeId) -> bool
        decreases self.climb(id),
        when self.wf() && self.has(id)
        via Self::under_climbs
    {
        id == ancestor || match self.parent_of(id) {
            Some(p) => self.under(p, ancestor),
            None => false,
        }
    }

    #[via_fn]
    proof fn under_climbs(&self, id: NodeId, ancestor: NodeId) {
        if self.parent_of(id) is Some {
            self.parents_are_nearer_the_peak(id);
        }
    }
}

/// The first of `attrs[i..]` with that name.
pub open spec fn attr_from(attrs: Seq<Attr>, name: Seq<char>, i: int) -> Option<Seq<char>>
    decreases attrs.len() - i,
{
    if i >= attrs.len() {
        None
    } else if attrs[i].name@ == name {
        Some(attrs[i].value@)
    } else {
        attr_from(attrs, name, i + 1)
    }
}

impl Dom {
    /// A document with nothing in it.
    pub fn new() -> (r: Dom)
        ensures
            r.wf(),
            r.nodes@.len() == 1,
            r.kids(r.root).len() == 0,
            r.nodes@[0].data is Document,
            r.root == NodeId(0),
    {
        let mut nodes: Vec<Node> = Vec::new();
        nodes.push(Node { data: NodeData::Document, parent: None, children: Vec::new() });
        let mut states: Vec<FieldState> = Vec::new();
        states.push(FieldState { value: None, choice: None });
        let ghost ranks = Seq::<nat>::empty().push(0);
        Dom { nodes, states, root: NodeId(0), rank: Ghost(ranks) }
    }

    pub fn node_count(&self) -> (r: usize)
        ensures
            r == self.nodes@.len(),
    {
        self.nodes.len()
    }

    pub fn node(&self, id: NodeId) -> (r: &Node)
        requires
            self.has(id),
        ensures
            *r == self.nodes@[id.0 as int],
    {
        &self.nodes[id.0 as usize]
    }

    /// The children of `id` in document order.
    pub fn children(&self, id: NodeId) -> (r: &Vec<NodeId>)
        requires
            self.has(id),
        ensures
            r@ == self.kids(id),
    {
        &self.nodes[id.0 as usize].children
    }

    pub fn parent(&self, id: NodeId) -> (r: Option<NodeId>)
        requires
            self.has(id),
        ensures
            r == self.parent_of(id),
    {
        self.nodes[id.0 as usize].parent
    }

    /// Is this element one with that tag?
    pub fn is_tag(&self, id: NodeId, tag: &str) -> (r: bool)
        requires
            self.has(id),
        ensures
            r == (self.is_element(id) && self.tag_of(id) == tag@),
    {
        match &self.nodes[id.0 as usize].data {
            NodeData::Element { tag: own, .. } => same(own.as_str(), tag),
            _ => false,
        }
    }

    /// See [`tag_of`](Self::tag_of).
    pub fn tag(&self, id: NodeId) -> (r: &str)
        requires
            self.has(id),
        ensures
            r@ == self.tag_of(id),
    {
        match &self.nodes[id.0 as usize].data {
            NodeData::Element { tag, .. } => tag.as_str(),
            _ => {
                proof {
                    reveal_strlit("");
                    assert(""@ =~= Seq::<char>::empty());
                }
                ""
            },
        }
    }

    /// The value of the attribute `name`, if the element has one.
    pub fn attr(&self, id: NodeId, name: &str) -> (r: Option<&str>)
        requires
            self.has(id),
        ensures
            (match r {
                Some(v) => self.attr_of(id, name@) == Some(v@),
                None => self.attr_of(id, name@) == None::<Seq<char>>,
            }),
    {
        match &self.nodes[id.0 as usize].data {
            NodeData::Element { attrs, .. } => {
                let mut i: usize = 0;
                while i < attrs.len()
                    invariant
                        i <= attrs@.len(),
                        attrs@ == self.attrs_of(id),
                        self.attr_of(id, name@) == attr_from(attrs@, name@, i as int),
                    decreases attrs@.len() - i,
                {
                    if same(attrs[i].name.as_str(), name) {
                        return Some(attrs[i].value.as_str());
                    }
                    i += 1;
                }
                None
            },
            _ => None,
        }
    }

    pub fn has_attr(&self, id: NodeId, name: &str) -> (r: bool)
        requires
            self.has(id),
        ensures
            r == self.attr_of(id, name@) is Some,
    {
        self.attr(id, name).is_some()
    }

    /// What a reader typed into this field, if they touched it.
    pub fn field_value(&self, id: NodeId) -> (r: Option<&String>)
        requires
            self.wf(),
            self.has(id),
        ensures
            (match r {
                Some(v) => self.typed(id) == Some(v@),
                None => self.typed(id) == None::<Seq<char>>,
            }),
    {
        match &self.states[id.0 as usize].value {
            Some(v) => Some(v),
            None => None,
        }
    }

    /// What a reader chose here, if they touched it.
    pub fn choice_state(&self, id: NodeId) -> (r: Option<bool>)
        requires
            self.wf(),
            self.has(id),
        ensures
            r == self.chosen(id),
    {
        self.states[id.0 as usize].choice
    }

    /// Record what a reader typed. The tree, and every other node's state, is
    /// left as it was.
    pub fn set_field_value(&mut self, id: NodeId, value: &str)
        requires
            old(self).wf(),
            old(self).has(id),
        ensures
            final(self).wf(),
            final(self).nodes@ == old(self).nodes@,
            final(self).root == old(self).root,
            final(self).typed(id) == Some(value@),
            final(self).chosen(id) == old(self).chosen(id),
            forall|other: NodeId|
                old(self).has(other) && other != id ==> final(self).typed(other) == old(self).typed(
                    other,
                ) && final(self).chosen(other) == old(self).chosen(other),
    {
        let choice: Option<bool> = self.states[id.0 as usize].choice;
        self.states.set(id.0 as usize, FieldState { value: Some(value.to_owned()), choice });
    }

    /// Record what a reader chose. See [`set_field_value`](Self::set_field_value).
    pub fn set_choice_state(&mut self, id: NodeId, on: bool)
        requires
            old(self).wf(),
            old(self).has(id),
        ensures
            final(self).wf(),
            final(self).nodes@ == old(self).nodes@,
            final(self).root == old(self).root,
            final(self).chosen(id) == Some(on),
            final(self).typed(id) == old(self).typed(id),
            forall|other: NodeId|
                old(self).has(other) && other != id ==> final(self).typed(other) == old(self).typed(
                    other,
                ) && final(self).chosen(other) == old(self).chosen(other),
    {
        let value: Option<String> = match &self.states[id.0 as usize].value {
            Some(v) => Some(v.clone()),
            None => None,
        };
        self.states.set(id.0 as usize, FieldState { value, choice: Some(on) });
    }

    /// A new node, attached to nothing yet.
    pub fn create(&mut self, data: NodeData) -> (r: NodeId)
        requires
            old(self).wf(),
            old(self).nodes@.len() < u32::MAX,
        ensures
            final(self).wf(),
            r.0 == old(self).nodes@.len(),
            final(self).root == old(self).root,
            final(self).nodes@.len() == old(self).nodes@.len() + 1,
            final(self).nodes@.take(old(self).nodes@.len() as int) == old(self).nodes@,
            final(self).nodes@[r.0 as int].data == data,
            final(self).parent_of(r) == None::<NodeId>,
            final(self).kids(r).len() == 0,
            final(self).typed(r) is None,
            final(self).chosen(r) is None,
            forall|other: NodeId| #[trigger]
                old(self).has(other) ==> final(self).typed(other) == old(self).typed(other)
                    && final(self).chosen(other) == old(self).chosen(other),
    {
        let id: NodeId = NodeId(self.nodes.len() as u32);
        let ghost before = self.nodes@;
        self.nodes.push(Node { data, parent: None, children: Vec::new() });
        self.states.push(FieldState { value: None, choice: None });
        self.rank = Ghost(self.rank@.push(0));
        proof {
            assert(self.nodes@.take(before.len() as int) =~= before);
        }
        id
    }

    /// A new element, attached to nothing yet.
    pub fn create_element(&mut self, tag: &str, attrs: Vec<Attr>) -> (r: NodeId)
        requires
            old(self).wf(),
            old(self).nodes@.len() < u32::MAX,
        ensures
            final(self).wf(),
            r.0 == old(self).nodes@.len(),
            final(self).root == old(self).root,
            final(self).nodes@.take(old(self).nodes@.len() as int) == old(self).nodes@,
            final(self).nodes@.len() == old(self).nodes@.len() + 1,
            final(self).is_element(r),
            final(self).tag_of(r) == tag@,
            final(self).attrs_of(r) == attrs@,
            final(self).parent_of(r) == None::<NodeId>,
            final(self).kids(r).len() == 0,
    {
        self.create(NodeData::Element { tag: tag.to_owned(), attrs })
    }

    /// A new text node, attached to nothing yet.
    pub fn create_text(&mut self, text: &str) -> (r: NodeId)
        requires
            old(self).wf(),
            old(self).nodes@.len() < u32::MAX,
        ensures
            final(self).wf(),
            r.0 == old(self).nodes@.len(),
            final(self).root == old(self).root,
            final(self).nodes@.take(old(self).nodes@.len() as int) == old(self).nodes@,
            final(self).nodes@.len() == old(self).nodes@.len() + 1,
            final(self).is_text(r),
            final(self).text_of(r) == text@,
            final(self).parent_of(r) == None::<NodeId>,
            final(self).kids(r).len() == 0,
    {
        self.create(NodeData::Text(text.to_owned()))
    }

    /// Is `id` `ancestor`, or inside it?
    pub fn is_under(&self, id: NodeId, ancestor: NodeId) -> (r: bool)
        requires
            self.wf(),
            self.has(id),
        ensures
            r == self.under(id, ancestor),
    {
        let mut cur: NodeId = id;
        loop
            invariant
                self.wf(),
                self.has(cur),
                self.under(id, ancestor) == self.under(cur, ancestor),
            decreases self.climb(cur),
        {
            if cur == ancestor {
                return true;
            }
            match self.parent(cur) {
                Some(p) => {
                    proof {
                        self.parents_are_nearer_the_peak(cur);
                    }
                    cur = p;
                },
                None => {
                    return false;
                },
            }
        }
    }

    /// Is this node part of the document, rather than detached from it?
    pub fn is_connected(&self, id: NodeId) -> (r: bool)
        requires
            self.wf(),
            self.has(id),
        ensures
            r == self.under(id, self.root),
    {
        self.is_under(id, self.root)
    }
}

/// A child list without `c`.
pub open spec fn dropped(kids: Seq<NodeId>, c: NodeId) -> Seq<NodeId> {
    if kids.contains(c) {
        kids.remove(kids.index_of(c))
    } else {
        kids
    }
}

proof fn dropping_keeps_others(kids: Seq<NodeId>, gone: NodeId, c: NodeId)
    requires
        kids.contains(c),
        c != gone,
    ensures
        dropped(kids, gone).contains(c),
{
    if kids.contains(gone) {
        let at = kids.index_of(gone);
        let k = kids.index_of(c);
        let left = kids.remove(at);
        assert(left[if k < at {
            k
        } else {
            k - 1
        }] == c);
    }
}

proof fn dropped_facts(kids: Seq<NodeId>, c: NodeId)
    requires
        kids.no_duplicates(),
    ensures
        dropped(kids, c).no_duplicates(),
        !dropped(kids, c).contains(c),
        dropped(kids, c).len() <= kids.len(),
        kids.contains(c) ==> dropped(kids, c).len() < kids.len(),
        forall|k: int|
            0 <= k < dropped(kids, c).len() ==> kids.contains(#[trigger] dropped(kids, c)[k])
                && dropped(kids, c)[k] != c,
{
    let out = dropped(kids, c);
    if kids.contains(c) {
        let at = kids.index_of(c);
        assert(0 <= at < kids.len() && kids[at] == c);
        assert forall|k: int| 0 <= k < out.len() implies kids.contains(#[trigger] out[k]) && out[k]
            != c by {
            let from = if k < at {
                k
            } else {
                k + 1
            };
            assert(out[k] == kids[from]);
        }
        assert forall|i: int, j: int| 0 <= i < out.len() && 0 <= j < out.len() && i != j implies out[i]
            != out[j] by {
            let a = if i < at {
                i
            } else {
                i + 1
            };
            let b = if j < at {
                j
            } else {
                j + 1
            };
            assert(out[i] == kids[a] && out[j] == kids[b]);
        }
    }
}

impl Dom {
    /// The ranks after `child` moves under a node that is not inside it: what
    /// is inside it keeps its own, and everything else is lifted above them.
    spec fn lifted(&self, child: NodeId) -> Seq<nat> {
        Seq::new(
            self.nodes@.len(),
            |i: int|
                if self.under(NodeId(i as u32), child) {
                    self.rank@[i]
                } else {
                    self.rank@[i] + self.rank_of(child) + 1
                },
        )
    }

    /// Take `child` out of its parent's list, if it has a parent.
    fn detach(&mut self, child: NodeId)
        requires
            old(self).wf(),
            old(self).has(child),
        ensures
            final(self).wf(),
            final(self).root == old(self).root,
            final(self).states == old(self).states,
            final(self).rank == old(self).rank,
            final(self).nodes@.len() == old(self).nodes@.len(),
            forall|i: int|
                0 <= i < old(self).nodes@.len() ==> {
                    let after = #[trigger] final(self).nodes@[i];
                    let before = old(self).nodes@[i];
                    &&& after.data == before.data
                    &&& after.children@ == dropped(before.children@, child)
                    &&& after.parent == if i == child.0 {
                        None
                    } else {
                        before.parent
                    }
                },
    {
        let ghost start = *self;
        match self.parent(child) {
            Some(p) => {
                let pi: usize = p.0 as usize;
                let mut at: usize = 0;
                let mut found: bool = false;
                while at < self.nodes[pi].children.len() && !found
                    invariant
                        *self == start,
                        start.wf(),
                        pi < start.nodes@.len(),
                        at <= start.nodes@[pi as int].children@.len(),
                        found ==> at < start.nodes@[pi as int].children@.len()
                            && start.nodes@[pi as int].children@[at as int] == child,
                        forall|k: int|
                            0 <= k < at ==> start.nodes@[pi as int].children@[k] != child,
                    decreases
                            start.nodes@[pi as int].children@.len() - at + (if found {
                                0int
                            } else {
                                1int
                            }),
                {
                    if self.nodes[pi].children[at] == child {
                        found = true;
                    } else {
                        at += 1;
                    }
                }
                if found {
                    self.nodes[pi].children.remove(at);
                    proof {
                        let kids = start.nodes@[pi as int].children@;
                        assert(kids.contains(child));
                        let k = kids.index_of(child);
                        assert(start.nodes@[pi as int].children@.no_duplicates());
                        assert(kids[k] == child && kids[at as int] == child);
                        assert(k == at);
                    }
                }
            },
            None => {},
        }
        let ghost middle = *self;
        proof {
            assert forall|i: int| 0 <= i < start.nodes@.len() implies middle.nodes@[i].children@
                == dropped(start.nodes@[i].children@, child) by {
                let kids = start.nodes@[i].children@;
                if kids.contains(child) {
                    let k = kids.index_of(child);
                    assert(start.nodes@[i].children@[k] == child);
                }
            }
        }
        self.nodes[child.0 as usize].parent = None;
        proof {
            assert forall|i: int| 0 <= i < start.nodes@.len() implies {
                let after = #[trigger] self.nodes@[i];
                let before = start.nodes@[i];
                &&& after.data == before.data
                &&& after.children@ == dropped(before.children@, child)
                &&& after.parent == if i == child.0 {
                    None
                } else {
                    before.parent
                }
            } by {
                assert(middle.nodes@[i].children@ == dropped(start.nodes@[i].children@, child));
            }
            assert forall|p: int, k: int|
                #![trigger self.nodes@[p].children@[k]]
                0 <= p < self.nodes@.len() && 0 <= k < self.nodes@[p].children@.len() implies {
                let c = self.nodes@[p].children@[k];
                &&& self.has(c)
                &&& self.nodes@[c.0 as int].parent == Some(NodeId(p as u32))
                &&& self.rank@[c.0 as int] < self.rank@[p]
            } by {
                let kids = start.nodes@[p].children@;
                dropped_facts(kids, child);
                let c = dropped(kids, child)[k];
                assert(kids.contains(c));
                let from = choose|f: int| 0 <= f < kids.len() && kids[f] == c;
                assert(start.nodes@[p].children@[from] == c);
            }
            assert forall|c: int| 0 <= c < self.nodes@.len() implies match
                #[trigger] self.nodes@[c].parent {
                Some(p) => {
                    &&& self.has(p)
                    &&& self.rank@[c] < self.rank@[p.0 as int]
                    &&& self.nodes@[p.0 as int].children@.contains(NodeId(c as u32))
                },
                None => true,
            } by {
                if let Some(p) = start.nodes@[c].parent {
                    if c != child.0 {
                        let kids = start.nodes@[p.0 as int].children@;
                        dropping_keeps_others(kids, child, NodeId(c as u32));
                        let after = self.nodes@[p.0 as int];
                    }
                }
            }
            assert forall|p: int| 0 <= p < self.nodes@.len() implies
                #[trigger] self.nodes@[p].children@.no_duplicates() by {
                dropped_facts(start.nodes@[p].children@, child);
            }
            assert forall|p: int| 0 <= p < self.nodes@.len() implies
                #[trigger] self.nodes@[p].children@.len() <= self.nodes@.len() by {
                dropped_facts(start.nodes@[p].children@, child);
            }
        }
    }

    /// Move `child`, with everything inside it, to the end of `parent`'s
    /// children. Refused where that would put a node inside itself.
    pub fn append(&mut self, parent: NodeId, child: NodeId) -> (r: Result<(), DomError>)
        requires
            old(self).wf(),
            old(self).has(parent),
            old(self).has(child),
        ensures
            final(self).wf(),
            final(self).root == old(self).root,
            final(self).states == old(self).states,
            final(self).nodes@.len() == old(self).nodes@.len(),
            r == (if old(self).under(parent, child) {
                Err::<(), DomError>(DomError::Cycle)
            } else {
                Ok(())
            }),
            r is Err ==> *final(self) == *old(self),
            r is Ok ==> forall|i: int|
                0 <= i < old(self).nodes@.len() ==> {
                    let after = #[trigger] final(self).nodes@[i];
                    let before = old(self).nodes@[i];
                    &&& after.data == before.data
                    &&& after.children@ == if i == parent.0 {
                        dropped(before.children@, child).push(child)
                    } else {
                        dropped(before.children@, child)
                    }
                    &&& after.parent == if i == child.0 {
                        Some(parent)
                    } else {
                        before.parent
                    }
                },
    {
        if self.is_under(parent, child) {
            return Err(DomError::Cycle);
        }
        let ghost start = *self;
        let ghost ranks = self.lifted(child);
        self.detach(child);
        let ghost middle = *self;
        self.nodes[parent.0 as usize].children.push(child);
        self.nodes[child.0 as usize].parent = Some(parent);
        self.rank = Ghost(ranks);
        proof {
            assert forall|i: int| 0 <= i < start.nodes@.len() implies {
                let after = #[trigger] self.nodes@[i];
                let before = start.nodes@[i];
                &&& after.data == before.data
                &&& after.children@ == if i == parent.0 {
                    dropped(before.children@, child).push(child)
                } else {
                    dropped(before.children@, child)
                }
                &&& after.parent == if i == child.0 {
                    Some(parent)
                } else {
                    before.parent
                }
            } by {
                let m = middle.nodes@[i];
            }
            assert forall|c: int| 0 <= c < start.nodes@.len() && c != child.0 && (
            #[trigger] start.nodes@[c].parent) is Some implies ranks[c]
                < ranks[(start.nodes@[c].parent->0).0 as int] by {
                let id = NodeId(c as u32);
                let p = start.nodes@[c].parent->0;
                assert(start.under(id, child) == start.under(p, child));
                assert(NodeId(p.0) == p);
            }
            assert forall|p: int, k: int|
                #![trigger self.nodes@[p].children@[k]]
                0 <= p < self.nodes@.len() && 0 <= k < self.nodes@[p].children@.len() implies {
                let c = self.nodes@[p].children@[k];
                &&& self.has(c)
                &&& self.nodes@[c.0 as int].parent == Some(NodeId(p as u32))
                &&& self.rank@[c.0 as int] < self.rank@[p]
            } by {
                let kids = start.nodes@[p].children@;
                dropped_facts(kids, child);
                let c = self.nodes@[p].children@[k];
                if p == parent.0 && k == dropped(kids, child).len() {
                    assert(c == child);
                    assert(start.under(child, child));
                    assert(NodeId(parent.0) == parent);
                } else {
                    assert(c == dropped(kids, child)[k]);
                    let from = choose|f: int| 0 <= f < kids.len() && kids[f] == c;
                    assert(start.nodes@[p].children@[from] == c);
                    assert(start.nodes@[c.0 as int].parent == Some(NodeId(p as u32)));
                }
            }
            assert forall|c: int| 0 <= c < self.nodes@.len() implies match
                #[trigger] self.nodes@[c].parent {
                Some(p) => {
                    &&& self.has(p)
                    &&& self.rank@[c] < self.rank@[p.0 as int]
                    &&& self.nodes@[p.0 as int].children@.contains(NodeId(c as u32))
                },
                None => true,
            } by {
                let before = start.nodes@[c].parent;
                if c == child.0 {
                    assert(start.under(child, child));
                    assert(NodeId(parent.0) == parent);
                    let kids = self.nodes@[parent.0 as int].children@;
                    assert(kids[kids.len() - 1] == child);
                } else if let Some(p) = before {
                    let kids = start.nodes@[p.0 as int].children@;
                    let id = NodeId(c as u32);
                    dropping_keeps_others(kids, child, id);
                    let left = dropped(kids, child);
                    let k = left.index_of(id);
                    let now = self.nodes@[p.0 as int].children@;
                    assert(now[k] == id);
                }
            }
            assert forall|p: int| 0 <= p < self.nodes@.len() implies
                #[trigger] self.nodes@[p].children@.no_duplicates() by {
                dropped_facts(start.nodes@[p].children@, child);
            }
            assert forall|p: int| 0 <= p < self.nodes@.len() implies
                #[trigger] self.nodes@[p].children@.len() <= self.nodes@.len() by {
                let kids = start.nodes@[p].children@;
                dropped_facts(kids, child);
                if p == parent.0 {
                    start.room_for_one_more(p, child);
                }
            }
        }
        Ok(())
    }

    /// A child list that `child` is not in, of a node that is not inside
    /// `child`, leaves room for one more.
    proof fn room_for_one_more(&self, p: int, child: NodeId)
        requires
            self.wf(),
            self.has(child),
            0 <= p < self.nodes@.len(),
        ensures
            dropped(self.nodes@[p].children@, child).len() < self.nodes@.len(),
    {
        let kids = self.nodes@[p].children@;
        dropped_facts(kids, child);
        let d = dropped(kids, child);
        if d.len() >= self.nodes@.len() {
            let n = self.nodes@.len() as int;
            let ids = d.map_values(|x: NodeId| x.0 as int);
            assert(ids.no_duplicates());
            let all = vstd::set_lib::set_int_range(0, n);
            vstd::set_lib::lemma_int_range(0, n);
            ids.unique_seq_to_set();
            let hit = ids.to_set();
            assert(hit.subset_of(all.remove(child.0 as int))) by {
                assert forall|v: int| hit.contains(v) implies all.remove(
                    child.0 as int,
                ).contains(v) by {
                    let k = choose|k: int| 0 <= k < ids.len() && ids[k] == v;
                    assert(d[k].0 as int == v);
                    assert(kids.contains(d[k]));
                    let from = choose|f: int| 0 <= f < kids.len() && kids[f] == d[k];
                    assert(self.nodes@[p].children@[from] == d[k]);
                }
            }
            vstd::set_lib::lemma_len_subset(hit, all.remove(child.0 as int));
        }
    }
}

impl Dom {
    /// `id` and everything inside it, in document order.
    pub open spec fn doc_order(&self, id: NodeId) -> Seq<NodeId>
        decreases self.rank_of(id), self.kids(id).len() + 1,
        when self.wf() && self.has(id)
    {
        seq![id] + self.kids_order(id, 0)
    }

    /// Everything inside the children of `id` from the `k`th on.
    pub open spec fn kids_order(&self, id: NodeId, k: int) -> Seq<NodeId>
        decreases self.rank_of(id), self.kids(id).len() - k,
        when self.wf() && self.has(id) && k >= 0
    {
        if k >= self.kids(id).len() {
            Seq::empty()
        } else {
            self.doc_order(self.kids(id)[k]) + self.kids_order(id, k + 1)
        }
    }

    /// Append `id` and everything inside it, in document order.
    pub fn push_doc_order(&self, id: NodeId, out: &mut Vec<NodeId>)
        requires
            self.wf(),
            self.has(id),
            forall|i: int| 0 <= i < old(out)@.len() ==> self.has(#[trigger] old(out)@[i]),
        ensures
            final(out)@ == old(out)@ + self.doc_order(id),
            forall|i: int| 0 <= i < final(out)@.len() ==> self.has(#[trigger] final(out)@[i]),
        decreases self.rank_of(id),
    {
        let ghost start = out@;
        out.push(id);
        let kids: &Vec<NodeId> = self.children(id);
        let mut k: usize = 0;
        proof {
            assert(start + (seq![id] + self.kids_order(id, 0)) =~= out@ + self.kids_order(id, 0));
        }
        while k < kids.len()
            invariant
                self.wf(),
                self.has(id),
                kids@ == self.kids(id),
                k <= kids@.len(),
                out@ + self.kids_order(id, k as int) == start + self.doc_order(id),
                forall|i: int| 0 <= i < out@.len() ==> self.has(#[trigger] out@[i]),
            decreases kids@.len() - k,
        {
            let ghost before = out@;
            let c: NodeId = kids[k];
            proof {
                assert(self.nodes@[id.0 as int].children@[k as int] == c);
            }
            self.push_doc_order(c, out);
            proof {
                let rest = self.kids_order(id, k + 1);
                assert(before + (self.doc_order(c) + rest) =~= (before + self.doc_order(c)) + rest);
            }
            k += 1;
        }
        proof {
            assert(out@ + Seq::<NodeId>::empty() =~= out@);
        }
    }

    /// Every node of the document, in document order.
    pub fn in_doc_order(&self) -> (r: Vec<NodeId>)
        requires
            self.wf(),
        ensures
            r@ == self.doc_order(self.root),
            forall|i: int| 0 <= i < r@.len() ==> self.has(#[trigger] r@[i]),
    {
        let mut out: Vec<NodeId> = Vec::new();
        self.push_doc_order(self.root, &mut out);
        proof {
            assert(Seq::<NodeId>::empty() + self.doc_order(self.root) =~= self.doc_order(
                self.root,
            ));
        }
        out
    }
}

impl Dom {
    proof fn a_child_is_listed(&self, id: NodeId, k: int, m: int, n: NodeId)
        requires
            self.wf(),
            self.has(id),
            0 <= k <= m < self.kids(id).len(),
            self.doc_order(self.kids(id)[m]).contains(n),
        ensures
            self.kids_order(id, k).contains(n),
        decreases m - k,
    {
        let first = self.doc_order(self.kids(id)[k]);
        let rest = self.kids_order(id, k + 1);
        if k == m {
            let i = first.index_of(n);
            assert((first + rest)[i] == n);
        } else {
            self.a_child_is_listed(id, k + 1, m, n);
            let i = rest.index_of(n);
            assert((first + rest)[first.len() + i] == n);
        }
    }

    proof fn listed_in_a_child(&self, id: NodeId, k: int, n: NodeId) -> (m: int)
        requires
            self.wf(),
            self.has(id),
            0 <= k,
            self.kids_order(id, k).contains(n),
        ensures
            k <= m < self.kids(id).len(),
            self.doc_order(self.kids(id)[m]).contains(n),
        decreases self.kids(id).len() - k,
    {
        let first = self.doc_order(self.kids(id)[k]);
        let rest = self.kids_order(id, k + 1);
        let all = self.kids_order(id, k);
        let i = all.index_of(n);
        if i < first.len() {
            assert(first[i] == n);
            k
        } else {
            assert(rest[i - first.len()] == n);
            self.listed_in_a_child(id, k + 1, n)
        }
    }

    proof fn a_kid_follows_its_parent(&self, id: NodeId, p: NodeId, c: NodeId)
        requires
            self.wf(),
            self.has(id),
            self.doc_order(id).contains(p),
            self.has(p),
            self.kids(p).contains(c),
        ensures
            self.doc_order(id).contains(c),
        decreases self.rank_of(id),
    {
        let below = self.kids_order(id, 0);
        let all = self.doc_order(id);
        if p == id {
            let k = self.kids(id).index_of(c);
            assert(self.nodes@[id.0 as int].children@[k] == c);
            assert(self.doc_order(c)[0] == c);
            self.a_child_is_listed(id, 0, k, c);
        } else {
            let i = all.index_of(p);
            assert(below[i - 1] == p);
            let m = self.listed_in_a_child(id, 0, p);
            let kid = self.kids(id)[m];
            assert(self.nodes@[id.0 as int].children@[m] == kid);
            self.a_kid_follows_its_parent(kid, p, c);
            self.a_child_is_listed(id, 0, m, c);
        }
        let i = below.index_of(c);
        assert(all[i + 1] == c);
    }

    /// Document order from a node on lists exactly that node and what is
    /// inside it.
    pub proof fn document_order_lists_what_is_inside(&self, id: NodeId, n: NodeId)
        requires
            self.wf(),
            self.has(id),
            self.has(n),
        ensures
            self.doc_order(id).contains(n) <==> self.under(n, id),
    {
        if self.under(n, id) {
            self.inside_is_listed(id, n);
        }
        if self.doc_order(id).contains(n) {
            self.listed_is_inside(id, n);
        }
    }

    proof fn inside_is_listed(&self, id: NodeId, n: NodeId)
        requires
            self.wf(),
            self.has(id),
            self.has(n),
            self.under(n, id),
        ensures
            self.doc_order(id).contains(n),
        decreases self.climb(n),
    {
        if n == id {
            assert(self.doc_order(id)[0] == id);
        } else {
            let p = self.parent_of(n)->0;
            self.parents_are_nearer_the_peak(n);
            self.inside_is_listed(id, p);
            assert(self.nodes@[n.0 as int].parent == Some(p));
            assert(NodeId(n.0) == n);
            self.a_kid_follows_its_parent(id, p, n);
        }
    }

    proof fn listed_is_inside(&self, id: NodeId, n: NodeId)
        requires
            self.wf(),
            self.has(id),
            self.has(n),
            self.doc_order(id).contains(n),
        ensures
            self.under(n, id),
        decreases self.rank_of(id),
    {
        if n != id {
            let all = self.doc_order(id);
            let i = all.index_of(n);
            assert(self.kids_order(id, 0)[i - 1] == n);
            let m = self.listed_in_a_child(id, 0, n);
            let kid = self.kids(id)[m];
            assert(self.nodes@[id.0 as int].children@[m] == kid);
            assert(NodeId(id.0) == id);
            self.listed_is_inside(kid, n);
            assert(self.under(id, id));
            assert(self.under(kid, id));
            self.inside_of_inside(n, kid, id);
        }
    }

    /// Being inside is transitive, and every node is inside itself.
    pub proof fn inside_of_inside(&self, node: NodeId, middle: NodeId, ancestor: NodeId)
        requires
            self.wf(),
            self.has(node),
            self.has(middle),
        ensures
            self.under(node, node),
            self.under(node, middle) && self.under(middle, ancestor) ==> self.under(
                node,
                ancestor,
            ),
        decreases self.climb(node),
    {
        if node != middle {
            if let Some(p) = self.parent_of(node) {
                self.parents_are_nearer_the_peak(node);
                self.inside_of_inside(p, middle, ancestor);
            }
        }
    }

    /// Of two children of one node, neither is inside the other.
    proof fn siblings_are_apart(&self, id: NodeId, a: int, b: int)
        requires
            self.wf(),
            self.has(id),
            0 <= a < self.kids(id).len(),
            0 <= b < self.kids(id).len(),
            a != b,
        ensures
            !self.under(self.kids(id)[a], self.kids(id)[b]),
    {
        let (x, y) = (self.kids(id)[a], self.kids(id)[b]);
        assert(self.nodes@[id.0 as int].children@[a] == x);
        assert(self.nodes@[id.0 as int].children@[b] == y);
        assert(self.nodes@[id.0 as int].children@.no_duplicates());
        assert(NodeId(id.0) == id);
        assert(self.parent_of(x) == Some(id));
        self.nothing_is_inside_a_lower_node(id, y);
    }

    proof fn nothing_is_inside_a_lower_node(&self, n: NodeId, ancestor: NodeId)
        requires
            self.wf(),
            self.has(n),
            self.has(ancestor),
            self.rank_of(ancestor) < self.rank_of(n),
        ensures
            !self.under(n, ancestor),
        decreases self.climb(n),
    {
        if let Some(p) = self.parent_of(n) {
            self.parents_are_nearer_the_peak(n);
            assert(self.nodes@[n.0 as int].parent == Some(p));
            self.nothing_is_inside_a_lower_node(p, ancestor);
        }
    }

    /// Of two nodes that one is inside, one is inside the other.
    proof fn ancestors_are_nested(&self, n: NodeId, a: NodeId, b: NodeId)
        requires
            self.wf(),
            self.has(n),
            self.has(a),
            self.has(b),
            self.under(n, a),
            self.under(n, b),
        ensures
            self.under(a, b) || self.under(b, a),
        decreases self.climb(n),
    {
        if n != a && n != b {
            let p = self.parent_of(n)->0;
            self.parents_are_nearer_the_peak(n);
            self.ancestors_are_nested(p, a, b);
        }
    }

    /// Document order names no node twice.
    pub proof fn document_order_has_no_duplicates(&self, id: NodeId)
        requires
            self.wf(),
            self.has(id),
        ensures
            self.doc_order(id).no_duplicates(),
        decreases self.rank_of(id), self.kids(id).len() + 1,
    {
        self.kids_order_has_no_duplicates(id, 0);
        let below = self.kids_order(id, 0);
        let all = self.doc_order(id);
        assert forall|i: int, j: int| 0 <= i < j < all.len() implies all[i] != all[j] by {
            assert(all[j] == below[j - 1]);
            if i == 0 {
                if below[j - 1] == id {
                    assert(below.contains(id));
                    let m = self.listed_in_a_child(id, 0, id);
                    let kid = self.kids(id)[m];
                    assert(self.nodes@[id.0 as int].children@[m] == kid);
                    self.document_order_lists_what_is_inside(kid, id);
                    self.nothing_is_inside_a_lower_node(id, kid);
                }
            } else {
                assert(all[i] == below[i - 1]);
            }
        }
    }

    proof fn kids_order_has_no_duplicates(&self, id: NodeId, k: int)
        requires
            self.wf(),
            self.has(id),
            0 <= k,
        ensures
            self.kids_order(id, k).no_duplicates(),
        decreases self.rank_of(id), self.kids(id).len() - k,
    {
        if k < self.kids(id).len() {
            let kid = self.kids(id)[k];
            assert(self.nodes@[id.0 as int].children@[k] == kid);
            self.document_order_has_no_duplicates(kid);
            self.kids_order_has_no_duplicates(id, k + 1);
            let first = self.doc_order(kid);
            let rest = self.kids_order(id, k + 1);
            let all = first + rest;
            assert forall|i: int, j: int| 0 <= i < j < all.len() implies all[i] != all[j] by {
                if j < first.len() {
                    assert(all[i] == first[i] && all[j] == first[j]);
                } else if i >= first.len() {
                    assert(all[i] == rest[i - first.len()] && all[j] == rest[j - first.len()]);
                } else {
                    let n = first[i];
                    if rest[j - first.len()] == n {
                        assert(rest.contains(n));
                        assert(first.contains(n));
                        let m = self.listed_in_a_child(id, k + 1, n);
                        let other = self.kids(id)[m];
                        assert(self.nodes@[id.0 as int].children@[m] == other);
                        self.listed_are_known(kid, n);
                        self.document_order_lists_what_is_inside(kid, n);
                        self.document_order_lists_what_is_inside(other, n);
                        self.ancestors_are_nested(n, kid, other);
                        self.siblings_are_apart(id, k, m);
                        self.siblings_are_apart(id, m, k);
                    }
                }
            }
        }
    }

    proof fn listed_are_known(&self, id: NodeId, n: NodeId)
        requires
            self.wf(),
            self.has(id),
            self.doc_order(id).contains(n),
        ensures
            self.has(n),
        decreases self.rank_of(id),
    {
        if n != id {
            let all = self.doc_order(id);
            let i = all.index_of(n);
            assert(self.kids_order(id, 0)[i - 1] == n);
            let m = self.listed_in_a_child(id, 0, n);
            assert(self.nodes@[id.0 as int].children@[m] == self.kids(id)[m]);
            self.listed_are_known(self.kids(id)[m], n);
        }
    }
}

} // verus!
