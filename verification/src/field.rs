//! Form controls: what an element is as a control, how big its box is, and
//! what that box draws.
//!
//! **A field's value is state, not an attribute.** `value="x"` is the default;
//! what the field currently holds lives beside the tree and only differs once
//! a reader has typed.
//!
//! **A character is a cell.** `size`, `cols` and `rows` are counts of
//! characters, so `size="17"` is 17 cells exactly.

use vstd::prelude::*;

use crate::cells::{larger, plus, smaller};
use crate::dom::{Dom, NodeData, NodeId};
use crate::text::{
    alike, cells_of, chars_of, join, joined, on_one_line, one_line, owned, parse_i32, same,
    same_word, signed, slice_text, str_cells, trim, trimmed, words, words_of, Spaces,
};
use crate::views::{view_opt, views};

verus! {

broadcast use crate::views::group_views;

/// HTML's own defaults for a control the page did not size.
pub const DEFAULT_SIZE: i32 = 20;

pub const DEFAULT_COLS: i32 = 20;

pub const DEFAULT_ROWS: i32 = 2;

/// The most characters an attribute may ask for on either axis.
pub const MAX_CHARS: i32 = 1000;

/// What a control's box is showing.
#[derive(Clone, Copy, PartialEq, Eq, Debug, Structural)]
pub enum Shows {
    /// The field's value, already masked if this is a password.
    Value,
    /// The value is empty and the page offered a placeholder.
    Placeholder,
    /// A button's label. A button takes no caret.
    Label,
    Checkbox(bool),
    Radio(bool),
    Select { selected: Option<usize> },
    SelectList { multiple: bool, first_selected: Option<usize> },
}

/// How a form control's box is painted.
#[derive(Clone, Copy, PartialEq, Eq, Debug, Structural)]
pub struct FieldPaint {
    pub shows: Shows,
    /// The frame says that this control is not for the reader.
    pub disabled: bool,
}

/// A control with a box: everything layout needs to build one.
#[derive(Debug)]
pub struct Control {
    /// What the box shows: the value, the mask, the placeholder or the label.
    pub text: String,
    pub shows: Shows,
    /// The content box, in cells.
    pub cols: i32,
    pub rows: i32,
    pub disabled: bool,
}

/// The value of a [`Control`].
pub struct ControlView {
    pub text: Seq<char>,
    pub shows: Shows,
    pub cols: i32,
    pub rows: i32,
    pub disabled: bool,
}

impl View for Control {
    type V = ControlView;

    open spec fn view(&self) -> ControlView {
        ControlView {
            text: self.text@,
            shows: self.shows,
            cols: self.cols,
            rows: self.rows,
            disabled: self.disabled,
        }
    }
}

/// What kind of control an element is, before its value is read.
#[derive(Clone, Copy, PartialEq, Eq, Debug, Structural)]
pub enum Kind {
    /// A text field.
    Text { masked: bool },
    /// The same box with a label in it and no caret.
    Button,
    Checkbox,
    Radio,
    Select,
    /// Recognized, and deliberately drawn as nothing.
    Absent,
}

/// Is this tag one of the elements that can be a form control?
pub open spec fn control_tag(tag: Seq<char>) -> bool {
    tag == "input"@ || tag == "textarea"@ || tag == "button"@ || tag == "select"@
}

/// See [`control_tag`].
pub fn is_control_tag(tag: &str) -> (r: bool)
    ensures
        r == control_tag(tag@),
{
    same(tag, "input") || same(tag, "textarea") || same(tag, "button") || same(tag, "select")
}

/// An `<input>`'s `type`, without the space around it.
pub open spec fn input_type(dom: &Dom, node: NodeId) -> Seq<char> {
    trimmed(
        match dom.attr_of(node, "type"@) {
            Some(ty) => ty,
            None => "text"@,
        },
    )
}

/// The kind of control an `<input>` of that type is. A type nobody has heard
/// of is a text field.
pub open spec fn input_kind(ty: Seq<char>) -> Kind {
    if alike(ty, "password"@) {
        Kind::Text { masked: true }
    } else if alike(ty, "submit"@) || alike(ty, "button"@) || alike(ty, "reset"@) {
        Kind::Button
    } else if alike(ty, "checkbox"@) {
        Kind::Checkbox
    } else if alike(ty, "radio"@) {
        Kind::Radio
    } else if alike(ty, "hidden"@) || alike(ty, "file"@) || alike(ty, "range"@) || alike(
        ty,
        "color"@,
    ) || alike(ty, "image"@) || alike(ty, "date"@) || alike(ty, "datetime-local"@) || alike(
        ty,
        "month"@,
    ) || alike(ty, "week"@) || alike(ty, "time"@) {
        Kind::Absent
    } else {
        Kind::Text { masked: false }
    }
}

/// The kind of control an element is, if it is one.
pub open spec fn kind_of(dom: &Dom, node: NodeId, tag: Seq<char>) -> Option<Kind> {
    if !control_tag(tag) {
        None
    } else if tag == "textarea"@ {
        Some(Kind::Text { masked: false })
    } else if tag == "button"@ {
        Some(Kind::Button)
    } else if tag == "select"@ {
        Some(Kind::Select)
    } else {
        Some(input_kind(input_type(dom, node)))
    }
}

fn kind_of_input(ty: &str) -> (r: Kind)
    ensures
        r == input_kind(ty@),
{
    if same_word(ty, "password") {
        Kind::Text { masked: true }
    } else if same_word(ty, "submit") || same_word(ty, "button") || same_word(ty, "reset") {
        Kind::Button
    } else if same_word(ty, "checkbox") {
        Kind::Checkbox
    } else if same_word(ty, "radio") {
        Kind::Radio
    } else if same_word(ty, "hidden") || same_word(ty, "file") || same_word(ty, "range")
        || same_word(ty, "color") || same_word(ty, "image") || same_word(ty, "date") || same_word(
        ty,
        "datetime-local",
    ) || same_word(ty, "month") || same_word(ty, "week") || same_word(ty, "time") {
        Kind::Absent
    } else {
        Kind::Text { masked: false }
    }
}

/// See [`kind_of`].
pub fn kind(dom: &Dom, node: NodeId, tag: &str) -> (r: Option<Kind>)
    requires
        dom.has(node),
    ensures
        r == kind_of(dom, node, tag@),
{
    if !is_control_tag(tag) {
        return None;
    }
    if same(tag, "textarea") {
        return Some(Kind::Text { masked: false });
    }
    if same(tag, "button") {
        return Some(Kind::Button);
    }
    if same(tag, "select") {
        return Some(Kind::Select);
    }
    let ty: String = trim(
        match dom.attr(node, "type") {
            Some(ty) => ty,
            None => "text",
        },
    );
    Some(kind_of_input(ty.as_str()))
}

/// Does this element generate no box at all?
pub fn generates_no_box(dom: &Dom, node: NodeId, tag: &str) -> (r: bool)
    requires
        dom.has(node),
    ensures
        r == (kind_of(dom, node, tag@) == Some(Kind::Absent)),
{
    matches!(kind(dom, node, tag), Some(Kind::Absent))
}

/// Does this control own a current value? Read-only and disabled ones do too.
pub fn has_live_value(dom: &Dom, node: NodeId, tag: &str) -> (r: bool)
    requires
        dom.has(node),
    ensures
        r == (kind_of(dom, node, tag@) matches Some(Kind::Text { .. })),
{
    matches!(kind(dom, node, tag), Some(Kind::Text { .. }))
}

pub fn is_checkbox(dom: &Dom, node: NodeId, tag: &str) -> (r: bool)
    requires
        dom.has(node),
    ensures
        r == (kind_of(dom, node, tag@) == Some(Kind::Checkbox)),
{
    matches!(kind(dom, node, tag), Some(Kind::Checkbox))
}

pub fn is_radio(dom: &Dom, node: NodeId, tag: &str) -> (r: bool)
    requires
        dom.has(node),
    ensures
        r == (kind_of(dom, node, tag@) == Some(Kind::Radio)),
{
    matches!(kind(dom, node, tag), Some(Kind::Radio))
}

pub fn is_select(tag: &str) -> (r: bool)
    ensures
        r == alike(tag@, "select"@),
{
    same_word(tag, "select")
}

/// What the reader chose here, or else what the markup says.
pub open spec fn marked(dom: &Dom, node: NodeId, attr: Seq<char>) -> bool {
    match dom.chosen(node) {
        Some(on) => on,
        None => dom.attr_of(node, attr) is Some,
    }
}

fn raw_choice(dom: &Dom, node: NodeId, attr: &str) -> (r: bool)
    requires
        dom.wf(),
        dom.has(node),
    ensures
        r == marked(dom, node, attr@),
{
    match dom.choice_state(node) {
        Some(on) => on,
        None => dom.has_attr(node, attr),
    }
}

/// The form a node belongs to: the nearest `<form>` above it, or else the
/// document itself. `None` for a node outside the document and any form.
pub open spec fn owner_of(dom: &Dom, node: NodeId) -> Option<NodeId>
    decreases dom.climb(node),
    when dom.wf() && dom.has(node)
    via owner_climbs
{
    if dom.is_element(node) && alike(dom.tag_of(node), "form"@) {
        Some(node)
    } else if node == dom.root {
        Some(node)
    } else {
        match dom.parent_of(node) {
            Some(p) => owner_of(dom, p),
            None => None,
        }
    }
}

#[via_fn]
proof fn owner_climbs(dom: &Dom, node: NodeId) {
    if dom.parent_of(node) is Some {
        dom.parents_are_nearer_the_peak(node);
    }
}

/// See [`owner_of`].
pub fn form_owner(dom: &Dom, node: NodeId) -> (r: Option<NodeId>)
    requires
        dom.wf(),
        dom.has(node),
    ensures
        r == owner_of(dom, node),
{
    let mut cur: NodeId = node;
    loop
        invariant
            dom.wf(),
            dom.has(cur),
            owner_of(dom, node) == owner_of(dom, cur),
        decreases dom.climb(cur),
    {
        match &dom.node(cur).data {
            NodeData::Element { tag, .. } => {
                if same_word(tag.as_str(), "form") {
                    return Some(cur);
                }
            },
            _ => {},
        }
        if cur == dom.root {
            return Some(cur);
        }
        match dom.parent(cur) {
            Some(p) => {
                proof {
                    dom.parents_are_nearer_the_peak(cur);
                }
                cur = p;
            },
            None => {
                return None;
            },
        }
    }
}

/// Is `id` a radio button of that name that belongs to `owner`?
pub open spec fn in_group(dom: &Dom, id: NodeId, name: Seq<char>, owner: Option<NodeId>) -> bool {
    &&& dom.is_element(id)
    &&& kind_of(dom, id, dom.tag_of(id)) == Some(Kind::Radio)
    &&& dom.attr_of(id, "name"@) == Some(name)
    &&& owner_of(dom, id) == owner
}

/// The radio buttons of which only one can be on at a time, in document order.
/// A button without a name stands alone.
pub open spec fn group_of(dom: &Dom, node: NodeId) -> Seq<NodeId> {
    if !dom.under(node, dom.root) {
        Seq::empty()
    } else {
        match dom.attr_of(node, "name"@) {
            Some(name) if name.len() > 0 => dom.doc_order(dom.root).filter(
                |id: NodeId| in_group(dom, id, name, owner_of(dom, node)),
            ),
            _ => seq![node],
        }
    }
}

/// See [`group_of`].
pub fn radio_group(dom: &Dom, node: NodeId) -> (r: Vec<NodeId>)
    requires
        dom.wf(),
        dom.has(node),
    ensures
        r@ == group_of(dom, node),
        forall|i: int| 0 <= i < r@.len() ==> dom.has(#[trigger] r@[i]),
{
    let mut out: Vec<NodeId> = Vec::new();
    if !dom.is_connected(node) {
        return out;
    }
    let name: &str = match dom.attr(node, "name") {
        Some(name) => name,
        None => {
            out.push(node);
            proof {
                assert(out@ =~= seq![node]);
            }
            return out;
        },
    };
    if name.is_empty() {
        out.push(node);
        proof {
            assert(out@ =~= seq![node]);
        }
        return out;
    }
    let owner: Option<NodeId> = form_owner(dom, node);
    let all: Vec<NodeId> = dom.in_doc_order();
    let ghost member = |id: NodeId| in_group(dom, id, name@, owner);
    let mut i: usize = 0;
    proof {
        reveal(Seq::filter);
        assert(all@.take(0) =~= Seq::empty());
    }
    while i < all.len()
        invariant
            dom.wf(),
            i <= all@.len(),
            member == (|id: NodeId| in_group(dom, id, name@, owner)),
            forall|k: int| 0 <= k < all@.len() ==> dom.has(#[trigger] all@[k]),
            forall|k: int| 0 <= k < out@.len() ==> dom.has(#[trigger] out@[k]),
            out@ == all@.take(i as int).filter(member),
        decreases all@.len() - i,
    {
        let id: NodeId = all[i];
        proof {
            reveal(Seq::filter);
            assert(all@.take(i + 1).drop_last() =~= all@.take(i as int));
            assert(all@.take(i + 1).last() == id);
        }
        let mut member_here: bool = false;
        match &dom.node(id).data {
            NodeData::Element { tag, .. } => {
                if is_radio(dom, id, tag.as_str()) {
                    match dom.attr(id, "name") {
                        Some(own) => {
                            if same(own, name) && form_owner(dom, id) == owner {
                                member_here = true;
                            }
                        },
                        None => {},
                    }
                }
            },
            _ => {},
        }
        if member_here {
            out.push(id);
        }
        i += 1;
    }
    proof {
        assert(all@.take(all@.len() as int) =~= all@);
    }
    out
}

/// The last of `ids` that is on.
pub open spec fn last_marked(dom: &Dom, ids: Seq<NodeId>, attr: Seq<char>) -> Option<NodeId>
    decreases ids.len(),
{
    if ids.len() == 0 {
        None
    } else if marked(dom, ids.last(), attr) {
        Some(ids.last())
    } else {
        last_marked(dom, ids.drop_last(), attr)
    }
}

/// Is this checkbox or radio button on? Of a group of radio buttons, only the
/// last one that says so is.
pub open spec fn is_on(dom: &Dom, node: NodeId, tag: Seq<char>) -> bool {
    if kind_of(dom, node, tag) == Some(Kind::Checkbox) {
        marked(dom, node, "checked"@)
    } else if kind_of(dom, node, tag) != Some(Kind::Radio) || !marked(dom, node, "checked"@) {
        false
    } else {
        match dom.attr_of(node, "name"@) {
            Some(name) if name.len() > 0 => last_marked(dom, group_of(dom, node), "checked"@)
                == Some(node),
            _ => true,
        }
    }
}

/// See [`is_on`].
pub fn checked(dom: &Dom, node: NodeId, tag: &str) -> (r: bool)
    requires
        dom.wf(),
        dom.has(node),
    ensures
        r == is_on(dom, node, tag@),
{
    if is_checkbox(dom, node, tag) {
        return raw_choice(dom, node, "checked");
    }
    if !is_radio(dom, node, tag) || !raw_choice(dom, node, "checked") {
        return false;
    }
    match dom.attr(node, "name") {
        Some(name) => {
            if name.is_empty() {
                return true;
            }
        },
        None => {
            return true;
        },
    }
    let group: Vec<NodeId> = radio_group(dom, node);
    let mut n: usize = group.len();
    proof {
        assert(group@.take(n as int) =~= group@);
    }
    while n > 0
        invariant
            dom.wf(),
            n <= group@.len(),
            is_on(dom, node, tag@) == (last_marked(dom, group@, "checked"@) == Some(node)),
            forall|k: int| 0 <= k < group@.len() ==> dom.has(#[trigger] group@[k]),
            last_marked(dom, group@, "checked"@) == last_marked(
                dom,
                group@.take(n as int),
                "checked"@,
            ),
        decreases n,
    {
        proof {
            assert(group@.take(n as int).last() == group@[n - 1]);
            assert(group@.take(n as int).drop_last() =~= group@.take(n - 1));
        }
        if raw_choice(dom, group[n - 1], "checked") {
            return group[n - 1] == node;
        }
        n -= 1;
    }
    false
}

/// One `<option>` of a select.
#[derive(Debug)]
pub struct OptionItem {
    pub node: NodeId,
    pub label: String,
    pub value: String,
    pub disabled: bool,
}

/// The value of an [`OptionItem`].
pub struct OptionView {
    pub node: NodeId,
    pub label: Seq<char>,
    pub value: Seq<char>,
    pub disabled: bool,
}

impl View for OptionItem {
    type V = OptionView;

    open spec fn view(&self) -> OptionView {
        OptionView {
            node: self.node,
            label: self.label@,
            value: self.value@,
            disabled: self.disabled,
        }
    }
}

/// The text inside the children of `id` from the `k`th on.
pub open spec fn content_from(dom: &Dom, id: NodeId, k: int) -> Seq<char>
    decreases dom.rank_of(id), dom.kids(id).len() - k,
    when dom.wf() && dom.has(id) && k >= 0
{
    if k >= dom.kids(id).len() {
        Seq::empty()
    } else {
        let c = dom.kids(id)[k];
        (if dom.is_text(c) {
            dom.text_of(c)
        } else if dom.is_element(c) {
            content_from(dom, c, 0)
        } else {
            Seq::empty()
        }) + content_from(dom, id, k + 1)
    }
}

/// All the text inside a node.
pub open spec fn content_of(dom: &Dom, id: NodeId) -> Seq<char> {
    content_from(dom, id, 0)
}

fn push_text(dom: &Dom, id: NodeId, out: &mut String)
    requires
        dom.wf(),
        dom.has(id),
    ensures
        final(out)@ == old(out)@ + content_of(dom, id),
    decreases dom.rank_of(id),
{
    let ghost start = out@;
    let kids: &Vec<NodeId> = dom.children(id);
    let mut k: usize = 0;
    while k < kids.len()
        invariant
            dom.wf(),
            dom.has(id),
            kids@ == dom.kids(id),
            k <= kids@.len(),
            out@ + content_from(dom, id, k as int) == start + content_of(dom, id),
        decreases kids@.len() - k,
    {
        let c: NodeId = kids[k];
        let ghost before = out@;
        proof {
            assert(dom.nodes@[id.0 as int].children@[k as int] == c);
        }
        match &dom.node(c).data {
            NodeData::Text(text) => {
                out.append(text.as_str());
            },
            NodeData::Element { .. } => {
                push_text(dom, c, out);
            },
            _ => {
                proof {
                    assert(before + Seq::<char>::empty() =~= before);
                }
            },
        }
        proof {
            let here = if dom.is_text(c) {
                dom.text_of(c)
            } else if dom.is_element(c) {
                content_from(dom, c, 0)
            } else {
                Seq::empty()
            };
            let rest = content_from(dom, id, k + 1);
            assert(out@ == before + here);
            assert((before + here) + rest =~= before + (here + rest));
        }
        k += 1;
    }
    proof {
        assert(out@ + Seq::<char>::empty() =~= out@);
    }
}

/// All the text inside a node. See [`content_of`].
pub fn text_content(dom: &Dom, id: NodeId) -> (r: String)
    requires
        dom.wf(),
        dom.has(id),
    ensures
        r@ == content_of(dom, id),
{
    let mut out: String = String::new();
    push_text(dom, id, &mut out);
    proof {
        assert(Seq::<char>::empty() + content_of(dom, id) =~= content_of(dom, id));
    }
    out
}

/// Words with one space between each two.
pub open spec fn collapsed(text: Seq<char>, by: Spaces) -> Seq<char> {
    joined(words_of(text, by), " "@)
}

fn collapse(text: &str, by: Spaces) -> (r: String)
    ensures
        r@ == collapsed(text@, by),
{
    let parts: Vec<String> = words(text, by);
    join(&parts, " ")
}

/// An attribute's value, or else `fallback`.
pub open spec fn attr_or(dom: &Dom, id: NodeId, name: Seq<char>, fallback: Seq<char>) -> Seq<char> {
    match dom.attr_of(id, name) {
        Some(v) => v,
        None => fallback,
    }
}

/// What the `<option>` at `id` offers.
pub open spec fn option_at(dom: &Dom, id: NodeId, inherited: bool) -> OptionView {
    let text = collapsed(content_of(dom, id), Spaces::Html);
    OptionView {
        node: id,
        label: attr_or(dom, id, "label"@, text),
        value: attr_or(dom, id, "value"@, text),
        disabled: inherited || dom.attr_of(id, "disabled"@) is Some,
    }
}

/// The options inside the children of `id` from the `k`th on. Only a disabled
/// `<optgroup>` disables what is inside it.
pub open spec fn options_from(dom: &Dom, id: NodeId, inherited: bool, k: int) -> Seq<OptionView>
    decreases dom.rank_of(id), dom.kids(id).len() - k,
    when dom.wf() && dom.has(id) && k >= 0
{
    if k >= dom.kids(id).len() {
        Seq::empty()
    } else {
        let c = dom.kids(id)[k];
        (if !dom.is_element(c) {
            Seq::empty()
        } else if alike(dom.tag_of(c), "option"@) {
            seq![option_at(dom, c, inherited)]
        } else {
            options_from(
                dom,
                c,
                inherited || (alike(dom.tag_of(c), "optgroup"@) && dom.attr_of(c, "disabled"@)
                    is Some),
                0,
            )
        }) + options_from(dom, id, inherited, k + 1)
    }
}

/// The options of a select, in document order.
pub open spec fn options_of(dom: &Dom, select: NodeId) -> Seq<OptionView> {
    options_from(dom, select, false, 0)
}

/// Every option is a node of the document.
pub open spec fn options_known(dom: &Dom, options: Seq<OptionItem>) -> bool {
    forall|i: int| 0 <= i < options.len() ==> dom.has((#[trigger] options[i]).node)
}

fn push_options(dom: &Dom, id: NodeId, inherited: bool, out: &mut Vec<OptionItem>)
    requires
        dom.wf(),
        dom.has(id),
        options_known(dom, old(out)@),
    ensures
        views(final(out)@) == views(old(out)@) + options_from(dom, id, inherited, 0),
        options_known(dom, final(out)@),
    decreases dom.rank_of(id),
{
    let ghost start = views(out@);
    let kids: &Vec<NodeId> = dom.children(id);
    let mut k: usize = 0;
    while k < kids.len()
        invariant
            dom.wf(),
            dom.has(id),
            kids@ == dom.kids(id),
            k <= kids@.len(),
            options_known(dom, out@),
            views(out@) + options_from(dom, id, inherited, k as int) == start + options_from(
                dom,
                id,
                inherited,
                0,
            ),
        decreases kids@.len() - k,
    {
        let c: NodeId = kids[k];
        let ghost before = views(out@);
        proof {
            assert(dom.nodes@[id.0 as int].children@[k as int] == c);
        }
        let ghost mut here: Seq<OptionView> = Seq::empty();
        match &dom.node(c).data {
            NodeData::Element { tag, .. } => {
                if same_word(tag.as_str(), "option") {
                    let text: String = text_content(dom, c);
                    let text: String = collapse(text.as_str(), Spaces::Html);
                    let label: String = owned(
                        match dom.attr(c, "label") {
                            Some(v) => v,
                            None => text.as_str(),
                        },
                    );
                    let value: String = owned(
                        match dom.attr(c, "value") {
                            Some(v) => v,
                            None => text.as_str(),
                        },
                    );
                    let disabled: bool = inherited || dom.has_attr(c, "disabled");
                    out.push(OptionItem { node: c, label, value, disabled });
                    proof {
                        here = seq![option_at(dom, c, inherited)];
                        assert(views(out@) =~= before + here);
                    }
                } else {
                    let off: bool = inherited || (same_word(tag.as_str(), "optgroup")
                        && dom.has_attr(c, "disabled"));
                    push_options(dom, c, off, out);
                    proof {
                        here = options_from(dom, c, off, 0);
                    }
                }
            },
            _ => {
                proof {
                    assert(before + here =~= before);
                }
            },
        }
        proof {
            let rest = options_from(dom, id, inherited, k + 1);
            assert(views(out@) == before + here);
            assert((before + here) + rest =~= before + (here + rest));
        }
        k += 1;
    }
    proof {
        assert(views(out@) + Seq::<OptionView>::empty() =~= views(out@));
    }
}

/// See [`options_of`].
pub fn options(dom: &Dom, select: NodeId) -> (r: Vec<OptionItem>)
    requires
        dom.wf(),
        dom.has(select),
    ensures
        views(r@) == options_of(dom, select),
        options_known(dom, r@),
{
    let mut out: Vec<OptionItem> = Vec::new();
    push_options(dom, select, false, &mut out);
    proof {
        assert(Seq::<OptionView>::empty() + options_of(dom, select) =~= options_of(dom, select));
    }
    out
}

/// The nodes of those options from the `i`th on that are on.
pub open spec fn marked_options(dom: &Dom, options: Seq<OptionView>, i: int) -> Seq<NodeId>
    decreases options.len() - i,
{
    if i >= options.len() {
        Seq::empty()
    } else {
        (if marked(dom, options[i].node, "selected"@) {
            seq![options[i].node]
        } else {
            Seq::empty()
        }) + marked_options(dom, options, i + 1)
    }
}

/// The last of the first `n` options that is on.
pub open spec fn last_option(dom: &Dom, options: Seq<OptionView>, n: int) -> Option<NodeId>
    decreases n,
{
    if n <= 0 {
        None
    } else if marked(dom, options[n - 1].node, "selected"@) {
        Some(options[n - 1].node)
    } else {
        last_option(dom, options, n - 1)
    }
}

/// The first option from the `i`th on that is not disabled.
pub open spec fn first_enabled(options: Seq<OptionView>, i: int) -> Option<NodeId>
    decreases options.len() - i,
{
    if i >= options.len() {
        None
    } else if !options[i].disabled {
        Some(options[i].node)
    } else {
        first_enabled(options, i + 1)
    }
}

/// Has the reader touched any of these?
pub open spec fn any_touched(dom: &Dom, options: Seq<OptionView>) -> bool {
    exists|i: int| 0 <= i < options.len() && dom.chosen((#[trigger] options[i]).node) is Some
}

pub open spec fn one_or_none(node: Option<NodeId>) -> Seq<NodeId> {
    match node {
        Some(id) => seq![id],
        None => Seq::empty(),
    }
}

/// The options that are on. A select that takes one choice has the last one
/// that says so, or else, until the reader touches it, its first enabled one.
pub open spec fn selected_of(dom: &Dom, select: NodeId, options: Seq<OptionView>) -> Seq<NodeId> {
    if dom.attr_of(select, "multiple"@) is Some {
        marked_options(dom, options, 0)
    } else {
        match last_option(dom, options, options.len() as int) {
            Some(id) => seq![id],
            None => if any_touched(dom, options) {
                Seq::empty()
            } else {
                one_or_none(first_enabled(options, 0))
            },
        }
    }
}

/// See [`selected_of`].
pub fn selected_options(dom: &Dom, select: NodeId, options: &Vec<OptionItem>) -> (r: Vec<NodeId>)
    requires
        dom.wf(),
        dom.has(select),
        options_known(dom, options@),
    ensures
        r@ == selected_of(dom, select, views(options@)),
{
    let ghost all = views(options@);
    let mut out: Vec<NodeId> = Vec::new();
    if dom.has_attr(select, "multiple") {
        let mut i: usize = 0;
        proof {
            assert(out@ + marked_options(dom, all, 0) =~= marked_options(dom, all, 0));
        }
        while i < options.len()
            invariant
                dom.wf(),
                options_known(dom, options@),
                all == views(options@),
                i <= options@.len(),
                out@ + marked_options(dom, all, i as int) == marked_options(dom, all, 0),
            decreases options@.len() - i,
        {
            let id: NodeId = options[i].node;
            let ghost before = out@;
            let ghost rest = marked_options(dom, all, i + 1);
            if raw_choice(dom, id, "selected") {
                out.push(id);
                proof {
                    assert(out@ + rest =~= before + (seq![id] + rest));
                }
            } else {
                proof {
                    assert(out@ + rest =~= before + (Seq::<NodeId>::empty() + rest));
                }
            }
            i += 1;
        }
        proof {
            assert(out@ + Seq::<NodeId>::empty() =~= out@);
        }
        return out;
    }
    let mut n: usize = options.len();
    while n > 0
        invariant
            dom.wf(),
            options_known(dom, options@),
            all == views(options@),
            n <= options@.len(),
            out@ == Seq::<NodeId>::empty(),
            dom.attr_of(select, "multiple"@) is None,
            last_option(dom, all, all.len() as int) == last_option(dom, all, n as int),
        decreases n,
    {
        let id: NodeId = options[n - 1].node;
        if raw_choice(dom, id, "selected") {
            out.push(id);
            proof {
                assert(out@ =~= seq![id]);
            }
            return out;
        }
        n -= 1;
    }
    let mut touched: bool = false;
    let mut i: usize = 0;
    while i < options.len()
        invariant
            dom.wf(),
            options_known(dom, options@),
            all == views(options@),
            i <= options@.len(),
            touched == exists|j: int|
                0 <= j < i && dom.chosen((#[trigger] all[j]).node) is Some,
        decreases options@.len() - i,
    {
        if dom.choice_state(options[i].node).is_some() {
            touched = true;
            proof {
                assert(dom.chosen(all[i as int].node) is Some);
            }
        }
        i += 1;
    }
    if touched {
        return out;
    }
    let mut i: usize = 0;
    while i < options.len()
        invariant
            all == views(options@),
            i <= options@.len(),
            out@ == Seq::<NodeId>::empty(),
            selected_of(dom, select, all) == one_or_none(first_enabled(all, 0)),
            first_enabled(all, 0) == first_enabled(all, i as int),
        decreases options@.len() - i,
    {
        if !options[i].disabled {
            out.push(options[i].node);
            proof {
                assert(out@ =~= seq![all[i as int].node]);
            }
            return out;
        }
        i += 1;
    }
    out
}

/// What the control currently holds: what a reader typed, or else what the
/// markup says. A textarea's markup is its text without one leading newline.
pub open spec fn value_of(dom: &Dom, node: NodeId, tag: Seq<char>) -> Seq<char> {
    match dom.typed(node) {
        Some(typed) => typed,
        None => if tag == "textarea"@ {
            let text = content_of(dom, node);
            if text.len() > 0 && text[0] == '\n' {
                text.drop_first()
            } else {
                text
            }
        } else {
            on_one_line(attr_or(dom, node, "value"@, ""@))
        },
    }
}

/// See [`value_of`].
pub fn value(dom: &Dom, node: NodeId, tag: &str) -> (r: String)
    requires
        dom.wf(),
        dom.has(node),
    ensures
        r@ == value_of(dom, node, tag@),
{
    match dom.field_value(node) {
        Some(typed) => {
            return owned(typed.as_str());
        },
        None => {},
    }
    if same(tag, "textarea") {
        let text: String = text_content(dom, node);
        let chars: Vec<char> = chars_of(text.as_str());
        if chars.len() > 0 && chars[0] == '\n' {
            proof {
                assert(text@.drop_first() =~= chars@.subrange(1, chars@.len() as int));
            }
            return slice_text(&chars, 1, chars.len());
        }
        return text;
    }
    one_line(
        match dom.attr(node, "value") {
            Some(v) => v,
            None => "",
        },
    )
}

/// A button's label.
pub open spec fn label_of(dom: &Dom, node: NodeId, tag: Seq<char>) -> Seq<char> {
    if tag == "button"@ {
        collapsed(content_of(dom, node), Spaces::Unicode)
    } else {
        let given = attr_or(dom, node, "value"@, ""@);
        if given.len() > 0 {
            on_one_line(given)
        } else {
            let ty = trimmed(attr_or(dom, node, "type"@, "submit"@));
            if alike(ty, "reset"@) {
                "Reset"@
            } else if alike(ty, "button"@) {
                ""@
            } else {
                "Submit"@
            }
        }
    }
}

fn label(dom: &Dom, node: NodeId, tag: &str) -> (r: String)
    requires
        dom.wf(),
        dom.has(node),
    ensures
        r@ == label_of(dom, node, tag@),
{
    if same(tag, "button") {
        let text: String = text_content(dom, node);
        return collapse(text.as_str(), Spaces::Unicode);
    }
    let given: &str = match dom.attr(node, "value") {
        Some(v) => v,
        None => "",
    };
    if !given.is_empty() {
        return one_line(given);
    }
    let ty: String = trim(
        match dom.attr(node, "type") {
            Some(ty) => ty,
            None => "submit",
        },
    );
    if same_word(ty.as_str(), "reset") {
        owned("Reset")
    } else if same_word(ty.as_str(), "button") {
        owned("")
    } else {
        owned("Submit")
    }
}

/// One mask per source character: a mask that counted cells would understate
/// how much was typed.
pub open spec fn masked_text(value: Seq<char>) -> Seq<char> {
    value.map_values(|c: char| '*')
}

fn mask(value: &str) -> (r: String)
    ensures
        r@ == masked_text(value@),
{
    let chars: Vec<char> = chars_of(value);
    let mut out: String = String::new();
    let mut i: usize = 0;
    while i < chars.len()
        invariant
            i <= chars@.len(),
            chars@ == value@,
            out@ =~= masked_text(value@).take(i as int),
        decreases chars@.len() - i,
    {
        out.push('*');
        i += 1;
    }
    proof {
        assert(out@ =~= masked_text(value@));
    }
    out
}

/// A `size`, `cols` or `rows` attribute as a character count. What is not a
/// positive integer is not a count, and the default stands.
pub open spec fn characters_of(dom: &Dom, node: NodeId, name: Seq<char>, default: i32) -> i32 {
    smaller(
        match dom.attr_of(node, name) {
            Some(v) => match signed(trimmed(v)) {
                Some(n) => if n > 0 {
                    n as i32
                } else {
                    default
                },
                None => default,
            },
            None => default,
        },
        MAX_CHARS,
    )
}

fn characters(dom: &Dom, node: NodeId, name: &str, default: i32) -> (r: i32)
    requires
        dom.has(node),
    ensures
        r == characters_of(dom, node, name@, default),
{
    match dom.attr(node, name) {
        Some(v) => {
            let v: String = trim(v);
            match parse_i32(v.as_str()) {
                Some(n) => {
                    if n > 0 {
                        return smaller(n, MAX_CHARS);
                    }
                },
                None => {},
            }
        },
        None => {},
    }
    smaller(default, MAX_CHARS)
}

/// The widest label of the first `n` options.
pub open spec fn widest_label(options: Seq<OptionView>, n: int) -> i32
    decreases n,
{
    if n <= 0 {
        0
    } else {
        larger(widest_label(options, n - 1), cells_of(options[n - 1].label))
    }
}

/// The index of the first option from the `i`th on that is this node.
pub open spec fn option_index(options: Seq<OptionView>, node: NodeId, i: int) -> Option<usize>
    decreases options.len() - i,
{
    if i >= options.len() {
        None
    } else if options[i].node == node {
        Some(i as usize)
    } else {
        option_index(options, node, i + 1)
    }
}

/// The index of the first selected option.
pub open spec fn selected_index(options: Seq<OptionView>, selected: Seq<NodeId>) -> Option<usize> {
    if selected.len() == 0 {
        None
    } else {
        option_index(options, selected[0], 0)
    }
}

/// One row of a select that shows several: a mark and the label.
pub open spec fn option_row(option: OptionView, selected: Seq<NodeId>) -> Seq<char> {
    seq![
        '[',
        if selected.contains(option.node) {
            'x'
        } else {
            ' '
        },
        ']',
        ' ',
    ] + option.label
}

pub open spec fn option_rows(options: Seq<OptionView>, selected: Seq<NodeId>) -> Seq<Seq<char>> {
    options.map_values(|o: OptionView| option_row(o, selected))
}

pub open spec fn option_labels(options: Seq<OptionView>) -> Seq<Seq<char>> {
    options.map_values(|o: OptionView| o.label)
}

/// A select: one collapsed row, or a list of marked ones.
pub open spec fn select_control(dom: &Dom, node: NodeId, disabled: bool) -> ControlView {
    let options = options_of(dom, node);
    let selected = selected_of(dom, node, options);
    let many = dom.attr_of(node, "multiple"@) is Some;
    let widest = widest_label(options, options.len() as int);
    if many || characters_of(dom, node, "size"@, 1) > 1 {
        ControlView {
            text: joined(option_rows(options, selected), "\n"@),
            shows: Shows::SelectList {
                multiple: many,
                first_selected: selected_index(options, selected),
            },
            cols: smaller(plus(widest, 4), MAX_CHARS),
            rows: characters_of(
                dom,
                node,
                "size"@,
                if many {
                    4
                } else {
                    1
                },
            ),
            disabled,
        }
    } else {
        ControlView {
            text: joined(option_labels(options), "\n"@),
            shows: Shows::Select { selected: selected_index(options, selected) },
            cols: smaller(plus(widest, 2), MAX_CHARS),
            rows: 1,
            disabled,
        }
    }
}

/// A text field: its value, its mask, or the hint that stands in for an empty
/// value.
pub open spec fn text_control(
    dom: &Dom,
    node: NodeId,
    tag: Seq<char>,
    masked: bool,
    disabled: bool,
) -> ControlView {
    let value = value_of(dom, node, tag);
    let hint = attr_or(dom, node, "placeholder"@, ""@);
    let hinted = value.len() == 0 && hint.len() > 0;
    ControlView {
        text: if hinted {
            on_one_line(hint)
        } else if masked {
            masked_text(value)
        } else {
            value
        },
        shows: if hinted {
            Shows::Placeholder
        } else {
            Shows::Value
        },
        cols: if tag == "textarea"@ {
            characters_of(dom, node, "cols"@, DEFAULT_COLS)
        } else {
            characters_of(dom, node, "size"@, DEFAULT_SIZE)
        },
        rows: if tag == "textarea"@ {
            characters_of(dom, node, "rows"@, DEFAULT_ROWS)
        } else {
            1
        },
        disabled,
    }
}

/// The control this element is, with everything its box needs.
pub open spec fn control_of(dom: &Dom, node: NodeId, tag: Seq<char>) -> Option<ControlView> {
    let disabled = dom.attr_of(node, "disabled"@) is Some;
    match kind_of(dom, node, tag) {
        None => None,
        Some(Kind::Absent) => None,
        Some(Kind::Button) => Some(
            ControlView {
                text: label_of(dom, node, tag),
                shows: Shows::Label,
                cols: smaller(cells_of(label_of(dom, node, tag)), MAX_CHARS),
                rows: 1,
                disabled,
            },
        ),
        Some(Kind::Checkbox) => Some(
            ControlView {
                text: if is_on(dom, node, tag) {
                    "x"@
                } else {
                    " "@
                },
                shows: Shows::Checkbox(is_on(dom, node, tag)),
                cols: 1,
                rows: 1,
                disabled,
            },
        ),
        Some(Kind::Radio) => Some(
            ControlView {
                text: if is_on(dom, node, tag) {
                    "*"@
                } else {
                    "o"@
                },
                shows: Shows::Radio(is_on(dom, node, tag)),
                cols: 1,
                rows: 1,
                disabled,
            },
        ),
        Some(Kind::Select) => Some(select_control(dom, node, disabled)),
        Some(Kind::Text { masked }) => Some(text_control(dom, node, tag, masked, disabled)),
    }
}

fn has_id(ids: &Vec<NodeId>, id: NodeId) -> (r: bool)
    ensures
        r == ids@.contains(id),
{
    let mut i: usize = 0;
    while i < ids.len()
        invariant
            i <= ids@.len(),
            forall|j: int| 0 <= j < i ==> ids@[j] != id,
        decreases ids@.len() - i,
    {
        if ids[i] == id {
            return true;
        }
        i += 1;
    }
    false
}

fn select_box(dom: &Dom, node: NodeId, disabled: bool) -> (r: Control)
    requires
        dom.wf(),
        dom.has(node),
    ensures
        r@ == select_control(dom, node, disabled),
{
    let items: Vec<OptionItem> = options(dom, node);
    let ghost all = views(items@);
    let selected: Vec<NodeId> = selected_options(dom, node, &items);
    let many: bool = dom.has_attr(node, "multiple");
    let list: bool = many || characters(dom, node, "size", 1) > 1;
    let mut widest: i32 = 0;
    let mut first: Option<usize> = None;
    let mut rows: Vec<String> = Vec::new();
    let ghost want = if list {
        option_rows(all, selected@)
    } else {
        option_labels(all)
    };
    let mut i: usize = 0;
    while i < items.len()
        invariant
            all == views(items@),
            i <= items@.len(),
            widest == widest_label(all, i as int),
            want == (if list {
                option_rows(all, selected@)
            } else {
                option_labels(all)
            }),
            views(rows@) =~= want.take(i as int),
            match first {
                Some(k) => selected_index(all, selected@) == Some(k),
                None => selected@.len() == 0 || selected_index(all, selected@) == option_index(
                    all,
                    selected@[0],
                    i as int,
                ),
            },
        decreases items@.len() - i,
    {
        let item: &OptionItem = &items[i];
        proof {
            assert(item@ == all[i as int]);
        }
        widest = larger(widest, str_cells(item.label.as_str()));
        if first.is_none() && selected.len() > 0 && selected[0] == item.node {
            first = Some(i);
        }
        let row: String = if list {
            let mut row: String = String::new();
            row.push('[');
            row.push(
                if has_id(&selected, item.node) {
                    'x'
                } else {
                    ' '
                },
            );
            row.push(']');
            row.push(' ');
            row.append(item.label.as_str());
            proof {
                assert(row@ =~= option_row(all[i as int], selected@));
            }
            row
        } else {
            owned(item.label.as_str())
        };
        rows.push(row);
        i += 1;
    }
    proof {
        assert(views(rows@) =~= want);
    }
    let text: String = join(&rows, "\n");
    if list {
        Control {
            text,
            shows: Shows::SelectList { multiple: many, first_selected: first },
            cols: smaller(plus(widest, 4), MAX_CHARS),
            rows: characters(
                dom,
                node,
                "size",
                if many {
                    4
                } else {
                    1
                },
            ),
            disabled,
        }
    } else {
        Control {
            text,
            shows: Shows::Select { selected: first },
            cols: smaller(plus(widest, 2), MAX_CHARS),
            rows: 1,
            disabled,
        }
    }
}

fn text_box(dom: &Dom, node: NodeId, tag: &str, masked: bool, disabled: bool) -> (r: Control)
    requires
        dom.wf(),
        dom.has(node),
    ensures
        r@ == text_control(dom, node, tag@, masked, disabled),
{
    let held: String = value(dom, node, tag);
    let hint: &str = match dom.attr(node, "placeholder") {
        Some(v) => v,
        None => "",
    };
    proof {
        reveal_strlit("");
    }
    let hinted: bool = held.as_str().is_empty() && !hint.is_empty();
    let area: bool = same(tag, "textarea");
    let cols: i32 = if area {
        characters(dom, node, "cols", DEFAULT_COLS)
    } else {
        characters(dom, node, "size", DEFAULT_SIZE)
    };
    let rows: i32 = if area {
        characters(dom, node, "rows", DEFAULT_ROWS)
    } else {
        1
    };
    if hinted {
        Control { text: one_line(hint), shows: Shows::Placeholder, cols, rows, disabled }
    } else if masked {
        Control { text: mask(held.as_str()), shows: Shows::Value, cols, rows, disabled }
    } else {
        Control { text: held, shows: Shows::Value, cols, rows, disabled }
    }
}

/// The control this element is, with everything its box needs, or `None` when
/// it is not a control or is one drawn as nothing. See [`control_of`].
pub fn control(dom: &Dom, node: NodeId, tag: &str) -> (r: Option<Control>)
    requires
        dom.wf(),
        dom.has(node),
    ensures
        view_opt(r) == control_of(dom, node, tag@),
{
    let what: Kind = match kind(dom, node, tag) {
        None => {
            return None;
        },
        Some(what) => what,
    };
    let disabled: bool = dom.has_attr(node, "disabled");
    match what {
        Kind::Absent => None,
        Kind::Button => {
            let text: String = label(dom, node, tag);
            let cols: i32 = smaller(str_cells(text.as_str()), MAX_CHARS);
            Some(Control { text, shows: Shows::Label, cols, rows: 1, disabled })
        },
        Kind::Checkbox => {
            let on: bool = checked(dom, node, tag);
            let text: String = if on {
                owned("x")
            } else {
                owned(" ")
            };
            Some(Control { text, shows: Shows::Checkbox(on), cols: 1, rows: 1, disabled })
        },
        Kind::Radio => {
            let on: bool = checked(dom, node, tag);
            let text: String = if on {
                owned("*")
            } else {
                owned("o")
            };
            Some(Control { text, shows: Shows::Radio(on), cols: 1, rows: 1, disabled })
        },
        Kind::Select => Some(select_box(dom, node, disabled)),
        Kind::Text { masked } => Some(text_box(dom, node, tag, masked, disabled)),
    }
}

/// What a reader may type into here: the unmasked value of a text field that
/// is neither disabled nor read-only.
pub open spec fn editable_of(dom: &Dom, node: NodeId, tag: Seq<char>) -> Option<Seq<char>> {
    match kind_of(dom, node, tag) {
        Some(Kind::Text { .. }) => if dom.attr_of(node, "disabled"@) is None && dom.attr_of(
            node,
            "readonly"@,
        ) is None {
            Some(value_of(dom, node, tag))
        } else {
            None
        },
        _ => None,
    }
}

/// See [`editable_of`].
pub fn editable_value(dom: &Dom, node: NodeId, tag: &str) -> (r: Option<String>)
    requires
        dom.wf(),
        dom.has(node),
    ensures
        view_opt(r) == editable_of(dom, node, tag@),
{
    match kind(dom, node, tag) {
        Some(Kind::Text { .. }) => {
            if !dom.has_attr(node, "disabled") && !dom.has_attr(node, "readonly") {
                Some(value(dom, node, tag))
            } else {
                None
            }
        },
        _ => None,
    }
}

/// Of a group of radio buttons at most one is on: two of the same name and the
/// same form that are both on are the same button.
pub proof fn one_radio_of_a_group_is_on(dom: &Dom, a: NodeId, b: NodeId, tag: Seq<char>)
    requires
        dom.wf(),
        dom.has(a),
        dom.has(b),
        kind_of(dom, a, tag) == Some(Kind::Radio),
        kind_of(dom, b, tag) == Some(Kind::Radio),
        dom.attr_of(a, "name"@) == dom.attr_of(b, "name"@),
        dom.attr_of(a, "name"@) matches Some(name) && name.len() > 0,
        owner_of(dom, a) == owner_of(dom, b),
        is_on(dom, a, tag),
        is_on(dom, b, tag),
    ensures
        a == b,
{
    if !dom.under(a, dom.root) || !dom.under(b, dom.root) {
        assert(last_marked(dom, Seq::<NodeId>::empty(), "checked"@) is None);
    } else {
        assert(group_of(dom, a) == group_of(dom, b));
    }
}

/// A select that takes one choice never has two.
pub proof fn a_single_select_has_one_choice(dom: &Dom, select: NodeId, options: Seq<OptionView>)
    requires
        dom.attr_of(select, "multiple"@) is None,
    ensures
        selected_of(dom, select, options).len() <= 1,
{
}

/// What a reader typed is what the control holds, whatever its markup says.
pub proof fn what_was_typed_is_the_value(dom: &Dom, node: NodeId, tag: Seq<char>)
    ensures
        dom.typed(node) matches Some(typed) ==> value_of(dom, node, tag) == typed,
{
}

/// A mask tells how many characters were typed and nothing else.
pub proof fn a_mask_hides_all_but_the_length(a: Seq<char>, b: Seq<char>)
    ensures
        masked_text(a).len() == a.len(),
        masked_text(a) == masked_text(b) <==> a.len() == b.len(),
{
    if a.len() == b.len() {
        assert(masked_text(a) =~= masked_text(b));
    } else {
        assert(masked_text(a).len() != masked_text(b).len());
    }
}

proof fn labels_are_not_negative(options: Seq<OptionView>, n: int)
    ensures
        widest_label(options, n) >= 0,
    decreases n,
{
    if n > 0 {
        labels_are_not_negative(options, n - 1);
    }
}

/// No page can ask for a control of more cells than the cap, nor for one
/// without rows.
pub proof fn no_control_exceeds_the_cap(dom: &Dom, node: NodeId, tag: Seq<char>)
    ensures
        control_of(dom, node, tag) matches Some(c) ==> 0 <= c.cols <= MAX_CHARS && 1 <= c.rows
            <= MAX_CHARS,
{
    let options = options_of(dom, node);
    labels_are_not_negative(options, options.len() as int);
}

} // verus!
