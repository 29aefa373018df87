//! What form controls hold and show.

use vstd::prelude::*;

use crate::dom::{Dom, NodeId};
use crate::field::{
    attr_or, characters_of, control_of, input_kind, is_on, kind_of, last_option, marked,
    marked_options, option_index, option_row, selected_of, value_of, widest_label, Kind, OptionView,
    Shows, MAX_CHARS,
};
use crate::text::{alike, cells_of, on_one_line, signed, trimmed};

verus! {

/// A text is put on one line by making a space of every line end: nothing is
/// lost, and a text without any is as it was.
pub proof fn one_line_loses_nothing(s: Seq<char>, i: int)
    requires
        0 <= i < s.len(),
    ensures
        on_one_line(s).len() == s.len(),
        s[i] == '\n' || s[i] == '\r' ==> on_one_line(s)[i] == ' ',
        s[i] != '\n' && s[i] != '\r' ==> on_one_line(s)[i] == s[i],
{
}

/// A field shows what it holds, one star for each character where it hides it,
/// and what it asks for where it holds nothing.
pub proof fn a_field_shows_what_it_holds(dom: &Dom, node: NodeId, tag: Seq<char>, masked: bool)
    requires
        kind_of(dom, node, tag) == Some(Kind::Text { masked }),
    ensures
        control_of(dom, node, tag) is Some,
        ({
            let c = control_of(dom, node, tag)->0;
            let value = value_of(dom, node, tag);
            let hint = attr_or(dom, node, "placeholder"@, ""@);
            &&& 0 < value.len() && !masked ==> c.text == value && c.shows == Shows::Value
            &&& 0 < value.len() && masked ==> c.text.len() == value.len() && c.shows == Shows::Value
                && forall|i: int| 0 <= i < c.text.len() ==> #[trigger] c.text[i] == '*'
            &&& value.len() == 0 && 0 < hint.len() ==> c.text == on_one_line(hint) && c.shows
                == Shows::Placeholder
            &&& value.len() == 0 && hint.len() == 0 ==> c.text.len() == 0 && c.shows == Shows::Value
            &&& c.disabled <==> dom.attr_of(node, "disabled"@) is Some
            &&& tag != "textarea"@ ==> c.rows == 1
        }),
{
}

/// A field that nobody typed into holds what the page gave it.
pub proof fn a_field_holds_what_it_was_given(dom: &Dom, node: NodeId, tag: Seq<char>)
    requires
        dom.typed(node) is None,
        tag != "textarea"@,
    ensures
        ({
            let value = value_of(dom, node, tag);
            match dom.attr_of(node, "value"@) {
                Some(v) => value.len() == v.len() && forall|i: int|
                    0 <= i < v.len() && v[i] != '\n' && v[i] != '\r' ==> #[trigger] value[i]
                        == v[i],
                None => value.len() == 0,
            }
        }),
{
    reveal_strlit("");
}

/// A box to tick is ticked as the reader last left it, and before that as the
/// page says; and it shows so.
pub proof fn a_checkbox_is_as_it_was_left(dom: &Dom, node: NodeId, tag: Seq<char>)
    requires
        kind_of(dom, node, tag) == Some(Kind::Checkbox),
    ensures
        dom.chosen(node) matches Some(on) ==> is_on(dom, node, tag) == on,
        dom.chosen(node) is None ==> is_on(dom, node, tag) == (dom.attr_of(node, "checked"@)
            is Some),
        control_of(dom, node, tag) matches Some(c) && c.text.len() == 1 && (c.text[0] == 'x' <==> is_on(
            dom,
            node,
            tag,
        )) && c.shows == Shows::Checkbox(is_on(dom, node, tag)),
{
    reveal_strlit("x");
    reveal_strlit(" ");
}

/// A radio button shows whether it is on.
pub proof fn a_radio_button_shows_its_state(dom: &Dom, node: NodeId, tag: Seq<char>)
    requires
        kind_of(dom, node, tag) == Some(Kind::Radio),
    ensures
        control_of(dom, node, tag) matches Some(c) && c.text.len() == 1 && (c.text[0] == '*' <==> is_on(
            dom,
            node,
            tag,
        )) && c.shows == Shows::Radio(is_on(dom, node, tag)),
{
    reveal_strlit("*");
    reveal_strlit("o");
}

proof fn the_last_marked_option(dom: &Dom, options: Seq<OptionView>, n: int, k: int)
    requires
        0 <= k < n <= options.len(),
        marked(dom, options[k].node, "selected"@),
        forall|j: int|
            k < j < n ==> !marked(dom, (#[trigger] options[j]).node, "selected"@),
    ensures
        last_option(dom, options, n) == Some(options[k].node),
    decreases n,
{
    if k < n - 1 {
        assert(!marked(dom, options[n - 1].node, "selected"@));
        the_last_marked_option(dom, options, n - 1, k);
    }
}

/// Of a select that takes one choice, the last option that is marked is chosen.
pub proof fn the_last_mark_wins(dom: &Dom, select: NodeId, options: Seq<OptionView>, k: int)
    requires
        dom.attr_of(select, "multiple"@) is None,
        0 <= k < options.len(),
        marked(dom, options[k].node, "selected"@),
        forall|j: int|
            k < j < options.len() ==> !marked(dom, (#[trigger] options[j]).node, "selected"@),
    ensures
        selected_of(dom, select, options) == seq![options[k].node],
{
    the_last_marked_option(dom, options, options.len() as int, k);
}

proof fn every_mark_counts_from(dom: &Dom, options: Seq<OptionView>, i: int, node: NodeId)
    requires
        0 <= i <= options.len(),
    ensures
        marked_options(dom, options, i).contains(node) <==> exists|k: int|
            i <= k < options.len() && (#[trigger] options[k]).node == node && marked(
                dom,
                node,
                "selected"@,
            ),
    decreases options.len() - i,
{
    let all = marked_options(dom, options, i);
    if i < options.len() {
        let rest = marked_options(dom, options, i + 1);
        every_mark_counts_from(dom, options, i + 1, node);
        let n = options[i].node;
        if marked(dom, n, "selected"@) {
            assert(all =~= seq![n] + rest);
            if rest.contains(node) {
                let j = choose|j: int| 0 <= j < rest.len() && rest[j] == node;
                assert(all[j + 1] == node);
            }
            if n == node {
                assert(all[0] == node);
                assert(options[i].node == node);
            }
            if all.contains(node) && n != node {
                let j = choose|j: int| 0 <= j < all.len() && all[j] == node;
                assert(rest[j - 1] == node);
            }
        } else {
            assert(all =~= rest);
        }
    } else {
        assert(!all.contains(node));
    }
}

/// Of a select that takes several choices, every option that is marked is
/// chosen, and no other.
pub proof fn every_mark_counts(
    dom: &Dom,
    select: NodeId,
    options: Seq<OptionView>,
    node: NodeId,
)
    requires
        dom.attr_of(select, "multiple"@) is Some,
    ensures
        selected_of(dom, select, options).contains(node) <==> exists|k: int|
            0 <= k < options.len() && (#[trigger] options[k]).node == node && marked(
                dom,
                node,
                "selected"@,
            ),
{
    every_mark_counts_from(dom, options, 0, node);
}

/// A select is as wide as the widest of its labels: each fits, and one of them
/// fills it.
pub proof fn a_select_holds_its_widest_label(options: Seq<OptionView>, n: int, k: int)
    requires
        0 <= k < n <= options.len(),
    ensures
        cells_of(options[k].label) <= widest_label(options, n),
        widest_label(options, n) == 0 || exists|j: int|
            0 <= j < n && cells_of((#[trigger] options[j]).label) == widest_label(options, n),
    decreases n,
{
    let last = options[n - 1];
    if k < n - 1 {
        a_select_holds_its_widest_label(options, n - 1, k);
    } else if n > 1 {
        a_select_holds_its_widest_label(options, n - 1, 0);
    }
    let w = widest_label(options, n);
    if w != 0 {
        if w == cells_of(last.label) {
            assert(cells_of(options[n - 1].label) == w);
        } else {
            assert(w == widest_label(options, n - 1));
            assert(n > 1);
            let j = choose|j: int|
                0 <= j < n - 1 && cells_of((#[trigger] options[j]).label) == widest_label(
                    options,
                    n - 1,
                );
            assert(cells_of(options[j].label) == w);
        }
    }
}

/// A row of a list of options shows whether the option is chosen, and its label.
pub proof fn a_row_shows_whether_it_is_chosen(option: OptionView, selected: Seq<NodeId>)
    ensures
        ({
            let row = option_row(option, selected);
            &&& row.len() == option.label.len() + 4
            &&& row[1] == 'x' <==> selected.contains(option.node)
            &&& row.skip(4) =~= option.label
        }),
{
}

/// The first option that is a node, if any is.
pub proof fn an_option_is_found_where_it_is(
    options: Seq<OptionView>,
    node: NodeId,
    i: int,
    k: int,
)
    requires
        0 <= i <= k < options.len() <= usize::MAX,
        options[k].node == node,
        forall|j: int| i <= j < k ==> (#[trigger] options[j]).node != node,
    ensures
        option_index(options, node, i) == Some(k as usize),
    decreases k - i,
{
    if i < k {
        assert(options[i].node != node);
        an_option_is_found_where_it_is(options, node, i + 1, k);
    }
}

/// A number of characters is what the page asks for, up to the cap, and the
/// default where it asks for none or for nothing sensible.
pub proof fn a_size_is_what_was_asked_for(dom: &Dom, node: NodeId, name: Seq<char>, default: i32)
    requires
        0 < default <= MAX_CHARS,
    ensures
        ({
            let r = characters_of(dom, node, name, default);
            &&& 0 < r <= MAX_CHARS
            &&& dom.attr_of(node, name) is None ==> r == default
            &&& dom.attr_of(node, name) matches Some(v) ==> match signed(trimmed(v)) {
                None => r == default,
                Some(n) => {
                    &&& n <= 0 ==> r == default
                    &&& 0 < n <= MAX_CHARS ==> r == n
                    &&& MAX_CHARS < n ==> r == MAX_CHARS
                },
            }
        }),
{
}

proof fn unlike(a: Seq<char>, b: Seq<char>, ty: Seq<char>, i: int)
    requires
        alike(ty, a),
        a.len() != b.len() || (0 <= i < a.len() && crate::text::folded(a[i])
            != crate::text::folded(b[i])),
    ensures
        !alike(ty, b),
{
    if a.len() == b.len() {
        assert(crate::text::folded(ty[i]) == crate::text::folded(a[i]));
        if alike(ty, b) {
            assert(crate::text::folded(ty[i]) == crate::text::folded(b[i]));
        }
    }
}

/// What kind of control an input is goes by its type, in whichever case it is
/// written.
pub proof fn an_input_is_what_its_type_says(ty: Seq<char>)
    ensures
        alike(ty, "password"@) ==> input_kind(ty) == (Kind::Text { masked: true }),
        alike(ty, "submit"@) ==> input_kind(ty) == Kind::Button,
        alike(ty, "button"@) ==> input_kind(ty) == Kind::Button,
        alike(ty, "reset"@) ==> input_kind(ty) == Kind::Button,
        alike(ty, "checkbox"@) ==> input_kind(ty) == Kind::Checkbox,
        alike(ty, "radio"@) ==> input_kind(ty) == Kind::Radio,
        alike(ty, "hidden"@) ==> input_kind(ty) == Kind::Absent,
        alike(ty, "text"@) ==> input_kind(ty) == (Kind::Text { masked: false }),
{
    reveal_strlit("password");
    reveal_strlit("submit");
    reveal_strlit("button");
    reveal_strlit("reset");
    reveal_strlit("checkbox");
    reveal_strlit("radio");
    reveal_strlit("hidden");
    reveal_strlit("text");
    reveal_strlit("file");
    reveal_strlit("range");
    reveal_strlit("color");
    reveal_strlit("image");
    reveal_strlit("date");
    reveal_strlit("datetime-local");
    reveal_strlit("month");
    reveal_strlit("week");
    reveal_strlit("time");
    if alike(ty, "submit"@) {
        unlike("submit"@, "password"@, ty, 0);
    }
    if alike(ty, "button"@) {
        unlike("button"@, "password"@, ty, 0);
    }
    if alike(ty, "reset"@) {
        unlike("reset"@, "password"@, ty, 0);
    }
    if alike(ty, "checkbox"@) {
        unlike("checkbox"@, "password"@, ty, 0);
        unlike("checkbox"@, "submit"@, ty, 0);
        unlike("checkbox"@, "button"@, ty, 0);
        unlike("checkbox"@, "reset"@, ty, 0);
    }
    if alike(ty, "radio"@) {
        unlike("radio"@, "password"@, ty, 0);
        unlike("radio"@, "submit"@, ty, 0);
        unlike("radio"@, "button"@, ty, 0);
        unlike("radio"@, "reset"@, ty, 1);
        unlike("radio"@, "checkbox"@, ty, 0);
    }
    if alike(ty, "hidden"@) {
        unlike("hidden"@, "password"@, ty, 0);
        unlike("hidden"@, "submit"@, ty, 0);
        unlike("hidden"@, "button"@, ty, 0);
        unlike("hidden"@, "reset"@, ty, 0);
        unlike("hidden"@, "checkbox"@, ty, 0);
        unlike("hidden"@, "radio"@, ty, 0);
    }
    if alike(ty, "text"@) {
        unlike("text"@, "password"@, ty, 0);
        unlike("text"@, "submit"@, ty, 0);
        unlike("text"@, "button"@, ty, 0);
        unlike("text"@, "reset"@, ty, 0);
        unlike("text"@, "checkbox"@, ty, 0);
        unlike("text"@, "radio"@, ty, 0);
        unlike("text"@, "hidden"@, ty, 0);
        unlike("text"@, "file"@, ty, 0);
        unlike("text"@, "range"@, ty, 0);
        unlike("text"@, "color"@, ty, 0);
        unlike("text"@, "image"@, ty, 0);
        unlike("text"@, "date"@, ty, 0);
        unlike("text"@, "datetime-local"@, ty, 0);
        unlike("text"@, "month"@, ty, 0);
        unlike("text"@, "week"@, ty, 0);
        unlike("text"@, "time"@, ty, 1);
    }
}

} // verus!
