//! Layout, from markup and a stylesheet to boxes and rows.

use unicode_width::{UnicodeWidthChar, UnicodeWidthStr};
use yata::boxes::{BoxId, BoxKind, LayoutBox, LayoutTree};
use yata::boxmodel::{is_atomic_inline, is_block_level, lays_out_as_flex, Hidden};
use yata::context::Ctx;
use yata::dimensions::{Dimensions, Rect};
use yata::document::{
    layout, layout_document, layout_document_readable, layout_document_with, layout_readable,
    lines_from_tree,
};
use yata::dom::{Attr, Dom, NodeData, NodeId};
use yata::field::{
    checked, control, editable_value, generates_no_box, options, radio_group, selected_options,
    Control, FieldPaint, Shows, DEFAULT_COLS, DEFAULT_ROWS, DEFAULT_SIZE, MAX_CHARS,
};
use yata::hit;
use yata::hit::{
    collect_links, dom_links, first_y, hit_test, link_at, nearest_link, nearest_y, visible_links,
    LinkHit,
};
use yata::image::{ImageContext, ImageEntry};
use yata::intrinsic::IntrinsicSizer;
use yata::lines::{debug_lines, from_tree, Line};
use yata::page::{layout_tree_with, layout_tree_with_viewport};
use yata::painted::{painted, painted_select, window};
use yata::style::{
    AlignContent, AlignItems, AlignSelf, BoxSizing, ColorValue, ComputedStyle, Display, Edges, Flex,
    FlexBasis, FlexDirection, FlexWrap, FontStyle, FontWeight, Gaps, GridPlacement, GridTemplate,
    GridTrack, JustifyContent, Length, Overflow, Position, Styles, TextAlign,
};
use yata::term::Style;

// ---- markup -------------------------------------------------------------

fn attr(name: &str, value: &str) -> Attr {
    Attr { name: name.to_string(), value: value.to_string() }
}

fn unescape(text: &str) -> String {
    text.replace("&nbsp;", "\u{a0}")
        .replace("&lt;", "<")
        .replace("&gt;", ">")
        .replace("&amp;", "&")
}

fn is_void(tag: &str) -> bool {
    matches!(tag, "br" | "hr" | "img" | "input" | "meta" | "link")
}

/// One tag's name and attributes, from what stands between its brackets.
fn read_tag(body: &str) -> (String, Vec<Attr>) {
    let chars: Vec<char> = body.chars().collect();
    let mut i: usize = 0;
    let mut name = String::new();
    while i < chars.len() && !chars[i].is_whitespace() && chars[i] != '/' {
        name.push(chars[i].to_ascii_lowercase());
        i += 1;
    }
    let mut attrs = Vec::new();
    loop {
        while i < chars.len() && (chars[i].is_whitespace() || chars[i] == '/') {
            i += 1;
        }
        if i >= chars.len() {
            return (name, attrs);
        }
        let mut key = String::new();
        while i < chars.len() && !chars[i].is_whitespace() && chars[i] != '=' {
            key.push(chars[i].to_ascii_lowercase());
            i += 1;
        }
        let mut value = String::new();
        if i < chars.len() && chars[i] == '=' {
            i += 1;
            if i < chars.len() && (chars[i] == '"' || chars[i] == '\'') {
                let quote = chars[i];
                i += 1;
                while i < chars.len() && chars[i] != quote {
                    value.push(chars[i]);
                    i += 1;
                }
                i += 1;
            } else {
                while i < chars.len() && !chars[i].is_whitespace() {
                    value.push(chars[i]);
                    i += 1;
                }
            }
        }
        attrs.push(Attr { name: key, value: unescape(&value) });
    }
}

fn add_element(dom: &mut Dom, parent: NodeId, tag: &str, attrs: Vec<Attr>) -> NodeId {
    let id = dom.create_element(tag, attrs);
    dom.append(parent, id).unwrap();
    id
}

fn add_text(dom: &mut Dom, parent: NodeId, text: &str) {
    if !text.is_empty() {
        let id = dom.create_text(&unescape(text));
        dom.append(parent, id).unwrap();
    }
}

/// Enough of an HTML parser for the pages below. Every document gets its
/// `html`, `head` and `body`.
fn parse_html(source: &str) -> Dom {
    let mut dom = Dom::new();
    let root = dom.root;
    let html = add_element(&mut dom, root, "html", Vec::new());
    let head = add_element(&mut dom, html, "head", Vec::new());
    let body = add_element(&mut dom, html, "body", Vec::new());
    let mut open: Vec<(String, NodeId)> = vec![("body".to_string(), body)];
    let mut rest = source;
    while let Some(at) = rest.find('<') {
        let parent = open.last().unwrap().1;
        add_text(&mut dom, parent, &rest[..at]);
        let end = at + rest[at..].find('>').unwrap();
        let inside = &rest[at + 1..end];
        rest = &rest[end + 1..];
        if let Some(closing) = inside.strip_prefix('/') {
            let name = closing.trim().to_ascii_lowercase();
            if let Some(k) = open.iter().rposition(|(t, _)| *t == name) {
                if k > 0 {
                    open.truncate(k);
                } else if name == "head" {
                    open[0] = ("body".to_string(), body);
                }
            }
            continue;
        }
        if inside.starts_with('!') {
            continue;
        }
        let (tag, attrs) = read_tag(inside);
        if tag == "html" || tag == "head" || tag == "body" {
            let existing = match tag.as_str() {
                "html" => html,
                "head" => head,
                _ => body,
            };
            dom.nodes[existing.0 as usize].data = NodeData::Element { tag: tag.clone(), attrs };
            if tag != "html" {
                open = vec![(tag, existing)];
            }
            continue;
        }
        if tag == "option" || tag == "li" {
            if open.last().unwrap().0 == tag {
                open.pop();
            }
        }
        let parent = open.last().unwrap().1;
        let id = add_element(&mut dom, parent, &tag, attrs);
        if tag == "textarea" || tag == "script" || tag == "style" {
            let close = format!("</{tag}>");
            let stop = rest.find(&close).unwrap();
            add_text(&mut dom, id, &rest[..stop]);
            rest = &rest[stop + close.len()..];
        } else if !is_void(&tag) {
            open.push((tag, id));
        }
    }
    let parent = open.last().unwrap().1;
    add_text(&mut dom, parent, rest);
    dom
}

// ---- style --------------------------------------------------------------

struct Compound {
    tag: Option<String>,
    id: Option<String>,
    classes: Vec<String>,
}

struct Selector {
    /// From the element itself outwards; the flag asks for the direct parent.
    parts: Vec<(Compound, bool)>,
}

struct Rule {
    selectors: Vec<Selector>,
    declarations: Vec<(String, String)>,
}

struct Stylesheet {
    rules: Vec<Rule>,
}

fn parse_declarations(source: &str) -> Vec<(String, String)> {
    source
        .split(';')
        .filter_map(|d| {
            let (name, value) = d.split_once(':')?;
            Some((name.trim().to_string(), value.trim().to_string()))
        })
        .collect()
}

fn parse_compound(source: &str) -> Compound {
    let mut out = Compound { tag: None, id: None, classes: Vec::new() };
    let mut kind = 't';
    let mut word = String::new();
    for c in source.chars().chain(std::iter::once('\0')) {
        if c == '.' || c == '#' || c == '\0' {
            if !word.is_empty() {
                match kind {
                    't' => out.tag = Some(word.clone()),
                    '#' => out.id = Some(word.clone()),
                    _ => out.classes.push(word.clone()),
                }
            }
            word.clear();
            kind = c;
        } else {
            word.push(c);
        }
    }
    out
}

fn parse_selector(source: &str) -> Selector {
    let mut parts = Vec::new();
    let mut direct = false;
    for word in source.split_whitespace().rev() {
        if word == ">" {
            direct = true;
            continue;
        }
        parts.push((parse_compound(word), false));
        let n = parts.len();
        if n >= 2 {
            parts[n - 2].1 = direct;
        }
        direct = false;
    }
    Selector { parts }
}

fn parse_css(source: &str) -> Stylesheet {
    let mut rules = Vec::new();
    for block in source.split('}') {
        if let Some((heads, body)) = block.split_once('{') {
            rules.push(Rule {
                selectors: heads.split(',').map(parse_selector).collect(),
                declarations: parse_declarations(body),
            });
        }
    }
    Stylesheet { rules }
}

fn compound_matches(dom: &Dom, node: NodeId, c: &Compound) -> bool {
    let tag = match &dom.node(node).data {
        NodeData::Element { tag, .. } => tag,
        _ => return false,
    };
    let classes: Vec<&str> = dom.attr(node, "class").unwrap_or("").split_whitespace().collect();
    c.tag.as_ref().map_or(true, |t| t == tag)
        && c.id.as_ref().map_or(true, |i| dom.attr(node, "id") == Some(i.as_str()))
        && c.classes.iter().all(|k| classes.contains(&k.as_str()))
}

fn selector_matches(dom: &Dom, node: NodeId, s: &Selector) -> bool {
    if !compound_matches(dom, node, &s.parts[0].0) {
        return false;
    }
    let mut at = node;
    for k in 1..s.parts.len() {
        let direct = s.parts[k - 1].1;
        let mut up = dom.parent(at);
        loop {
            match up {
                None => return false,
                Some(p) => {
                    if compound_matches(dom, p, &s.parts[k].0) {
                        at = p;
                        break;
                    }
                    if direct {
                        return false;
                    }
                    up = dom.parent(p);
                }
            }
        }
    }
    true
}

fn specificity(s: &Selector) -> (usize, usize, usize) {
    let ids = s.parts.iter().filter(|(c, _)| c.id.is_some()).count();
    let classes = s.parts.iter().map(|(c, _)| c.classes.len()).sum();
    let tags = s.parts.iter().filter(|(c, _)| c.tag.is_some()).count();
    (ids, classes, tags)
}

fn thousandths(number: &str) -> Option<i64> {
    let value: f64 = number.parse().ok()?;
    Some((value * 1000.0).round() as i64)
}

fn length(value: &str) -> Option<Length> {
    if value == "auto" {
        return Some(Length::Auto);
    }
    if value == "0" {
        return Some(Length::Px(0));
    }
    if let Some(n) = value.strip_suffix("px") {
        return thousandths(n).map(Length::Px);
    }
    if let Some(n) = value.strip_suffix("em") {
        return thousandths(n).map(Length::Em);
    }
    if let Some(n) = value.strip_suffix('%') {
        return thousandths(n).map(Length::Percent);
    }
    None
}

/// A size, which no negative number can be.
fn size(value: &str) -> Option<Length> {
    match length(value)? {
        Length::Px(n) | Length::Em(n) | Length::Percent(n) if n < 0 => None,
        l => Some(l),
    }
}

fn four(value: &str) -> Option<Edges> {
    let all: Option<Vec<Length>> = value.split_whitespace().map(length).collect();
    let v = all?;
    let at = |i: usize| v[i.min(v.len() - 1)];
    match v.len() {
        1 => Some(Edges { top: at(0), right: at(0), bottom: at(0), left: at(0) }),
        2 => Some(Edges { top: at(0), right: at(1), bottom: at(0), left: at(1) }),
        3 => Some(Edges { top: at(0), right: at(1), bottom: at(2), left: at(1) }),
        4 => Some(Edges { top: at(0), right: at(1), bottom: at(2), left: at(3) }),
        _ => None,
    }
}

fn justify(value: &str) -> Option<JustifyContent> {
    Some(match value {
        "flex-start" => JustifyContent::FlexStart,
        "flex-end" => JustifyContent::FlexEnd,
        "center" => JustifyContent::Center,
        "space-between" => JustifyContent::SpaceBetween,
        "space-around" => JustifyContent::SpaceAround,
        "space-evenly" => JustifyContent::SpaceEvenly,
        _ => return None,
    })
}

fn align(value: &str) -> Option<AlignItems> {
    Some(match value {
        "stretch" => AlignItems::Stretch,
        "flex-start" => AlignItems::FlexStart,
        "flex-end" => AlignItems::FlexEnd,
        "center" => AlignItems::Center,
        "baseline" => AlignItems::Baseline,
        _ => return None,
    })
}

fn basis(value: &str) -> Option<FlexBasis> {
    match value {
        "auto" => Some(FlexBasis::Auto),
        "content" => Some(FlexBasis::Content),
        v => size(v).map(FlexBasis::Size),
    }
}

fn flex(value: &str) -> Option<Flex> {
    if value == "none" {
        return Some(Flex { grow: 0, shrink: 0, basis: FlexBasis::Auto });
    }
    let mut out = Flex { grow: 1000, shrink: 1000, basis: FlexBasis::Size(Length::Px(0)) };
    let mut numbers = 0;
    for word in value.split_whitespace() {
        if let Some(n) = thousandths(word) {
            if numbers == 0 {
                out.grow = n as u32;
            } else {
                out.shrink = n as u32;
            }
            numbers += 1;
        } else {
            out.basis = basis(word)?;
        }
    }
    Some(out)
}

fn tracks(value: &str) -> Vec<GridTrack> {
    value
        .split_whitespace()
        .filter_map(|w| {
            if w == "auto" {
                Some(GridTrack::Auto)
            } else if let Some(n) = w.strip_suffix("fr") {
                thousandths(n).map(|n| GridTrack::Fr(n as u32))
            } else {
                size(w).map(GridTrack::Fixed)
            }
        })
        .collect()
}

fn placement(value: &str) -> (GridPlacement, GridPlacement) {
    let one = |w: &str| {
        let w = w.trim();
        if let Some(n) = w.strip_prefix("span ") {
            GridPlacement::Span(n.parse().unwrap_or(1))
        } else {
            match w.parse() {
                Ok(n) => GridPlacement::Line(n),
                Err(_) => GridPlacement::Auto,
            }
        }
    };
    match value.split_once('/') {
        Some((a, b)) => (one(a), one(b)),
        None => (one(value), GridPlacement::Auto),
    }
}

fn overflow(value: &str) -> Option<Overflow> {
    Some(match value {
        "visible" => Overflow::Visible,
        "hidden" => Overflow::Hidden,
        "clip" => Overflow::Clip,
        "scroll" => Overflow::Scroll,
        "auto" => Overflow::Auto,
        _ => return None,
    })
}

fn set<T>(slot: &mut T, value: Option<T>) {
    if let Some(v) = value {
        *slot = v;
    }
}

fn declare(s: &mut ComputedStyle, all_tracks: &mut Vec<GridTrack>, name: &str, value: &str) {
    match name {
        "display" => set(
            &mut s.display,
            match value {
                "block" | "list-item" => Some(Display::Block),
                "inline" => Some(Display::Inline),
                "inline-block" => Some(Display::InlineBlock),
                "flex" => Some(Display::Flex),
                "inline-flex" => Some(Display::InlineFlex),
                "grid" => Some(Display::Grid),
                "inline-grid" => Some(Display::InlineGrid),
                "none" => Some(Display::NoBox),
                _ => None,
            },
        ),
        "position" => set(
            &mut s.position,
            match value {
                "static" => Some(Position::Static),
                "relative" => Some(Position::Relative),
                "absolute" => Some(Position::Absolute),
                "fixed" => Some(Position::Fixed),
                "sticky" => Some(Position::Sticky),
                _ => None,
            },
        ),
        "top" => set(&mut s.top, length(value)),
        "right" => set(&mut s.right, length(value)),
        "bottom" => set(&mut s.bottom, length(value)),
        "left" => set(&mut s.left, length(value)),
        "width" => set(&mut s.width, size(value)),
        "height" => set(&mut s.height, size(value)),
        "min-width" => set(&mut s.min_width, size(value)),
        "min-height" => set(&mut s.min_height, size(value)),
        "max-width" => set(&mut s.max_width, size(value)),
        "max-height" => set(&mut s.max_height, size(value)),
        "margin" => set(&mut s.margin, four(value)),
        "margin-top" => set(&mut s.margin.top, length(value)),
        "margin-right" => set(&mut s.margin.right, length(value)),
        "margin-bottom" => set(&mut s.margin.bottom, length(value)),
        "margin-left" => set(&mut s.margin.left, length(value)),
        "padding" => set(&mut s.padding, four(value)),
        "padding-top" => set(&mut s.padding.top, size(value)),
        "padding-right" => set(&mut s.padding.right, size(value)),
        "padding-bottom" => set(&mut s.padding.bottom, size(value)),
        "padding-left" => set(&mut s.padding.left, size(value)),
        "border" => {
            let first = value.split_whitespace().find_map(size);
            set(&mut s.border, first.map(|l| Edges { top: l, right: l, bottom: l, left: l }));
        }
        "box-sizing" => set(
            &mut s.box_sizing,
            match value {
                "border-box" => Some(BoxSizing::BorderBox),
                "content-box" => Some(BoxSizing::ContentBox),
                _ => None,
            },
        ),
        "overflow" => {
            set(&mut s.overflow_x, overflow(value));
            set(&mut s.overflow_y, overflow(value));
        }
        "text-align" => set(
            &mut s.text_align,
            match value {
                "left" => Some(TextAlign::Left),
                "center" => Some(TextAlign::Center),
                "right" => Some(TextAlign::Right),
                _ => None,
            },
        ),
        "flex" => set(&mut s.flex, flex(value)),
        "flex-grow" => set(&mut s.flex.grow, thousandths(value).map(|n| n as u32)),
        "flex-shrink" => set(&mut s.flex.shrink, thousandths(value).map(|n| n as u32)),
        "flex-basis" => set(&mut s.flex.basis, basis(value)),
        "flex-direction" => set(
            &mut s.flex_direction,
            match value {
                "row" => Some(FlexDirection::Row),
                "row-reverse" => Some(FlexDirection::RowReverse),
                "column" => Some(FlexDirection::Column),
                "column-reverse" => Some(FlexDirection::ColumnReverse),
                _ => None,
            },
        ),
        "flex-wrap" => set(
            &mut s.flex_wrap,
            match value {
                "nowrap" => Some(FlexWrap::NoWrap),
                "wrap" => Some(FlexWrap::Wrap),
                "wrap-reverse" => Some(FlexWrap::WrapReverse),
                _ => None,
            },
        ),
        "justify-content" => set(&mut s.justify_content, justify(value)),
        "align-items" => set(&mut s.align_items, align(value)),
        "align-self" => set(&mut s.align_self, align(value).map(AlignSelf::Is)),
        "align-content" => set(
            &mut s.align_content,
            if value == "stretch" {
                Some(AlignContent::Stretch)
            } else {
                justify(value).map(AlignContent::Pack)
            },
        ),
        "gap" => {
            let mut words = value.split_whitespace();
            let row = words.next().and_then(size);
            let column = words.next().and_then(size).or(row);
            if let (Some(row), Some(column)) = (row, column) {
                s.gap = Gaps { row, column };
            }
        }
        "order" => set(&mut s.order, value.parse().ok()),
        "grid-template-columns" => {
            let list = tracks(value);
            s.grid_template_columns = GridTemplate { start: all_tracks.len(), len: list.len() };
            all_tracks.extend(list);
        }
        "grid-template-rows" => {
            let list = tracks(value);
            s.grid_template_rows = GridTemplate { start: all_tracks.len(), len: list.len() };
            all_tracks.extend(list);
        }
        "grid-column" => s.grid_column = placement(value),
        "grid-row" => s.grid_row = placement(value),
        _ => {}
    }
}

/// What a tag looks like before any stylesheet.
fn defaults(dom: &Dom, node: NodeId, tag: &str, s: &mut ComputedStyle) {
    let one = Length::Em(1000);
    match tag {
        "html" | "body" | "div" | "p" | "ul" | "ol" | "li" | "pre" | "h1" | "h2" | "h3" | "form"
        | "hr" | "table" | "tr" | "td" | "th" | "section" => s.display = Display::Block,
        "head" | "meta" | "title" | "script" | "style" | "link" => {
            s.display = Display::NoBox;
            s.hidden_by_ua = true;
        }
        "input" | "textarea" | "select" | "button" => {
            s.display = Display::InlineBlock;
            s.padding.left = Length::Px(8000);
            s.padding.right = Length::Px(8000);
        }
        _ => {}
    }
    match tag {
        "p" | "pre" | "h1" | "h2" | "h3" => s.margin.bottom = one,
        "ul" | "ol" => {
            s.margin.bottom = one;
            s.padding.left = Length::Em(2000);
        }
        "hr" => {
            s.margin.top = one;
            s.margin.bottom = one;
        }
        "b" | "strong" | "th" => s.font_weight = FontWeight::Bold,
        "i" | "em" => s.font_style = FontStyle::Italic,
        "a" => {
            if dom.attr(node, "href").is_some() {
                s.underline = true;
                s.color = ColorValue::Rgb(0x5c, 0x5c, 0xff);
            }
        }
        _ => {}
    }
}

fn style_below(dom: &Dom, sheets: &[&Stylesheet], node: NodeId, inherited: ComputedStyle, out: &mut Styles) {
    let mut s = ComputedStyle::initial();
    s.text_align = inherited.text_align;
    s.font_weight = inherited.font_weight;
    s.font_style = inherited.font_style;
    s.underline = inherited.underline;
    s.color = inherited.color;
    if let NodeData::Element { tag, .. } = &dom.node(node).data {
        defaults(dom, node, tag, &mut s);
        let mut matched: Vec<((usize, usize, usize), usize, &Rule)> = Vec::new();
        let mut order: usize = 0;
        for sheet in sheets {
            for rule in &sheet.rules {
                let best = rule
                    .selectors
                    .iter()
                    .filter(|sel| !sel.parts.is_empty() && selector_matches(dom, node, sel))
                    .map(specificity)
                    .max();
                if let Some(spec) = best {
                    matched.push((spec, order, rule));
                }
                order += 1;
            }
        }
        matched.sort_by_key(|(spec, order, _)| (*spec, *order));
        let hidden = s.hidden_by_ua;
        for (_, _, rule) in matched {
            for (name, value) in &rule.declarations {
                declare(&mut s, &mut out.tracks, name, value);
            }
        }
        if let Some(own) = dom.attr(node, "style") {
            for (name, value) in parse_declarations(own) {
                declare(&mut s, &mut out.tracks, &name, &value);
            }
        }
        if hidden {
            s.display = Display::NoBox;
        }
    }
    out.by_node[node.0 as usize] = s;
    for c in kids(dom, node) {
        style_below(dom, sheets, c, s, out);
    }
}

fn style_tree(dom: &Dom, sheets: &[&Stylesheet]) -> Styles {
    let mut out = Styles {
        by_node: vec![ComputedStyle::initial(); dom.node_count()],
        tracks: Vec::new(),
    };
    style_below(dom, sheets, dom.root, ComputedStyle::initial(), &mut out);
    out
}

// ---- queries ------------------------------------------------------------

fn kids(dom: &Dom, id: NodeId) -> impl Iterator<Item = NodeId> + '_ {
    dom.children(id).iter().copied()
}

fn all_nodes(dom: &Dom) -> impl Iterator<Item = NodeId> {
    (0..dom.node_count() as u32).map(NodeId)
}

fn find_tag(dom: &Dom, tag: &str) -> NodeId {
    all_nodes(dom)
        .find(|&id| matches!(&dom.node(id).data, NodeData::Element { tag: t, .. } if t == tag))
        .unwrap_or_else(|| panic!("no <{tag}> in the page"))
}

fn node_with_id(dom: &Dom, id: &str) -> NodeId {
    all_nodes(dom).find(|&n| dom.attr(n, "id") == Some(id)).expect("an element of that id")
}

fn walk(tree: &LayoutTree, id: BoxId, f: &mut dyn FnMut(BoxId, &LayoutBox)) {
    for id in tree.walk(id) {
        f(id, tree.get(id));
    }
}

/// The images of a page, sized by their attributes: 8 by 16 pixels to a cell.
fn images_of(dom: &Dom, base: &str) -> ImageContext {
    let folder = &base[..base.rfind('/').unwrap() + 1];
    let mut entries = Vec::new();
    for node in all_nodes(dom) {
        if let NodeData::Element { tag, .. } = &dom.node(node).data {
            if tag == "img" {
                let number = |name: &str| dom.attr(node, name).and_then(|v| v.parse::<u16>().ok());
                entries.push(ImageEntry {
                    node,
                    url: format!("{folder}{}", dom.attr(node, "src").unwrap_or("")),
                    alt: dom.attr(node, "alt").unwrap_or("").to_string(),
                    cells_w: number("width").unwrap_or(8) / 8,
                    cells_h: number("height").unwrap_or(16) / 16,
                    firm: number("width").is_some() && number("height").is_some(),
                });
            }
        }
    }
    ImageContext::Known(entries)
}

#[derive(Clone, Debug)]
struct Match {
    x: i32,
    y: i32,
}

/// Where a word can be seen on the page.
fn find_matches(tree: &LayoutTree, word: &str) -> Vec<Match> {
    let mut out = Vec::new();
    for (id, clip) in tree.walk_clipped() {
        let b = tree.get(id);
        if b.kind == BoxKind::Text && clip.shows(b) {
            let text = b.text.as_deref().unwrap_or("");
            if let Some(at) = text.find(word) {
                let before = text[..at].width() as i32;
                out.push(Match { x: b.dimensions.content.x + before, y: b.dimensions.content.y });
            }
        }
    }
    out
}

/// The boxes that an element got, each by its kind and its tag.
fn box_lines(dom: &Dom, tree: &LayoutTree) -> Vec<String> {
    let mut out = Vec::new();
    walk(tree, tree.root, &mut |_, b| {
        let kind = match b.kind {
            BoxKind::Table => "table",
            BoxKind::TableRow => "table-row",
            BoxKind::TableCell => "table-cell",
            _ => "box",
        };
        if let Some(n) = b.node {
            out.push(format!("{kind} <{}>", dom.tag(n)));
        }
    });
    out
}

// ---- blocks, inlines, flex and tables -----------------------------------

fn styled_dom(html: &str, css: &str) -> (Dom, Styles) {
    let dom = parse_html(html);
    let sheet = parse_css(css);
    let styles = style_tree(&dom, &[&sheet]);
    (dom, styles)
}

fn lines(html: &str, width: u16) -> Vec<Line> {
    let (dom, styles) = styled_dom(html, "");
    layout(&dom, &styles, width, Hidden::Respect)
}

fn lines_styled(html: &str, css: &str, width: u16) -> Vec<Line> {
    let (dom, styles) = styled_dom(html, css);
    layout(&dom, &styles, width, Hidden::Respect)
}

fn text(line: &Line) -> String {
    line.spans.iter().map(|s| s.text.as_str()).collect()
}

fn cells(line: &Line) -> usize {
    line.spans.iter().map(|s| s.text.width()).sum()
}

fn plain(lines: &[Line]) -> Vec<String> {
    lines.iter().map(text).collect()
}

fn geometry(html_src: &str, css: &str, width: u16) -> Vec<(BoxKind, i32, i32, i32, i32)> {
    let (dom, styles) = styled_dom(html_src, css);
    let tree = layout_document(&dom, &styles, width, Hidden::Respect);
    tree.boxes
        .iter()
        .map(|b| {
            let d = b.dimensions.content;
            (b.kind, d.x, d.y, d.width, d.height)
        })
        .collect()
}

fn items(html_src: &str, css: &str, width: u16) -> Vec<(i32, i32)> {
    let (dom, styles) = styled_dom(html_src, css);
    let tree = layout_document(&dom, &styles, width, Hidden::Respect);
    let mut out = Vec::new();
    walk(&tree, tree.root, &mut |_, b| {
        if b.kind == BoxKind::Flex {
            out = b
                .children
                .iter()
                .map(|&c| {
                    let d = tree.get(c).dimensions;
                    (d.margin_box().x, d.content.width)
                })
                .collect();
        }
    });
    out
}

fn item_boxes(html_src: &str, css: &str, width: u16) -> Vec<(i32, i32, i32, i32)> {
    let (dom, styles) = styled_dom(html_src, css);
    let tree = layout_document(&dom, &styles, width, Hidden::Respect);
    let mut out = Vec::new();
    walk(&tree, tree.root, &mut |_, b| {
        if b.kind == BoxKind::Flex {
            out = b
                .children
                .iter()
                .map(|&c| {
                    let d = tree.get(c).dimensions.content;
                    (d.x, d.y, d.width, d.height)
                })
                .collect();
        }
    });
    out
}

fn flex_box(html_src: &str, css: &str, width: u16) -> (i32, i32, i32, i32) {
    let (dom, styles) = styled_dom(html_src, css);
    let tree = layout_document(&dom, &styles, width, Hidden::Respect);
    let mut out = None;
    walk(&tree, tree.root, &mut |_, b| {
        if b.kind == BoxKind::Flex && out.is_none() {
            let d = b.dimensions.content;
            out = Some((d.x, d.y, d.width, d.height));
        }
    });
    out.expect("no flex container in the tree")
}

#[test]
fn flex_items_sit_side_by_side_at_their_own_widths() {
    let row = "<div id=r><div class=i>a</div><div class=i>b</div><div class=i>c</div></div>";
    let css = "#r { display: flex } .i { flex-basis: 80px }";
    assert_eq!(items(row, css, 80), [(0, 10), (10, 10), (20, 10)]);

    let (dom, styles) = styled_dom(row, css);
    let tree = layout_document(&dom, &styles, 80, Hidden::Respect);
    let mut ys = Vec::new();
    walk(&tree, tree.root, &mut |_, b| {
        if b.kind == BoxKind::Text {
            ys.push(b.dimensions.content.y);
        }
    });
    assert_eq!(ys, [0, 0, 0], "items share the line's rows");
}

#[test]
fn a_row_is_as_tall_as_its_tallest_item() {
    let row = "<div id=r><div>one</div><div>two words here that wrap</div></div>";
    let (dom, styles) = styled_dom(row, "#r { display: flex } #r div { flex-basis: 100% }");
    let tree = layout_document(&dom, &styles, 20, Hidden::Respect);
    let mut flex_h = 0;
    let mut tallest_item = 0;
    walk(&tree, tree.root, &mut |_, b| {
        if b.kind == BoxKind::Flex {
            flex_h = b.dimensions.content.height;
            tallest_item = b
                .children
                .iter()
                .map(|&c| tree.get(c).dimensions.margin_box().height)
                .max()
                .unwrap_or(0);
        }
    });
    assert!(tallest_item > 1, "the second item must have wrapped");
    assert_eq!(flex_h, tallest_item);
}

#[test]
fn flex_basis_reads_every_spelling_the_page_can_write() {
    let row = "<div id=r><div class=a>aa</div><div class=b>bb</div></div>";
    assert_eq!(
        items(
            row,
            "#r{display:flex} .a{flex-basis:160px} .b{flex-basis:25%}",
            80
        ),
        [(0, 20), (20, 20)]
    );
    assert_eq!(
        items(row, "#r{display:flex} .a{width:240px} .b{width:80px}", 80),
        [(0, 30), (30, 10)]
    );
    assert_eq!(items(row, "#r{display:flex}", 80), [(0, 2), (2, 2)]);
    assert_eq!(
        items(
            row,
            "#r{display:flex} div{width:240px;flex-basis:content}",
            80
        ),
        [(0, 2), (2, 2)]
    );
}

#[test]
fn gaps_take_their_cells_before_the_items_do() {
    let row = "<div id=r><div>a</div><div>b</div></div>";
    assert_eq!(
        items(row, "#r { display: flex; gap: 1em } #r div { flex: 1 }", 20),
        [(0, 9), (11, 9)]
    );
}

#[test]
fn row_gap_is_the_cross_axis_gap_and_a_row_has_one_line() {
    let row = "<div id=r><div>a</div><div>b</div></div>";
    let sizing = "#r div { flex: 0 0 80px }";
    let both = format!("#r {{ display: flex; gap: 4em 1em }} {sizing}");
    let column_only = format!("#r {{ display: flex; gap: 0 1em }} {sizing}");
    assert_eq!(items(row, &both, 40), items(row, &column_only, 40));

    let (dom, styles) = styled_dom(row, &both);
    let tree = layout_document(&dom, &styles, 40, Hidden::Respect);
    let mut height = 0;
    walk(&tree, tree.root, &mut |_, b| {
        if b.kind == BoxKind::Flex {
            height = b.dimensions.content.height;
        }
    });
    assert_eq!(height, 1, "a four-line row gap on a one-line row");
}

#[test]
fn order_moves_an_item_visually_and_leaves_the_document_alone() {
    let row = "<div id=r><a href=/1>one</a><a class=second href=/2>two</a></div>";
    let css = "#r { display: flex } a { flex-basis: 25% }";
    let (dom, styles) = styled_dom(row, css);
    let tree = layout_document(&dom, &styles, 40, Hidden::Respect);
    assert_eq!(
        hit::link_at(&tree, &dom, 1, 0).map(|(_, u)| u),
        Some("/1".into())
    );

    let css = "#r { display: flex } a { flex-basis: 25% } .second { order: -1 }";
    let (dom, styles) = styled_dom(row, css);
    let tree = layout_document(&dom, &styles, 40, Hidden::Respect);
    assert_eq!(
        hit::link_at(&tree, &dom, 1, 0).map(|(_, u)| u),
        Some("/2".into())
    );
    assert_eq!(
        hit::dom_links(&dom)
            .iter()
            .map(|(_, u)| u.as_str())
            .collect::<Vec<_>>(),
        ["/1", "/2"]
    );
    assert_eq!(
        hit::link_at(&tree, &dom, 11, 0).map(|(_, u)| u),
        Some("/1".into())
    );
}

#[test]
fn a_flex_item_can_itself_be_a_flex_container() {
    let markup = "<div id=r><div id=n><div>a</div><div>b</div></div><div>c</div></div>";
    let css = "#r { display: flex } #n { display: flex } #r > div { flex: 1 }
               #n > div { flex: 1 }";
    let (dom, styles) = styled_dom(markup, css);
    let tree = layout_document(&dom, &styles, 40, Hidden::Respect);
    let mut rows = Vec::new();
    walk(&tree, tree.root, &mut |_, b| {
        if b.kind == BoxKind::Flex {
            rows.push((
                b.dimensions.content.width,
                b.children
                    .iter()
                    .map(|&c| tree.get(c).dimensions.content.width)
                    .collect::<Vec<_>>(),
            ));
        }
    });
    assert_eq!(rows, [(40, vec![20, 20]), (20, vec![10, 10])]);
}

fn item_text_extents(tree: &LayoutTree) -> Vec<(i32, i32)> {
    let mut out = Vec::new();
    walk(&tree, tree.root, &mut |_, b| {
        if b.kind != BoxKind::Flex {
            return;
        }
        for &item in &b.children {
            let box_width = tree.get(item).dimensions.content.width;
            let left = tree.get(item).dimensions.content.x;
            let mut reach = 0;
            walk(&tree, item, &mut |_, t| {
                if t.kind == BoxKind::Text {
                    reach = reach.max(t.dimensions.content.right() - left);
                }
            });
            out.push((box_width, reach));
        }
    });
    out
}

#[test]
fn a_list_item_flex_item_is_sized_with_the_marker_it_lays_out_with() {
    let markup = "<ul id=r><li>alpha beta</li><li>gamma delta</li></ul>";
    let (dom, styles) = styled_dom(markup, "#r { display: flex }");
    let tree = layout_document(&dom, &styles, 60, Hidden::Respect);
    let extents = item_text_extents(&tree);
    assert_eq!(extents.len(), 2, "two items: {extents:?}");
    for (width, reach) in extents {
        assert!(
            reach <= width,
            "text reaches {reach} in a {width}-cell item"
        );
    }
    let rows = plain(&lines_styled(markup, "#r { display: flex }", 60));
    assert!(rows[0].contains("• alpha beta"), "{rows:?}");
    assert_eq!(rows.len(), 2, "nothing wrapped: {rows:?}");
}

#[test]
fn a_revealed_page_measures_the_flex_items_it_lays_out() {
    let markup = "<body style='display:none'>\
                  <div id=r><div>alpha</div><div>beta</div></div></body>";
    let (dom, styles) = styled_dom(markup, "#r { display: flex }");
    let (tree, revealed) =
        layout_document_readable(&dom, &styles, 40, &ImageContext::empty());
    assert!(revealed, "the fixture must be rescued by the reveal pass");
    let extents = item_text_extents(&tree);
    assert_eq!(extents.len(), 2, "two items: {extents:?}");
    for (width, reach) in &extents {
        assert!(*width > 0, "a revealed item collapsed to nothing");
        assert!(
            reach <= width,
            "text reaches {reach} in a {width}-cell item"
        );
    }
    assert_eq!(plain(&lines_from_tree(&tree))[0].trim_end(), "alphabeta");
}

#[test]
fn a_flex_list_item_loses_its_marker_the_way_a_browser_drops_it() {
    assert_eq!(
        plain(&lines_styled(
            "<ul><li>first</li></ul>",
            "li{display:block}",
            40
        )),
        ["    • first", ""]
    );
    assert_eq!(
        plain(&lines_styled(
            "<ul><li>first</li></ul>",
            "li{display:flex}",
            40
        )),
        ["    first", ""]
    );
}

#[test]
fn text_between_items_becomes_one_anonymous_item_and_whitespace_none() {
    let markup = "<div id=r>\n  lead text\n  <b>bee</b>\n  tail\n</div>";
    let (dom, styles) = styled_dom(markup, "#r { display: flex }");
    let tree = layout_document(&dom, &styles, 40, Hidden::Respect);
    let mut kinds = Vec::new();
    walk(&tree, tree.root, &mut |_, b| {
        if b.kind == BoxKind::Flex {
            kinds = b.children.iter().map(|&c| tree.get(c).kind).collect();
        }
    });
    assert_eq!(
        kinds,
        [
            BoxKind::AnonymousBlock,
            BoxKind::Block,
            BoxKind::AnonymousBlock
        ],
        "lead text, <b>, tail — and nothing for the newlines between them"
    );
    let text: Vec<String> = plain(&lines_styled(markup, "#r { display: flex }", 40));
    assert_eq!(text[0].trim_end(), "lead textbeetail");
}

#[test]
fn an_items_own_edges_come_out_of_the_line_before_it_is_divided() {
    let row = "<div id=r><div class=a>a</div><div class=b>b</div></div>";
    let css = "#r { display: flex } #r div { flex: 1 }
               .a { margin: 0 1em; padding: 0 8px }";
    let (dom, styles) = styled_dom(row, css);
    let tree = layout_document(&dom, &styles, 40, Hidden::Respect);
    let mut boxes = Vec::new();
    walk(&tree, tree.root, &mut |_, b| {
        if b.kind == BoxKind::Flex {
            boxes = b
                .children
                .iter()
                .map(|&c| {
                    let d = tree.get(c).dimensions;
                    (
                        d.margin_box().x,
                        d.content.x,
                        d.content.width,
                        d.margin_box().width,
                    )
                })
                .collect();
        }
    });
    assert_eq!(boxes, [(0, 3, 17, 23), (23, 23, 17, 17)]);
    assert_eq!(boxes.iter().map(|b| b.3).sum::<i32>(), 40);
}

#[test]
fn a_border_box_basis_counts_the_edges_it_says_it_does() {
    let row = "<div id=r><div class=a>a</div></div>";
    let css = "#r { display: flex } .a { flex-basis: 160px; padding: 0 8px }";
    assert_eq!(items(row, css, 40), [(0, 20)]);
    let css = format!("{css} .a {{ box-sizing: border-box }}");
    assert_eq!(items(row, &css, 40), [(0, 18)]);
}

#[test]
fn a_grown_row_fills_its_container_exactly_at_every_width() {
    let markup = "<div id=r><div class=a>alpha</div><div class=b>b</div>\
                  <div class=c>gamma</div></div>";
    let css = "#r { display: flex; gap: 1em } .a { flex: 1 } .b { flex: 2 }
               .c { flex: 1 }";
    for width in 20..=120u16 {
        let (dom, styles) = styled_dom(markup, css);
        let tree = layout_document(&dom, &styles, width, Hidden::Respect);
        let mut checked = false;
        walk(&tree, tree.root, &mut |_, b| {
            if b.kind != BoxKind::Flex {
                return;
            }
            checked = true;
            let widths: Vec<i32> = b
                .children
                .iter()
                .map(|&c| tree.get(c).dimensions.margin_box().width)
                .collect();
            assert_eq!(widths.len(), 3, "width {width}: an item went missing");
            assert!(
                widths.iter().all(|&w| w >= 0),
                "width {width}: negative item {widths:?}"
            );
            assert_eq!(
                widths.iter().sum::<i32>() + 4,
                b.dimensions.content.width,
                "width {width}: items {widths:?} do not fill the row"
            );
        });
        assert!(checked, "width {width}: no flex container in the tree");
    }
}

#[test]
fn alignment_moves_everything_inside_the_item_it_moves() {
    let row = "<div id=r><div class=i><b>hi</b> there</div></div>";
    let css = "#r { display: flex; justify-content: center } .i { flex: 0 0 160px }";
    assert_eq!(items(row, css, 80), [(30, 20)]);

    let (dom, styles) = styled_dom(row, css);
    let tree = layout_document(&dom, &styles, 80, Hidden::Respect);
    let mut texts = Vec::new();
    walk(&tree, tree.root, &mut |_, b| {
        if b.kind == BoxKind::Text {
            texts.push((
                b.text.clone().unwrap_or_default(),
                b.dimensions.content.x,
                b.dimensions.content.right(),
            ));
        }
    });
    assert!(!texts.is_empty(), "the item has text to move");
    for (text, left, right) in &texts {
        assert!(
            *left >= 30 && *right <= 50,
            "{text:?} at {left}..{right} is outside the centred item"
        );
    }
    assert_eq!(texts[0].1, 30, "the line starts at the item's content edge");
    let row_text = &plain(&lines_styled(row, css, 80))[0];
    assert!(row_text.starts_with(&" ".repeat(30)), "{row_text:?}");
    assert_eq!(row_text.trim_end(), format!("{}hi there", " ".repeat(30)));
}

#[test]
fn an_hr_item_is_pushed_by_its_auto_margin_instead_of_filling_it() {
    let row = "<div id=r><hr></div>";
    let pushed = "#r { display: flex } hr { flex: 0 0 80px; margin: 0; margin-left: auto }";
    let by_alignment =
        "#r { display: flex; justify-content: flex-end } hr { flex: 0 0 80px; margin: 0 }";
    assert_eq!(geometry(row, pushed, 40), geometry(row, by_alignment, 40));
    assert_eq!(items(row, pushed, 40), [(0, 10)]);
    let (dom, styles) = styled_dom(row, pushed);
    let tree = layout_document(&dom, &styles, 40, Hidden::Respect);
    let mut tiled = Vec::new();
    walk(&tree, tree.root, &mut |_, b| {
        if b.kind == BoxKind::Flex {
            tiled = b
                .children
                .iter()
                .map(|&c| tree.get(c).dimensions.margin_box().width)
                .collect();
        }
    });
    assert_eq!(tiled, [40]);

    let img = "<div id=r><img src=logo.png width=80 height=16></div>";
    let (dom, styles) = styled_dom(img, "#r { display: flex } img { margin-left: auto }");
    let ctx = images_of(&dom, "https://fixture.test/page");
    let tree = layout_document_with(&dom, &styles, 40, Hidden::Respect, &ctx);
    let mut boxes = Vec::new();
    walk(&tree, tree.root, &mut |_, b| {
        if b.kind == BoxKind::Image {
            boxes.push((b.dimensions.content.x, b.dimensions.content.width));
        }
    });
    assert_eq!(boxes, [(30, 10)], "the image is pushed, not stretched");
}

#[test]
fn row_reverse_starts_at_the_right_edge_and_hit_tests_where_it_drew() {
    let row = "<div id=r><a href=/1>one</a><a href=/2>two</a></div>";
    let css = "#r { display: flex; flex-direction: row-reverse } a { flex: 0 0 80px }";
    assert_eq!(items(row, css, 40), [(30, 10), (20, 10)]);

    let (dom, styles) = styled_dom(row, css);
    let tree = layout_document(&dom, &styles, 40, Hidden::Respect);
    assert_eq!(
        hit::link_at(&tree, &dom, 30, 0).map(|(_, u)| u),
        Some("/1".into())
    );
    assert_eq!(
        hit::link_at(&tree, &dom, 20, 0).map(|(_, u)| u),
        Some("/2".into())
    );
    assert_eq!(
        hit::dom_links(&dom)
            .iter()
            .map(|(_, u)| u.as_str())
            .collect::<Vec<_>>(),
        ["/1", "/2"]
    );
}

#[test]
fn an_aligned_row_neither_overlaps_nor_overflows_at_any_width() {
    let markup = "<div id=r><div>a</div><div>b</div><div>c</div></div>";
    for justify in [
        "flex-start",
        "flex-end",
        "center",
        "space-between",
        "space-around",
        "space-evenly",
    ] {
        let css = format!(
            "#r {{ display: flex; gap: 1em; justify-content: {justify} }}
             #r div {{ flex: 0 0 80px }}"
        );
        for width in 20..=120u16 {
            let (dom, styles) = styled_dom(markup, &css);
            let tree = layout_document(&dom, &styles, width, Hidden::Respect);
            let mut boxes = Vec::new();
            walk(&tree, tree.root, &mut |_, b| {
                if b.kind == BoxKind::Flex {
                    boxes = b
                        .children
                        .iter()
                        .map(|&c| {
                            let mb = tree.get(c).dimensions.margin_box();
                            (mb.x, mb.width)
                        })
                        .collect();
                }
            });
            let label = format!("{justify} at {width}: {boxes:?}");
            assert_eq!(boxes.len(), 3, "{label}");
            for pair in boxes.windows(2) {
                assert!(pair[1].0 - (pair[0].0 + pair[0].1) >= 2, "{label}");
            }
            if width >= 34 {
                assert!(boxes[0].0 >= 0, "{label}");
                let end = boxes[2].0 + boxes[2].1;
                assert!(end <= i32::from(width), "{label}");
            } else {
                assert_eq!(boxes[0].0, 0, "{label}: overflow must pack at 0");
            }
        }
    }
}

fn cross(html_src: &str, css: &str, width: u16) -> Vec<(i32, i32)> {
    let (dom, styles) = styled_dom(html_src, css);
    let tree = layout_document(&dom, &styles, width, Hidden::Respect);
    let mut out = Vec::new();
    walk(&tree, tree.root, &mut |_, b| {
        if b.kind == BoxKind::Flex {
            out = b
                .children
                .iter()
                .map(|&c| {
                    let d = tree.get(c).dimensions;
                    (d.margin_box().y, d.content.height)
                })
                .collect();
        }
    });
    out
}

#[test]
fn a_definite_container_height_is_the_lines_cross_size() {
    let row = "<div id=r><div class=a>one</div><div class=b>two words here</div></div>";
    let css = "#r { display: flex; height: 10em; align-items: center }
               #r div { flex: 0 0 32px }";
    assert_eq!(cross(row, css, 40), [(5, 1), (4, 3)]);
    let (dom, styles) = styled_dom(row, css);
    let tree = layout_document(&dom, &styles, 40, Hidden::Respect);
    let mut container = 0;
    walk(&tree, tree.root, &mut |_, b| {
        if b.kind == BoxKind::Flex {
            container = b.dimensions.content.height;
        }
    });
    assert_eq!(container, 10);
}

#[test]
fn stretching_never_squeezes_an_item_below_its_own_text() {
    let row = "<div id=r><div>a b c d e</div></div>";
    let css = "#r { display: flex; height: 2em } #r div { flex: 0 0 16px }";
    assert_eq!(cross(row, css, 40), [(0, 5)]);
    let with_min = format!("{css} #r div {{ min-height: 1em }}");
    assert_eq!(cross(row, &with_min, 40), [(0, 2)]);
}

#[test]
fn cross_alignment_moves_everything_inside_the_item_it_moves() {
    let row = "<div id=r><div class=a><b>hi</b> there</div><div class=b>x y z w v</div></div>";
    let css = "#r { display: flex; align-items: flex-end }
               .a { flex: 0 0 160px } .b { flex: 0 0 16px }";
    assert_eq!(cross(row, css, 40), [(4, 1), (0, 5)]);

    let (dom, styles) = styled_dom(row, css);
    let tree = layout_document(&dom, &styles, 40, Hidden::Respect);
    let mut texts = Vec::new();
    walk(&tree, tree.root, &mut |_, b| {
        if b.kind == BoxKind::Text {
            texts.push((b.text.clone().unwrap_or_default(), b.dimensions.content.y));
        }
    });
    assert_eq!(
        texts,
        [
            ("hi".into(), 4),
            (" there".into(), 4),
            ("x".into(), 0),
            ("y".into(), 1),
            ("z".into(), 2),
            ("w".into(), 3),
            ("v".into(), 4),
        ]
    );
    assert_eq!(
        plain(&lines_styled(row, css, 40))[4],
        "hi there            v"
    );
}

#[test]
fn a_cross_axis_length_no_layout_can_hold_lays_out_instead_of_crashing() {
    for css in [
        "#r { display: flex; height: 1e11em; align-items: flex-end }",
        "#r { display: flex; align-items: center } #r div { height: 1e11em }",
        "#r { display: flex; align-items: baseline } #r div { padding-top: 1e11em }",
        "#r { display: flex } #r div { margin-top: auto; margin-bottom: 1e11em }",
        "#r { display: flex; height: 1e11em } #r div { max-height: 1e11em }",
    ] {
        let (dom, styles) = styled_dom("<div id=r><div>a</div><div>b</div></div>", css);
        let tree = layout_document(&dom, &styles, 40, Hidden::Respect);
        assert!(tree.height >= 0, "css: {css}");
    }
}

#[test]
fn a_length_no_layout_can_hold_lays_out_instead_of_crashing() {
    let row = "<div id=r><div>a</div><div>b</div></div>";
    let items = items(row, "#r { display: flex; gap: 1e11em }", 80);
    assert_eq!(items.len(), 2, "both items still got boxes");
    assert!(
        items[1].0 > 80,
        "the second item is off the line: {items:?}"
    );

    for css in [
        "p { margin-left: 1e11em }",
        "p { padding-left: 1e11em }",
        "p { width: 1e11em }",
    ] {
        let rows = lines_styled("<p>hello</p>", css, 80);
        assert!(!rows.is_empty(), "css: {css}");
    }
}

#[test]
fn a_column_stacks_its_items_and_is_as_tall_as_them() {
    let col = "<div id=r><div>one</div><div>two three four</div></div>";
    let css = "#r { display: flex; flex-direction: column }";
    assert_eq!(item_boxes(col, css, 10), [(0, 0, 10, 1), (0, 1, 10, 2)]);
    assert_eq!(flex_box(col, css, 10), (0, 0, 10, 3));
}

#[test]
fn flex_grow_does_nothing_in_an_auto_height_column() {
    let col = "<div id=r><div class=i>a</div><div class=i>b</div></div>";
    let column = "#r { display: flex; flex-direction: column } .i { flex: 1 }";
    assert_eq!(item_boxes(col, column, 20), [(0, 0, 20, 1), (0, 1, 20, 1)]);

    let tall = format!("{column} #r {{ height: 96px }}");
    assert_eq!(item_boxes(col, &tall, 20), [(0, 0, 20, 3), (0, 3, 20, 3)]);

    let floor = format!("{column} #r {{ min-height: 96px }}");
    assert_eq!(item_boxes(col, &floor, 20), [(0, 0, 20, 3), (0, 3, 20, 3)]);

    let cap = format!("{column} #r {{ max-height: 16px }}");
    assert_eq!(item_boxes(col, &cap, 20), [(0, 0, 20, 1), (0, 1, 20, 1)]);
    assert_eq!(flex_box(col, &cap, 20), (0, 0, 20, 1));
}

#[test]
fn a_column_main_axis_is_measured_in_lines_and_a_cross_axis_in_cells() {
    let one = "<div id=r><div class=i>a</div></div>";
    let column = "#r { display: flex; flex-direction: column } .i { flex: 0 0 64px }";
    assert_eq!(
        item_boxes(one, column, 20),
        [(0, 0, 20, 4)],
        "64px is 4 lines"
    );
    let row = "#r { display: flex } .i { flex: 0 0 64px }";
    assert_eq!(item_boxes(one, row, 20), [(0, 0, 8, 1)], "64px is 8 cells");

    let pct = "#r { display: flex; flex-direction: column; height: 160px }
               .i { flex: 0 0 50% }";
    assert_eq!(item_boxes(one, pct, 20), [(0, 0, 20, 5)]);

    let two = "<div id=r><div class=i>a</div><div>b</div></div>";
    let pad = "#r { display: flex; flex-direction: column; height: 160px }
               .i { padding-top: 10% }";
    assert_eq!(item_boxes(two, pad, 20), [(0, 2, 20, 1), (0, 3, 20, 1)]);
}

#[test]
fn align_items_baseline_degrades_to_flex_start_in_a_column() {
    let col = "<div id=r><div>aaaa</div><div>bb</div></div>";
    let base = "#r { display: flex; flex-direction: column; align-items: baseline }";
    let start = "#r { display: flex; flex-direction: column; align-items: flex-start }";
    assert_eq!(geometry(col, base, 20), geometry(col, start, 20));
    assert_eq!(
        item_boxes(col, base, 20),
        [(0, 0, 4, 1), (0, 1, 2, 1)],
        "a non-stretching column item shrink-wraps its content"
    );
    let stretch = "#r { display: flex; flex-direction: column }";
    assert_eq!(item_boxes(col, stretch, 20), [(0, 0, 20, 1), (0, 1, 20, 1)]);
}

#[test]
fn auto_margins_take_a_columns_free_space_on_both_axes() {
    let one = "<div id=r><div class=i>x</div></div>";
    let pushed = "#r { display: flex; flex-direction: column; height: 96px }
                  .i { margin-top: auto }";
    let by_alignment = "#r { display: flex; flex-direction: column; height: 96px;
                        justify-content: flex-end }";
    assert_eq!(geometry(one, pushed, 20), geometry(one, by_alignment, 20));
    assert_eq!(item_boxes(one, pushed, 20), [(0, 5, 20, 1)]);

    let auto_sides = "#r { display: flex; flex-direction: column }
                      .i { margin-left: auto; margin-right: auto }";
    let centred = "#r { display: flex; flex-direction: column; align-items: center }";
    assert_eq!(
        item_boxes(one, auto_sides, 20),
        item_boxes(one, centred, 20)
    );
    assert_eq!(item_boxes(one, auto_sides, 20), [(10, 0, 1, 1)]);
}

#[test]
fn order_reorders_a_column_the_way_it_reorders_a_row() {
    let col = "<div id=r><div class=a>a</div><div class=b>b</div></div>";
    let css = "#r { display: flex; flex-direction: column } .a { order: 1 }";
    assert_eq!(plain(&lines_styled(col, css, 20)), ["b", "a"]);
    let reversed = "#r { display: flex; flex-direction: column-reverse }";
    assert_eq!(plain(&lines_styled(col, reversed, 20)), ["b", "a"]);
}

#[test]
fn moving_a_column_item_moves_everything_inside_it() {
    let col = "<div id=r><div class=i><b>hi</b> there</div></div>";
    let css = "#r { display: flex; flex-direction: column; height: 80px;
               justify-content: center }";
    assert_eq!(item_boxes(col, css, 20), [(0, 2, 20, 1)]);

    let (dom, styles) = styled_dom(col, css);
    let tree = layout_document(&dom, &styles, 20, Hidden::Respect);
    let mut texts = Vec::new();
    walk(&tree, tree.root, &mut |_, b| {
        if b.kind == BoxKind::Text {
            texts.push((b.text.clone().unwrap_or_default(), b.dimensions.content.y));
        }
    });
    assert!(!texts.is_empty(), "the item has text to move");
    for (text, y) in &texts {
        assert_eq!(*y, 2, "{text:?} was left behind at row {y}");
    }
}

#[test]
fn replaced_and_rule_items_keep_their_own_paths_in_a_column() {
    let col = "<div id=r><img src=logo.png width=16 height=32><div>after</div></div>";
    let (dom, styles) = styled_dom(col, "#r { display: flex; flex-direction: column }");
    let ctx = images_of(&dom, "https://fixture.test/page");
    let tree = layout_document_with(&dom, &styles, 20, Hidden::Respect, &ctx);
    let mut boxes = Vec::new();
    walk(&tree, tree.root, &mut |_, b| {
        if b.kind == BoxKind::Flex {
            boxes = b
                .children
                .iter()
                .map(|&c| {
                    let d = tree.get(c).dimensions.content;
                    (d.x, d.y, d.width, d.height)
                })
                .collect();
        }
    });
    assert_eq!(boxes, [(0, 0, 2, 2), (0, 2, 20, 1)]);

    let rule = "<div id=r><hr></div>";
    let css = "#r { display: flex; flex-direction: column }";
    assert_eq!(item_boxes(rule, css, 20), [(0, 1, 20, 1)]);
    assert_eq!(flex_box(rule, css, 20), (0, 0, 20, 3));
}

#[test]
fn flex_basis_content_asks_a_column_item_how_tall_its_content_is() {
    let col = "<div id=r><div class=i>a</div></div>";
    let basis = "#r { display: flex; flex-direction: column }
                 .i { flex-basis: content; height: 48px }";
    assert_eq!(item_boxes(col, basis, 10), [(0, 0, 10, 1)]);
    let auto = "#r { display: flex; flex-direction: column } .i { height: 48px }";
    assert_eq!(item_boxes(col, auto, 10), [(0, 0, 10, 3)]);
}
#[test]
fn a_column_item_is_built_exactly_once() {
    let mut markup = String::from("<div>leaf</div>");
    for _ in 0..6 {
        markup = format!("<div class=c>{markup}</div>");
    }
    let block = geometry(&markup, ".c { display: block }", 20).len();
    for direction in ["column", "column-reverse"] {
        let css = format!(".c {{ display: flex; flex-direction: {direction} }}");
        assert_eq!(geometry(&markup, &css, 20).len(), block, "{direction}");
    }
}

#[test]
fn a_percentage_height_inside_a_flexed_column_item_stays_indefinite() {
    let col = "<div id=r><div class=i><div class=fill>x</div></div></div>";
    let css = "#r { display: flex; flex-direction: column; height: 48px }
               .i { flex: 1 } .fill { height: 100% }";
    assert_eq!(item_boxes(col, css, 20), [(0, 0, 20, 3)], "the item grew");

    let (dom, styles) = styled_dom(col, css);
    let tree = layout_document(&dom, &styles, 20, Hidden::Respect);
    let mut blocks = Vec::new();
    walk(&tree, tree.root, &mut |_, b| {
        if b.kind == BoxKind::Block && b.node.is_some() {
            blocks.push(b.dimensions.content.height);
        }
    });
    assert_eq!(
        blocks.last(),
        Some(&1),
        "the `height: 100%` child is still its content's 1 line"
    );
}

#[test]
fn a_wrapping_row_keeps_every_item_and_tiles_its_lines_at_every_width() {
    let markup = "<div id=r><div>alpha</div><div>beta</div><div>gamma</div>\
                  <div>delta</div><div>epsilon</div><div>zeta</div></div>";
    let css = "#r { display: flex; flex-wrap: wrap; gap: 1em }
               #r div { flex: 0 0 160px }";
    for width in 20..=120u16 {
        let (dom, styles) = styled_dom(markup, css);
        let tree = layout_document(&dom, &styles, width, Hidden::Respect);
        let mut container = 0;
        let mut boxes = Vec::new();
        walk(&tree, tree.root, &mut |_, b| {
            if b.kind == BoxKind::Flex {
                container = b.dimensions.content.height;
                boxes = b
                    .children
                    .iter()
                    .map(|&c| tree.get(c).dimensions.margin_box())
                    .collect();
            }
        });
        let label = format!("width {width}: {boxes:?}");
        assert_eq!(boxes.len(), 6, "{label}: an item went missing");
        let mut rows: Vec<Vec<Rect>> = Vec::new();
        for b in &boxes {
            match rows.last_mut() {
                Some(row) if row[0].y == b.y => row.push(*b),
                _ => rows.push(vec![*b]),
            }
        }
        let mut expected_y = 0;
        for (idx, row) in rows.iter().enumerate() {
            if idx > 0 {
                expected_y += 1;
            }
            assert_eq!(row[0].y, expected_y, "{label}: line {idx} is misplaced");
            for pair in row.windows(2) {
                assert!(pair[1].x - pair[0].right() >= 2, "{label}");
            }
            expected_y += row.iter().map(|b| b.height).max().unwrap_or(0);
        }
        assert_eq!(container, expected_y, "{label}: lines do not tile");
    }
}

#[test]
fn wrapping_moves_everything_inside_the_item_it_moves() {
    let col = "<div id=r><div>one</div><div>two</div><div><b>hi</b> there</div></div>";
    let css = "#r { display: flex; flex-direction: column; flex-wrap: wrap;
               height: 32px; align-content: flex-start }";
    assert_eq!(
        item_boxes(col, css, 40),
        [(0, 0, 3, 1), (0, 1, 3, 1), (3, 0, 8, 1)]
    );

    let (dom, styles) = styled_dom(col, css);
    let tree = layout_document(&dom, &styles, 40, Hidden::Respect);
    let mut texts = Vec::new();
    walk(&tree, tree.root, &mut |_, b| {
        if b.kind == BoxKind::Text {
            texts.push((
                b.text.clone().unwrap_or_default(),
                b.dimensions.content.x,
                b.dimensions.content.y,
            ));
        }
    });
    let moved: Vec<_> = texts.iter().filter(|(_, x, _)| *x >= 3).collect();
    assert_eq!(moved.len(), 2, "the second column's text: {texts:?}");
    for (text, x, y) in moved {
        assert!(*x >= 3 && *y == 0, "{text:?} left behind at {x},{y}");
    }
    assert_eq!(
        plain(&lines_styled(col, css, 40))[0].trim_end(),
        "onehi there"
    );
}

#[test]
fn no_reversed_axis_ever_puts_a_box_before_its_container() {
    let markup = "<div id=r><div>alpha</div><div>beta</div><div>gamma</div>\
                  <div>delta</div></div>";
    for direction in ["row", "row-reverse", "column", "column-reverse"] {
        for wrap in ["nowrap", "wrap", "wrap-reverse"] {
            let css = format!(
                "#r {{ display: flex; flex-direction: {direction}; flex-wrap: {wrap};
                   height: 2em }}
                 #r div {{ flex: 0 0 240px; height: 2em }}"
            );
            for width in 10..=100u16 {
                let (dom, styles) = styled_dom(markup, &css);
                let tree = layout_document(&dom, &styles, width, Hidden::Respect);
                let mut checked = false;
                walk(&tree, tree.root, &mut |_, b| {
                    if b.kind != BoxKind::Flex {
                        return;
                    }
                    checked = true;
                    let origin = b.dimensions.content;
                    for &c in &b.children {
                        let mb = tree.get(c).dimensions.margin_box();
                        let label =
                            format!("{direction} {wrap} at {width}: {mb:?} in {origin:?}");
                        assert!(mb.x >= origin.x, "{label}: before the left edge");
                        assert!(mb.y >= origin.y, "{label}: above the top edge");
                    }
                });
                assert!(checked, "{direction} {wrap} at {width}: no container");
            }
        }
    }
}

#[test]
fn min_height_is_a_definite_cross_size_for_a_row() {
    let row = "<div id=r><div>a</div></div>";
    let css = "#r { display: flex; min-height: 6em; align-items: center }
               #r div { flex: 0 0 160px }";
    assert_eq!(cross(row, css, 40), [(3, 1)]);
    assert_eq!(flex_box(row, css, 40).3, 6);

    let stretch = "#r { display: flex; min-height: 6em } #r div { flex: 0 0 160px }";
    assert_eq!(cross(row, stretch, 40), [(0, 6)]);

    let capped = "#r { display: flex; max-height: 1em; align-items: center }
                  #r div { flex: 0 0 160px; height: 4em }";
    assert_eq!(cross(row, capped, 40), [(0, 4)]);

    let two = "<div id=r><div>a</div><div>b</div></div>";
    let wrapped = "#r { display: flex; flex-wrap: wrap; min-height: 6em;
                   align-content: center }
                   #r div { flex: 0 0 640px }";
    assert_eq!(cross(two, wrapped, 80), [(2, 1), (3, 1)]);
}

#[test]
fn a_rule_widens_a_wrapping_columns_line() {
    let col = "<div id=r><div>aa</div><hr><div>bb</div></div>";
    let css = "#r { display: flex; flex-direction: column; flex-wrap: wrap;
               height: 32px; align-content: flex-start } hr { margin: 0 }";
    assert_eq!(
        item_boxes(col, css, 40),
        [(0, 0, 40, 1), (0, 1, 40, 1), (40, 0, 2, 1)],
        "the rule decided the first column's width, pushing the second one \
         off the container's right edge"
    );
    assert_eq!(
        plain(&lines_styled(col, css, 40))[1].trim_end(),
        "─".repeat(40)
    );

    let plain_col = "<div id=r><div>aa</div><div>x</div><div>bb</div></div>";
    assert_eq!(
        item_boxes(plain_col, css, 40),
        [(0, 0, 2, 1), (0, 1, 2, 1), (2, 0, 2, 1)]
    );
}

#[test]
fn a_wrapped_link_hit_tests_where_it_was_drawn() {
    let row = "<div id=r><a href=/1>one</a><a href=/2>two</a></div>";
    let css = "#r { display: flex; flex-wrap: wrap } a { flex: 0 0 160px }";
    let (dom, styles) = styled_dom(row, css);
    let tree = layout_document(&dom, &styles, 30, Hidden::Respect);
    assert_eq!(
        hit::link_at(&tree, &dom, 1, 0).map(|(_, u)| u),
        Some("/1".into())
    );
    assert_eq!(
        hit::link_at(&tree, &dom, 1, 1).map(|(_, u)| u),
        Some("/2".into())
    );
    assert_eq!(
        hit::dom_links(&dom)
            .iter()
            .map(|(_, u)| u.as_str())
            .collect::<Vec<_>>(),
        ["/1", "/2"]
    );
}

#[test]
fn baseline_items_still_share_a_row_under_wrap_reverse() {
    let row = "<div id=r><div class=pad>a</div><div>b</div></div>";
    let css = "#r { display: flex; flex-wrap: wrap-reverse; align-items: baseline }
               #r div { flex: 0 0 80px } .pad { padding-top: 16px }";
    let (dom, styles) = styled_dom(row, css);
    let tree = layout_document(&dom, &styles, 40, Hidden::Respect);
    let mut rows = Vec::new();
    walk(&tree, tree.root, &mut |_, b| {
        if b.kind == BoxKind::Text {
            rows.push((b.text.clone().unwrap_or_default(), b.dimensions.content.y));
        }
    });
    assert_eq!(rows.len(), 2, "{rows:?}");
    assert_eq!(rows[0].1, rows[1].1, "the baselines split up: {rows:?}");
    let upright = css.replace("wrap-reverse", "wrap");
    assert_eq!(cross(row, &upright, 40), cross(row, css, 40));
}

#[test]
fn an_inline_level_box_stays_on_the_line_beside_its_text() {
    let src = "<p>before <span class=b>btn</span> after</p>";
    assert_eq!(
        plain(&lines_styled(src, "span.b { display: inline-block }", 40)),
        ["before btn after", ""]
    );
    assert_eq!(
        plain(&lines_styled(src, "span.b { display: inline-flex }", 40)),
        ["before btn after", ""]
    );
}

fn atomic_width(html_src: &str, css: &str, width: u16) -> i32 {
    let (dom, styles) = styled_dom(html_src, css);
    let tree = layout_document(&dom, &styles, width, Hidden::Respect);
    let mut found = Vec::new();
    walk(&tree, tree.root, &mut |_, b| {
        if b.node
            .is_some_and(|n| is_atomic_inline(styles.get(n).display))
        {
            found.push(b.dimensions.content.width);
        }
    });
    assert_eq!(found.len(), 1, "expected exactly one atomic inline");
    found[0]
}

#[test]
fn shrink_to_fit_stops_at_max_content_and_never_goes_under_min_content() {
    let src = "<p>x <span class=b>alpha beta gamma</span></p>";
    let css = "span.b { display: inline-block }";
    let (min_content, max_content) = (5, 16);
    for width in 8..40u16 {
        let used = atomic_width(src, css, width);
        assert!(
            (min_content..=max_content).contains(&used),
            "in {width} cells the box came out {used} wide"
        );
        let available = width as i32 - 2;
        let want = available.clamp(min_content, max_content);
        assert_eq!(used, want, "in {width} cells");
    }
}

#[test]
fn an_atomic_inline_that_does_not_fit_moves_to_the_next_line_whole() {
    let src = "<p>lead <span class=b>alpha beta</span></p>";
    let css = "span.b { display: inline-block; width: 8em }";
    let rows = plain(&lines_styled(src, css, 20));
    assert_eq!(rows[0].trim_end(), "lead", "{rows:?}");
    assert_eq!(rows[1].trim_end(), "alpha beta", "{rows:?}");
    let (dom, styles) = styled_dom(src, css);
    let tree = layout_document(&dom, &styles, 20, Hidden::Respect);
    let mut boxes = Vec::new();
    walk(&tree, tree.root, &mut |_, b| {
        if b.node
            .is_some_and(|n| is_atomic_inline(styles.get(n).display))
        {
            boxes.push(b.dimensions.content);
        }
    });
    assert_eq!(boxes.len(), 1, "the box was split: {boxes:?}");
    assert_eq!((boxes[0].x, boxes[0].y, boxes[0].width), (0, 1, 16));
}

#[test]
fn text_beside_a_tall_atomic_inline_sits_on_its_last_baseline() {
    let src = "<p>tag <span class=b>a b c</span> end</p>";
    let css = "span.b { display: inline-block; width: 1em }";
    let rows = plain(&lines_styled(src, css, 40));
    assert_eq!(
        rows.iter().map(|r| r.trim_end()).collect::<Vec<_>>(),
        ["    a", "    b", "tag c  end", ""],
        "{rows:?}"
    );
}

fn atomic_boxes(html_src: &str, css: &str, width: u16) -> Vec<(i32, i32, i32, i32)> {
    let (dom, styles) = styled_dom(html_src, css);
    let tree = layout_document(&dom, &styles, width, Hidden::Respect);
    let mut out = Vec::new();
    walk(&tree, tree.root, &mut |_, b| {
        if b.node
            .is_some_and(|n| is_atomic_inline(styles.get(n).display))
        {
            let r = b.dimensions.border_box();
            out.push((r.x, r.y, r.width, r.height));
        }
    });
    out
}

#[test]
fn an_atomic_inline_is_shifted_by_text_align_with_the_rest_of_its_line() {
    let src = "<p class=c>hi <span class=b>x</span></p>";
    let css = "p.c { text-align: center } span.b { display: inline-block; padding: 0 8px }";
    assert_eq!(atomic_boxes(src, css, 20), [(10, 0, 3, 1)]);
    let rows = plain(&lines_styled(src, css, 20));
    assert_eq!(rows[0].trim_end(), "       hi  x", "{rows:?}");
}

#[test]
fn an_atomic_inline_inside_pre_is_a_box_on_the_preformatted_line() {
    let src = "<pre>a <span class=b>x</span> b</pre>";
    let css = "span.b { display: inline-block; padding: 0 8px }";
    assert_eq!(atomic_boxes(src, css, 20), [(2, 0, 3, 1)]);
    let rows = plain(&lines_styled(src, css, 20));
    assert_eq!(rows[0].trim_end(), "a  x  b", "{rows:?}");
}

#[test]
fn an_hr_that_cannot_draw_a_rule_still_costs_the_line_only_its_own_box() {
    let src = "<div>a <span><hr class=b></span> b</div>";
    let css = "span .b { display: inline-block }";
    assert_eq!(atomic_boxes(src, css, 20), [(2, 1, 0, 0)]);
    let rows = plain(&lines_styled(src, css, 20));
    assert_eq!(
        rows.iter().map(|r| r.trim_end()).collect::<Vec<_>>(),
        ["", "", "a  b"],
        "the text either side of it must survive: {rows:?}"
    );
}

#[test]
fn a_link_inside_an_inline_block_is_clickable_and_searchable() {
    let src = "<p>see <span class=b><a href='/x'>doc</a></span> now</p>";
    let css = "span.b { display: inline-block; padding: 0 8px }";
    let (dom, styles) = styled_dom(src, css);
    let tree = layout_document(&dom, &styles, 40, Hidden::Respect);

    let hits = find_matches(&tree, "doc");
    assert_eq!(hits.len(), 1, "the search missed the box: {hits:?}");
    let hit = hits[0].clone();
    assert_eq!(
        link_at(&tree, &dom, hit.x, hit.y).map(|(_, href)| href),
        Some("/x".to_string()),
        "a click on the link's own cells missed it"
    );
    let links = collect_links(&tree, &dom);
    assert_eq!(links.len(), 1, "{links:?}");
    assert_eq!((links[0].x, links[0].y), (hit.x, hit.y));
}

#[test]
fn paragraphs_stack_with_a_blank_line_from_margins() {
    let out = plain(&lines("<p>one</p><p>two</p>", 40));
    assert!(out.iter().any(|l| l.contains("one")), "{out:?}");
    assert!(out.iter().any(|l| l.contains("two")), "{out:?}");
    let one = out.iter().position(|l| l.contains("one")).unwrap();
    let two = out.iter().position(|l| l.contains("two")).unwrap();
    assert!(
        two > one + 1,
        "expected a blank between paragraphs: {out:?}"
    );
    assert!(
        out[one + 1..two].iter().any(|l| l.trim().is_empty()),
        "gap missing: {out:?}"
    );
}

#[test]
fn words_wrap_at_width() {
    let out = lines("<p>one two three four five</p>", 10);
    for line in &out {
        if text(line).trim().is_empty() {
            continue;
        }
        assert!(
            cells(line) <= 10,
            "line {:?} is {} cells",
            text(line),
            cells(line)
        );
    }
    let joined: String = out.iter().map(text).collect::<Vec<_>>().join(" ");
    assert!(joined.contains("one"));
    assert!(joined.contains("five"));
}

#[test]
fn overlong_word_hard_breaks() {
    let out = lines("<p>abcdefghijklmnopqrstuvwxyz</p>", 10);
    let content: Vec<_> = out
        .iter()
        .map(text)
        .filter(|t| !t.trim().is_empty())
        .collect();
    assert!(content.len() >= 3, "{content:?}");
    for t in &content {
        assert!(t.width() <= 10, "{t}");
    }
}

#[test]
fn cjk_wraps_by_cell_width() {
    let out = lines(&format!("<p>{}</p>", "世".repeat(5)), 9);
    let content: Vec<_> = out
        .iter()
        .map(text)
        .filter(|t| !t.trim().is_empty())
        .collect();
    assert!(content.iter().all(|t| t.width() <= 9), "{content:?}");
    assert!(
        content
            .iter()
            .all(|t| t.chars().all(|c| c.width() != Some(1) || c == ' '))
    );
}

#[test]
fn degenerate_widths_terminate() {
    let _ = lines("<ul><li>a<ul><li>b</li></ul></li></ul>", 0);
    let _ = lines("<ul><li>a<ul><li>b</li></ul></li></ul>", 1);
}

fn flex_sizes(html_src: &str, css: &str, width: u16) -> Vec<(i32, i32)> {
    let (dom, styles) = styled_dom(html_src, css);
    let tree = layout_document(&dom, &styles, width, Hidden::Respect);
    let mut out = Vec::new();
    walk(&tree, tree.root, &mut |_, b| {
        let d = b.dimensions.content;
        out.push((d.width, d.height));
    });
    assert!(
        out.iter().all(|&(w, h)| w >= 0 && h >= 0),
        "negative box size: {out:?}"
    );
    out
}

const FLEX: &str = ".r { display: flex } body, div, p { margin: 0 }";

fn flex_css(extra: &str) -> String {
    format!("{FLEX} {extra}")
}

#[test]
fn a_container_with_no_children_lays_out() {
    assert!(!flex_sizes("<div class=r></div>", FLEX, 20).is_empty());
}

#[test]
fn a_container_of_only_whitespace_lays_out() {
    assert!(!flex_sizes("<div class=r>   \n  </div>", FLEX, 20).is_empty());
}

#[test]
fn a_display_none_child_is_not_an_item() {
    let css = ".r { display: flex } .gone { display: none } div { margin: 0 }";
    let boxes = item_boxes(
        "<div class=r><div class=gone>x</div><div>y</div></div>",
        css,
        20,
    );
    assert_eq!(boxes.len(), 1, "{boxes:?}");
}

#[test]
fn a_zero_size_item_lays_out() {
    let _ = flex_sizes(
        "<div class=r><div class=z></div><div>y</div></div>",
        &flex_css(".z { width: 0; height: 0 }"),
        20,
    );
}

#[test]
fn a_container_one_cell_wide_lays_out() {
    let _ = flex_sizes(
        "<div class=r><div>alpha</div><div>bravo</div></div>",
        FLEX,
        1,
    );
}

#[test]
fn a_zero_height_clipped_container_lays_out() {
    let _ = flex_sizes(
        "<div class=r><div>alpha</div><div>bravo</div></div>",
        &flex_css(".r { height: 0; overflow: hidden }"),
        20,
    );
}

#[test]
fn a_gap_wider_than_the_container_lays_out() {
    let _ = flex_sizes(
        "<div class=r><div>alpha</div><div>bravo</div></div>",
        &flex_css(".r { gap: 800px }"),
        20,
    );
}

#[test]
fn an_unsatisfiable_min_width_lays_out() {
    let _ = flex_sizes(
        "<div class=r><div>alpha</div><div>bravo</div></div>",
        &flex_css(".r div { min-width: 800px }"),
        20,
    );
}

#[test]
fn wrapping_an_item_wider_than_the_line_lays_out() {
    let boxes = item_boxes(
        "<div class=r><div>alpha</div><div>bravo</div></div>",
        &flex_css(".r { flex-wrap: wrap } .r div { flex: 0 0 800px }"),
        20,
    );
    assert_eq!(boxes.len(), 2, "an item was dropped: {boxes:?}");
}

#[test]
fn ten_levels_of_nesting_lay_out() {
    let mut src = String::new();
    for _ in 0..10 {
        src.push_str("<div class=r>");
    }
    src.push_str("deep");
    for _ in 0..10 {
        src.push_str("</div>");
    }
    let out = flex_sizes(&src, FLEX, 20);
    assert!(out.len() >= 10, "{out:?}");
}

#[test]
fn display_none_hides_subtree() {
    let out = lines_styled(
        "<p>vis</p><p class=ad>hidden</p>",
        ".ad { display: none }",
        40,
    );
    let all = plain(&out).join("\n");
    assert!(all.contains("vis"), "{all}");
    assert!(!all.contains("hidden"), "{all}");
}

#[test]
fn display_block_on_span_breaks_the_line() {
    let out = plain(&lines_styled(
        "a<span>b</span>c",
        "span { display: block }",
        20,
    ));
    let joined = out.join("|");
    assert!(
        !joined.replace('|', "").contains("abc")
            || out.iter().filter(|l| !l.trim().is_empty()).count() >= 2,
        "{out:?}"
    );
}

#[test]
fn display_inline_on_p_flows() {
    let out = plain(&lines_styled(
        "<p>a</p><p>b</p>",
        "p { display: inline; margin: 0 }",
        20,
    ));
    let content: Vec<_> = out.into_iter().filter(|l| !l.trim().is_empty()).collect();
    assert_eq!(content.len(), 1, "{content:?}");
    assert!(
        content[0].contains('a') && content[0].contains('b'),
        "{content:?}"
    );
}

#[test]
fn width_and_max_width_constrain_content() {
    let (dom, styles) = styled_dom(
        "<div>hello world this is long</div>",
        "div { max-width: 80px; margin: 0 }",
    );
    let tree = layout_document(&dom, &styles, 80, Hidden::Respect);
    let mut found = false;
    walk(&tree, tree.root, &mut |_id, b| {
        let is_div = b.node.map_or(false, |n| {
            matches!(&dom.node(n).data, NodeData::Element { tag, .. } if tag == "div")
        });
        if b.kind == BoxKind::Block && is_div {
            assert!(
                b.dimensions.content.width <= 10,
                "width {}",
                b.dimensions.content.width
            );
            found = true;
        }
    });
    assert!(found, "div box missing");
    let _ = (dom, styles);
}

#[test]
fn text_align_center_shifts_content() {
    let out = lines_styled("<p>hi</p>", "p { text-align: center; margin: 0 }", 20);
    let line = out.iter().find(|l| text(l).contains("hi")).unwrap();
    let t = text(line);
    let pad = t.find("hi").unwrap();
    assert!(
        (8..=10).contains(&pad),
        "expected ~9 cells of pad, got {pad}: {t:?}"
    );
}

#[test]
fn block_horizontal_margins_resolve_to_cells() {
    let (dom, styles) = styled_dom(
        "<div>x</div>",
        "div { margin-left: 16px; margin-right: 16px; margin-top: 0; margin-bottom: 0 }",
    );
    let tree = layout_document(&dom, &styles, 40, Hidden::Respect);
    walk(&tree, tree.root, &mut |_id, b| {
        if b.kind == BoxKind::Block && b.dimensions.margin.left > 0 {
            assert_eq!(b.dimensions.margin.left, 2); // 16px / 8
            assert_eq!(b.dimensions.margin.right, 2);
        }
    });
}

#[test]
fn anonymous_block_keeps_previous_block_margin() {
    let out = plain(&lines_styled(
        "<div><p>one</p>two</div>",
        "p { margin-top: 0; margin-bottom: 1em } div { margin: 0 }",
        40,
    ));
    let one = out.iter().position(|l| l.contains("one")).unwrap();
    let two = out.iter().position(|l| l.contains("two")).unwrap();
    assert!(
        two > one + 1,
        "expected a blank row between block and loose text: {out:?}"
    );
}

#[test]
fn inline_margin_right_separates_without_dom_whitespace() {
    let out = plain(&lines_styled(
        "<b class=hnname>Hacker News</b><a href=n>new</a>",
        ".hnname { margin-right: 5px } a { margin: 0 }",
        40,
    ));
    let all = out.join("");
    assert!(
        !all.contains("Hacker Newsnew"),
        "inline margin-right must separate: {all:?}"
    );
    assert!(
        all.contains("Hacker News") && all.contains("new"),
        "{all:?}"
    );
    let pos = all.find("Hacker News").unwrap() + "Hacker News".len();
    assert_eq!(&all[pos..pos + 1], " ", "{all:?}");
}

#[test]
fn nested_br_inside_inline_forces_a_line_break() {
    let out = plain(&lines_styled(
        "<p style='margin:0'><span>a<br>b</span></p>",
        "",
        40,
    ));
    let content: Vec<_> = out.into_iter().filter(|l| !l.trim().is_empty()).collect();
    assert!(
        content.iter().any(|l| l.contains('a')) && content.iter().any(|l| l.contains('b')),
        "{content:?}"
    );
    assert!(content.len() >= 2, "expected two rows, got {content:?}");
    assert!(
        !content.iter().any(|l| l.contains("ab")),
        "br must not glue: {content:?}"
    );
}

#[test]
fn list_item_with_block_child_still_gets_a_bullet() {
    let out = plain(&lines_styled(
        "<ul style='margin:0;padding-left:2em'><li><p style='margin:0'>item</p></li></ul>",
        "",
        40,
    ));
    let all = out.join("\n");
    assert!(all.contains('•'), "missing bullet: {all:?}");
    assert!(all.contains("item"), "{all:?}");
}

#[test]
fn pre_preserves_mixed_styles() {
    let out = lines_styled("<pre>a<b>b</b>c</pre>", "", 40);
    let dbg = debug_lines(&out);
    assert!(dbg.contains('a') && dbg.contains('c'), "{dbg}");
    assert!(
        dbg.contains("[b]b[/]") || dbg.contains("[b]"),
        "bold inside pre lost: {dbg}"
    );
}

#[test]
fn inline_list_items_keep_a_space_between_them() {
    let out = lines_styled(
        "<ul><li>a</li>\n<li>b</li></ul>",
        "li { display: inline } ul { margin: 0; padding: 0 }",
        40,
    );
    let all = plain(&out).join("");
    assert!(
        all.contains("a b") || all.contains("a  b"),
        "expected space between inline items: {all:?}"
    );
}

#[test]
fn layout_readable_reveals_a_blank_page() {
    let (dom, styles) = styled_dom("<body style='display:none'><p>hello</p></body>", "");
    assert_eq!(
        styles.get(find_tag(&dom, "body")).display,
        Display::NoBox
    );
    let respect = layout(&dom, &styles, 40, Hidden::Respect);
    let reveal = layout(&dom, &styles, 40, Hidden::Reveal);
    assert!(
        plain(&respect).join("").trim().is_empty(),
        "respect should be blank: {:?}",
        plain(&respect)
    );
    assert!(
        plain(&reveal).join("\n").contains("hello"),
        "reveal should show text: {:?}",
        plain(&reveal)
    );
    let (lines, revealed) = layout_readable(&dom, &styles, 40);
    assert!(revealed, "layout_readable must report the fallback");
    assert!(
        plain(&lines).join("\n").contains("hello"),
        "{:?}",
        plain(&lines)
    );
}

#[test]
fn a_page_of_only_images_counts_as_readable() {
    let dom = parse_html(r#"<body><img src="a.png" width="80" height="48" alt=""></body>"#);
    let styles = style_tree(&dom, &[]);
    let ctx = images_of(&dom, "https://ex/");
    let (_tree, revealed) = layout_document_readable(&dom, &styles, 40, &ctx);
    assert!(!revealed, "an image-only page is not a blank page");
}

#[test]
fn a_negative_height_is_ignored_not_a_collapsed_box() {
    let (dom, styles) = styled_dom(
        "<div>visible text</div>",
        "div { margin: 0; height: -50px; width: -10px }",
    );
    let tree = layout_document(&dom, &styles, 40, Hidden::Respect);
    let out = plain(&lines_from_tree(&tree));
    assert!(
        out.iter().any(|l| l.contains("visible text")),
        "content vanished: {out:?}"
    );
    let div = tree
        .get(tree.root)
        .children
        .first()
        .map(|&c| tree.get(c).dimensions.content)
        .expect("the div must still generate a box");
    assert_eq!(div.height, 1, "height fell back to content height");
    assert_eq!(div.width, 40, "width fell back to auto");
}

#[test]
fn box_tree_has_positions_and_sizes() {
    let (dom, styles) = styled_dom("<p>hi</p>", "");
    let tree = layout_document(&dom, &styles, 40, Hidden::Respect);
    assert!(tree.height > 0);
    let mut saw_text = false;
    walk(&tree, tree.root, &mut |_id, b| {
        if b.kind == BoxKind::Text {
            saw_text = true;
            assert!(b.dimensions.content.width > 0);
        }
    });
    assert!(saw_text);
}

fn all_rects(tree: &LayoutTree) -> Vec<Rect> {
    let mut out = Vec::new();
    walk(&tree, tree.root, &mut |_, b| out.push(b.dimensions.content));
    out
}

#[test]
fn a_border_box_narrower_than_its_own_padding_floors_at_zero() {
    let (dom, styles) = styled_dom(
        "<div>squeezed</div>",
        "div { box-sizing: border-box; width: 16px; padding: 16px; border: 8px solid }",
    );
    let tree = layout_document(&dom, &styles, 40, Hidden::Respect);
    let div = all_rects(&tree)
        .into_iter()
        .find(|r| r.x == 3)
        .expect("the content box sits inside border 1 + padding 2");
    assert_eq!(div.width, 0, "content width must floor at zero");
    for r in all_rects(&tree) {
        assert!(
            r.width >= 0 && r.height >= 0,
            "negative rect in the tree: {r:?}"
        );
    }
}

#[test]
fn content_overflowing_a_short_box_still_rasterises() {
    let (dom, styles) = styled_dom(
        "<div class=zero>alpha<br>beta<br>gamma</div>",
        "div { margin: 0; height: 0 }",
    );
    let tree = layout_document(&dom, &styles, 40, Hidden::Respect);
    let out = plain(&lines_from_tree(&tree));
    let all = out.join("\n");
    for word in ["alpha", "beta", "gamma"] {
        assert!(all.contains(word), "overflowing row lost: {out:?}");
    }
}

#[test]
fn a_specified_height_is_the_used_height_whatever_the_content_does() {
    let (dom, styles) = styled_dom(
        "<div class=short>alpha<br>beta<br>gamma</div><div class=after>after</div>",
        "div { margin: 0 } .short { height: 1em }",
    );
    let tree = layout_document(&dom, &styles, 40, Hidden::Respect);
    let mut after_y = None;
    walk(&tree, tree.root, &mut |_, b| {
        if b.kind == BoxKind::Text && b.text.as_deref() == Some("after") {
            after_y = Some(b.dimensions.content.y);
        }
    });
    assert_eq!(after_y, Some(1), "the flow must advance by the used height");
}

#[test]
fn a_clipped_away_row_does_not_extend_the_page() {
    let source = "<div class=zero>alpha<br>beta<br>gamma</div><div class=after>after</div>";
    let (dom, styles) = styled_dom(source, "div { margin: 0 } .zero { height: 0 }");
    let visible = layout_document(&dom, &styles, 40, Hidden::Respect);
    assert_eq!(visible.height, 5, "the overflowing rows are on screen");

    let (dom, styles) = styled_dom(
        source,
        "div { margin: 0 } .zero { height: 0; overflow: hidden }",
    );
    let clipped = layout_document(&dom, &styles, 40, Hidden::Respect);
    assert_eq!(clipped.height, 1, "only `after` is left to scroll through");
}

#[test]
fn img_attrs_become_cell_size() {
    let dom = parse_html(r#"<img src="a.png" width="80" height="48" alt="pic">"#);
    let styles = style_tree(&dom, &[]);
    let ctx = images_of(&dom, "https://ex/");
    let tree = layout_document_with(&dom, &styles, 40, Hidden::Respect, &ctx);
    let mut found = false;
    walk(&tree, tree.root, &mut |_, b| {
        if b.kind == BoxKind::Image {
            assert_eq!(b.dimensions.content.width, 10);
            assert_eq!(b.dimensions.content.height, 3);
            assert!(b.image_size_firm);
            assert_eq!(b.image_src.as_deref(), Some("https://ex/a.png"));
            found = true;
        }
    });
    assert!(found);
}

#[test]
fn links_carry_underline_and_colour() {
    let out = lines("<p><a href='/x'>docs</a></p>", 40);
    let dbg = debug_lines(&out);
    assert!(dbg.contains("docs"), "{dbg}");
    assert!(dbg.contains('u') || dbg.contains("#5c5cff"), "{dbg}");
}

#[test]
fn pre_preserves_newlines() {
    let out = lines("<pre>a\nb\nc</pre>", 40);
    let content: Vec<_> = plain(&out)
        .into_iter()
        .filter(|l| !l.trim().is_empty() || l.is_empty())
        .collect();
    let joined = plain(&out).join("\n");
    assert!(
        joined.contains('a') && joined.contains('b') && joined.contains('c'),
        "{joined}"
    );
    let non_empty = content.iter().filter(|l| !l.is_empty()).count();
    assert!(non_empty >= 3, "{content:?}");
}

const CONTEXT_FIXTURE: &str = "<p>before</p><form><input type=\"text\" name=\"q\" \
     size=\"17\" value=\"typed\">\n<textarea rows=3 cols=20>hello\ntextarea</textarea>\
     <button>Search</button>\n<input type=hidden name=t value=x></form><p>after</p>";

#[test]
fn a_textareas_value_is_a_value_and_never_page_prose() {
    let page = plain(&lines(CONTEXT_FIXTURE, 60)).join("\n");
    assert!(
        !page.contains("hello textareaSearch"),
        "the textarea leaked into the page as prose:\n{page}"
    );
    assert!(page.contains("[hello               ]"), "{page}");
    assert!(page.contains("[textarea            ]"), "{page}");
    assert!(page.contains("[typed            ]"), "{page}");
    assert!(page.contains("[Search]"), "{page}");
}

#[test]
fn a_control_this_engine_does_not_draw_occupies_no_cells() {
    let bare = plain(&lines("<p>a<span>b</span></p>", 40));
    for src in [
        "<p>a<input type=hidden value=x><span>b</span></p>",
        "<p>a<input type=file><span>b</span></p>",
        "<p>a<input type=range><span>b</span></p>",
    ] {
        assert_eq!(plain(&lines(src, 40)), bare, "{src}");
    }
    assert_eq!(
        plain(&lines(
            "<p>a<input type=checkbox checked><input type=radio><span>b</span></p>",
            40,
        ))[0],
        "a[x][o]b"
    );
}

#[test]
fn a_value_wider_than_the_field_is_clipped_in_cells_and_never_wrapped() {
    let rows = plain(&lines("<p><input size=5 value='漢字漢字漢'>|</p>", 40));
    assert_eq!(rows[0], "[漢字 ]|", "{rows:?}");
    assert_eq!(
        rows.iter().filter(|r| r.contains('漢')).count(),
        1,
        "{rows:?}"
    );
    let rows = plain(&lines("<p><input size=6 value=abcdefghij></p>", 40));
    assert_eq!(rows[0], "[abcdef]", "{rows:?}");
}

#[test]
fn a_field_is_as_wide_as_the_page_asked_wherever_it_is_laid_out() {
    let field_widths = |css: &str| -> Vec<i32> {
        let (dom, styles) = styled_dom("<div><input size=17></div>", css);
        let tree = layout_document(&dom, &styles, 40, Hidden::Respect);
        let mut out = Vec::new();
        walk(&tree, tree.root, &mut |_, b| {
            if matches!(b.kind, BoxKind::Field(_)) {
                out.push(b.dimensions.content.width);
            }
        });
        out
    };
    assert_eq!(field_widths(""), [17]);
    assert_eq!(field_widths("input { display: block }"), [17]);
    assert_eq!(field_widths("div { display: flex }"), [17]);
    assert_eq!(field_widths("input { width: 40px }"), [5]);
}

#[test]
fn selects_keep_css_geometry_through_inline_block_and_flex_layout() {
    let html = "<p>L<select id=i><option>A</option></select>R</p>\
                <select id=b size=2><option>A</option></select>\
                <div id=r><span>L</span><select id=f><option>A</option></select><span>R</span></div>";
    let css = "html, body, p, div, select { margin: 0; padding: 0 }\
               #b { display: block; width: 40px; height: 48px }\
               #r { display: flex }";
    let (dom, styles) = styled_dom(html, css);
    let tree = layout_document(&dom, &styles, 40, Hidden::Respect);
    let rect = |wanted: &str| {
        tree.boxes
            .iter()
            .find(|b| {
                matches!(b.kind, BoxKind::Field(_))
                    && b.node
                        .is_some_and(|node| dom.attr(node, "id") == Some(wanted))
            })
            .unwrap()
            .dimensions
            .content
    };
    assert_eq!(
        (rect("i").x, rect("i").y, rect("i").width, rect("i").height),
        (1, 0, 3, 1)
    );
    assert_eq!(
        (rect("b").x, rect("b").y, rect("b").width, rect("b").height),
        (0, 1, 5, 3)
    );
    assert_eq!(
        (rect("f").x, rect("f").y, rect("f").width, rect("f").height),
        (1, 4, 3, 1)
    );
}

#[test]
fn what_a_reader_typed_is_what_layout_draws() {
    let (mut dom, _) = styled_dom("<p><input size=8 value=default></p>", "");
    let input = all_nodes(&dom)
        .find(|&n| dom.attr(n, "size") == Some("8"))
        .expect("the field");
    dom.set_field_value(input, "typed");
    let styles = style_tree(&dom, &[]);
    let rows = plain(&lines_from_tree(&layout_document(
        &dom,
        &styles,
        40,
        Hidden::Respect,
    )));
    assert_eq!(rows[0], "[typed   ]", "{rows:?}");
}

#[test]
fn table_rows_own_cells_and_share_provisional_columns() {
    let (dom, styles) = styled_dom(
        "<table><tr><th>Language</th><th>Year</th></tr><tr><td>Rust</td><td></td><td>extra</td></tr></table>",
        "table, tr, td, th { display: block }",
    );
    let tree = layout_document(&dom, &styles, 40, Hidden::Respect);
    let table = tree
        .boxes
        .iter()
        .position(|b| b.kind == BoxKind::Table)
        .unwrap();
    let rows = &tree.boxes[table].children;
    assert_eq!(rows.len(), 2);
    assert!(
        rows.iter()
            .all(|&row| tree.get(row).kind == BoxKind::TableRow)
    );
    let first = &tree.get(rows[0]).children;
    let second = &tree.get(rows[1]).children;
    assert_eq!(first.len(), 2);
    assert_eq!(second.len(), 3);
    assert!(
        first
            .iter()
            .chain(second)
            .all(|&cell| tree.get(cell).kind == BoxKind::TableCell)
    );
    assert_eq!(
        tree.get(first[0]).dimensions.content.x,
        tree.get(second[0]).dimensions.content.x
    );
    assert_eq!(
        tree.get(first[1]).dimensions.content.x,
        tree.get(second[1]).dimensions.content.x
    );
    assert!(tree.get(rows[1]).dimensions.content.y > tree.get(rows[0]).dimensions.content.y);
    assert!(
        tree.get(second[1]).dimensions.content.height >= 1,
        "empty cells retain a hit-testable row"
    );
    let dump = box_lines(&dom, &tree).join("\n");
    assert!(dump.contains("table <table>"), "{dump}");
    assert!(dump.contains("table-row <tr>"), "{dump}");
    assert!(dump.contains("table-cell <td>"), "{dump}");
    assert!(
        tree.boxes.iter().any(|b| {
            b.kind == BoxKind::Text
                && b.text.as_deref() == Some("Language")
                && b.term_style.attrs.bold
        }),
        "header cells retain the UA emphasis"
    );
    assert_eq!(
        plain(&from_tree(&tree)),
        vec!["LanguageYear", "Rust        extra"],
        "dump-text consumes the positioned cell tree in visual row order"
    );
}

#[test]
fn table_columns_keep_rank_and_vote_compact_while_title_spends_the_width() {
    let (dom, styles) = styled_dom(
        "<table><tr><td>1.</td><td>▲</td><td>title lorem ipsum</td></tr>\
         <tr><td></td><td></td><td>42 points by reader</td></tr></table>",
        "table, tr, td { display: block }",
    );
    let tree = layout_document(&dom, &styles, 20, Hidden::Respect);
    let table = tree
        .boxes
        .iter()
        .position(|b| b.kind == BoxKind::Table)
        .unwrap();
    let first = &tree.get(tree.get(BoxId(table)).children[0]).children;
    let widths: Vec<_> = first
        .iter()
        .map(|&cell| tree.get(cell).dimensions.margin_box_width())
        .collect();
    assert_eq!(&widths[..2], &[2, 1]);
    assert_eq!(widths.iter().sum::<i32>(), 20);
    assert!(widths[2] > widths[0] + widths[1]);
}

#[test]
fn table_columns_honour_definite_percent_and_border_box_constraints() {
    let (dom, styles) = styled_dom(
        "<table class=fixed><tr><td class=border>fixed</td><td class=border>other</td></tr></table>\
         <table class=percent><tr><td>left</td><td>right</td></tr></table>",
        "table, tr, td { display: block }\
         table { width: 160px }\
         .fixed { width: 96px }\
         .border { width: 48px; padding: 8px; box-sizing: border-box }\
         .percent td { width: 50% }",
    );
    let tree = layout_document(&dom, &styles, 40, Hidden::Respect);
    let rows: Vec<_> = tree
        .boxes
        .iter()
        .filter(|box_| box_.kind == BoxKind::TableRow)
        .collect();
    let widths = |row: &LayoutBox| {
        row.children
            .iter()
            .map(|&cell| tree.get(cell).dimensions.margin_box_width())
            .collect::<Vec<_>>()
    };
    assert_eq!(widths(rows[0]), vec![6, 6], "border-box includes edges");
    assert_eq!(widths(rows[1]), vec![10, 10], "percentages use table width");
}

#[test]
fn table_min_and_max_widths_request_their_clamped_used_width() {
    let (dom, styles) = styled_dom(
        "<table class=min><tr><td>a</td><td>b</td></tr></table>\
         <table class=max><tr><td>title words</td><td>meta</td></tr></table>",
        "table, tr, td { display: block }\
         .min { min-width: 160px }\
         .max { max-width: 80px }",
    );
    let tree = layout_document(&dom, &styles, 40, Hidden::Respect);
    let tables: Vec<_> = tree
        .boxes
        .iter()
        .filter(|box_| box_.kind == BoxKind::Table)
        .collect();
    assert_eq!(tables[0].dimensions.content.width, 20);
    assert_eq!(tables[1].dimensions.content.width, 10);
}

#[test]
fn decoded_image_in_a_cell_contributes_its_terminal_width() {
    let (dom, styles) = styled_dom(
        "<table><tr><td><img src=logo.png width=80 height=16></td><td>meta</td></tr></table>",
        "table, tr, td { display: block }",
    );
    let context = images_of(&dom, "https://fixture.test/page");
    let tree = layout_document_with(&dom, &styles, 20, Hidden::Respect, &context);
    let row = tree
        .boxes
        .iter()
        .find(|box_| box_.kind == BoxKind::TableRow)
        .unwrap();
    assert_eq!(tree.get(row.children[0]).dimensions.margin_box_width(), 10);
    assert_eq!(tree.get(row.children[1]).dimensions.margin_box_width(), 4);
}

#[test]
fn links_and_controls_inside_cells_keep_the_existing_hit_paths() {
    let (dom, styles) = styled_dom(
        "<table><tr><td><a href=/docs>docs</a></td><td><input value=go size=2></td></tr></table>",
        "table, tr, td { display: block }",
    );
    let tree = layout_document(&dom, &styles, 40, Hidden::Respect);
    let links = hit::collect_links(&tree, &dom);
    assert_eq!(links.len(), 1);
    assert_eq!(links[0].href, "/docs");
    assert_eq!(
        hit::link_at(&tree, &dom, links[0].x, links[0].y),
        Some((links[0].node, "/docs".into()))
    );
    assert_eq!(hit::focusables(&tree, &dom).len(), 2);
}

#[test]
fn malformed_direct_table_content_remains_visible_beside_rows() {
    let (dom, styles) = styled_dom(
        "<table>loose prose<div>also loose</div><tr><td>cell</td></tr></table>",
        "table, tr, td { display: block }",
    );
    let tree = layout_document(&dom, &styles, 40, Hidden::Respect);
    let text = plain(&from_tree(&tree)).join("");
    for expected in ["looseprose", "alsoloose", "cell"] {
        assert!(text.contains(expected), "missing {expected:?} in:\n{text}");
    }
}

#[test]
fn narrow_deep_and_long_tables_stay_cell_bounded() {
    let mut source = String::new();
    for _ in 0..24 {
        source.push_str("<table><tr><td>");
    }
    source.push_str(&"界".repeat(4_096));
    for _ in 0..24 {
        source.push_str("</td></tr></table>");
    }
    let (dom, styles) = styled_dom(&source, "table, tr, td { display: block }");
    let tree = layout_document(&dom, &styles, 1, Hidden::Respect);
    assert_eq!(tree.width, 1);
    assert!(tree.height > 0);
    assert!(
        tree.boxes.len() < 20_000,
        "one-cell table layout expanded without bound"
    );
}

#[test]
fn absurd_table_and_cell_widths_are_capped_without_losing_cells() {
    let (dom, styles) = styled_dom(
        "<table><tr><td class=wide>界界界</td><td class=wide></td></tr></table>",
        "table, tr, td { display: block }\
         table { width: 1e11em }\
         .wide { min-width: 1e11em; padding: 1e11em; box-sizing: border-box }",
    );
    let tree = layout_document(&dom, &styles, 1, Hidden::Respect);
    let row = tree
        .boxes
        .iter()
        .find(|box_| box_.kind == BoxKind::TableRow)
        .unwrap();
    assert_eq!(row.children.len(), 2);
    assert!(
        row.children
            .iter()
            .all(|&cell| tree.get(cell).dimensions.margin_box_width() > 0)
    );
    assert!(tree.boxes.len() < 32, "CSS widths allocated layout boxes");
}

// ---- hits and links -----------------------------------------------------

fn laid(html: &str) -> (Dom, LayoutTree) {
    let dom = parse_html(html);
    let styles = style_tree(&dom, &[]);
    let tree = layout_document(&dom, &styles, 40, Hidden::Respect);
    (dom, tree)
}

#[test]
fn click_on_link_text_finds_the_link() {
    let (dom, tree) = laid("<p>see <a href=/docs>docs</a> here</p>");
    let links = collect_links(&tree, &dom);
    assert_eq!(links.len(), 1);
    let link = &links[0];
    let got = link_at(&tree, &dom, link.x, link.y);
    assert_eq!(got, Some((link.node, "/docs".into())));
}

#[test]
fn click_on_nested_span_inside_link_still_finds_link() {
    let (dom, tree) = laid("<a href=x><span>inner</span></a>");
    let links = collect_links(&tree, &dom);
    assert_eq!(links.len(), 1);
    let link = &links[0];
    let got = link_at(&tree, &dom, link.x, link.y);
    assert_eq!(got.map(|(_, h)| h).as_deref(), Some("x"));
}

#[test]
fn an_inline_target_is_found_through_the_text_inside_it() {
    let (dom, tree) = laid("<p>first</p><p><span id=x>marked</span></p>");
    let span = node_with_id(&dom, "x");
    assert_eq!(first_y(&tree, span), None, "an inline generated a box");
    assert_eq!(
        nearest_y(&tree, &dom, span),
        first_y(&tree, dom.node(span).parent.unwrap()),
        "the inline's own text is on the paragraph's row"
    );
    assert!(nearest_y(&tree, &dom, span).unwrap() > 0);
}

#[test]
fn a_target_whose_text_was_merged_away_falls_back_to_its_ancestor() {
    let (dom, tree) = laid("<p>first</p><p>see <span id=x>this</span></p>");
    let span = node_with_id(&dom, "x");
    let paragraph = dom.node(span).parent.unwrap();
    assert_eq!(nearest_y(&tree, &dom, span), first_y(&tree, paragraph));
    assert!(nearest_y(&tree, &dom, span).unwrap() > 0);
}

#[test]
fn a_target_with_no_box_lands_where_it_would_have_been() {
    let (dom, tree) = laid(
        "<p>first</p><div id=wrap><p style='display:none'><span id=x>gone</span></p></div>",
    );
    let span = node_with_id(&dom, "x");
    assert_eq!(
        nearest_y(&tree, &dom, span),
        first_y(&tree, node_with_id(&dom, "wrap")),
        "a hidden target did not fall back to its laid-out ancestor"
    );
}

#[test]
fn a_target_in_the_head_lands_at_the_top_of_the_document() {
    let (dom, tree) = laid("<head><meta id=x></head><body><p>text</p></body>");
    assert_eq!(nearest_y(&tree, &dom, node_with_id(&dom, "x")), Some(0));
}

#[test]
fn click_outside_any_link_returns_none() {
    let (dom, tree) = laid("<p>no links here</p>");
    assert_eq!(link_at(&tree, &dom, 0, 0), None);
}

#[test]
fn nearest_link_walks_up_from_text() {
    let dom = parse_html("<a href=y>hi</a>");
    let a = dom_links(&dom)[0].0;
    let text = kids(&dom, a).next().expect("text child");
    assert_eq!(
        nearest_link(&dom, text).map(|(_, h)| h).as_deref(),
        Some("y")
    );
}

fn two_rows(overflow: &str) -> (Dom, LayoutTree) {
    laid(&format!(
        "<body style='margin:0'><div style='margin:0;max-height:1em;overflow:{overflow}'>\
         <p style='margin:0'>visible <a href=/a>first</a></p>\
         <p style='margin:0'>hidden <a href=/b>second</a></p></div></body>"
    ))
}

#[test]
fn clipped_away_content_is_not_hit_testable() {
    let (dom, tree) = two_rows("visible");
    let control = link_at(&tree, &dom, 8, 1);
    assert_eq!(
        control.map(|(_, h)| h).as_deref(),
        Some("/b"),
        "the second link is at (8, 1) when nothing clips it"
    );

    let (dom, tree) = two_rows("hidden");
    assert_eq!(hit_test(&tree, 8, 1), None);
    assert_eq!(link_at(&tree, &dom, 8, 1), None);
}

#[test]
fn a_clipped_away_link_gets_no_hint() {
    let (dom, tree) = two_rows("visible");
    assert_eq!(hrefs(&collect_links(&tree, &dom)), ["/a", "/b"]);
    let (dom, tree) = two_rows("hidden");
    assert_eq!(hrefs(&collect_links(&tree, &dom)), ["/a"]);
}

fn hrefs(links: &[LinkHit]) -> Vec<&str> {
    links.iter().map(|l| l.href.as_str()).collect()
}

#[test]
fn visible_links_filters_by_y_range() {
    let (dom, tree) =
        laid("<p><a href=1>one</a></p><p><a href=2>two</a></p><p><a href=3>three</a></p>");
    let all = collect_links(&tree, &dom);
    assert_eq!(all.len(), 3);
    let top = all[0].y;
    let vis = visible_links(&tree, &dom, top, top + 1);
    assert_eq!(vis.len(), 1);
    assert_eq!(vis[0].href, "1");
}

// ---- form controls ------------------------------------------------------

fn control_of(html_src: &str, tag: &str) -> Option<Control> {
    let dom = parse_html(html_src);
    let id = find_tag(&dom, tag);
    control(&dom, id, tag)
}

#[test]
fn a_text_field_is_size_characters_wide_and_one_row_tall() {
    let c = control_of(r#"<input type=text size=17 value=typed>"#, "input").unwrap();
    assert_eq!((c.cols, c.rows), (17, 1));
    assert_eq!(c.text, "typed");
    assert_eq!(c.shows, Shows::Value);
}

#[test]
fn html_defaults_stand_in_for_a_missing_or_nonsense_attribute() {
    for src in [
        "<input>",
        "<input size=0>",
        "<input size=abc>",
        "<input size=-4>",
    ] {
        assert_eq!(
            control_of(src, "input").unwrap().cols,
            DEFAULT_SIZE,
            "{src}"
        );
    }
    let area = control_of("<textarea></textarea>", "textarea").unwrap();
    assert_eq!((area.cols, area.rows), (DEFAULT_COLS, DEFAULT_ROWS));
}

#[test]
fn a_page_cannot_ask_for_more_cells_than_the_cap() {
    let c = control_of(
        "<textarea cols=99999999 rows=99999999></textarea>",
        "textarea",
    )
    .unwrap();
    assert_eq!((c.cols, c.rows), (MAX_CHARS, MAX_CHARS));
}

#[test]
fn an_unknown_type_is_text_hidden_is_absent_and_checkbox_is_a_choice() {
    let dom = parse_html(
        "<input type=wibble><input type=hidden><input type=checkbox><input type=search>",
    );
    let ids: Vec<NodeId> = all_nodes(&dom)
        .filter(
            |&id| matches!(&dom.node(id).data, NodeData::Element { tag, .. } if tag == "input"),
        )
        .collect();
    let drawn: Vec<bool> = ids
        .iter()
        .map(|&id| control(&dom, id, "input").is_some())
        .collect();
    assert_eq!(drawn, [true, false, true, true]);
    assert!(generates_no_box(&dom, ids[1], "input"));
    assert!(!generates_no_box(&dom, ids[2], "input"));
}

#[test]
fn a_password_shows_one_mask_cell_per_source_character() {
    let c = control_of("<input type=password value='pä漢'>", "input").unwrap();
    assert_eq!(c.text, "***");
    assert_eq!(c.shows, Shows::Value);
}

#[test]
fn a_placeholder_shows_only_while_the_value_is_empty() {
    let c = control_of("<input placeholder='Search Wikipedia'>", "input").unwrap();
    assert_eq!(
        (c.text.as_str(), c.shows),
        ("Search Wikipedia", Shows::Placeholder)
    );
    let c = control_of("<input placeholder=hint value=typed>", "input").unwrap();
    assert_eq!((c.text.as_str(), c.shows), ("typed", Shows::Value));
}

#[test]
fn a_textarea_keeps_its_whitespace_and_loses_one_leading_newline() {
    let c = control_of("<textarea>\nhello  there\nand more</textarea>", "textarea").unwrap();
    assert_eq!(c.text, "hello  there\nand more");
}

#[test]
fn a_buttons_label_comes_from_its_content_or_the_type_default() {
    assert_eq!(
        control_of("<button> Search  now </button>", "button")
            .unwrap()
            .text,
        "Search now"
    );
    assert_eq!(
        control_of("<input type=submit>", "input").unwrap().text,
        "Submit"
    );
    assert_eq!(
        control_of("<input type=reset>", "input").unwrap().text,
        "Reset"
    );
    assert_eq!(
        control_of("<input type=submit value=Go>", "input")
            .unwrap()
            .text,
        "Go"
    );
    let c = control_of("<button>Search</button>", "button").unwrap();
    assert_eq!((c.cols, c.rows, c.shows), (6, 1, Shows::Label));
}

#[test]
fn the_typed_value_wins_over_the_attribute() {
    let mut dom = parse_html("<input value=default>");
    let id = find_tag(&dom, "input");
    assert_eq!(control(&dom, id, "input").unwrap().text, "default");
    dom.set_field_value(id, "typed");
    assert_eq!(control(&dom, id, "input").unwrap().text, "typed");
    assert_eq!(
        dom.attr(id, "value"),
        Some("default"),
        "typing wrote through to the attribute"
    );
}

#[test]
fn a_window_clips_by_cells_and_pads_back_to_the_width() {
    assert_eq!(window("abc", 0, 5), "abc  ");
    assert_eq!(window("abcdef", 0, 3), "abc");
    assert_eq!(window("漢漢漢", 0, 5), "漢漢 ");
    assert_eq!(window("x", 0, 0), "");
}

#[test]
fn a_window_scrolled_past_half_a_glyph_shows_a_blank_not_half_of_it() {
    assert_eq!(window("漢字abc", 0, 4), "漢字");
    assert_eq!(window("漢字abc", 1, 4), " 字a");
    assert_eq!(window("漢字abc", 2, 4), "字ab");
    assert_eq!(window("漢字abc", 4, 4), "abc ");
    assert_eq!(window("ab", 6, 3), "   ");
}

fn field_box(text: &str, cols: i32, rows: i32, shows: Shows) -> LayoutBox {
    let dimensions = Dimensions::bare(Rect {
        x: 10,
        y: 5,
        width: cols,
        height: rows,
    });
    LayoutBox {
        kind: BoxKind::Field(FieldPaint {
            shows,
            disabled: false,
        }),
        node: None,
        dimensions,
        children: Vec::new(),
        text: Some(text.to_string()),
        term_style: Style::default(),
        computed: ComputedStyle::initial(),
        image_src: None,
        image_size_firm: false,
        fixed_viewport: false,
        sticky: None,
        grid: None,
    }
}

fn shown(b: &LayoutBox, caret: Option<usize>) -> (Vec<String>, Option<(i32, i32)>) {
    let p = painted(b, caret);
    let rows = p
        .runs
        .iter()
        .filter(|r| r.x == b.dimensions.content.x)
        .map(|r| r.text.clone())
        .collect();
    (rows, p.caret)
}

#[test]
fn without_a_caret_a_field_shows_the_start_of_its_value() {
    let b = field_box("abcdefghij", 6, 1, Shows::Value);
    assert_eq!(shown(&b, None), (vec!["abcdef".into()], Some((15, 5))));
}

#[test]
fn typing_past_the_right_edge_scrolls_the_value_under_the_caret() {
    let b = field_box("abcdefghij", 6, 1, Shows::Value);
    assert_eq!(shown(&b, Some(3)), (vec!["abcdef".into()], Some((13, 5))));
    assert_eq!(shown(&b, Some(10)), (vec!["fghij ".into()], Some((15, 5))));
    assert_eq!(shown(&b, Some(0)), (vec!["abcdef".into()], Some((10, 5))));
}

#[test]
fn a_cjk_value_scrolls_by_cells_and_the_caret_lands_on_a_whole_glyph() {
    let b = field_box("漢字漢字漢字", 8, 1, Shows::Value);
    assert_eq!(shown(&b, Some(0)), (vec!["漢字漢字".into()], Some((10, 5))));
    assert_eq!(shown(&b, Some(4)), (vec![" 字漢字 ".into()], Some((17, 5))));
    assert_eq!(shown(&b, Some(6)), (vec![" 字漢字 ".into()], Some((17, 5))));
}

#[test]
fn a_textarea_scrolls_to_the_line_the_caret_is_on() {
    let b = field_box("one\ntwo\nthree", 5, 2, Shows::Value);
    assert_eq!(
        shown(&b, Some(1)),
        (vec!["one  ".into(), "two  ".into()], Some((11, 5)))
    );
    assert_eq!(
        shown(&b, Some(10)),
        (vec!["two  ".into(), "three".into()], Some((12, 6)))
    );
}

#[test]
fn a_placeholder_keeps_the_caret_at_the_front_and_a_button_has_none() {
    let hint = field_box("Search Wikipedia", 8, 1, Shows::Placeholder);
    assert_eq!(shown(&hint, Some(0)).1, Some((10, 5)));
    let button = field_box("Search", 6, 1, Shows::Label);
    assert_eq!(shown(&button, None).1, None);
}

#[test]
fn an_editable_value_is_the_unmasked_one_and_only_for_what_takes_a_caret() {
    let dom = parse_html(
        "<input value=plain><input type=password value=secret>\
         <input value=off disabled><input value=shown readonly>\
         <button>Search</button><input type=hidden value=h>",
    );
    let mut got = Vec::new();
    for id in all_nodes(&dom) {
        if let NodeData::Element { tag, .. } = &dom.node(id).data {
            got.push(editable_value(&dom, id, tag));
        }
    }
    assert_eq!(
        got.into_iter().flatten().collect::<Vec<_>>(),
        ["plain".to_string(), "secret".to_string()]
    );
}

#[test]
fn radio_checkedness_is_group_normalized_and_live_state_is_not_an_attribute() {
    let mut dom = parse_html(
        "<form><input id=a type=radio name=x checked>\
         <input id=b type=radio name=x checked></form>",
    );
    let ids = all_nodes(&dom)
        .filter(|id| dom.attr(*id, "id").is_some())
        .collect::<Vec<_>>();
    assert!(!checked(&dom, ids[0], "input"));
    assert!(checked(&dom, ids[1], "input"));
    dom.set_choice_state(ids[0], true);
    dom.set_choice_state(ids[1], false);
    assert!(checked(&dom, ids[0], "input"));
    assert!(!checked(&dom, ids[1], "input"));
    assert!(dom.attr(ids[1], "checked").is_some());
}

#[test]
fn radio_normalization_follows_the_connected_tree_not_arena_order() {
    let mut dom = parse_html(
        "<form><input id=a type=radio name=x checked>\
         <input id=b type=radio name=x checked></form>",
    );
    let form = find_tag(&dom, "form");
    let group = radio_group(
        &dom,
        all_nodes(&dom)
            .find(|&id| dom.attr(id, "id") == Some("a"))
            .unwrap(),
    );
    let (first, second) = (group[0], group[1]);
    dom.append(form, first).unwrap();
    assert!(checked(&dom, first, "input"));
    assert!(!checked(&dom, second, "input"));

    let detached = dom.create_element(
        "input",
        vec![
            attr("type", "radio"),
            attr("name", "x"),
            attr("checked", ""),
        ],
    );
    assert!(!radio_group(&dom, first).contains(&detached));
    assert!(checked(&dom, first, "input"));
}

#[test]
fn radios_outside_forms_group_by_name_while_unnamed_radios_stand_alone() {
    let dom = parse_html(
        "<input id=a type=radio name=x checked><input id=b type=radio name=x checked>\
         <input id=c type=radio checked><input id=d type=radio checked>",
    );
    let id = |wanted| {
        all_nodes(&dom)
            .find(|&node| dom.attr(node, "id") == Some(wanted))
            .unwrap()
    };
    assert!(!checked(&dom, id("a"), "input"));
    assert!(checked(&dom, id("b"), "input"));
    assert!(checked(&dom, id("c"), "input"));
    assert!(checked(&dom, id("d"), "input"));
}

#[test]
fn a_select_uses_option_labels_and_normalizes_one_or_many_selections() {
    let dom = parse_html(
        "<select><option selected value=one>First</option>\
         <option selected label=Shown value=two>Second</option></select>\
         <select multiple><option selected>A</option><option selected>B</option></select>",
    );
    let selects = all_nodes(&dom)
        .filter(|id| matches!(&dom.node(*id).data, NodeData::Element { tag, .. } if tag == "select"))
        .collect::<Vec<_>>();
    let first = options(&dom, selects[0]);
    assert_eq!(selected_options(&dom, selects[0], &first), [first[1].node]);
    assert_eq!(first[1].label, "Shown");
    assert_eq!(first[1].value, "two");
    let control = control(&dom, selects[0], "select").unwrap();
    assert_eq!(control.shows, Shows::Select { selected: Some(1) });
    let many = options(&dom, selects[1]);
    assert_eq!(selected_options(&dom, selects[1], &many).len(), 2);
}

#[test]
fn select_size_and_unicode_width_follow_cell_defaults_and_bounds() {
    for src in [
        "<select><option>A</option></select>",
        "<select size=0><option>A</option></select>",
        "<select size=-1><option>A</option></select>",
        "<select size=abc><option>A</option></select>",
    ] {
        let c = control_of(src, "select").unwrap();
        assert_eq!((c.cols, c.rows), (3, 1), "{src}");
        assert_eq!(c.shows, Shows::Select { selected: Some(0) }, "{src}");
    }
    let list = control_of("<select size=2><option>A</option></select>", "select").unwrap();
    assert_eq!((list.cols, list.rows), (5, 2));
    assert_eq!(
        list.shows,
        Shows::SelectList {
            multiple: false,
            first_selected: Some(0)
        }
    );
    let many = control_of("<select multiple><option>A</option></select>", "select").unwrap();
    assert_eq!((many.cols, many.rows), (5, 4));
    let wide = control_of(
        "<select><option selected>漢字漢</option></select>",
        "select",
    )
    .unwrap();
    assert_eq!((wide.cols, wide.rows), (8, 1));
}

#[test]
fn select_defaults_handle_disabled_placeholders_and_empty_multiple_choices() {
    let dom = parse_html(
        "<select id=f><option disabled>Skip</option><option id=enabled>Use</option></select>\
         <select id=p><option id=placeholder disabled selected>Choose</option>\
         <option>Use</option></select><select id=m multiple><option>None</option></select>",
    );
    let id = |wanted| {
        all_nodes(&dom)
            .find(|&node| dom.attr(node, "id") == Some(wanted))
            .unwrap()
    };
    let fallback = options(&dom, id("f"));
    assert_eq!(selected_options(&dom, id("f"), &fallback), [id("enabled")]);
    let placeholder = options(&dom, id("p"));
    assert_eq!(
        selected_options(&dom, id("p"), &placeholder),
        [id("placeholder")]
    );
    let multiple = options(&dom, id("m"));
    assert!(selected_options(&dom, id("m"), &multiple).is_empty());
}

#[test]
fn select_paint_windows_from_selection_and_then_around_the_cursor() {
    let collapsed = field_box("zero\none\ntwo", 8, 1, Shows::Select { selected: Some(1) });
    assert_eq!(shown(&collapsed, None).0, ["one v   "]);
    assert_eq!(
        painted_select(&collapsed, 2)
            .runs
            .iter()
            .filter(|run| run.x == 10)
            .map(|run| run.text.as_str())
            .collect::<Vec<_>>(),
        ["two v   "]
    );

    let list = field_box(
        "[ ] zero\n[ ] one\n[x] two\n[ ] three\n[ ] four",
        10,
        2,
        Shows::SelectList {
            multiple: true,
            first_selected: Some(2),
        },
    );
    assert_eq!(shown(&list, None).0, ["[x] two   ", "[ ] three "]);
    let cursor = painted_select(&list, 4);
    assert_eq!(cursor.cursor_row, Some(1));
    assert_eq!(
        cursor
            .runs
            .iter()
            .filter(|run| run.x == 10)
            .map(|run| run.text.as_str())
            .collect::<Vec<_>>(),
        ["[ ] three ", "[ ] four  "]
    );

    let wide = field_box("漢字漢", 5, 1, Shows::Select { selected: Some(0) });
    assert_eq!(shown(&wide, None).0, ["漢字 "]);
    let sparse = field_box(
        "[x] one",
        7,
        3,
        Shows::SelectList {
            multiple: true,
            first_selected: Some(0),
        },
    );
    assert_eq!(shown(&sparse, None).0, ["[x] one", "       ", "       "]);
}

#[test]
fn option_text_collapses_only_ascii_space_and_only_optgroup_disables_descendants() {
    let dom = parse_html(
        "<select><div disabled><option>A\t B&nbsp;C</option></div>\
         <optgroup disabled><option>D</option></optgroup></select>",
    );
    let items = options(&dom, find_tag(&dom, "select"));
    assert_eq!(items[0].label, "A B\u{a0}C");
    assert!(!items[0].disabled);
    assert!(items[1].disabled);
}

// ---- intrinsic widths ---------------------------------------------------

fn styled(html_src: &str, css: &str) -> (Dom, Styles) {
    let dom = parse_html(html_src);
    let sheet = parse_css(css);
    let styles = style_tree(&dom, &[&sheet]);
    (dom, styles)
}

fn sizes_of(html_src: &str, css: &str, tag: &str) -> (i32, i32) {
    let (dom, styles) = styled(html_src, css);
    let node = find_tag(&dom, tag);
    let images = ImageContext::empty();
    let mut sizer = IntrinsicSizer::new(&dom, &styles, &images, Hidden::Respect);
    (sizer.min_content_width(node), sizer.max_content_width(node))
}

fn rows(html_src: &str, css: &str, width: u16) -> Vec<String> {
    let (dom, styles) = styled(html_src, css);
    layout(&dom, &styles, width, Hidden::Respect)
        .iter()
        .map(|line| {
            line.spans
                .iter()
                .map(|s| s.text.as_str())
                .collect::<String>()
        })
        .filter(|t| !t.trim().is_empty())
        .collect()
}

#[test]
fn a_text_run_measures_its_words_and_its_widest_word() {
    assert_eq!(
        sizes_of("<div>hello world</div>", "div { margin: 0 }", "div"),
        (5, 11)
    );
}

#[test]
fn the_intrinsic_widths_are_widths_the_line_breaker_agrees_with() {
    let src = "<div>hello world</div>";
    let css = "div { margin: 0 }";
    let (min, max) = sizes_of(src, css, "div");

    assert_eq!(
        rows(src, css, max as u16).len(),
        1,
        "max-content must not wrap"
    );
    assert_eq!(
        rows(src, css, max as u16 - 1).len(),
        2,
        "one cell narrower must wrap"
    );
    for row in rows(src, css, min as u16) {
        assert!(
            row.width() as i32 <= min,
            "min-content {min} cannot hold {row:?}"
        );
    }
}

#[test]
fn a_block_takes_the_max_of_its_children_including_their_padding() {
    let src = "<div class=outer><div class=pad>wide!</div><div>hello</div></div>";
    let css = "div { margin: 0 } .pad { padding-left: 8px; padding-right: 8px }";
    let (dom, styles) = styled(src, css);
    let outer = find_tag(&dom, "div");
    let images = ImageContext::empty();
    let mut sizer = IntrinsicSizer::new(&dom, &styles, &images, Hidden::Respect);
    assert_eq!(sizer.max_content_width(outer), 7);
    assert_eq!(sizer.min_content_width(outer), 7);
}

#[test]
fn pre_measures_its_widest_line_and_collapses_nothing() {
    let (min, max) = sizes_of("<pre>a  b\nxy</pre>", "", "pre");
    assert_eq!((min, max), (4, 4));
}

#[test]
fn a_specified_width_is_both_sizes_and_the_clamps_apply() {
    assert_eq!(
        sizes_of("<div>hello world</div>", "div { width: 10em }", "div"),
        (20, 20)
    );
    assert_eq!(
        sizes_of(
            "<div>hello world</div>",
            "div { width: 10em; max-width: 4em }",
            "div"
        ),
        (8, 8),
        "max-width clamps the intrinsic result"
    );
    assert_eq!(
        sizes_of(
            "<div>hello world</div>",
            "div { width: 10em; min-width: 12em; max-width: 4em }",
            "div"
        ),
        (24, 24),
        "min-width beats a smaller max-width"
    );
}

#[test]
fn a_rows_width_comes_from_its_items_flex_basis_not_their_text() {
    let row = "<div id=r><div class=i>a</div><div class=i>b</div></div>";
    let rigid = "#r { display: flex } .i { flex: 0 0 80px }";
    assert_eq!(sizes_of(row, rigid, "div"), (20, 20));

    let can_shrink = "#r { display: flex } .i { flex: 0 1 80px }";
    assert_eq!(
        sizes_of(row, can_shrink, "div"),
        (2, 20),
        "shrinkable items bottom out at their automatic minimum"
    );

    let growable = "#r { display: flex } .i { flex: 1 }";
    assert_eq!(sizes_of(row, growable, "div"), (2, 2));
}

#[test]
fn border_box_subtracts_padding_and_border_as_m9_2_does() {
    let css = "div { margin: 0; width: 10em; padding: 8px; border: 8px solid; box-sizing: border-box }";
    assert_eq!(sizes_of("<div>hi</div>", css, "div"), (16, 16));

    let (dom, styles) = styled("<div>hi</div>", css);
    let div = find_tag(&dom, "div");
    let tree = layout_document(&dom, &styles, 80, Hidden::Respect);
    let mut laid_out = None;
    walk(&tree, tree.root, &mut |_, b| {
        if b.node == Some(div) {
            laid_out = Some(b.dimensions.content.width);
        }
    });
    assert_eq!(
        laid_out,
        Some(16),
        "intrinsic sizing must not disagree with layout"
    );

    let content_box = "div { margin: 0; width: 10em; padding: 8px; border: 8px solid }";
    assert_eq!(sizes_of("<div>hi</div>", content_box, "div"), (20, 20));
}

#[test]
fn an_image_measures_its_replaced_box() {
    let dom = parse_html(r#"<div><img src="a.png" width="80" height="48" alt="pic"></div>"#);
    let styles = style_tree(&dom, &[]);
    let images = images_of(&dom, "https://ex/");
    let mut sizer = IntrinsicSizer::new(&dom, &styles, &images, Hidden::Respect);

    let img = find_tag(&dom, "img");
    assert_eq!(sizer.min_content_width(img), 10);
    assert_eq!(sizer.max_content_width(img), 10);
    let div = find_tag(&dom, "div");
    assert_eq!(sizer.min_content_width(div), 10);
    assert_eq!(sizer.max_content_width(div), 10);
}

#[test]
fn wide_glyphs_are_measured_in_cells_not_chars() {
    assert_eq!(
        sizes_of("<div>世界 hi</div>", "div { margin: 0 }", "div"),
        (4, 7)
    );
}

#[test]
fn each_node_is_measured_once_per_pass() {
    const DEPTH: usize = 120;
    let mut src = String::new();
    for _ in 0..DEPTH {
        src.push_str("<div>");
    }
    src.push_str("hello world");
    for _ in 0..DEPTH {
        src.push_str("</div>");
    }
    let (dom, styles) = styled(&src, "div { margin: 0 }");
    let images = ImageContext::empty();
    let mut sizer = IntrinsicSizer::new(&dom, &styles, &images, Hidden::Respect);

    let outer = find_tag(&dom, "div");
    assert_eq!(sizer.max_content_width(outer), 11);
    assert_eq!(sizer.measured_nodes(), DEPTH);

    assert_eq!(sizer.min_content_width(outer), 5);
    let mut node = outer;
    loop {
        assert_eq!(sizer.max_content_width(node), 11);
        assert_eq!(sizer.min_content_width(node), 5);
        match kids(&dom, node).next() {
            Some(child) if matches!(&dom.node(child).data, NodeData::Element { .. }) => {
                node = child
            }
            _ => break,
        }
    }
    assert_eq!(
        sizer.measured_nodes(),
        DEPTH,
        "a node was measured more than once"
    );
}

#[test]
fn display_none_children_contribute_nothing() {
    let src =
        "<div class=outer><div class=gone>a very wide hidden thing</div><div>hi</div></div>";
    let css = "div { margin: 0 } .gone { display: none }";
    assert_eq!(sizes_of(src, css, "div"), (2, 2));
}

const SAMPLE: usize = 6;

const MIN_CHECKED: usize = 3;

struct Page<'a> {
    label: &'a str,
    dom: &'a Dom,
    styles: &'a Styles,
    images: &'a ImageContext,
}

impl Page<'_> {
    fn lay_out(&self, width: i32) -> LayoutTree {
        layout_document_with(
            self.dom,
            self.styles,
            width.clamp(1, u16::MAX as i32) as u16,
            Hidden::Respect,
            self.images,
        )
    }

    fn content_width(&self, node: NodeId, width: i32) -> Option<i32> {
        let tree = self.lay_out(width);
        content_width(&tree, node)
    }

    fn page_width_giving(&self, node: NodeId, want: i32) -> Option<i32> {
        let (mut lo, mut hi) = (1i32, want + 200);
        while lo < hi {
            let mid = lo + (hi - lo) / 2;
            match self.content_width(node, mid) {
                Some(w) if w >= want => hi = mid,
                _ => lo = mid + 1,
            }
        }
        (self.content_width(node, lo) == Some(want)).then_some(lo)
    }
}

fn box_of(tree: &LayoutTree, node: NodeId) -> Option<BoxId> {
    let mut found = None;
    walk(&tree, tree.root, &mut |id, b| {
        if found.is_none()
            && b.node == Some(node)
            && matches!(b.kind, BoxKind::Block | BoxKind::Flex)
        {
            found = Some(id);
        }
    });
    found
}

fn content_width(tree: &LayoutTree, node: NodeId) -> Option<i32> {
    box_of(tree, node).map(|id| tree.get(id).dimensions.content.width)
}

fn widest_row(tree: &LayoutTree, root: BoxId) -> i32 {
    let mut out = 0;
    walk(tree, root, &mut |_, b| match b.kind {
        BoxKind::Line => {
            let cells: i32 = b
                .children
                .iter()
                .map(|&c| tree.get(c).dimensions.content.width)
                .sum();
            out = out.max(cells);
        }
        BoxKind::Image => out = out.max(b.dimensions.content.width),
        _ => {}
    });
    out
}

fn line_boxes(tree: &LayoutTree, root: BoxId) -> usize {
    let mut n = 0;
    walk(tree, root, &mut |_, b| {
        if b.kind == BoxKind::Line {
            n += 1;
        }
    });
    n
}

fn text_extent(tree: &LayoutTree, root: BoxId) -> i32 {
    let left = tree.get(root).dimensions.content.x;
    let mut out = 0;
    walk(tree, root, &mut |_, b| {
        if b.kind == BoxKind::Text {
            out = out.max(b.dimensions.content.right() - left);
        }
    });
    out
}

fn tag_of(dom: &Dom, node: NodeId) -> &str {
    match &dom.node(node).data {
        NodeData::Element { tag, .. } => tag,
        _ => "?",
    }
}

fn subtree_any(dom: &Dom, node: NodeId, f: &dyn Fn(NodeId) -> bool) -> bool {
    f(node) || kids(&dom, node).any(|c| subtree_any(dom, c, f))
}

impl Page<'_> {
    fn measurable_blocks(&self) -> Vec<NodeId> {
        let (dom, styles) = (self.dom, self.styles);
        let mut out = Vec::new();
        let mut stack = vec![dom.root];
        while let Some(node) = stack.pop() {
            stack.extend(kids(&dom, node));
            if !matches!(&dom.node(node).data, NodeData::Element { .. })
                || !is_block_level(styles.get(node).display)
            {
                continue;
            }
            let has_text = subtree_any(dom, node, &|n| {
                matches!(&dom.node(n).data, NodeData::Text(t) if !t.trim().is_empty())
                    && styles.get(n).display != Display::NoBox
            });
            if !has_text {
                continue;
            }
            let sized = subtree_any(dom, node, &|n| {
                let c = styles.get(n);
                !c.width.is_auto() || !c.min_width.is_auto() || !c.max_width.is_auto()
            });
            if sized {
                continue;
            }
            out.push(node);
        }
        out.sort_by_key(|n| n.0);
        out
    }

    fn check(&self) {
        let mut sizer =
            IntrinsicSizer::new(self.dom, self.styles, self.images, Hidden::Respect);
        let candidates = self.measurable_blocks();
        let step = (candidates.len() / SAMPLE).max(1);
        let mut checked = 0;
        for node in candidates.into_iter().step_by(step).take(SAMPLE) {
            let max = sizer.max_content_width(node);
            let min = sizer.min_content_width(node);
            if max <= 0 || min <= 0 {
                continue;
            }
            let what = format!(
                "{}: <{}> #{} (max {max}, min {min})",
                self.label,
                tag_of(self.dom, node),
                node.0
            );
            let mut reached = self.widest_row_agrees(node, max, &what);
            reached |= self.narrowing_agrees(node, max, min, &what);
            if reached {
                checked += 1;
            }
        }
        assert!(
            checked >= MIN_CHECKED,
            "{}: only {checked} elements were measurable — the filters \
             have eaten the test",
            self.label
        );
    }

    fn widest_row_agrees(&self, node: NodeId, max: i32, what: &str) -> bool {
        let has_block_child = kids(self.dom, node).any(|c| {
            subtree_any(self.dom, c, &|n| is_block_element(self.dom, self.styles, n))
        });
        if has_block_child {
            return false;
        }
        if lays_out_as_flex(&self.styles.get(node)) {
            return false;
        }
        let tree = self.lay_out(max + 200);
        let Some(id) = box_of(&tree, node) else {
            return false;
        };
        if tree.get(id).dimensions.content.width < max {
            return false;
        }
        assert_eq!(
            widest_row(&tree, id),
            max,
            "{what}: the breaker's widest unwrapped row is not max-content"
        );
        true
    }

    fn narrowing_agrees(&self, node: NodeId, max: i32, min: i32, what: &str) -> bool {
        let Some(page) = self.page_width_giving(node, max) else {
            return false;
        };
        let roomy = self.lay_out(page + 40);
        let at_max = self.lay_out(page);
        let (Some(roomy_box), Some(max_box)) =
            (box_of(&roomy, node), box_of(&at_max, node))
        else {
            return false;
        };
        assert_eq!(
            line_boxes(&at_max, max_box),
            line_boxes(&roomy, roomy_box),
            "{what}: content wrapped at its own max-content width"
        );

        let at_narrow = self.lay_out(page - 1);
        if let (true, Some(narrow_box)) = (min < max, box_of(&at_narrow, node)) {
            assert!(
                line_boxes(&at_narrow, narrow_box) > line_boxes(&at_max, max_box),
                "{what}: nothing wrapped one cell below max-content, so \
                 max-content is wider than the run really needs"
            );
        }

        if let Some(page) = self.page_width_giving(node, min) {
            let tree = self.lay_out(page);
            if let Some(min_box) = box_of(&tree, node) {
                assert!(
                    text_extent(&tree, min_box) <= min,
                    "{what}: a row overflows min-content by {} cells",
                    text_extent(&tree, min_box) - min
                );
            }
        }
        true
    }
}

fn is_block_element(dom: &Dom, styles: &Styles, node: NodeId) -> bool {
    matches!(&dom.node(node).data, NodeData::Element { .. })
        && is_block_level(styles.get(node).display)
}

#[test]
fn shapes_the_ladder_pages_do_not_have() {
    let (dom, styles) = styled(
        &["<div class=doc>", "<div class=para>a  bb   ccc dddd</div>", "<div class=ws>   spaced out   </div>", "<div class=nested>lead <b class=tight>bold</b> tail</div>", "<div class=brs>alpha<br>beta gamma<br>d</div>", "<div class=nbr>x <span>alpha<br>beta gamma</span> y</div>", "<pre>xx  <b>yy</b> zzzz\nshort\nq</pre>", "<div class=mixed>loose words before", "<div class=inner>inner block</div>and words after</div>", "<div class=cjk>世界 hi こんにちは</div>", "</div>",].concat(),
        "div, pre { margin: 0 } .tight { margin-left: 8px; padding-right: 16px }",
    );
    Page {
        label: "synthetic shapes",
        dom: &dom,
        styles: &styles,
        images: &ImageContext::empty(),
    }
    .check();
}

#[test]
fn an_inline_image_is_atomic_on_both_sides() {
    let dom = parse_html(&["<div class=doc><div class=img>", r#"text before <img src="a.png" width="48" height="16"> text after"#, "</div></div>",].concat());
    let sheet = parse_css("div { margin: 0 }");
    let styles = style_tree(&dom, &[&sheet]);
    let images = images_of(&dom, "https://fixture.test/page");
    Page {
        label: "inline image",
        dom: &dom,
        styles: &styles,
        images: &images,
    }
    .check();
}

// ---- grids, spans and laws over whole pages ------------------------------

#[test]
fn a_grid_places_items_in_the_first_free_cells() {
    let markup = "<div id=g><div>a</div><div class=w>b</div><div>c</div></div>";
    let css = "#g { display: grid; grid-template-columns: 80px 1fr; gap: 1em }
               .w { grid-column: span 2 }";
    let (dom, styles) = styled_dom(markup, css);
    let tree = layout_document(&dom, &styles, 40, Hidden::Respect);
    let grid = tree.boxes.iter().find(|b| b.kind == BoxKind::Grid).unwrap();
    let cells: Vec<_> = grid
        .children
        .iter()
        .map(|&c| {
            let d = tree.get(c).dimensions.content;
            (d.x, d.y, d.width, d.height)
        })
        .collect();
    assert_eq!(cells, [(0, 0, 10, 1), (0, 2, 40, 1), (12, 0, 28, 1)]);
    assert_eq!(grid.dimensions.content.height, 3);
    let tracks = grid.grid.as_ref().unwrap();
    assert_eq!((tracks.columns.as_slice(), tracks.rows.as_slice()), (&[10, 28][..], &[1, 1][..]));
    assert_eq!(plain(&from_tree(&tree)), ["a           c", "", "b"]);
}

#[test]
fn grid_lines_put_an_item_where_they_say() {
    let markup = "<div id=g><div class=a>a</div><div>b</div></div>";
    let css = "#g { display: grid; grid-template-columns: 80px 80px 80px }
               .a { grid-column: 2 / 4; grid-row: 2 }";
    let (dom, styles) = styled_dom(markup, css);
    let tree = layout_document(&dom, &styles, 40, Hidden::Respect);
    let grid = tree.boxes.iter().find(|b| b.kind == BoxKind::Grid).unwrap();
    let places: Vec<_> = grid
        .children
        .iter()
        .map(|&c| {
            let d = tree.get(c).dimensions.content;
            (d.x, d.y, d.width)
        })
        .collect();
    assert_eq!(places, [(10, 1, 20), (0, 0, 10)]);
}

#[test]
fn spanning_cells_share_tracks_and_rows() {
    let markup = "<table><tr><td colspan=2>ab</td><td rowspan=2>x</td></tr>\
                  <tr><td>c</td><td>d</td></tr></table>";
    let (dom, styles) = styled_dom(markup, "");
    let tree = layout_document(&dom, &styles, 40, Hidden::Respect);
    let rows: Vec<_> = tree.boxes.iter().filter(|b| b.kind == BoxKind::TableRow).collect();
    let widths: Vec<i32> = rows[0]
        .children
        .iter()
        .map(|&c| tree.get(c).dimensions.margin_box_width())
        .collect();
    assert_eq!(widths, [2, 1]);
    assert_eq!(tree.get(rows[0].children[1]).dimensions.content.height, 4);
    assert_eq!(plain(&from_tree(&tree)), ["abx", "", "cd", ""]);
}

#[test]
fn a_link_on_two_rows_is_listed_once_and_found_on_both() {
    let (dom, styles) = styled_dom("<p>see <a href=/long>one two three</a></p>", "");
    let tree = layout_document(&dom, &styles, 8, Hidden::Respect);
    let links = collect_links(&tree, &dom);
    assert_eq!(links.len(), 1);
    assert_eq!((links[0].x, links[0].y), (4, 0));
    for (x, y) in [(4, 0), (0, 1), (0, 2)] {
        assert_eq!(link_at(&tree, &dom, x, y).map(|(_, h)| h).as_deref(), Some("/long"));
    }
    // What a click follows is what the Tab cycle visits.
    let clicked = link_at(&tree, &dom, 4, 0).unwrap();
    assert!(dom_links(&dom).contains(&clicked));
    assert_eq!(hit::focusables(&tree, &dom), [clicked.0]);
    assert_eq!(hit::dom_focusables(&dom), [clicked.0]);
}

#[test]
fn a_disabled_control_takes_no_focus() {
    let (dom, styles) = styled_dom("<p><input disabled><input size=3></p>", "");
    let tree = layout_document(&dom, &styles, 60, Hidden::Respect);
    let inputs: Vec<NodeId> = all_nodes(&dom).filter(|&n| dom.tag(n) == "input").collect();
    assert_eq!(hit::focusables(&tree, &dom), [inputs[1]]);
    assert_eq!(hit::nearest_field(&dom, inputs[0]), None);
    assert_eq!(hit::nearest_field(&dom, inputs[1]), Some(inputs[1]));
}

#[test]
fn no_row_of_text_is_wider_than_its_column() {
    let markup = "<p>one sesquipedalian 漢字漢字漢字 word <b>bold</b>, and some more</p>";
    for width in 2..40u16 {
        for row in lines(markup, width) {
            assert!(cells(&row) <= width as usize, "at {width}: {:?}", text(&row));
        }
    }
}

#[test]
fn every_box_is_at_least_nothing_wide() {
    let markup = "<div id=r><div class=a>alpha</div><img src=x.png width=80 height=16>\
                  <table><tr><td>cell</td></tr></table><input size=5></div>";
    let css = "#r { display: flex; gap: 1em } .a { margin: 0 -80px; padding: 8px; width: 0 }";
    for width in 1..30u16 {
        let (dom, styles) = styled_dom(markup, css);
        let tree = layout_document_with(
            &dom,
            &styles,
            width,
            Hidden::Respect,
            &images_of(&dom, "https://x.test/"),
        );
        assert!(tree.boxes.iter().all(|b| b.dimensions.content.width >= 0), "at {width}");
    }
}

#[test]
fn a_deep_document_is_laid_out_to_its_bottom() {
    let depth = 60;
    let markup = format!("{}bottom{}", "<div>".repeat(depth), "</div>".repeat(depth));
    assert_eq!(plain(&lines(&markup, 20)), ["bottom"]);
}

#[test]
fn a_fixed_cell_takes_no_track() {
    let (dom, styles) = styled_dom(
        "<table><tr><td id=a>a</td><td id=b>b</td></tr></table>",
        "#b { position: fixed }",
    );
    let images = ImageContext::empty();
    let ctx = Ctx { dom: &dom, styles: &styles, images: &images, hidden: Hidden::Respect };
    let (rows, loose) = ctx.table_rows(find_tag(&dom, "table"));
    assert_eq!(rows.len(), 1);
    assert_eq!(rows[0].row, find_tag(&dom, "tr"));
    assert_eq!(rows[0].cells, [node_with_id(&dom, "a")]);
    assert!(loose.is_empty());

    let tree = layout_document(&dom, &styles, 20, Hidden::Respect);
    let fixed = node_with_id(&dom, "b");
    let boxes: Vec<&LayoutBox> = tree.boxes.iter().filter(|b| b.node == Some(fixed)).collect();
    assert_eq!(boxes.len(), 1, "laid out once");
    assert!(boxes[0].fixed_viewport);
}

#[test]
fn a_fixed_child_is_no_flex_item() {
    for position in ["fixed", "absolute"] {
        let css = format!("#r {{ display: flex }} #b {{ position: {position} }}");
        let (dom, styles) = styled_dom("<div id=r><div>a</div><div id=b>b</div></div>", &css);
        let tree = layout_document(&dom, &styles, 20, Hidden::Respect);
        let out = node_with_id(&dom, "b");
        assert_eq!(tree.boxes.iter().filter(|b| b.node == Some(out)).count(), 1, "{position}");
        let mut sizer = IntrinsicSizer::new(&dom, &styles, &ImageContext::Nothing, Hidden::Respect);
        assert_eq!(sizer.max_content_width(node_with_id(&dom, "r")), 1, "{position}");
    }
}

#[test]
fn an_image_in_a_column_of_no_width_is_still_one_cell_wide() {
    let markup = "<div><pre><img src=x.png width=80 height=32></pre></div>";
    let (dom, styles) = styled_dom(markup, "div { width: 0 } pre { margin: 0 }");
    let images = images_of(&dom, "https://x.test/");
    let tree = layout_document_with(&dom, &styles, 20, Hidden::Respect, &images);
    let image = tree.boxes.iter().find(|b| b.kind == BoxKind::Image).expect("an image box");
    assert_eq!(image.dimensions.content.width, 1);
    assert!(image.dimensions.content.height >= 1);
}

fn shapes(tree: &LayoutTree) -> Vec<(BoxKind, Option<NodeId>, Dimensions, Vec<BoxId>, Option<String>)> {
    tree.boxes
        .iter()
        .map(|b| (b.kind, b.node, b.dimensions, b.children.clone(), b.text.clone()))
        .collect()
}

#[test]
fn only_what_is_anchored_sees_the_viewport() {
    let markup = "<div id=r><p>some words to wrap</p><div id=a>b</div></div>";
    let images = ImageContext::Nothing;
    let heights = |css: &str| {
        let (dom, styles) = styled_dom(markup, css);
        let one = layout_tree_with(&dom, &styles, 9, Hidden::Respect, &images);
        let tall = layout_tree_with_viewport(&dom, &styles, 9, 24, Hidden::Respect, &images);
        ((one.height, shapes(&one)), (tall.height, shapes(&tall)))
    };
    let (one, tall) = heights("#r { display: flex } #a { position: absolute; height: 50% }");
    assert_eq!(one, tall, "flow and absolute boxes have no height to fill");
    let (one, tall) = heights("#a { position: fixed; top: 50% }");
    assert_ne!(one, tall, "a fixed one has");
}

#[test]
fn nothing_visible_lies_below_the_page() {
    let markup = "<div id=s><p>tall</p><p>taller</p><p>tallest</p></div><p id=e>end</p>";
    for css in [
        "#s { height: 1em }",
        "#s { height: 1em; overflow: hidden }",
        "#s { height: 1em } #e { position: relative; top: 5em }",
    ] {
        let (dom, styles) = styled_dom(markup, css);
        let tree = layout_document(&dom, &styles, 30, Hidden::Respect);
        let page = tree.get(tree.root);
        assert_eq!(page.node, Some(dom.root));
        assert_eq!(
            page.dimensions.content,
            Rect { x: 0, y: 0, width: 30, height: tree.height }
        );
        for (id, clip) in tree.walk_clipped() {
            let visible = clip.apply(tree.get(id).dimensions.border_box());
            assert!(visible.height <= 0 || visible.bottom() <= tree.height, "{css}");
        }
    }
}

#[test]
fn a_page_wraps_just_below_its_max_content_width() {
    for words in ["hello world", "a bb ccc dddd", "漢字 mixed words"] {
        let (dom, styles) = styled_dom(&format!("<div>{words}</div>"), "div { margin: 0 }");
        let images = ImageContext::Nothing;
        let mut sizer = IntrinsicSizer::new(&dom, &styles, &images, Hidden::Respect);
        let width = sizer.max_content_width(find_tag(&dom, "div")) as u16;
        assert_eq!(width as usize, words.width());
        let rows = |w: u16| layout_document(&dom, &styles, w, Hidden::Respect).height;
        assert_eq!(rows(width), 1, "{words}");
        assert!(rows(width - 1) >= 2, "{words}");
    }
}

#[test]
fn a_column_builds_as_many_boxes_as_a_block() {
    let markup = "<div class=c>some text<div class=c><p>one two three</p><div>four</div></div>\
                  <div><b>bold</b> and plain</div>more</div>";
    for width in [3, 8, 40] {
        let block = geometry(markup, ".c { display: block }", width).len();
        for direction in ["column", "column-reverse"] {
            let css = format!(".c {{ display: flex; flex-direction: {direction} }}");
            assert_eq!(geometry(markup, &css, width).len(), block, "{direction} at {width}");
        }
    }
}

#[test]
fn no_box_has_a_negative_size() {
    for (markup, css) in [
        (
            "<div id=r><br><div>a</div></div>",
            "#r { display: flex } br { margin: 0 -80px }",
        ),
        (
            "<table><tr><td rowspan=2>x</td><td>a</td></tr>\
             <tr><td>b<br>c<br>d<br>e<br>f<br>g<br>h<br>i<br>j</td></tr></table>",
            "",
        ),
        ("<div id=r><p>tall</p></div>", "#r { height: 0; margin: -16px 0; padding: 0 }"),
    ] {
        let (dom, styles) = styled_dom(markup, css);
        for width in 1..25u16 {
            let tree = layout_document(&dom, &styles, width, Hidden::Respect);
            for b in &tree.boxes {
                let c = b.dimensions.content;
                assert!(c.width >= 0 && c.height >= 0, "{markup} at {width}: {c:?}");
            }
        }
    }
}

#[test]
fn a_box_inside_an_inline_is_measured_by_its_text() {
    let markup = "<div><span>a<i>bcd</i></span></div>";
    let css = "div { margin: 0 } i { display: inline-block; width: 80px; padding: 0 8px }";
    let (dom, styles) = styled_dom(markup, css);
    let mut sizer = IntrinsicSizer::new(&dom, &styles, &ImageContext::Nothing, Hidden::Respect);
    // The word before it, its padding, its own text, its padding.
    assert_eq!(sizer.max_content_width(find_tag(&dom, "div")), 1 + 1 + 3 + 1);
    // A control is a box wherever it stands.
    let (dom, styles) = styled_dom("<div><span><input size=4></span></div>", "div { margin: 0 }");
    let mut sizer = IntrinsicSizer::new(&dom, &styles, &ImageContext::Nothing, Hidden::Respect);
    assert!(sizer.max_content_width(find_tag(&dom, "div")) >= 4);
}

#[test]
fn a_run_of_several_inlines_wraps_just_below_its_max_content_width() {
    for (markup, rows) in [
        ("<div>one <b>two</b> three</div>", 1),
        ("<div>ab<i>cd</i> <b>ef <u>gh</u></b> ij</div>", 1),
        ("<div><span>one two<br>three four five<br>six</span></div>", 3),
        ("<div>x <span class=m>y</span>z w</div>", 1),
    ] {
        let (dom, styles) = styled_dom(markup, "div { margin: 0 } .m { padding-right: 16px }");
        let mut sizer = IntrinsicSizer::new(&dom, &styles, &ImageContext::Nothing, Hidden::Respect);
        let width = sizer.max_content_width(find_tag(&dom, "div")) as u16;
        let height = |w: u16| layout_document(&dom, &styles, w, Hidden::Respect).height;
        assert_eq!(height(width), rows, "{markup} at {width}");
        assert_eq!(height(width + 30), rows, "{markup} with room to spare");
        assert!(height(width - 1) > rows, "{markup} at {}", width - 1);
    }
}

#[test]
fn preformatted_text_takes_as_many_rows_in_every_column() {
    let markup = "<pre>a  b\n\nlong line here\nxy</pre>";
    let (dom, styles) = styled_dom(markup, "pre { margin: 0 }");
    let mut sizer = IntrinsicSizer::new(&dom, &styles, &ImageContext::Nothing, Hidden::Respect);
    let pre = find_tag(&dom, "pre");
    assert_eq!(sizer.max_content_width(pre), 14);
    assert_eq!(sizer.min_content_width(pre), 14);
    for width in 1..20u16 {
        assert_eq!(layout_document(&dom, &styles, width, Hidden::Respect).height, 4);
    }
}

#[test]
fn every_row_of_a_text_shows_some_of_it() {
    let markup = "<div>  some words and averyveryverylongone  too </div>";
    for width in 1..60u16 {
        for row in lines_styled(markup, "div { margin: 0 }", width) {
            assert!(!text(&row).trim().is_empty(), "at {width}");
        }
    }
}

#[test]
fn a_hit_is_the_topmost_box_with_a_node() {
    let (dom, styles) = styled_dom(
        "<div id=a>under</div><div id=b>over</div>",
        "div { margin: 0 } #b { position: relative; top: -16px }",
    );
    let tree = layout_document(&dom, &styles, 10, Hidden::Respect);
    let covering: Vec<NodeId> = tree
        .walk_clipped()
        .iter()
        .filter(|(id, clip)| {
            let r = tree.get(*id).dimensions.border_box();
            clip.contains(1, 0) && r.x <= 1 && 1 < r.right() && r.y <= 0 && 0 < r.bottom()
        })
        .filter_map(|(id, _)| tree.get(*id).node)
        .collect();
    assert_eq!(hit_test(&tree, 1, 0), covering.last().copied());
    assert_eq!(hit_test(&tree, 1, 50), None);
}

#[test]
fn links_come_in_order_of_appearance() {
    let (dom, styles) = styled_dom(
        "<p><a id=x href=1>one</a> <a id=y href=2>two</a></p><p><a id=z href=3>three</a></p>",
        "",
    );
    let tree = layout_document(&dom, &styles, 40, Hidden::Respect);
    let nodes: Vec<NodeId> = collect_links(&tree, &dom).iter().map(|l| l.node).collect();
    let named: Vec<NodeId> = ["x", "y", "z"].iter().map(|id| node_with_id(&dom, id)).collect();
    assert_eq!(nodes, named);
    let order = dom.in_doc_order();
    for (i, n) in order.iter().enumerate() {
        assert!(!order[i + 1..].contains(n), "no node comes twice");
    }
}
