//! The library's general statements, on values.

use yata::boxes::{BoxId, BoxKind, GridBorder, LayoutBox, LayoutTree};
use yata::boxmodel::{
    from_far_edge, is_atomic_inline, relative_delta, resolve_block_dims, shrink_to_fit, term_color,
    term_style, Axis, Hidden,
};
use yata::cells::{fit_wide, half, minus, plus, times};
use yata::clip::Clip;
use yata::columns::{fit_table_columns, raise_row_sum, raise_track_sum, TableColumn};
use yata::dimensions::{Dimensions, EdgeSizes, Rect};
use yata::document::{has_visible_content, layout, layout_document_readable};
use yata::dom::{Attr, Dom, DomError, NodeData, NodeId};
use yata::engine::new_box;
use yata::field::{control, value};
use yata::flex::{collect_lines, place, resolve, used_by_line, Item, Slot};
use yata::image::{ImageContext, ImageEntry};
use yata::lines::{debug_lines, from_tree, Line, Span};
use yata::order::stable_order;
use yata::page::layout_tree_with_viewport;
use yata::style::{
    BoxSizing, ColorValue, ComputedStyle, Display, Edges, FontWeight, JustifyContent, Length,
    Overflow, Position, Styles,
};
use yata::term::{Attrs, Color, Style};
use yata::text::{char_cells, join, parse_i32, parse_u64, str_cells, trim, words, Spaces};

// ---- cells and lengths --------------------------------------------------

#[test]
fn cell_arithmetic_saturates_instead_of_wrapping() {
    assert_eq!(plus(2, 3), 5);
    assert_eq!(plus(i32::MAX, 1), i32::MAX);
    assert_eq!(minus(i32::MIN, 1), i32::MIN);
    assert_eq!(times(100_000, 100_000), i32::MAX);
    assert_eq!(half(7), 3);
    assert_eq!(fit_wide(-5_000_000_000), i32::MIN);
}

#[test]
fn no_length_asks_for_more_cells_than_the_cap() {
    assert_eq!(Length::Em(100_000_000_000_000).to_cells_h(80), 1_000_000);
    assert_eq!(Length::Px(-100_000_000_000_000).to_cells_v(80), -1_000_000);
    assert_eq!(Length::Px(16_000).to_cells_h(80), 2);
    assert_eq!(Length::Em(1_500).to_cells_h(80), 3);
    assert_eq!(Length::Percent(25_000).to_cells_h(80), 20);
    assert_eq!(Length::Px(16_000).to_cells_v(80), 1);
    assert_eq!(Length::Auto.to_cells_h(80), 0);
}

// ---- text ---------------------------------------------------------------

#[test]
fn widths_are_cells_and_not_characters() {
    assert_eq!(str_cells("hello"), 5);
    assert_eq!(str_cells("漢字"), 4);
    assert_eq!(str_cells(""), 0);
    assert_eq!(char_cells('漢'), 2);
    assert_eq!(char_cells('a'), 1);
    assert_eq!(char_cells('\u{7}'), 0);
}

#[test]
fn words_are_what_spaces_leave() {
    assert_eq!(words("  one two\n three ", Spaces::Html), ["one", "two", "three"]);
    assert_eq!(join(&words("a  b", Spaces::Html), " "), "a b");
    assert_eq!(trim("  x y "), "x y");
    assert_eq!(parse_u64("17"), Some(17));
    assert_eq!(parse_u64("+17"), Some(17));
    assert_eq!(parse_u64("-1"), None);
    assert_eq!(parse_u64("99999999999999999999"), None);
    assert_eq!(parse_i32("-4"), Some(-4));
    assert_eq!(parse_i32("x"), None);
}

// ---- boxes --------------------------------------------------------------

fn dims(content: Rect, edge: i32) -> Dimensions {
    let edges = EdgeSizes { top: edge, right: edge, bottom: edge, left: edge };
    Dimensions { content, padding: edges, border: edges, margin: edges }
}

#[test]
fn the_margin_box_is_as_wide_as_it_says() {
    let d = dims(Rect { x: 10, y: 10, width: 20, height: 5 }, 2);
    assert_eq!(d.margin_box(), Rect { x: 4, y: 4, width: 32, height: 17 });
    assert_eq!(d.margin_box_width(), 32);
    assert_eq!(d.border_box(), Rect { x: 6, y: 6, width: 28, height: 13 });
    assert_eq!(d.padding_box(), Rect { x: 8, y: 8, width: 24, height: 9 });
}

#[test]
fn a_minimum_beats_a_smaller_maximum() {
    let axis = Axis { edges: 4, box_sizing: BoxSizing::ContentBox };
    assert_eq!(axis.clamp(10, Some(8), Some(3)), 8);
    assert_eq!(axis.clamp(10, None, Some(3)), 3);
    assert_eq!(axis.clamp(-5, None, None), 0);
    let outer = Axis { edges: 4, box_sizing: BoxSizing::BorderBox };
    assert_eq!(outer.content_from(10), 6);
    assert_eq!(outer.content_from(3), 0);
}

#[test]
fn shrink_to_fit_lies_between_the_content_widths() {
    assert_eq!(shrink_to_fit(5, 16, 3), 5);
    assert_eq!(shrink_to_fit(5, 16, 9), 9);
    assert_eq!(shrink_to_fit(5, 16, 40), 16);
}

#[test]
fn a_reversed_axis_counts_back_from_the_far_edge() {
    assert_eq!(from_far_edge(0, 40, 20, 0, 10), 30);
    // What overflows is counted from its own far edge, so nothing lands before
    // the near one.
    assert_eq!(from_far_edge(0, 15, 20, 10, 10), 0);
}

#[test]
fn an_auto_block_fills_what_its_edges_leave() {
    let mut c = ComputedStyle::initial();
    c.padding = Edges::all(Length::Px(8_000));
    c.margin.left = Length::Px(16_000);
    let d = resolve_block_dims(&c, 40, None);
    assert_eq!(d.content.width, 36);
    assert_eq!(d.margin_box_width(), 40);
    // Auto margins share what a definite width leaves, the odd cell going right.
    c.width = Length::Px(80_000);
    c.padding = Edges::all(Length::Px(0));
    c.margin.left = Length::Auto;
    c.margin.right = Length::Auto;
    let d = resolve_block_dims(&c, 41, None);
    assert_eq!((d.margin.left, d.content.width, d.margin.right), (15, 10, 16));
    assert_eq!(resolve_block_dims(&c, 41, Some(7)).content.width, 10);
}

#[test]
fn a_relative_box_prefers_its_near_insets() {
    let mut c = ComputedStyle::initial();
    c.left = Length::Px(16_000);
    c.right = Length::Px(80_000);
    c.bottom = Length::Px(32_000);
    assert_eq!(relative_delta(c, 40, None), (2, -2));
}

#[test]
fn colours_that_would_vanish_are_the_terminals_own() {
    assert_eq!(term_color(ColorValue::Default), Color::Default);
    assert_eq!(term_color(ColorValue::Rgb(0, 0, 0)), Color::Default);
    assert_eq!(term_color(ColorValue::Rgb(255, 255, 255)), Color::Default);
    assert_eq!(term_color(ColorValue::Rgb(0x5c, 0x5c, 0xff)), Color::Rgb(0x5c, 0x5c, 0xff));
    let mut c = ComputedStyle::initial();
    c.font_weight = FontWeight::Bold;
    c.underline = true;
    let s = term_style(&c);
    assert!(s.attrs.bold && s.attrs.underline && !s.attrs.italic);
    assert!(s.attrs.contains(Attrs { bold: true, italic: false, underline: false }));
    assert!(!Attrs::none().contains(s.attrs));
    assert_eq!(Attrs::none().union(s.attrs), s.attrs);
}

#[test]
fn clips_only_ever_narrow() {
    let mut b = new_box(
        BoxKind::Block,
        None,
        Dimensions::bare(Rect { x: 2, y: 1, width: 10, height: 3 }),
        ComputedStyle::initial(),
    );
    assert_eq!(Clip::none().inside(&b), Clip::none());
    b.computed.overflow_x = Overflow::Hidden;
    b.computed.overflow_y = Overflow::Hidden;
    let once = Clip::none().inside(&b);
    assert!(once.contains(2, 1) && !once.contains(12, 1) && !once.contains(2, 4));
    b.dimensions.content = Rect { x: 20, y: 1, width: 10, height: 3 };
    let twice = once.inside(&b);
    assert!(twice.is_empty());
    assert!(!twice.contains(20, 1) && !twice.contains(2, 1));
    assert_eq!(once.apply(Rect { x: 0, y: 0, width: 5, height: 9 }).width, 3);
    assert_eq!(once.trim_text(0, 1, "abcdef"), Some((2, "cdef".to_string())));
    assert_eq!(once.trim_text(0, 7, "abcdef"), None);
    // Half of a wide glyph is not shown.
    assert_eq!(once.trim_text(1, 1, "漢ab"), Some((3, "ab".to_string())));
}

// ---- flex ---------------------------------------------------------------

fn item(base: i32, min: i32, max: Option<i32>, grow: u32) -> Item {
    let capped = max.map_or(base, |m| base.min(m));
    Item {
        base,
        hypothetical: capped.max(min.max(0)),
        min,
        max,
        grow,
        shrink: 1000,
        outer_edges: 0,
    }
}

#[test]
fn items_stay_between_their_bounds_however_much_room_there_is() {
    let items = vec![
        item(10, 4, Some(12), 1000),
        item(10, 8, None, 3000),
        item(20, 0, Some(25), 0),
    ];
    for width in 0..120 {
        let sizes = resolve(&items, width, 0);
        assert!(sizes[0] >= 4 && sizes[0] <= 12, "{width}: {sizes:?}");
        assert!(sizes[1] >= 8, "{width}: {sizes:?}");
        assert!(sizes[2] <= 25, "{width}: {sizes:?}");
    }
}

#[test]
fn a_growing_line_is_filled_though_minima_hold_some_items_back() {
    let items = vec![item(0, 30, None, 1000), item(0, 3, None, 1000), item(0, 0, None, 2000)];
    for width in 40..=120 {
        let sizes = resolve(&items, width, 0);
        assert_eq!(sizes.iter().sum::<i32>(), width, "{sizes:?}");
        assert!(sizes[0] >= 30 && sizes[1] >= 3);
    }
    assert_eq!(resolve(&items, 50, 0), [30, 7, 13]);
}

fn slot(outer: i32) -> Slot {
    Slot { outer, auto_start: false, auto_end: false }
}

#[test]
fn aligned_items_neither_overlap_nor_overflow() {
    let slots = vec![slot(10), slot(5), slot(5)];
    assert_eq!(used_by_line(&slots, 2), 24);
    let starts = |justify| -> Vec<i32> {
        place(&slots, 2, 31, justify).iter().map(|p| p.main_start).collect()
    };
    assert_eq!(starts(JustifyContent::FlexStart), [0, 12, 19]);
    assert_eq!(starts(JustifyContent::FlexEnd), [7, 19, 26]);
    assert_eq!(starts(JustifyContent::Center), [4, 16, 23]);
    assert_eq!(starts(JustifyContent::SpaceBetween), [0, 16, 26]);
    assert_eq!(starts(JustifyContent::SpaceEvenly), [2, 16, 25]);
    assert_eq!(starts(JustifyContent::SpaceAround), [2, 16, 25]);
    // A line that overflows starts at the start edge.
    let crowded: Vec<i32> =
        place(&slots, 2, 10, JustifyContent::FlexEnd).iter().map(|p| p.main_start).collect();
    assert_eq!(crowded, [0, 12, 19]);
}

#[test]
fn auto_margins_take_the_free_space_first() {
    let mut slots = vec![slot(10), slot(10)];
    slots[1].auto_start = true;
    let placed = place(&slots, 0, 35, JustifyContent::Center);
    assert_eq!(placed[0].main_start, 0);
    assert_eq!((placed[1].main_start, placed[1].auto_start), (10, 15));
}

#[test]
fn wrapping_keeps_every_item_in_order() {
    let items: Vec<Item> = (0..7).map(|i| item(5 + i, 0, None, 0)).collect();
    assert_eq!(collect_lines(&items, 20, 1, true), [(0, 3), (3, 5), (5, 6), (6, 7)]);
    assert_eq!(collect_lines(&items, 20, 1, false), [(0, 7)]);
    assert_eq!(collect_lines(&items, 3, 1, true).len(), 7);
    assert!(collect_lines(&Vec::new(), 3, 1, true).is_empty());
}

#[test]
fn sorting_keeps_equal_keys_as_they_stood() {
    assert_eq!(stable_order(&vec![3, 1, 3, 2, 1]), [1, 4, 3, 0, 2]);
    assert!(stable_order(&Vec::new()).is_empty());
}

// ---- table tracks -------------------------------------------------------

fn columns(bounds: &[(i32, i32)]) -> Vec<TableColumn> {
    bounds.iter().map(|&(min, max)| TableColumn { min, max, used: min }).collect()
}

#[test]
fn fitted_columns_fill_the_table_and_keep_their_minima() {
    assert_eq!(fit_table_columns(&columns(&[(3, 10), (2, 8)]), 12), [7, 5]);
    for requested in 0..60 {
        let widths = fit_table_columns(&columns(&[(3, 10), (0, 8), (4, 4)]), requested);
        assert_eq!(widths.iter().sum::<i32>(), requested.max(8), "{widths:?}");
        assert!(widths[0] >= 3 && widths[1] >= 1 && widths[2] >= 4);
    }
}

#[test]
fn a_span_that_asks_for_less_takes_from_its_tracks() {
    let mut tracks = columns(&[(5, 5), (5, 5)]);
    raise_track_sum(&mut tracks, 0, 2, 2, true);
    assert_eq!(tracks.iter().map(|t| (t.min, t.max)).collect::<Vec<_>>(), [(1, 5), (1, 5)]);
    let mut rows = vec![3, 3];
    raise_row_sum(&mut rows, 0, 2, 1);
    assert_eq!(rows, [2, 2]);
    raise_row_sum(&mut rows, 1, 9, 5);
    assert_eq!(rows, [2, 5]);
}

// ---- documents ----------------------------------------------------------

fn text_in(dom: &mut Dom, parent: NodeId, text: &str) -> NodeId {
    let id = dom.create_text(text);
    dom.append(parent, id).unwrap();
    id
}

fn element_in(dom: &mut Dom, parent: NodeId, tag: &str) -> NodeId {
    let id = dom.create_element(tag, Vec::new());
    dom.append(parent, id).unwrap();
    id
}

fn blocks(dom: &Dom) -> Styles {
    let by_node = (0..dom.node_count() as u32)
        .map(|n| match dom.node(NodeId(n)).data {
            NodeData::Element { .. } => {
                ComputedStyle { display: Display::Block, ..ComputedStyle::initial() }
            }
            _ => ComputedStyle::initial(),
        })
        .collect();
    Styles { by_node, tracks: Vec::new() }
}

#[test]
fn a_node_cannot_be_put_inside_itself() {
    let mut dom = Dom::new();
    let root = dom.root;
    let outer = element_in(&mut dom, root, "div");
    let inner = element_in(&mut dom, outer, "p");
    assert_eq!(dom.append(inner, outer), Err(DomError::Cycle));
    assert_eq!(dom.append(outer, outer), Err(DomError::Cycle));
    assert_eq!(dom.parent(inner), Some(outer));
    assert_eq!(dom.append(root, inner), Ok(()));
    assert_eq!(dom.children(outer).len(), 0);
    assert_eq!(*dom.children(root), [outer, inner]);
}

#[test]
fn document_order_lists_what_is_inside() {
    let mut dom = Dom::new();
    let root = dom.root;
    let a = element_in(&mut dom, root, "div");
    let b = element_in(&mut dom, root, "div");
    let c = element_in(&mut dom, a, "p");
    let loose = dom.create_element("p", Vec::new());
    assert_eq!(dom.in_doc_order(), [root, a, c, b]);
    assert!(dom.is_under(c, a) && dom.is_under(c, root) && dom.is_under(c, c));
    assert!(!dom.is_under(c, b));
    assert!(dom.is_connected(c) && !dom.is_connected(loose));
}

#[test]
fn what_was_typed_leaves_the_markup_alone() {
    let mut dom = Dom::new();
    let root = dom.root;
    let attrs = vec![Attr { name: "value".to_string(), value: "old".to_string() }];
    let input = dom.create_element("input", attrs);
    dom.append(root, input).unwrap();
    assert_eq!(value(&dom, input, "input"), "old");
    dom.set_field_value(input, "new");
    assert_eq!(value(&dom, input, "input"), "new");
    assert_eq!(dom.attr(input, "value"), Some("old"));
    assert_eq!(control(&dom, input, "input").unwrap().text, "new");
    assert!(!is_atomic_inline(Display::Inline) && is_atomic_inline(Display::InlineBlock));
}

#[test]
fn a_page_that_hides_everything_is_shown_all_the_same() {
    let mut dom = Dom::new();
    let root = dom.root;
    let p = element_in(&mut dom, root, "p");
    text_in(&mut dom, p, "hello");
    let mut styles = blocks(&dom);
    styles.by_node[p.0 as usize].display = Display::NoBox;
    let (tree, revealed) = layout_document_readable(&dom, &styles, 20, &ImageContext::empty());
    assert!(revealed && has_visible_content(&tree));
    assert_eq!(from_tree(&tree)[0].spans[0].text, "hello");
    // Nothing to show either way: the page stays as it is.
    let empty = Dom::new();
    let (tree, revealed) =
        layout_document_readable(&empty, &blocks(&empty), 20, &ImageContext::default());
    assert!(!revealed && !has_visible_content(&tree));
    assert!(from_tree(&tree).is_empty());
}

#[test]
fn text_of_a_width_wraps_just_below_it() {
    let mut dom = Dom::new();
    let root = dom.root;
    let p = element_in(&mut dom, root, "p");
    text_in(&mut dom, p, "alpha be gamma");
    let styles = blocks(&dom);
    for width in 5..30u16 {
        let rows = layout(&dom, &styles, width, Hidden::Respect);
        assert_eq!(rows.len() == 1, width >= 14, "at {width}");
        for row in &rows {
            let cells: i32 = row.spans.iter().map(|s| str_cells(&s.text)).sum();
            assert!(cells <= width as i32, "at {width}");
        }
    }
}

#[test]
fn an_image_too_wide_for_its_column_keeps_its_proportions() {
    let entry = ImageEntry {
        node: NodeId(0),
        url: "u".to_string(),
        alt: "a".to_string(),
        cells_w: 40,
        cells_h: 10,
        firm: true,
    };
    let context = ImageContext::Known(vec![entry]);
    let known = context.get(NodeId(0)).unwrap();
    assert_eq!(context.size_for(known, 20), (20, 5, true));
    assert_eq!(context.size_for(known, 80), (40, 10, true));
    assert!(context.get(NodeId(1)).is_none());
}

#[test]
fn marked_lines_name_attributes_and_colours() {
    let span = |text: &str, fg: Color, bold: bool| Span {
        text: text.to_string(),
        style: Style {
            fg,
            bg: Color::Default,
            attrs: Attrs { bold, italic: false, underline: bold },
        },
    };
    let lines = vec![
        Line { spans: vec![span("a", Color::Default, false), span("b", Color::Default, true)] },
        Line {
            spans: vec![
                span("c", Color::Rgb(0x5c, 0x0f, 255), true),
                span("d", Color::Ansi(7), false),
                span("e", Color::Ansi(120), false),
            ],
        },
    ];
    assert_eq!(debug_lines(&lines), "a[bu]b[/]\n[bu #5c0fff]c[/][c7]d[/][c120]e[/]\n");
}

// ---- positioned, sticky and fixed boxes ---------------------------------

/// A page of one container with three rows of text, the second of them styled.
fn three_rows(change: &dyn Fn(&mut ComputedStyle)) -> (Dom, Styles, NodeId) {
    let mut dom = Dom::new();
    let root = dom.root;
    let body = element_in(&mut dom, root, "div");
    let mut middle = body;
    for (i, text) in ["one", "two", "three"].iter().enumerate() {
        let p = element_in(&mut dom, body, "p");
        text_in(&mut dom, p, text);
        if i == 1 {
            middle = p;
        }
    }
    let mut styles = blocks(&dom);
    change(&mut styles.by_node[middle.0 as usize]);
    (dom, styles, middle)
}

fn box_of(tree: &LayoutTree, node: NodeId) -> &LayoutBox {
    tree.boxes.iter().find(|b| b.node == Some(node)).unwrap()
}

fn laid(dom: &Dom, styles: &Styles) -> LayoutTree {
    layout_tree_with_viewport(dom, styles, 20, 6, Hidden::Respect, &ImageContext::empty())
}

fn rows_of(tree: &LayoutTree) -> Vec<String> {
    from_tree(tree)
        .iter()
        .map(|l| l.spans.iter().map(|s| s.text.as_str()).collect())
        .collect()
}

#[test]
fn a_relative_box_moves_and_leaves_its_place_behind() {
    let (dom, styles, middle) = three_rows(&|c| {
        c.position = Position::Relative;
        c.left = Length::Px(16_000);
        c.top = Length::Px(16_000);
    });
    let tree = laid(&dom, &styles);
    let moved = box_of(&tree, middle).dimensions.content;
    assert_eq!((moved.x, moved.y), (2, 2));
    assert_eq!(tree.height, 3);
    assert_eq!(rows_of(&tree)[0], "one");
}

#[test]
fn an_absolute_box_leaves_the_flow() {
    let (dom, styles, middle) = three_rows(&|c| {
        c.position = Position::Absolute;
        c.right = Length::Px(0);
        c.top = Length::Px(0);
        c.width = Length::Px(40_000);
    });
    let tree = laid(&dom, &styles);
    let placed = box_of(&tree, middle).dimensions.content;
    assert_eq!((placed.x, placed.y, placed.width), (15, 0, 5));
    assert_eq!(rows_of(&tree), ["one            two", "three"]);
    assert!(!box_of(&tree, middle).fixed_viewport);
}

#[test]
fn a_fixed_box_stays_with_the_viewport() {
    let (dom, styles, middle) = three_rows(&|c| {
        c.position = Position::Fixed;
        c.bottom = Length::Px(0);
        c.left = Length::Px(0);
    });
    let tree = laid(&dom, &styles);
    let b = box_of(&tree, middle);
    assert!(b.fixed_viewport);
    assert_eq!(b.dimensions.content.y, 5);
    assert!(!tree.get(tree.root).fixed_viewport);
}

#[test]
fn a_sticky_box_and_what_it_holds_know_how_far_they_slide() {
    let (dom, styles, middle) = three_rows(&|c| {
        c.position = Position::Sticky;
        c.top = Length::Px(16_000);
    });
    let tree = laid(&dom, &styles);
    let b = box_of(&tree, middle);
    let c = b.sticky.unwrap();
    assert_eq!((c.static_start, c.static_end, c.inset, c.containing_end), (1, 2, 1, 3));
    for id in tree.walk(BoxId(tree.boxes.iter().position(|x| x.node == Some(middle)).unwrap())) {
        assert_eq!(tree.get(id).sticky, Some(c));
    }
    assert_eq!(tree.get(tree.root).sticky, None);
}

// ---- collapsed borders --------------------------------------------------

#[test]
fn shared_table_edges_are_drawn_once_by_the_thickest() {
    let mut dom = Dom::new();
    let root = dom.root;
    let table = element_in(&mut dom, root, "table");
    let row = element_in(&mut dom, table, "tr");
    let left = element_in(&mut dom, row, "td");
    let right = element_in(&mut dom, row, "td");
    text_in(&mut dom, left, "ab");
    text_in(&mut dom, right, "c");
    let mut styles = blocks(&dom);
    styles.by_node[left.0 as usize].border.right = Length::Px(16_000);
    styles.by_node[right.0 as usize].border.left = Length::Px(8_000);
    let tree = laid(&dom, &styles);
    let owner = BoxId(tree.boxes.iter().position(|b| b.node == Some(table)).unwrap());
    let first = tree.boxes.iter().find(|b| b.node == Some(left)).unwrap();
    assert_eq!(first.dimensions.margin_box_width(), 4);
    assert_eq!(
        tree.grid_borders,
        [GridBorder { owner, x: 4, y: 0, length: 1, horizontal: false, thickness: 2 }]
    );
    let wide = tree.boxes.iter().all(|b| b.dimensions.content.width >= 0);
    assert!(wide);
}
