//! Clip regions.

use yata::clip::{tighten, Clip};
use yata::dimensions::Rect;

fn rect(x: i32, y: i32, width: i32, height: i32) -> Rect {
    Rect {
        x,
        y,
        width,
        height,
    }
}

fn both(x: (i32, i32), y: (i32, i32)) -> Clip {
    Clip {
        x: Some(x),
        y: Some(y),
    }
}

#[test]
fn an_unbounded_clip_changes_nothing() {
    let r = rect(3, 4, 10, 2);
    assert_eq!(Clip::none().apply(r), r);
    assert!(Clip::none().contains(-5, 999));
    assert!(!Clip::none().is_empty());
    assert_eq!(
        Clip::none().trim_text(3, 4, "untouched"),
        Some((3, "untouched".to_string()))
    );
}

#[test]
fn nested_clips_intersect_to_the_inner_rectangle() {
    let outer = both((0, 20), (0, 10));
    let inner = Clip {
        x: tighten(outer.x, (5, 30)),
        y: tighten(outer.y, (2, 4)),
    };
    assert_eq!(inner.apply(rect(0, 0, 40, 40)), rect(5, 2, 15, 2));
}

#[test]
fn a_rect_outside_the_clip_comes_back_empty_not_negative() {
    let clip = both((10, 20), (0, 5));
    let away = clip.apply(rect(0, 0, 4, 4));
    assert_eq!(away.width, 0);
    assert_eq!(away.height, 4);
    let below = clip.apply(rect(12, 40, 4, 4));
    assert_eq!(below.height, 0);
}

#[test]
fn tightening_an_empty_range_keeps_it_empty() {
    let empty = tighten(None, (7, 7));
    assert_eq!(empty, Some((7, 7)));
    assert_eq!(tighten(empty, (0, 100)), Some((7, 7)));
    let clip = Clip { x: None, y: empty };
    assert!(clip.is_empty());
    assert_eq!(clip.apply(rect(0, 0, 40, 40)).height, 0);
}

#[test]
fn marks_go_with_the_character_they_modify() {
    let one = Clip::ranges(Some((0, 1)), None);
    let marked = "e\u{301}";
    assert_eq!(one.trim_text(0, 0, marked), Some((0, marked.to_string())));
    assert_eq!(one.trim_text(0, 0, "e\u{301}\u{302}x"), Some((0, "e\u{301}\u{302}".to_string())));
    // A wide glyph across the edge is dropped, and its mark with it.
    let three = Clip::ranges(Some((0, 3)), None);
    assert_eq!(three.trim_text(0, 0, "ab漢\u{301}c"), Some((0, "ab".to_string())));
    let right = Clip::ranges(Some((1, 3)), None);
    assert_eq!(right.trim_text(0, 0, "e\u{301}f\u{302}"), Some((1, "f\u{302}".to_string())));
    assert_eq!(one.trim_text(1, 0, marked), None);
}
