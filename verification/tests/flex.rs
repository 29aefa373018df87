//! Resolving flexible lengths.

use yata::flex::{resolve, Item};

fn item(base: i32) -> Item {
    Item {
        base,
        hypothetical: base,
        min: 0,
        max: None,
        grow: 0,
        shrink: 1000,
        outer_edges: 0,
    }
}

fn grow(base: i32, factor: f32) -> Item {
    Item { grow: (factor * 1000.0) as u32, ..item(base) }
}

#[test]
fn items_that_fit_keep_their_hypothetical_sizes() {
    let items = vec![item(10), item(10), item(10)];
    assert_eq!(resolve(&items, 80, 0), [10, 10, 10]);
}

#[test]
fn grow_splits_free_space_and_rounding_goes_to_the_earliest() {
    let items = vec![grow(0, 1.0), grow(0, 1.0), grow(0, 1.0)];
    let sizes = resolve(&items, 80, 0);
    assert_eq!(sizes, [27, 27, 26]);
    assert_eq!(sizes.iter().sum::<i32>(), 80, "a grown line leaves no hole");
}

#[test]
fn grow_is_proportional_and_a_zero_factor_never_moves() {
    let items = vec![grow(30, 1.0), grow(30, 2.0), grow(30, 0.0)];
    assert_eq!(resolve(&items, 120, 0), [40, 50, 30]);
}

#[test]
fn shrink_is_weighted_by_the_scaled_factor() {
    let items = vec![item(60), item(30)];
    assert_eq!(resolve(&items, 60, 0), [40, 20]);
}

#[test]
fn an_item_that_hits_its_minimum_freezes_and_the_others_absorb_it() {
    let items = vec![
        item(40),
        item(40),
        Item {
            min: 30,
            ..item(40)
        },
    ];
    let sizes = resolve(&items, 80, 0);
    assert_eq!(sizes, [25, 25, 30]);
    assert_eq!(sizes.iter().sum::<i32>(), 80);
}

#[test]
fn a_maximum_freezes_a_growing_item_and_the_rest_take_the_remainder() {
    let items = vec![
        Item {
            max: Some(10),
            ..grow(0, 1.0)
        },
        grow(0, 1.0),
        grow(0, 1.0),
    ];
    let sizes = resolve(&items, 90, 0);
    assert_eq!(sizes, [10, 40, 40]);
    assert_eq!(sizes.iter().sum::<i32>(), 90);
}

#[test]
fn flex_factors_summing_under_one_take_only_their_share() {
    let items = vec![grow(0, 0.5)];
    assert_eq!(resolve(&items, 100, 0), [50]);
    let items = vec![grow(0, 0.25), grow(0, 0.25)];
    assert_eq!(resolve(&items, 100, 0), [25, 25]);
}

#[test]
fn edges_and_gaps_come_off_before_anything_is_distributed() {
    let items = vec![
        Item {
            outer_edges: 4,
            ..grow(0, 1.0)
        },
        Item {
            outer_edges: 4,
            ..grow(0, 1.0)
        },
    ];
    let sizes = resolve(&items, 80, 2);
    assert_eq!(sizes, [35, 35]);
    let outer: i32 = sizes.iter().map(|s| s + 4).sum();
    assert_eq!(outer + 2, 80, "outer sizes plus the gap fill the line");
}

#[test]
fn no_item_is_ever_negative_however_little_room_there_is() {
    let items = vec![
        Item {
            outer_edges: 10,
            ..item(20)
        },
        Item {
            outer_edges: 10,
            ..item(20)
        },
    ];
    for width in 0..12 {
        let sizes = resolve(&items, width, 0);
        assert!(sizes.iter().all(|&s| s >= 0), "width {width}: {sizes:?}");
    }
}

#[test]
fn the_line_is_filled_exactly_at_every_width() {
    let items = vec![grow(0, 1.0), grow(0, 2.0), grow(5, 1.0)];
    for width in 20..=120 {
        let sizes = resolve(&items, width, 2);
        let used: i32 = sizes.iter().sum::<i32>() + 2;
        assert_eq!(used, width, "width {width}: {sizes:?}");
        assert_eq!(sizes.len(), 3, "no item was lost");
    }
}

#[test]
fn very_large_factors_keep_their_proportion() {
    let items = vec![
        Item { grow: 2_000_000_000, ..item(0) },
        Item { grow: 1_000_000_000, ..item(0) },
    ];
    assert_eq!(resolve(&items, 30, 0), [20, 10]);
    let items = vec![
        Item { grow: u32::MAX, ..item(0) },
        Item { grow: u32::MAX, ..item(0) },
    ];
    assert_eq!(resolve(&items, i32::MAX, 0), [i32::MAX / 2 + 1, i32::MAX / 2]);
    let items = vec![
        Item { shrink: u32::MAX, ..item(i32::MAX) },
        Item { shrink: u32::MAX, ..item(i32::MAX) },
    ];
    assert_eq!(resolve(&items, 10, 0), [5, 5]);
}
