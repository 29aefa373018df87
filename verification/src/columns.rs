//! Table tracks: what spans ask of them, and columns fitted between what their
//! cells need and what they want.

use vstd::prelude::*;

use crate::cells::{larger, minus, plus, total, total_of};
use crate::sums::{one_more_in_a_sum, one_of_the_sum, sum, sum_is_not_negative, sums_add, sums_scale};
use crate::text::{parse_u64, trim, trimmed, unsigned};

verus! {

/// The most columns a table's grid has.
pub const TABLE_TRACKS: usize = 1024;

/// One table column while its width is being decided.
#[derive(Clone, Copy, PartialEq, Eq, Debug, Structural)]
pub struct TableColumn {
    /// The narrowest its cells can be.
    pub min: i32,
    /// What its cells take unwrapped.
    pub max: i32,
    pub used: i32,
}

impl TableColumn {
    #[verifier::allow_in_spec]
    pub fn empty() -> (r: TableColumn)
        returns
            (TableColumn { min: 1, max: 1, used: 1 }),
    {
        TableColumn { min: 1, max: 1, used: 1 }
    }

    /// At least one cell wide, and never wanting less than it needs.
    #[verifier::allow_in_spec]
    pub fn normalized(self) -> (r: TableColumn)
        returns
            ({
                let min = larger(self.min, 1);
                TableColumn { min, max: larger(self.max, min), used: larger(self.used, min) }
            }),
    {
        let min: i32 = larger(self.min, 1);
        TableColumn { min, max: larger(self.max, min), used: larger(self.used, min) }
    }
}

/// An HTML span: a positive decimal integer, cut to the room left. Anything
/// else spans one.
pub open spec fn span_asked(raw: Option<Seq<char>>, limit: int) -> int {
    match raw {
        None => 1,
        Some(value) => match unsigned(trimmed(value), u64::MAX as nat) {
            None => 1,
            Some(n) => {
                let cut = if n <= limit {
                    n as int
                } else {
                    limit
                };
                if cut > 0 {
                    cut
                } else {
                    1
                }
            },
        },
    }
}

/// See [`span_asked`].
pub fn table_span(raw: Option<&str>, limit: usize) -> (r: usize)
    ensures
        r == (match raw {
            Some(v) => span_asked(Some(v@), limit as int),
            None => span_asked(None, limit as int),
        }),
        1 <= r,
        limit >= 1 ==> r <= limit,
{
    match raw {
        None => 1,
        Some(value) => {
            let value: String = trim(value);
            match parse_u64(value.as_str()) {
                None => 1,
                Some(n) => {
                    let cut: usize = if n <= limit as u64 {
                        n as usize
                    } else {
                        limit
                    };
                    if cut > 0 {
                        cut
                    } else {
                        1
                    }
                },
            }
        },
    }
}

/// The quotient of a deficit, towards zero.
pub open spec fn quotient_share(deficit: i32, n: int) -> i32 {
    if deficit >= 0 {
        (deficit as int / n) as i32
    } else {
        (-((-deficit) / n)) as i32
    }
}

/// One more cell for the first tracks of a remainder, or for every track where
/// the remainder is negative.
pub open spec fn odd_share(deficit: i32, n: int, offset: int) -> i32 {
    if deficit >= 0 {
        if offset < deficit as int % n {
            1
        } else {
            0
        }
    } else if (-deficit) % n != 0 {
        1
    } else {
        0
    }
}

fn split_deficit(deficit: i32, n: i128, offset: usize) -> (r: (i32, i32))
    requires
        n > 0,
    ensures
        r.0 == quotient_share(deficit, n as int),
        r.1 == odd_share(deficit, n as int, offset as int),
{
    if deficit >= 0 {
        let m: i128 = deficit as i128;
        proof {
            vstd::arithmetic::div_mod::lemma_div_is_ordered_by_denominator(m as int, 1, n as int);
            vstd::arithmetic::div_mod::lemma_div_pos_is_pos(m as int, n as int);
            vstd::arithmetic::div_mod::lemma_mod_bound(m as int, n as int);
        }
        let odd: i128 = m % n;
        (
            (m / n) as i32,
            if (offset as u128) < odd as u128 {
                1
            } else {
                0
            },
        )
    } else {
        let m: i128 = -(deficit as i128);
        proof {
            vstd::arithmetic::div_mod::lemma_div_is_ordered_by_denominator(m as int, 1, n as int);
            vstd::arithmetic::div_mod::lemma_div_pos_is_pos(m as int, n as int);
        }
        (
            (-(m / n)) as i32,
            if m % n != 0 {
                1
            } else {
                0
            },
        )
    }
}

/// What a column's minimum or maximum adds up to over columns `i..end`.
pub open spec fn column_sum(columns: Seq<TableColumn>, min: bool, i: int, end: int, acc: i32) -> i32
    decreases end - i,
{
    if i >= end {
        acc
    } else {
        column_sum(
            columns,
            min,
            i + 1,
            end,
            plus(
                acc,
                if min {
                    columns[i].min
                } else {
                    columns[i].max
                },
            ),
        )
    }
}

/// A column with `add` more in its minimum or maximum.
#[verifier::allow_in_spec]
pub fn column_raised(c: TableColumn, add: i32, min: bool) -> (r: TableColumn)
    returns
        (if min {
            TableColumn {
                min: plus(c.min, add),
                max: larger(c.max, plus(c.min, add)),
                used: c.used,
            }
        } else {
            TableColumn { min: c.min, max: larger(plus(c.max, add), c.min), used: c.used }
        }),
{
    if min {
        TableColumn {
            min: plus(c.min, add),
            max: larger(c.max, plus(c.min, add)),
            used: c.used,
        }
    } else {
        TableColumn { min: c.min, max: larger(plus(c.max, add), c.min), used: c.used }
    }
}

/// Where the columns of a span end.
pub open spec fn span_end(start: int, span: int, n: int) -> int {
    if start + span <= n {
        start + span
    } else {
        n
    }
}

/// The columns of a span, each with its part of what the span lacks.
pub open spec fn columns_raised(
    columns: Seq<TableColumn>,
    start: int,
    span: int,
    wanted: i32,
    min: bool,
) -> Seq<TableColumn> {
    let end = span_end(start, span, columns.len() as int);
    let deficit = minus(wanted, column_sum(columns, min, start, end, 0));
    if deficit == 0 || end <= start {
        columns
    } else {
        Seq::new(
            columns.len(),
            |i: int|
                if start <= i < end {
                    column_raised(
                        columns[i],
                        plus(
                            quotient_share(deficit, end - start),
                            odd_share(deficit, end - start, i - start),
                        ),
                        min,
                    )
                } else {
                    columns[i]
                },
        )
    }
}

/// See [`columns_raised`].
pub fn raise_track_sum(
    columns: &mut Vec<TableColumn>,
    start: usize,
    span: usize,
    wanted: i32,
    min: bool,
)
    requires
        start <= old(columns)@.len(),
    ensures
        final(columns)@ == columns_raised(
            old(columns)@,
            start as int,
            span as int,
            wanted,
            min,
        ),
        final(columns)@.len() == old(columns)@.len(),
{
    let n: usize = columns.len();
    let end: usize = if span <= n - start {
        start + span
    } else {
        n
    };
    let ghost before = columns@;
    let mut have: i32 = 0;
    let mut i: usize = start;
    while i < end
        invariant
            start <= i <= end <= columns@.len(),
            columns@ == before,
            column_sum(before, min, start as int, end as int, 0) == column_sum(
                before,
                min,
                i as int,
                end as int,
                have,
            ),
        decreases end - i,
    {
        have = plus(
            have,
            if min {
                columns[i].min
            } else {
                columns[i].max
            },
        );
        i += 1;
    }
    let deficit: i32 = minus(wanted, have);
    if deficit == 0 || end <= start {
        return;
    }
    let width: i128 = (end - start) as i128;
    let ghost goal = columns_raised(before, start as int, span as int, wanted, min);
    let mut i: usize = start;
    while i < end
        invariant
            start <= i <= end <= columns@.len(),
            width == end - start,
            width > 0,
            before.len() == columns@.len(),
            goal.len() == columns@.len(),
            forall|j: int|
                0 <= j < columns@.len() ==> #[trigger] goal[j] == (if start <= j < end {
                    column_raised(
                        before[j],
                        plus(
                            quotient_share(deficit, end - start),
                            odd_share(deficit, end - start, j - start),
                        ),
                        min,
                    )
                } else {
                    before[j]
                }),
            forall|j: int|
                0 <= j < columns@.len() ==> #[trigger] columns@[j] == (if start <= j < i {
                    goal[j]
                } else {
                    before[j]
                }),
        decreases end - i,
    {
        let (each, odd): (i32, i32) = split_deficit(deficit, width, i - start);
        let now: TableColumn = column_raised(columns[i], plus(each, odd), min);
        columns.set(i, now);
        i += 1;
    }
    proof {
        assert(columns@ =~= goal);
    }
}

/// The rows of a span, each with its part of what the span lacks.
pub open spec fn rows_raised(rows: Seq<i32>, start: int, span: int, wanted: i32) -> Seq<i32> {
    let end = span_end(start, span, rows.len() as int);
    let deficit = minus(wanted, total(rows.subrange(start, end)));
    if deficit == 0 || end <= start {
        rows
    } else {
        Seq::new(
            rows.len(),
            |i: int|
                if start <= i < end {
                    plus(
                        plus(rows[i], quotient_share(deficit, end - start)),
                        odd_share(deficit, end - start, i - start),
                    )
                } else {
                    rows[i]
                },
        )
    }
}

/// See [`rows_raised`].
pub fn raise_row_sum(rows: &mut Vec<i32>, start: usize, span: usize, wanted: i32)
    requires
        start <= old(rows)@.len(),
    ensures
        final(rows)@ == rows_raised(old(rows)@, start as int, span as int, wanted),
        final(rows)@.len() == old(rows)@.len(),
{
    let n: usize = rows.len();
    let end: usize = if span <= n - start {
        start + span
    } else {
        n
    };
    let ghost before = rows@;
    let deficit: i32 = minus(wanted, total_of(rows, start, end));
    if deficit == 0 || end <= start {
        return;
    }
    let width: i128 = (end - start) as i128;
    let ghost goal = rows_raised(before, start as int, span as int, wanted);
    let mut i: usize = start;
    while i < end
        invariant
            start <= i <= end <= rows@.len(),
            width == end - start,
            width > 0,
            before.len() == rows@.len(),
            goal.len() == rows@.len(),
            forall|j: int|
                0 <= j < rows@.len() ==> #[trigger] goal[j] == (if start <= j < end {
                    plus(
                        plus(before[j], quotient_share(deficit, end - start)),
                        odd_share(deficit, end - start, j - start),
                    )
                } else {
                    before[j]
                }),
            forall|j: int|
                0 <= j < rows@.len() ==> #[trigger] rows@[j] == (if start <= j < i {
                    goal[j]
                } else {
                    before[j]
                }),
        decreases end - i,
    {
        let (each, odd): (i32, i32) = split_deficit(deficit, width, i - start);
        let now: i32 = plus(plus(rows[i], each), odd);
        rows.set(i, now);
        i += 1;
    }
    proof {
        assert(rows@ =~= goal);
    }
}

pub open spec fn normal_columns(columns: Seq<TableColumn>) -> Seq<TableColumn> {
    columns.map_values(|c: TableColumn| c.normalized())
}

/// A column's part of the space between what all columns need and want.
pub open spec fn column_share(c: TableColumn, free: i32, range: i32) -> i32 {
    if range > 0 {
        ((minus(c.max, c.min) * free) / (range as int)) as i32
    } else {
        0
    }
}

/// Every column between its bounds, by its share.
pub open spec fn shared_columns(columns: Seq<TableColumn>, free: i32, range: i32) -> Seq<i32> {
    columns.map_values(|c: TableColumn| plus(c.min, column_share(c, free, range)))
}

/// The cells that rounding left, one each to the first columns that have room.
pub open spec fn topped_up(
    columns: Seq<TableColumn>,
    used: Seq<i32>,
    i: int,
    left: i32,
) -> Seq<i32>
    decreases columns.len() - i,
{
    if i >= columns.len() || left == 0 {
        used
    } else if used[i] < columns[i].max {
        topped_up(columns, used.update(i, plus(used[i], 1)), i + 1, minus(left, 1))
    } else {
        topped_up(columns, used, i + 1, left)
    }
}

/// The widths of a table's columns for a requested total: never narrower than
/// they need; what is left over goes by how much each can grow, and beyond what
/// they all want in equal parts, odd cells to the earliest.
pub open spec fn columns_fitted(columns: Seq<TableColumn>, requested: i32) -> Seq<i32> {
    let cols = normal_columns(columns);
    let n = cols.len() as int;
    let least = column_sum(cols, true, 0, n, 0);
    let most = column_sum(cols, false, 0, n, 0);
    let target = larger(requested, least);
    if target >= most {
        let surplus = minus(target, most);
        Seq::new(
            cols.len(),
            |i: int|
                plus(
                    plus(cols[i].max, (surplus as int / n) as i32),
                    if i < surplus as int % n {
                        1
                    } else {
                        0
                    },
                ),
        )
    } else {
        let used = shared_columns(cols, minus(target, least), minus(most, least));
        topped_up(cols, used, 0, minus(target, total(used)))
    }
}

pub fn sum_columns(columns: &Vec<TableColumn>, min: bool) -> (r: i32)
    ensures
        r == column_sum(columns@, min, 0, columns@.len() as int, 0),
{
    let mut acc: i32 = 0;
    let mut i: usize = 0;
    while i < columns.len()
        invariant
            i <= columns@.len(),
            column_sum(columns@, min, 0, columns@.len() as int, 0) == column_sum(
                columns@,
                min,
                i as int,
                columns@.len() as int,
                acc,
            ),
        decreases columns@.len() - i,
    {
        acc = plus(
            acc,
            if min {
                columns[i].min
            } else {
                columns[i].max
            },
        );
        i += 1;
    }
    acc
}

fn share_of_column(c: TableColumn, free: i32, range: i32) -> (r: i32)
    requires
        c.min <= c.max,
        0 <= free <= range,
        range > 0,
    ensures
        r == column_share(c, free, range),
{
    let room: i32 = minus(c.max, c.min);
    proof {
        let n = room * free;
        assert(0 <= n <= 0x7fff_ffff * 0x7fff_ffff) by (nonlinear_arith)
            requires
                n == room * free,
                0 <= room <= 0x7fff_ffff,
                0 <= free <= 0x7fff_ffff,
        ;
        assert(0 <= n / (range as int) <= room) by (nonlinear_arith)
            requires
                n == room * free,
                0 <= room,
                0 <= free <= range,
                0 < range,
        ;
    }
    ((room as i64 * free as i64) / range as i64) as i32
}

/// See [`columns_fitted`].
pub fn fit_table_columns(columns: &Vec<TableColumn>, requested: i32) -> (r: Vec<i32>)
    requires
        0 < columns@.len(),
    ensures
        r@ == columns_fitted(columns@, requested),
        r@.len() == columns@.len(),
{
    let ghost want = normal_columns(columns@);
    let mut cols: Vec<TableColumn> = Vec::new();
    let mut i: usize = 0;
    while i < columns.len()
        invariant
            want == normal_columns(columns@),
            i <= columns@.len(),
            cols@ =~= want.take(i as int),
        decreases columns@.len() - i,
    {
        cols.push(columns[i].normalized());
        i += 1;
    }
    proof {
        assert(cols@ =~= want);
    }
    let n: usize = cols.len();
    let least: i32 = sum_columns(&cols, true);
    let most: i32 = sum_columns(&cols, false);
    let target: i32 = larger(requested, least);
    let mut used: Vec<i32> = Vec::new();
    if target >= most {
        let surplus: i32 = minus(target, most);
        let goal: Ghost<Seq<i32>> = Ghost(columns_fitted(columns@, requested));
        let wide: i128 = n as i128;
        proof {
            vstd::arithmetic::div_mod::lemma_mod_bound(surplus as int, wide as int);
            vstd::arithmetic::div_mod::lemma_div_pos_is_pos(surplus as int, wide as int);
            vstd::arithmetic::div_mod::lemma_div_is_ordered_by_denominator(
                surplus as int,
                1,
                wide as int,
            );
        }
        let each: i32 = (surplus as i128 / wide) as i32;
        let odd: i128 = surplus as i128 % wide;
        let mut i: usize = 0;
        while i < n
            invariant
                n == cols@.len(),
                i <= n,
                goal@.len() == n,
                0 <= odd,
                forall|j: int|
                    0 <= j < n ==> #[trigger] goal@[j] == plus(
                        plus(cols@[j].max, each),
                        if j < odd {
                            1
                        } else {
                            0
                        },
                    ),
                used@ =~= goal@.take(i as int),
            decreases n - i,
        {
            used.push(
                plus(
                    plus(cols[i].max, each),
                    if (i as i128) < odd {
                        1
                    } else {
                        0
                    },
                ),
            );
            i += 1;
        }
        proof {
            assert(used@ =~= goal@);
        }
        return used;
    }
    let free: i32 = minus(target, least);
    let range: i32 = minus(most, least);
    let ghost parts = shared_columns(cols@, free, range);
    let mut i: usize = 0;
    while i < n
        invariant
            n == cols@.len(),
            cols@ == want,
            want == normal_columns(columns@),
            i <= n,
            0 <= free <= range,
            range > 0,
            parts == shared_columns(cols@, free, range),
            used@ =~= parts.take(i as int),
        decreases n - i,
    {
        let c: TableColumn = cols[i];
        proof {
            assert(c == columns@[i as int].normalized());
        }
        used.push(plus(c.min, share_of_column(c, free, range)));
        i += 1;
    }
    proof {
        assert(used@ =~= parts);
        assert(used@.subrange(0, used@.len() as int) =~= used@);
    }
    let mut left: i32 = minus(target, total_of(&used, 0, used.len()));
    let ghost goal = topped_up(cols@, used@, 0, left);
    let mut i: usize = 0;
    while i < n && left != 0
        invariant
            n == cols@.len(),
            used@.len() == n,
            i <= n,
            goal == topped_up(cols@, used@, i as int, left),
        decreases n - i,
    {
        if used[i] < cols[i].max {
            let now: i32 = plus(used[i], 1);
            used.set(i, now);
            left = minus(left, 1);
        }
        i += 1;
    }
    used
}

proof fn topping_up_only_adds(columns: Seq<TableColumn>, used: Seq<i32>, i: int, left: i32, k: int)
    requires
        used.len() == columns.len(),
        0 <= i,
        0 <= k < columns.len(),
    ensures
        topped_up(columns, used, i, left).len() == columns.len(),
        topped_up(columns, used, i, left)[k] >= used[k],
    decreases columns.len() - i,
{
    if i < columns.len() && left != 0 {
        if used[i] < columns[i].max {
            topping_up_only_adds(
                columns,
                used.update(i, plus(used[i], 1)),
                i + 1,
                minus(left, 1),
                k,
            );
        } else {
            topping_up_only_adds(columns, used, i + 1, left, k);
        }
    }
}

proof fn sums_grow(columns: Seq<TableColumn>, i: int, end: int, low: i32, high: i32)
    requires
        0 <= i,
        end <= columns.len(),
        low <= high,
        forall|k: int| 0 <= k < columns.len() ==> 1 <= (#[trigger] columns[k]).min <= columns[k].max,
    ensures
        low <= column_sum(columns, true, i, end, low) <= column_sum(columns, false, i, end, high),
    decreases end - i,
{
    if i < end {
        sums_grow(
            columns,
            i + 1,
            end,
            plus(low, columns[i].min),
            plus(high, columns[i].max),
        );
    }
}

/// No column is narrower than its cells need, or than one cell, however little
/// was requested.
pub proof fn fitted_columns_keep_their_minima(columns: Seq<TableColumn>, requested: i32, k: int)
    requires
        0 <= k < columns.len(),
    ensures
        columns_fitted(columns, requested).len() == columns.len(),
        columns_fitted(columns, requested)[k] >= larger(columns[k].min, 1),
{
    let cols = normal_columns(columns);
    let n = cols.len() as int;
    let least = column_sum(cols, true, 0, n, 0);
    let most = column_sum(cols, false, 0, n, 0);
    let target = larger(requested, least);
    assert forall|j: int| 0 <= j < cols.len() implies 1 <= (#[trigger] cols[j]).min
        <= cols[j].max by {}
    sums_grow(cols, 0, n, 0, 0);
    if target >= most {
        let surplus = minus(target, most);
        vstd::arithmetic::div_mod::lemma_div_pos_is_pos(surplus as int, n);
        vstd::arithmetic::div_mod::lemma_div_is_ordered_by_denominator(surplus as int, 1, n);
    } else {
        let free = minus(target, least);
        let range = minus(most, least);
        let used = shared_columns(cols, free, range);
        let room = minus(cols[k].max, cols[k].min);
        share_is_part_of_the_room(room as int, free as int, range as int);
        topping_up_only_adds(cols, used, 0, minus(target, total(used)), k);
    }
}

proof fn share_is_part_of_the_room(room: int, free: int, range: int)
    requires
        0 <= room,
        0 <= free <= range,
        0 < range,
    ensures
        0 <= (room * free) / range <= room,
        (room * free) % range != 0 ==> (room * free) / range < room,
        room * free == range * ((room * free) / range) + (room * free) % range,
        0 <= (room * free) % range < range,
{
    let n = room * free;
    vstd::arithmetic::div_mod::lemma_fundamental_div_mod(n, range);
    vstd::arithmetic::div_mod::lemma_mod_bound(n, range);
    assert(0 <= n) by (nonlinear_arith)
        requires
            n == room * free,
            0 <= room,
            0 <= free,
    ;
    assert(n <= room * range) by (nonlinear_arith)
        requires
            n == room * free,
            0 <= room,
            free <= range,
    ;
    vstd::arithmetic::div_mod::lemma_div_pos_is_pos(n, range);
    let q = n / range;
    let r = n % range;
    assert(q <= room) by (nonlinear_arith)
        requires
            range * q + r <= room * range,
            0 <= r,
            0 < range,
    ;
    if r != 0 {
        assert(q < room) by (nonlinear_arith)
            requires
                range * q + r <= room * range,
                0 < r,
                0 < range,
        ;
    }
}

/// Cells as whole numbers.
pub open spec fn whole(cells: Seq<i32>) -> Seq<int> {
    cells.map_values(|c: i32| c as int)
}

/// What columns need, or want, as whole numbers.
pub open spec fn asked_of(columns: Seq<TableColumn>, min: bool) -> Seq<int> {
    columns.map_values(
        |c: TableColumn|
            if min {
                c.min as int
            } else {
                c.max as int
            },
    )
}

proof fn totals_are_exact(cells: Seq<i32>)
    requires
        forall|k: int| 0 <= k < cells.len() ==> #[trigger] cells[k] >= 0,
        sum(whole(cells)) <= i32::MAX,
    ensures
        total(cells) == sum(whole(cells)),
        0 <= sum(whole(cells)),
    decreases cells.len(),
{
    if cells.len() > 0 {
        let rest = cells.drop_last();
        assert(whole(cells).drop_last() =~= whole(rest));
        assert(cells.last() == cells[cells.len() - 1]);
        assert forall|k: int| 0 <= k < rest.len() implies #[trigger] rest[k] >= 0 by {
            assert(cells[k] >= 0);
        }
        totals_are_exact(rest);
    }
}

proof fn column_sums_are_exact(columns: Seq<TableColumn>, min: bool, i: int)
    requires
        0 <= i <= columns.len(),
        forall|k: int| 0 <= k < columns.len() ==> 1 <= (#[trigger] columns[k]).min <= columns[k].max,
        sum(asked_of(columns, min)) <= i32::MAX,
    ensures
        ({
            let s = asked_of(columns, min);
            &&& 0 <= sum(s.take(i)) <= sum(s)
            &&& column_sum(columns, min, i, columns.len() as int, sum(s.take(i)) as i32)
                == sum(s)
        }),
    decreases columns.len() - i,
{
    let s = asked_of(columns, min);
    if i < columns.len() {
        column_sums_are_exact(columns, min, i + 1);
        assert(s.take(i + 1).drop_last() =~= s.take(i));
        assert(1 <= columns[i].min <= columns[i].max);
        sum_is_not_negative(s.take(i));
    } else {
        assert(s.take(i) =~= s);
        sum_is_not_negative(s);
    }
}

/// How many columns from the `i`th on have room for another cell.
spec fn roomy(columns: Seq<TableColumn>, used: Seq<i32>, i: int) -> int
    decreases columns.len() - i,
{
    if i >= columns.len() {
        0
    } else {
        roomy(columns, used, i + 1) + (if used[i] < columns[i].max {
            1int
        } else {
            0
        })
    }
}

proof fn roomy_ignores_earlier(
    columns: Seq<TableColumn>,
    a: Seq<i32>,
    b: Seq<i32>,
    i: int,
)
    requires
        0 <= i,
        a.len() == b.len() == columns.len(),
        forall|k: int| i <= k < columns.len() ==> #[trigger] a[k] == b[k],
    ensures
        roomy(columns, a, i) == roomy(columns, b, i),
    decreases columns.len() - i,
{
    if i < columns.len() {
        assert(a[i] == b[i]);
        roomy_ignores_earlier(columns, a, b, i + 1);
    }
}

proof fn topping_up_spends_all(columns: Seq<TableColumn>, used: Seq<i32>, i: int, left: i32)
    requires
        used.len() == columns.len(),
        0 <= i <= columns.len(),
        0 <= left <= roomy(columns, used, i),
    ensures
        sum(whole(topped_up(columns, used, i, left))) == sum(whole(used)) + left,
    decreases columns.len() - i,
{
    if i < columns.len() && left != 0 {
        if used[i] < columns[i].max {
            let next = used.update(i, plus(used[i], 1));
            assert(whole(next) =~= whole(used).update(i, whole(used)[i] + 1));
            one_more_in_a_sum(whole(used), i);
            roomy_ignores_earlier(columns, used, next, i + 1);
            topping_up_spends_all(columns, next, i + 1, minus(left, 1));
        } else {
            topping_up_spends_all(columns, used, i + 1, left);
        }
    }
}

/// The parts of `range` that sharing drops leave room in as many columns.
proof fn dropped_parts_leave_room(
    columns: Seq<TableColumn>,
    used: Seq<i32>,
    parts: Seq<int>,
    range: int,
    i: int,
)
    requires
        used.len() == columns.len() == parts.len(),
        0 <= i <= columns.len(),
        0 < range,
        forall|k: int|
            0 <= k < columns.len() ==> 0 <= #[trigger] parts[k] < range && (parts[k] > 0 ==> used[k]
                < columns[k].max),
    ensures
        sum(parts) - sum(parts.take(i)) <= range * roomy(columns, used, i),
    decreases columns.len() - i,
{
    if i < columns.len() {
        dropped_parts_leave_room(columns, used, parts, range, i + 1);
        assert(parts.take(i + 1).drop_last() =~= parts.take(i));
        assert(0 <= parts[i] < range);
        let rest = roomy(columns, used, i + 1);
        assert(range * (rest + 1) == range * rest + range) by (nonlinear_arith);
    } else {
        assert(parts.take(i) =~= parts);
        assert(range * 0 == 0);
    }
}

proof fn equal_parts_spend_all(s: Seq<int>, each: int, odd: int, n: int)
    requires
        0 <= n <= s.len(),
        0 <= odd <= s.len(),
        forall|k: int|
            0 <= k < s.len() ==> #[trigger] s[k] == each + (if k < odd {
                1int
            } else {
                0
            }),
    ensures
        sum(s.take(n)) == n * each + (if n < odd {
            n
        } else {
            odd
        }),
    decreases n,
{
    if n > 0 {
        equal_parts_spend_all(s, each, odd, n - 1);
        assert(s.take(n).drop_last() =~= s.take(n - 1));
        assert(s[n - 1] == each + (if n - 1 < odd {
            1int
        } else {
            0
        }));
        assert(n * each == (n - 1) * each + each) by (nonlinear_arith);
    } else {
        assert(s.take(0) =~= Seq::<int>::empty());
        assert(0 * each == 0);
    }
}

/// A table's columns add up to what was requested, or to what they need where
/// that is more: no cell of the row is lost and none is left over.
pub proof fn fitted_columns_fill_the_table(columns: Seq<TableColumn>, requested: i32)
    requires
        0 < columns.len(),
        sum(asked_of(normal_columns(columns), false)) <= i32::MAX,
    ensures
        ({
            let need = sum(asked_of(normal_columns(columns), true));
            sum(whole(columns_fitted(columns, requested))) == if requested > need {
                requested as int
            } else {
                need
            }
        }),
{
    let cols = normal_columns(columns);
    let n = cols.len() as int;
    let mins = asked_of(cols, true);
    let maxs = asked_of(cols, false);
    assert forall|j: int| 0 <= j < cols.len() implies 1 <= (#[trigger] cols[j]).min
        <= cols[j].max by {}
    let rooms = Seq::new(cols.len(), |j: int| maxs[j] - mins[j]);
    assert forall|j: int| 0 <= j < n implies #[trigger] maxs[j] == mins[j] + rooms[j] by {}
    sums_add(mins, rooms, maxs);
    assert forall|j: int| 0 <= j < n implies #[trigger] rooms[j] >= 0 by {
        assert(1 <= cols[j].min <= cols[j].max);
    }
    sum_is_not_negative(rooms);
    column_sums_are_exact(cols, true, 0);
    column_sums_are_exact(cols, false, 0);
    assert(mins.take(0) =~= Seq::<int>::empty());
    assert(maxs.take(0) =~= Seq::<int>::empty());
    let least = column_sum(cols, true, 0, n, 0);
    let most = column_sum(cols, false, 0, n, 0);
    let target = larger(requested, least);
    let out = columns_fitted(columns, requested);
    if target >= most {
        let surplus = minus(target, most);
        let each = surplus as int / n;
        let odd = surplus as int % n;
        vstd::arithmetic::div_mod::lemma_fundamental_div_mod(surplus as int, n);
        vstd::arithmetic::div_mod::lemma_mod_bound(surplus as int, n);
        vstd::arithmetic::div_mod::lemma_div_pos_is_pos(surplus as int, n);
        let extra = Seq::new(
            cols.len(),
            |j: int|
                each + (if j < odd {
                    1int
                } else {
                    0
                }),
        );
        equal_parts_spend_all(extra, each, odd, n);
        assert(extra.take(n) =~= extra);
        assert(n * each == each * n) by (nonlinear_arith);
        assert(sum(extra) == surplus);
        assert forall|j: int| 0 <= j < n implies #[trigger] whole(out)[j] == maxs[j]
            + extra[j] by {
            one_of_the_sum(maxs, j);
            one_of_the_sum(extra, j);
            assert(1 <= cols[j].min <= cols[j].max);
        }
        sums_add(maxs, extra, whole(out));
    } else {
        let free = minus(target, least);
        let range = minus(most, least);
        let used = shared_columns(cols, free, range);
        let shares = Seq::new(cols.len(), |j: int| (rooms[j] * free) / (range as int));
        let parts = Seq::new(cols.len(), |j: int| (rooms[j] * free) % (range as int));
        let scaled = Seq::new(cols.len(), |j: int| range * shares[j]);
        let products = Seq::new(cols.len(), |j: int| free * rooms[j]);
        assert forall|j: int| 0 <= j < n implies {
            &&& #[trigger] products[j] == scaled[j] + parts[j]
            &&& 0 <= parts[j] < range
            &&& 0 <= shares[j] <= rooms[j]
            &&& parts[j] > 0 ==> shares[j] < rooms[j]
            &&& used[j] == mins[j] + shares[j]
        } by {
            assert(1 <= cols[j].min <= cols[j].max);
            assert(minus(cols[j].max, cols[j].min) == rooms[j]);
            share_is_part_of_the_room(rooms[j], free as int, range as int);
            assert(free * rooms[j] == rooms[j] * free) by (nonlinear_arith);
        }
        sums_add(scaled, parts, products);
        sums_scale(shares, scaled, range as int);
        sums_scale(rooms, products, free as int);
        assert forall|j: int| 0 <= j < n implies #[trigger] whole(used)[j] == mins[j]
            + shares[j] by {
            assert(products[j] == scaled[j] + parts[j]);
        }
        sums_add(mins, shares, whole(used));
        assert forall|j: int| 0 <= j < n implies #[trigger] shares[j] >= 0 by {
            assert(products[j] == scaled[j] + parts[j]);
        }
        assert forall|j: int| 0 <= j < n implies #[trigger] parts[j] >= 0 by {
            assert(products[j] == scaled[j] + parts[j]);
        }
        sum_is_not_negative(shares);
        sum_is_not_negative(parts);
        assert(sum(rooms) == range);
        let lost = free - sum(shares);
        assert(sum(parts) == range * lost) by (nonlinear_arith)
            requires
                free * range == range * sum(shares) + sum(parts),
                lost == free - sum(shares),
        ;
        assert(lost >= 0) by (nonlinear_arith)
            requires
                0 <= range * lost,
                0 < range,
        ;
        assert forall|j: int| 0 <= j < used.len() implies #[trigger] used[j] >= 0 by {
            assert(products[j] == scaled[j] + parts[j]);
            assert(1 <= cols[j].min <= cols[j].max);
        }
        totals_are_exact(used);
        assert(minus(target, total(used)) == lost);
        assert forall|j: int| 0 <= j < n implies 0 <= #[trigger] parts[j] < range && (parts[j] > 0
            ==> used[j] < cols[j].max) by {
            assert(products[j] == scaled[j] + parts[j]);
        }
        dropped_parts_leave_room(cols, used, parts, range as int, 0);
        assert(parts.take(0) =~= Seq::<int>::empty());
        assert(lost <= roomy(cols, used, 0)) by (nonlinear_arith)
            requires
                range * lost <= range * roomy(cols, used, 0),
                0 < range,
        ;
        topping_up_spends_all(cols, used, 0, lost as i32);
    }
}

} // verus!
