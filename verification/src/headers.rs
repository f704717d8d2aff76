//! How a block's title, headers and row labels follow from the values in it.
//!
//! A block is described by what its cells hold: a lone text on top is a title, a
//! row of texts over columns of something else is a header, and a column of texts
//! beside such columns labels the rows. Here that is said of the values themselves.

use crate::cell::{CellValue, ValueKind};
use crate::region;
use crate::region::{Region, RegionKind, RegionOptions, RegionSource};
use crate::text;
use crate::workbook::Sheet;
use vstd::prelude::*;

verus! {

/// How many numbers from `lo` to `hi` answer to something.
pub open spec fn how_many(lo: int, hi: int, p: spec_fn(int) -> bool) -> int
    decreases hi + 1 - lo,
{
    if lo > hi {
        0
    } else {
        (if p(lo) {
            1int
        } else {
            0int
        }) + how_many(lo + 1, hi, p)
    }
}

proof fn lemma_how_many(lo: int, hi: int, p: spec_fn(int) -> bool)
    ensures
        how_many(lo, hi, p) >= 0,
        lo <= hi ==> how_many(lo, hi, p) <= hi + 1 - lo,
        how_many(lo, hi, p) > 0 <==> exists|i: int| lo <= i <= hi && #[trigger] p(i),
    decreases hi + 1 - lo,
{
    if lo <= hi {
        lemma_how_many(lo + 1, hi, p);
        if how_many(lo, hi, p) > 0 && !p(lo) {
            let i = choose|i: int| lo + 1 <= i <= hi && #[trigger] p(i);
            assert(p(i));
        }
    }
}

// ---------------------------------------------------------------------------
// What a column holds.

/// The rows of a stretch of a column that hold a kind of value.
pub open spec fn count_of(sheet: Sheet, top: int, bottom: int, col: u16, kind: ValueKind) -> int {
    how_many(top, bottom, |row: int| sheet.value_at(row as u32, col).spec_kind() == kind)
}

/// The rows of a stretch of a column that hold anything.
pub open spec fn count_filled(sheet: Sheet, top: int, bottom: int, col: u16) -> int {
    how_many(top, bottom, |row: int| !(sheet.value_at(row as u32, col) is Empty))
}

/// A stretch of a column holds texts, and nothing but texts.
pub open spec fn wholly_text(sheet: Sheet, top: int, bottom: int, col: u16) -> bool {
    &&& exists|row: int|
        top <= row <= bottom && !((#[trigger] sheet.value_at(row as u32, col)) is Empty)
    &&& forall|row: int|
        top <= row <= bottom && !((#[trigger] sheet.value_at(row as u32, col)) is Empty)
            ==> sheet.value_at(row as u32, col) is Text
}

/// A stretch of a column holds values, and none of them is a text.
pub open spec fn wholly_other(sheet: Sheet, top: int, bottom: int, col: u16) -> bool {
    &&& exists|row: int|
        top <= row <= bottom && !((#[trigger] sheet.value_at(row as u32, col)) is Empty)
    &&& forall|row: int|
        top <= row <= bottom ==> !((#[trigger] sheet.value_at(row as u32, col)) is Text)
}

/// A stretch of a column holds nothing.
pub open spec fn is_bare(sheet: Sheet, top: int, bottom: int, col: u16) -> bool {
    forall|row: int| top <= row <= bottom ==> (#[trigger] sheet.value_at(row as u32, col)) is Empty
}

/// Every column of some is texts throughout, free of texts throughout, or empty.
pub open spec fn all_clear_cut(sheet: Sheet, top: int, bottom: int, left: int, right: int) -> bool {
    forall|c: int|
        left <= c <= right ==> #[trigger] is_clear_cut(sheet, top, bottom, c)
}

pub open spec fn is_clear_cut(sheet: Sheet, top: int, bottom: int, c: int) -> bool {
    wholly_text(sheet, top, bottom, c as u16) || wholly_other(sheet, top, bottom, c as u16)
        || is_bare(sheet, top, bottom, c as u16)
}

proof fn lemma_tally_front(x: ValueKind, s: Seq<ValueKind>, k: ValueKind)
    ensures
        region::tally(seq![x] + s, k) == region::tally(s, k) + (if x == k {
            1int
        } else {
            0int
        }),
    decreases s.len(),
{
    let all = seq![x] + s;
    if s.len() == 0 {
        assert(all.drop_last() =~= s);
        assert(all.last() == x);
        assert(region::tally(all.drop_last(), k) == 0);
    } else {
        lemma_tally_front(x, s.drop_last(), k);
        assert(all.drop_last() =~= seq![x] + s.drop_last());
        assert(all.last() == s.last());
    }
}

proof fn lemma_sampled(sheet: Sheet, row: int, bottom: int, col: u16, n: int, k: ValueKind)
    requires
        count_filled(sheet, row, bottom, col) <= n,
        !(k is Empty),
    ensures
        region::sampled(sheet, row, bottom, col, n).len() == count_filled(sheet, row, bottom, col),
        region::tally(region::sampled(sheet, row, bottom, col, n), k) == count_of(
            sheet,
            row,
            bottom,
            col,
            k,
        ),
    decreases bottom + 1 - row,
{
    let filled = |r: int| !(sheet.value_at(r as u32, col) is Empty);
    lemma_how_many(row, bottom, filled);
    if row <= bottom {
        lemma_how_many(row + 1, bottom, filled);
        let kind = sheet.value_at(row as u32, col).spec_kind();
        if kind is Empty {
            lemma_sampled(sheet, row + 1, bottom, col, n, k);
            if n <= 0 {
                lemma_none_of_kind(sheet, row, bottom, col, k);
            }
        } else {
            lemma_sampled(sheet, row + 1, bottom, col, n - 1, k);
            lemma_tally_front(kind, region::sampled(sheet, row + 1, bottom, col, n - 1), k);
        }
    }
}

proof fn lemma_none_of_kind(sheet: Sheet, row: int, bottom: int, col: u16, k: ValueKind)
    requires
        count_filled(sheet, row, bottom, col) <= 0,
        !(k is Empty),
    ensures
        count_of(sheet, row, bottom, col, k) == 0,
    decreases bottom + 1 - row,
{
    let filled = |r: int| !(sheet.value_at(r as u32, col) is Empty);
    lemma_how_many(row, bottom, filled);
    if row <= bottom {
        lemma_how_many(row + 1, bottom, filled);
        assert(!filled(row));
        lemma_none_of_kind(sheet, row + 1, bottom, col, k);
    }
}

/// The rank of a kind, by which the later of several that are as common is meant.
pub open spec fn rank_of(k: ValueKind) -> int {
    match k {
        ValueKind::Empty => 0,
        ValueKind::Number => 1,
        ValueKind::Text => 2,
        ValueKind::Bool => 3,
        ValueKind::Error => 4,
    }
}

/// A column is what most of its values are: no kind of value is more common than
/// the one it is taken for, and none that comes behind it, in the order of numbers,
/// texts, truth values and errors, is as common.
pub proof fn a_column_is_what_most_of_it_is(
    sheet: Sheet,
    top: u32,
    bottom: u32,
    col: u16,
    other: ValueKind,
)
    requires
        count_filled(sheet, top as int, bottom as int, col) <= 64,
        !(other is Empty),
    ensures
        match region::dominant(sheet, top, bottom, col) {
            None => count_filled(sheet, top as int, bottom as int, col) == 0,
            Some(k) => {
                &&& !(k is Empty)
                &&& count_of(sheet, top as int, bottom as int, col, k) > 0
                &&& count_of(sheet, top as int, bottom as int, col, k) >= count_of(
                    sheet,
                    top as int,
                    bottom as int,
                    col,
                    other,
                )
                &&& rank_of(other) > rank_of(k) ==> count_of(
                    sheet,
                    top as int,
                    bottom as int,
                    col,
                    k,
                ) > count_of(sheet, top as int, bottom as int, col, other)
            },
        },
{
    let s = region::sampled(sheet, top as int, bottom as int, col, region::SAMPLE as int);
    lemma_sampled(sheet, top as int, bottom as int, col, 64, ValueKind::Number);
    lemma_sampled(sheet, top as int, bottom as int, col, 64, ValueKind::Text);
    lemma_sampled(sheet, top as int, bottom as int, col, 64, ValueKind::Bool);
    lemma_sampled(sheet, top as int, bottom as int, col, 64, ValueKind::Error);
    lemma_sampled_kinds(sheet, top as int, bottom as int, col, region::SAMPLE as int);
    lemma_tallies(s);
}

proof fn lemma_tallies(s: Seq<ValueKind>)
    requires
        forall|i: int| 0 <= i < s.len() ==> !((#[trigger] s[i]) is Empty),
    ensures
        region::tally(s, ValueKind::Number) + region::tally(s, ValueKind::Text) + region::tally(
            s,
            ValueKind::Bool,
        ) + region::tally(s, ValueKind::Error) == s.len(),
        region::tally(s, ValueKind::Number) >= 0,
        region::tally(s, ValueKind::Text) >= 0,
        region::tally(s, ValueKind::Bool) >= 0,
        region::tally(s, ValueKind::Error) >= 0,
    decreases s.len(),
{
    if s.len() > 0 {
        lemma_tallies(s.drop_last());
        assert(!(s[s.len() - 1] is Empty));
    }
}

/// What is sampled of a column are the kinds of its values.
proof fn lemma_sampled_kinds(sheet: Sheet, row: int, bottom: int, col: u16, n: int)
    ensures
        forall|i: int|
            0 <= i < region::sampled(sheet, row, bottom, col, n).len() ==> {
                let k = #[trigger] region::sampled(sheet, row, bottom, col, n)[i];
                !(k is Empty) && exists|r: int|
                    row <= r <= bottom && (#[trigger] sheet.value_at(r as u32, col)).spec_kind() == k
            },
        n > 0 ==> (region::sampled(sheet, row, bottom, col, n).len() > 0 <==> exists|r: int|
            row <= r <= bottom && !((#[trigger] sheet.value_at(r as u32, col)) is Empty)),
    decreases bottom + 1 - row,
{
    let s = region::sampled(sheet, row, bottom, col, n);
    if row <= bottom && n > 0 {
        let kind = sheet.value_at(row as u32, col).spec_kind();
        if kind is Empty {
            let t = region::sampled(sheet, row + 1, bottom, col, n);
            lemma_sampled_kinds(sheet, row + 1, bottom, col, n);
            assert(s == t);
            assert forall|i: int| 0 <= i < s.len() implies {
                let k = #[trigger] s[i];
                !(k is Empty) && exists|r: int|
                    row <= r <= bottom && (#[trigger] sheet.value_at(r as u32, col)).spec_kind()
                        == k
            } by {
                let k = t[i];
                let r = choose|r: int|
                    row + 1 <= r <= bottom && (#[trigger] sheet.value_at(
                        r as u32,
                        col,
                    )).spec_kind() == k;
                assert(sheet.value_at(r as u32, col).spec_kind() == k);
            }
            if exists|r: int|
                row <= r <= bottom && !((#[trigger] sheet.value_at(r as u32, col)) is Empty) {
                let r = choose|r: int|
                    row <= r <= bottom && !((#[trigger] sheet.value_at(r as u32, col)) is Empty);
                assert(r != row);
            }
        } else {
            let t = region::sampled(sheet, row + 1, bottom, col, n - 1);
            lemma_sampled_kinds(sheet, row + 1, bottom, col, n - 1);
            assert(s == seq![kind] + t);
            assert forall|i: int| 0 <= i < s.len() implies {
                let k = #[trigger] s[i];
                !(k is Empty) && exists|r: int|
                    row <= r <= bottom && (#[trigger] sheet.value_at(r as u32, col)).spec_kind()
                        == k
            } by {
                if i == 0 {
                    assert(sheet.value_at(row as u32, col).spec_kind() == kind);
                } else {
                    let k = t[i - 1];
                    let r = choose|r: int|
                        row + 1 <= r <= bottom && (#[trigger] sheet.value_at(
                            r as u32,
                            col,
                        )).spec_kind() == k;
                    assert(sheet.value_at(r as u32, col).spec_kind() == k);
                }
            }
            assert(!(sheet.value_at(row as u32, col) is Empty));
        }
    }
}

proof fn lemma_tally_all(s: Seq<ValueKind>, k: ValueKind)
    ensures
        (forall|i: int| 0 <= i < s.len() ==> #[trigger] s[i] == k) ==> region::tally(s, k)
            == s.len(),
        (forall|i: int| 0 <= i < s.len() ==> #[trigger] s[i] != k) ==> region::tally(s, k) == 0,
        0 <= region::tally(s, k) <= s.len(),
    decreases s.len(),
{
    if s.len() > 0 {
        let d = s.drop_last();
        lemma_tally_all(d, k);
        if forall|i: int| 0 <= i < s.len() ==> #[trigger] s[i] == k {
            assert forall|i: int| 0 <= i < d.len() implies #[trigger] d[i] == k by {
                assert(s[i] == k);
            }
            assert(s[s.len() - 1] == k);
        }
        if forall|i: int| 0 <= i < s.len() ==> #[trigger] s[i] != k {
            assert forall|i: int| 0 <= i < d.len() implies #[trigger] d[i] != k by {
                assert(s[i] != k);
            }
            assert(s[s.len() - 1] != k);
        }
    }
}

/// A clear-cut column is taken for what it is throughout, however deep it goes.
proof fn lemma_clear_cut(sheet: Sheet, top: u32, bottom: u32, col: u16)
    ensures
        wholly_text(sheet, top as int, bottom as int, col) ==> region::dominant(
            sheet,
            top,
            bottom,
            col,
        ) == Some(ValueKind::Text),
        wholly_other(sheet, top as int, bottom as int, col) ==> region::dominant(
            sheet,
            top,
            bottom,
            col,
        ) is Some && region::dominant(sheet, top, bottom, col) != Some(ValueKind::Text),
        is_bare(sheet, top as int, bottom as int, col) ==> region::dominant(
            sheet,
            top,
            bottom,
            col,
        ) is None,
{
    let s = region::sampled(sheet, top as int, bottom as int, col, region::SAMPLE as int);
    lemma_sampled_kinds(sheet, top as int, bottom as int, col, region::SAMPLE as int);
    lemma_tally_all(s, ValueKind::Number);
    lemma_tally_all(s, ValueKind::Text);
    lemma_tally_all(s, ValueKind::Bool);
    lemma_tally_all(s, ValueKind::Error);
    lemma_tallies(s);
    if wholly_text(sheet, top as int, bottom as int, col) {
        assert forall|i: int| 0 <= i < s.len() implies #[trigger] s[i] == ValueKind::Text by {
            let k = s[i];
            let r = choose|r: int|
                top <= r <= bottom && (#[trigger] sheet.value_at(r as u32, col)).spec_kind() == k;
            assert(!(sheet.value_at(r as u32, col) is Empty));
        }
    }
    if wholly_other(sheet, top as int, bottom as int, col) {
        assert forall|i: int| 0 <= i < s.len() implies #[trigger] s[i] != ValueKind::Text by {
            let k = s[i];
            let r = choose|r: int|
                top <= r <= bottom && (#[trigger] sheet.value_at(r as u32, col)).spec_kind() == k;
            assert(!(sheet.value_at(r as u32, col) is Text));
        }
    }
}

// ---------------------------------------------------------------------------
// Row labels.

/// Of some columns, those that are texts throughout.
pub open spec fn text_columns(sheet: Sheet, top: int, bottom: int, left: int, right: int) -> int {
    how_many(left, right, |c: int| wholly_text(sheet, top, bottom, c as u16))
}

/// Of some columns, those that hold values and no text.
pub open spec fn other_columns(sheet: Sheet, top: int, bottom: int, left: int, right: int) -> int {
    how_many(left, right, |c: int| wholly_other(sheet, top, bottom, c as u16))
}

proof fn lemma_apart(sheet: Sheet, top: int, bottom: int, c: u16)
    ensures
        !(wholly_text(sheet, top, bottom, c) && wholly_other(sheet, top, bottom, c)),
        !(wholly_text(sheet, top, bottom, c) && is_bare(sheet, top, bottom, c)),
        !(wholly_other(sheet, top, bottom, c) && is_bare(sheet, top, bottom, c)),
{
    if wholly_text(sheet, top, bottom, c) || wholly_other(sheet, top, bottom, c) {
        let r = choose|r: int|
            top <= r <= bottom && !((#[trigger] sheet.value_at(r as u32, c)) is Empty);
        assert(!(sheet.value_at(r as u32, c) is Empty));
    }
}

proof fn lemma_columns(sheet: Sheet, top: u32, bottom: u32, left: int, right: int)
    requires
        0 <= left,
        right <= u16::MAX,
        all_clear_cut(sheet, top as int, bottom as int, left, right),
    ensures
        region::considered(sheet, top, bottom, left, right) == text_columns(
            sheet,
            top as int,
            bottom as int,
            left,
            right,
        ) + other_columns(sheet, top as int, bottom as int, left, right),
        region::not_text(sheet, top, bottom, left, right) == other_columns(
            sheet,
            top as int,
            bottom as int,
            left,
            right,
        ),
    decreases right + 1 - left,
{
    if left <= right {
        lemma_columns(sheet, top, bottom, left + 1, right);
        assert(is_clear_cut(sheet, top as int, bottom as int, left));
        lemma_clear_cut(sheet, top, bottom, left as u16);
        lemma_apart(sheet, top as int, bottom as int, left as u16);
    }
}

/// The row under the title of a region, where it has one.
pub open spec fn first_row(r: Region) -> int {
    r.range.top + (if r.title is Some {
        1int
    } else {
        0int
    })
}

pub proof fn lemma_described(sheet: Sheet, opts: RegionOptions, regions: Seq<Region>, k: int) -> (n:
    u64)
    requires
        region::is_sound(sheet),
        region::in_place(regions, region::found(sheet, opts)),
        0 <= k < regions.len(),
        regions[k].source == RegionSource::Detected,
    ensures
        regions[k]@ == region::described(sheet, regions[k].range, n, opts),
        regions[k].range.normalised(),
        regions[k].range.sheet == sheet.id,
{
    let all = region::found(sheet, opts);
    let order = choose|order: Seq<usize>| region::arranged(regions, all, order);
    let a = order[k] as int;
    region::regions_lie_on_their_sheet(sheet, opts, regions, k);
    assert(regions[k]@ == all[a]);
    let blocks = region::blocks_of(sheet, opts);
    let b = blocks[a - sheet.tables@.len()];
    assert(all[a] == region::described(
        sheet,
        region::block_range(sheet.id, b.edges),
        b.count,
        opts,
    ));
    b.count
}

/// The leading column labels the rows exactly where, below the headers, it is
/// texts, some other column holds values and no text, and at least as many of the
/// others do as are texts. It is said of blocks whose columns are each texts
/// throughout, free of texts throughout, or empty there.
pub proof fn a_column_of_texts_beside_other_values_labels_the_rows(
    sheet: Sheet,
    opts: RegionOptions,
    regions: Seq<Region>,
    k: int,
)
    requires
        region::is_sound(sheet),
        region::in_place(regions, region::found(sheet, opts)),
        0 <= k < regions.len(),
        regions[k].source == RegionSource::Detected,
        ({
            let r = regions[k];
            let top = first_row(r) + r.header_rows;
            all_clear_cut(
                sheet,
                top,
                r.range.bottom as int,
                r.range.left as int,
                r.range.right as int,
            )
        }),
    ensures
        ({
            let r = regions[k];
            let top = first_row(r) + r.header_rows;
            let bottom = r.range.bottom as int;
            let texts = text_columns(
                sheet,
                top,
                bottom,
                r.range.left + 1,
                r.range.right as int,
            );
            let others = other_columns(
                sheet,
                top,
                bottom,
                r.range.left + 1,
                r.range.right as int,
            );
            &&& r.header_cols == 1 <==> top <= bottom && wholly_text(
                sheet,
                top,
                bottom,
                r.range.left,
            ) && others > 0 && others >= texts
            &&& r.header_cols == 0 || r.header_cols == 1
        }),
{
    let r = regions[k];
    let n = lemma_described(sheet, opts, regions, k);
    let top = first_row(r) + r.header_rows;
    lemma_title_leaves_a_row(sheet, opts, regions, k);
    lemma_how_many(
        r.range.left + 1,
        r.range.right as int,
        |c: int| wholly_other(sheet, top, r.range.bottom as int, c as u16),
    );
    lemma_how_many(
        r.range.left + 1,
        r.range.right as int,
        |c: int| wholly_text(sheet, top, r.range.bottom as int, c as u16),
    );
    if top <= r.range.bottom {
        lemma_columns(
            sheet,
            top as u32,
            r.range.bottom,
            r.range.left + 1,
            r.range.right as int,
        );
        assert(is_clear_cut(sheet, top, r.range.bottom as int, r.range.left as int));
        lemma_clear_cut(sheet, top as u32, r.range.bottom, r.range.left);
        lemma_apart(sheet, top, r.range.bottom as int, r.range.left);
    }
}

proof fn lemma_title_leaves_a_row(sheet: Sheet, opts: RegionOptions, regions: Seq<Region>, k: int)
    requires
        region::is_sound(sheet),
        region::in_place(regions, region::found(sheet, opts)),
        0 <= k < regions.len(),
        regions[k].source == RegionSource::Detected,
    ensures
        first_row(regions[k]) + regions[k].header_rows <= regions[k].range.bottom,
        regions[k].title is Some ==> regions[k].range.height() >= 2 && regions[k].range.width() >= 2,
{
    let r = regions[k];
    let n = lemma_described(sheet, opts, regions, k);
    assert(r@.title == region::title_of(sheet, r.range));
    let rest = crate::address::RangeRef { top: first_row(r) as u32, ..r.range };
    lemma_header_run(sheet, rest, opts.header_agreement, 0, region::header_cap(rest, opts));
}

proof fn lemma_header_run(
    sheet: Sheet,
    range: crate::address::RangeRef,
    agreement: region::Fraction,
    k: int,
    max: int,
)
    requires
        k <= max,
    ensures
        k <= region::header_run(sheet, range, agreement, k, max) <= max,
        forall|j: int|
            k <= j < region::header_run(sheet, range, agreement, k, max)
                ==> #[trigger] region::is_header_row(
                sheet,
                range,
                (range.top + j) as u32,
                agreement,
            ),
        region::header_run(sheet, range, agreement, k, max) < max ==> !region::is_header_row(
            sheet,
            range,
            (range.top + region::header_run(sheet, range, agreement, k, max)) as u32,
            agreement,
        ),
    decreases max - k,
{
    if k < max && region::is_header_row(sheet, range, (range.top + k) as u32, agreement) {
        lemma_header_run(sheet, range, agreement, k + 1, max);
    }
}

// ---------------------------------------------------------------------------
// Header rows.

/// Of some columns, those that show a text on a row and hold values but no text
/// below it.
pub open spec fn headed_columns(sheet: Sheet, at: int, bottom: int, left: int, right: int) -> int {
    how_many(
        left,
        right,
        |c: int|
            sheet.value_at(at as u32, c as u16) is Text && wholly_other(
                sheet,
                at + 1,
                bottom,
                c as u16,
            ),
    )
}

proof fn lemma_headed(sheet: Sheet, at: u32, bottom: u32, left: int, right: int)
    requires
        0 <= left,
        right <= u16::MAX,
        at < bottom,
        all_clear_cut(sheet, at + 1, bottom as int, left, right),
    ensures
        region::contrasting(sheet, at, (at + 1) as u32, bottom, left, right) == headed_columns(
            sheet,
            at as int,
            bottom as int,
            left,
            right,
        ),
    decreases right + 1 - left,
{
    if left <= right {
        lemma_headed(sheet, at, bottom, left + 1, right);
        assert(is_clear_cut(sheet, at + 1, bottom as int, left));
        lemma_clear_cut(sheet, (at + 1) as u32, bottom, left as u16);
        lemma_apart(sheet, at + 1, bottom as int, left as u16);
    }
}

/// Enough of the columns that hold values below a row are headed by it.
pub open spec fn heads_enough(sheet: Sheet, r: Region, at: int, opts: RegionOptions) -> bool {
    let bottom = r.range.bottom as int;
    let left = r.range.left as int;
    let right = r.range.right as int;
    let filled = text_columns(sheet, at + 1, bottom, left, right) + other_columns(
        sheet,
        at + 1,
        bottom,
        left,
        right,
    );
    filled > 0 && headed_columns(sheet, at, bottom, left, right) * opts.header_agreement.whole
        >= opts.header_agreement.part * filled
}

/// The header rows of a block are the rows under its title, one after the other, up
/// to the most that may stack and never the last row, each of which shows a text
/// over enough of the columns that hold values and no text below it; the row behind
/// them does not.
pub proof fn header_rows_show_texts_over_other_values(
    sheet: Sheet,
    opts: RegionOptions,
    regions: Seq<Region>,
    k: int,
    j: int,
)
    requires
        region::is_sound(sheet),
        region::in_place(regions, region::found(sheet, opts)),
        0 <= k < regions.len(),
        regions[k].source == RegionSource::Detected,
        0 <= j <= regions[k].header_rows,
        all_clear_cut(
            sheet,
            first_row(regions[k]) + j + 1,
            regions[k].range.bottom as int,
            regions[k].range.left as int,
            regions[k].range.right as int,
        ),
    ensures
        regions[k].header_rows <= opts.max_header_rows,
        first_row(regions[k]) + regions[k].header_rows <= regions[k].range.bottom,
        j < regions[k].header_rows ==> heads_enough(
            sheet,
            regions[k],
            first_row(regions[k]) + j,
            opts,
        ),
        j == regions[k].header_rows && j < opts.max_header_rows && first_row(regions[k]) + j
            < regions[k].range.bottom ==> !heads_enough(
            sheet,
            regions[k],
            first_row(regions[k]) + j,
            opts,
        ),
{
    let r = regions[k];
    let n = lemma_described(sheet, opts, regions, k);
    lemma_title_leaves_a_row(sheet, opts, regions, k);
    let rest = crate::address::RangeRef { top: first_row(r) as u32, ..r.range };
    lemma_header_run(sheet, rest, opts.header_agreement, 0, region::header_cap(rest, opts));
    let at = first_row(r) + j;
    if at < r.range.bottom {
        lemma_headed(sheet, at as u32, r.range.bottom, r.range.left as int, r.range.right as int);
        lemma_columns(
            sheet,
            (at + 1) as u32,
            r.range.bottom,
            r.range.left as int,
            r.range.right as int,
        );
        assert(region::is_header_row(sheet, rest, at as u32, opts.header_agreement)
            == heads_enough(sheet, r, at, opts));
    }
}

/// What is read of the header rows of a column: their texts from top to bottom.
/// With one header row it is the cell as it is shown; with two, both with a point
/// between them, but for a blank one and one that only repeats the other.
pub proof fn headers_are_read_off_their_rows(
    sheet: Sheet,
    opts: RegionOptions,
    regions: Seq<Region>,
    k: int,
    i: int,
)
    requires
        region::is_sound(sheet),
        region::in_place(regions, region::found(sheet, opts)),
        0 <= k < regions.len(),
        regions[k].source == RegionSource::Detected,
        0 <= i < regions[k].headers@.len(),
    ensures
        regions[k].header_rows > 0,
        regions[k].headers@.len() == regions[k].range.width() - regions[k].header_cols,
        ({
            let r = regions[k];
            let c = (r.range.left + r.header_cols + i) as u16;
            let a = sheet.value_at(first_row(r) as u32, c).shown();
            let b = sheet.value_at((first_row(r) + 1) as u32, c).shown();
            &&& r.header_rows == 1 ==> r.headers@[i]@ == a
            &&& r.header_rows == 2 ==> r.headers@[i]@ == (if a.len() == 0 {
                b
            } else if b.len() == 0 || b == a {
                a
            } else {
                a + seq!['.'] + b
            })
        }),
{
    let r = regions[k];
    let n = lemma_described(sheet, opts, regions, k);
    lemma_title_leaves_a_row(sheet, opts, regions, k);
    let rest = crate::address::RangeRef { top: first_row(r) as u32, ..r.range };
    assert(r@.headers.len() == r.headers@.len());
    assert(r.header_rows > 0);
    let left = r.range.left + r.header_cols;
    let c = (left + i) as u16;
    assert(r@.headers == region::headers_of(sheet, rest, r.header_rows, left));
    assert(r@.headers[i] == r.headers@[i]@);
    let a = sheet.value_at(first_row(r) as u32, c).shown();
    let b = sheet.value_at((first_row(r) + 1) as u32, c).shown();
    let top = first_row(r);
    reveal_with_fuel(region::header_parts, 3);
    reveal_with_fuel(region::joined, 3);
    if r.header_rows == 1 {
        let parts = region::header_parts(sheet, top, top + 1, c, Seq::empty());
        if a.len() > 0 {
            assert(parts =~= seq![a]);
        } else {
            assert(parts =~= Seq::empty());
            assert(a =~= Seq::<char>::empty());
        }
    } else if r.header_rows == 2 {
        let parts = region::header_parts(sheet, top, top + 2, c, Seq::empty());
        let one = Seq::<Seq<char>>::empty().push(a);
        assert(one.contains(a)) by {
            assert(one[0] == a);
        }
        assert(one.contains(b) ==> b == a);
        if a.len() > 0 && b.len() > 0 && a != b {
            assert(parts =~= seq![a, b]);
            assert(parts.drop_last() =~= seq![a]);
            assert(region::joined(parts) =~= a + seq!['.'] + b);
        } else if a.len() > 0 {
            assert(parts =~= seq![a]);
        } else if b.len() > 0 {
            assert(parts =~= seq![b]);
        } else {
            assert(parts =~= Seq::empty());
            assert(b =~= Seq::<char>::empty());
        }
    }
}

// ---------------------------------------------------------------------------
// Titles and kinds.

proof fn lemma_filled(sheet: Sheet, row: u32, col: int, right: int)
    ensures
        forall|i: int|
            0 <= i < region::filled_cols(sheet, row, col, right).len() ==> col <= (
            #[trigger] region::filled_cols(sheet, row, col, right)[i]) <= right && !(sheet.value_at(
                row,
                region::filled_cols(sheet, row, col, right)[i] as u16,
            ) is Empty),
        forall|c: int|
            col <= c <= right && !((#[trigger] sheet.value_at(row, c as u16)) is Empty)
                ==> region::filled_cols(sheet, row, col, right).contains(c),
        forall|i: int, j: int|
            0 <= i < j < region::filled_cols(sheet, row, col, right).len() ==> (
            #[trigger] region::filled_cols(sheet, row, col, right)[i]) < (
            #[trigger] region::filled_cols(sheet, row, col, right)[j]),
    decreases right + 1 - col,
{
    if col <= right {
        lemma_filled(sheet, row, col + 1, right);
        let all = region::filled_cols(sheet, row, col, right);
        let some = region::filled_cols(sheet, row, col + 1, right);
        if sheet.value_at(row, col as u16) is Empty {
            assert(all == some);
        } else {
            assert(all == seq![col] + some);
            assert forall|c: int|
                col <= c <= right && !((#[trigger] sheet.value_at(
                    row,
                    c as u16,
                )) is Empty) implies all.contains(c) by {
                if c == col {
                    assert(all[0] == c);
                } else {
                    assert(some.contains(c));
                    let i = choose|i: int| 0 <= i < some.len() && some[i] == c;
                    assert(all[i + 1] == c);
                }
            }
        }
    }
}

/// A block has a title exactly where it has more than one row and column and its
/// first row holds one value, a text that is more than white space; that text is
/// the title.
pub proof fn a_lone_text_on_top_is_the_title(
    sheet: Sheet,
    opts: RegionOptions,
    regions: Seq<Region>,
    k: int,
    c: int,
)
    requires
        region::is_sound(sheet),
        region::in_place(regions, region::found(sheet, opts)),
        0 <= k < regions.len(),
        regions[k].source == RegionSource::Detected,
        regions[k].range.left <= c <= regions[k].range.right,
        !(sheet.value_at(regions[k].range.top, c as u16) is Empty),
    ensures
        ({
            let r = regions[k];
            let v = sheet.value_at(r.range.top, c as u16);
            let lone = forall|d: int|
                r.range.left <= d <= r.range.right && d != c ==> (#[trigger] sheet.value_at(
                    r.range.top,
                    d as u16,
                )) is Empty;
            &&& r.title is Some <==> r.range.top < r.range.bottom && r.range.left < r.range.right
                && lone && (v matches CellValue::Text(t) && text::trimmed(t@).len() > 0)
            &&& r.title matches Some(t) ==> (v matches CellValue::Text(u) && u@ == t@)
        }),
{
    let r = regions[k];
    let n = lemma_described(sheet, opts, regions, k);
    let all = region::filled_cols(
        sheet,
        r.range.top,
        r.range.left as int,
        r.range.right as int,
    );
    lemma_filled(sheet, r.range.top, r.range.left as int, r.range.right as int);
    assert(r@.title == region::title_of(sheet, r.range));
    assert(all.contains(c));
    let i = choose|i: int| 0 <= i < all.len() && all[i] == c;
    if all.len() == 1 {
        assert forall|d: int| r.range.left <= d <= r.range.right && d != c implies (
        #[trigger] sheet.value_at(r.range.top, d as u16)) is Empty by {
            if !(sheet.value_at(r.range.top, d as u16) is Empty) {
                assert(all.contains(d));
            }
        }
    } else {
        let j: int = if i == 0 {
            1
        } else {
            0
        };
        assert(all[j] != c) by {
            if i == 0 {
                assert(all[0] < all[1]);
            } else {
                assert(all[0] < all[i]);
            }
        }
        assert(!(sheet.value_at(r.range.top, all[j] as u16) is Empty));
    }
}

/// A block is a table exactly where it has header rows, more rows than those, and
/// as many as a table must have. What is called a note is a single line of cells.
pub proof fn a_table_is_what_has_headers(
    sheet: Sheet,
    opts: RegionOptions,
    regions: Seq<Region>,
    k: int,
)
    requires
        region::is_sound(sheet),
        region::in_place(regions, region::found(sheet, opts)),
        0 <= k < regions.len(),
    ensures
        regions[k].source == RegionSource::Detected ==> {
            let r = regions[k];
            let rows = r.range.bottom - r.range.top + 1;
            &&& r.kind == RegionKind::Table <==> r.header_rows > 0 && rows > r.header_rows && rows
                >= opts.min_table_rows
            &&& r.kind == RegionKind::Note ==> r.range.top == r.range.bottom || r.range.left
                == r.range.right
        },
        regions[k].source == RegionSource::Declared ==> exists|i: int|
            #![trigger sheet.tables@[i]]
            0 <= i < sheet.tables@.len() && {
                let t = sheet.tables@[i];
                let r = regions[k];
                &&& r.kind == RegionKind::Table
                &&& r.range == t.range
                &&& r.title matches Some(name) && name@ == t.name@
                &&& r.header_rows == (if t.has_header_row {
                    1int
                } else {
                    0int
                })
                &&& r.header_cols == 0
                &&& region::texts(r.headers@) == region::texts(t.columns@)
            },
{
    let r = regions[k];
    region::regions_lie_on_their_sheet(sheet, opts, regions, k);
    if r.source == RegionSource::Detected {
        let n = lemma_described(sheet, opts, regions, k);
    } else {
        let all = region::found(sheet, opts);
        let order = choose|order: Seq<usize>| region::arranged(regions, all, order);
        let a = order[k] as int;
        assert(r@ == all[a]);
        assert(a < sheet.tables@.len());
        assert(all[a] == region::declared(sheet, sheet.tables@[a]));
        assert(r@.title == Some(sheet.tables@[a].name@));
    }
}

} // verus!
