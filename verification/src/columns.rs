//! What a table says of its columns, said of the cells beneath the headers.

use crate::address::{CellRef, RangeRef};
use crate::cell::{CellValue, ValueKind};
use crate::headers;
use crate::headers::{count_filled, count_of, how_many};
use crate::profile;
use crate::profile::{ColumnProfile, ProfileOptions, ValueCount};
use crate::region;
use crate::region::{Place, Region, RegionKind, RegionOptions, RegionSource};
use crate::table;
use crate::table::Table;
use crate::text;
use crate::workbook;
use crate::workbook::{Entry, Sheet};
use vstd::prelude::*;

verus! {

/// The numbers from `lo` to `hi` that answer to something.
spec fn those(lo: int, hi: int, p: spec_fn(int) -> bool) -> Set<int> {
    Set::new(|i: int| lo <= i <= hi && p(i))
}

proof fn lemma_those(lo: int, hi: int, p: spec_fn(int) -> bool)
    ensures
        those(lo, hi, p).finite(),
        those(lo, hi, p).len() == how_many(lo, hi, p),
    decreases hi + 1 - lo,
{
    if lo > hi {
        assert(those(lo, hi, p) =~= Set::empty());
    } else {
        lemma_those(lo + 1, hi, p);
        if p(lo) {
            assert(those(lo, hi, p) =~= those(lo + 1, hi, p).insert(lo));
        } else {
            assert(those(lo, hi, p) =~= those(lo + 1, hi, p));
        }
    }
}

/// The entries of a column that lie on some rows and answer to something are as
/// many as the rows on which the column does.
proof fn lemma_rows(
    sheet: Sheet,
    t: Seq<Entry>,
    top: int,
    bottom: int,
    col: u16,
    keep: spec_fn(Entry) -> bool,
    p: spec_fn(int) -> bool,
)
    requires
        workbook::row_major(t),
        0 <= top,
        bottom <= u32::MAX,
        forall|i: int| 0 <= i < t.len() && keep(#[trigger] t[i]) ==> t[i].col == col,
        forall|i: int|
            0 <= i < t.len() && keep(#[trigger] t[i]) ==> top <= t[i].row <= bottom && p(
                t[i].row as int,
            ),
        forall|row: int|
            top <= row <= bottom && #[trigger] p(row) ==> exists|i: int|
                0 <= i < t.len() && (#[trigger] t[i]).row == row && t[i].col == col && keep(t[i]),
    ensures
        t.filter(keep).len() == how_many(top, bottom, p),
{
    region::lemma_kept_places(t, keep);
    let u = t.filter(keep);
    let rows = u.map_values(|e: Entry| e.row as int);
    let places = region::places(u);
    assert forall|i: int| 0 <= i < u.len() implies (#[trigger] u[i]).col == col && top <= u[i].row
        <= bottom && p(u[i].row as int) by {
        assert(places[i] == (u[i].row, u[i].col));
        assert(places.contains(places[i]));
    }
    assert(rows.no_duplicates()) by {
        assert forall|i: int, j: int|
            0 <= i < rows.len() && 0 <= j < rows.len() && i != j implies rows[i] != rows[j] by {
            assert(places[i] == (u[i].row, u[i].col));
            assert(places[j] == (u[j].row, u[j].col));
            assert(places[i] != places[j]);
        }
    }
    rows.unique_seq_to_set();
    assert(rows.to_set() =~= those(top, bottom, p)) by {
        assert forall|row: int| rows.to_set().contains(row) <==> those(top, bottom, p).contains(
            row,
        ) by {
            if rows.to_set().contains(row) {
                let i = choose|i: int| 0 <= i < rows.len() && rows[i] == row;
                assert(u[i].row == row);
            }
            if those(top, bottom, p).contains(row) {
                assert(p(row));
                let i = choose|i: int|
                    0 <= i < t.len() && (#[trigger] t[i]).row == row && t[i].col == col && keep(
                        t[i],
                    );
                let at: Place = (row as u32, col);
                assert(t[i].row == at.0);
                assert(places.contains(at));
                let j = choose|j: int| 0 <= j < places.len() && places[j] == at;
                assert(rows[j] == row);
            }
        }
    }
    lemma_those(top, bottom, p);
}

/// The cells of one column of a body that hold a kind of value are as many as the
/// rows of the body on which the column holds it.
proof fn lemma_kind_count(sheet: Sheet, t: Table, i: int, kind: ValueKind)
    requires
        workbook::row_major(sheet.entries()),
        t.body.sheet == sheet.id,
        t.body.normalised(),
        0 <= i < t.body.width(),
        kind != ValueKind::Empty,
    ensures
        table::kind_count(sheet.entries_in(t.body), t.body.left + i, kind) == count_of(
            sheet,
            t.body.top as int,
            t.body.bottom as int,
            (t.body.left + i) as u16,
            kind,
        ),
{
    let b = t.body;
    let col = (b.left + i) as u16;
    let s = sheet.entries();
    let e = sheet.entries_in(b);
    table::lemma_entries_in(sheet, b);
    let keep = |e: Entry| e.col == b.left + i && e.cell.value.spec_kind() == kind;
    let p = |row: int| sheet.value_at(row as u32, col).spec_kind() == kind;
    assert forall|k: int| 0 <= k < e.len() && keep(#[trigger] e[k]) implies e[k].col == col
        && b.top <= e[k].row <= b.bottom && p(e[k].row as int) by {
        let j = choose|j: int| 0 <= j < s.len() && s[j] == e[k];
        workbook::lemma_at(s, j);
    }
    assert forall|row: int| b.top <= row <= b.bottom && #[trigger] p(row) implies exists|k: int|
        0 <= k < e.len() && (#[trigger] e[k]).row == row && e[k].col == col && keep(e[k]) by {
        assert(workbook::occupied(s, row as u32, col));
        let j = choose|j: int| 0 <= j < s.len() && (#[trigger] s[j]).row == row && s[j].col == col;
        workbook::lemma_at(s, j);
        assert(b.holds(CellRef { sheet: sheet.id, row: s[j].row, col: s[j].col }));
        assert(e.contains(s[j]));
        let k = choose|k: int| 0 <= k < e.len() && e[k] == s[j];
        assert(keep(e[k]));
    }
    lemma_rows(sheet, e, b.top as int, b.bottom as int, col, keep, p);
}

proof fn lemma_filled(sheet: Sheet, top: int, bottom: int, col: u16)
    ensures
        count_filled(sheet, top, bottom, col) == count_of(
            sheet,
            top,
            bottom,
            col,
            ValueKind::Number,
        ) + count_of(sheet, top, bottom, col, ValueKind::Text) + count_of(
            sheet,
            top,
            bottom,
            col,
            ValueKind::Bool,
        ) + count_of(sheet, top, bottom, col, ValueKind::Error),
        count_of(sheet, top, bottom, col, ValueKind::Number) >= 0,
        count_of(sheet, top, bottom, col, ValueKind::Text) >= 0,
        count_of(sheet, top, bottom, col, ValueKind::Bool) >= 0,
        count_of(sheet, top, bottom, col, ValueKind::Error) >= 0,
        top <= bottom ==> count_filled(sheet, top, bottom, col) <= bottom + 1 - top,
    decreases bottom + 1 - top,
{
    if top <= bottom {
        lemma_filled(sheet, top + 1, bottom, col);
    }
}

/// A column is of a kind where most of the cells beneath its header that hold
/// anything hold that kind of value; it is mixed where there is no such kind, and
/// empty where they hold nothing. It says how many hold something, and its header
/// is the one that the region gives it.
pub proof fn a_column_is_of_the_kind_that_most_cells_are(
    sheet: Sheet,
    region: Region,
    t: Table,
    i: int,
)
    requires
        workbook::row_major(sheet.entries()),
        table::is_table_of(t, sheet, region),
        t.body.sheet == sheet.id,
        t.body.normalised(),
        0 <= i < t.columns@.len(),
    ensures
        ({
            let c = t.columns@[i];
            let top = t.body.top as int;
            let bottom = t.body.bottom as int;
            let col = (t.body.left + i) as u16;
            let all = count_filled(sheet, top, bottom, col);
            let most = |k: ValueKind| 2 * count_of(sheet, top, bottom, col, k) > all;
            &&& c.populated == all
            &&& c.kind is Empty <==> all == 0
            &&& c.kind is Number <==> most(ValueKind::Number)
            &&& c.kind is Text <==> most(ValueKind::Text)
            &&& c.kind is Bool <==> most(ValueKind::Bool)
            &&& c.kind is Error <==> most(ValueKind::Error)
            &&& c.kind is Mixed <==> all > 0 && !most(ValueKind::Number) && !most(ValueKind::Text)
                && !most(ValueKind::Bool) && !most(ValueKind::Error)
            &&& i < region.headers@.len() ==> c.header@ == region.headers@[i]@
            &&& i >= region.headers@.len() ==> c.header@.len() == 0
            &&& c.range.sheet == sheet.id && c.range.top == top && c.range.bottom == bottom
            &&& c.range.left == col && c.range.right == col
        }),
{
    let top = t.body.top as int;
    let bottom = t.body.bottom as int;
    let col = (t.body.left + i) as u16;
    assert(table::is_column(t.columns@[i], sheet, region, t.body, i));
    lemma_kind_count(sheet, t, i, ValueKind::Number);
    lemma_kind_count(sheet, t, i, ValueKind::Text);
    lemma_kind_count(sheet, t, i, ValueKind::Bool);
    lemma_kind_count(sheet, t, i, ValueKind::Error);
    lemma_filled(sheet, top, bottom, col);
}

proof fn lemma_values(s: Seq<Entry>, col: int)
    ensures
        profile::column_values(s, col).len() == s.filter(
            |e: Entry| e.col == col && !(e.cell.value is Empty),
        ).len(),
        profile::error_count(profile::column_values(s, col)) == table::kind_count(
            s,
            col,
            ValueKind::Error,
        ),
        profile::number_bits(profile::column_values(s, col)).len() == table::kind_count(
            s,
            col,
            ValueKind::Number,
        ),
    decreases s.len(),
{
    reveal(Seq::filter);
    if s.len() > 0 {
        let d = s.drop_last();
        lemma_values(d, col);
        let e = s.last();
        let v = profile::column_values(s, col);
        let w = profile::column_values(d, col);
        if e.col == col && !(e.cell.value is Empty) {
            assert(v =~= w.push(e.cell.value));
            assert(v.drop_last() =~= w);
        } else {
            assert(v =~= w);
        }
    }
}

/// A profile counts the cells of its column: those that hold something, those that
/// hold an error and, where values are asked for, those that hold a number; and what
/// holds something and what is empty are all of them.
pub proof fn a_profile_counts_the_cells_of_its_column(
    sheet: Sheet,
    region: Region,
    t: Table,
    i: int,
    p: ColumnProfile,
    opts: ProfileOptions,
)
    requires
        workbook::row_major(sheet.entries()),
        table::is_table_of(t, sheet, region),
        t.body.sheet == sheet.id,
        t.body.normalised(),
        0 <= i < t.columns@.len(),
        profile::is_profile(
            p,
            t.columns@[i],
            profile::column_values(sheet.entries_in(t.body), t.body.left + i),
            opts,
        ),
    ensures
        ({
            let top = t.body.top as int;
            let bottom = t.body.bottom as int;
            let col = (t.body.left + i) as u16;
            let numbers = count_of(sheet, top, bottom, col, ValueKind::Number);
            &&& p.populated == count_filled(sheet, top, bottom, col)
            &&& p.populated + p.empty == bottom + 1 - top
            &&& p.errors == count_of(sheet, top, bottom, col, ValueKind::Error)
            &&& p.numeric is Some <==> opts.values && numbers > 0
            &&& p.numeric matches Some(n) ==> n.numbers@.len() == numbers
        }),
{
    let b = t.body;
    let col = (b.left + i) as u16;
    let s = sheet.entries();
    let e = sheet.entries_in(b);
    a_column_is_of_the_kind_that_most_cells_are(sheet, region, t, i);
    lemma_kind_count(sheet, t, i, ValueKind::Number);
    lemma_kind_count(sheet, t, i, ValueKind::Error);
    lemma_values(e, b.left + i);
    lemma_filled(sheet, b.top as int, b.bottom as int, col);
    table::lemma_entries_in(sheet, b);
    let keep = |e: Entry| e.col == b.left + i && !(e.cell.value is Empty);
    let q = |row: int| !(sheet.value_at(row as u32, col) is Empty);
    assert forall|k: int| 0 <= k < e.len() && keep(#[trigger] e[k]) implies e[k].col == col
        && b.top <= e[k].row <= b.bottom && q(e[k].row as int) by {
        let j = choose|j: int| 0 <= j < s.len() && s[j] == e[k];
        workbook::lemma_at(s, j);
    }
    assert forall|row: int| b.top <= row <= b.bottom && #[trigger] q(row) implies exists|k: int|
        0 <= k < e.len() && (#[trigger] e[k]).row == row && e[k].col == col && keep(e[k]) by {
        assert(workbook::occupied(s, row as u32, col));
        let j = choose|j: int| 0 <= j < s.len() && (#[trigger] s[j]).row == row && s[j].col == col;
        workbook::lemma_at(s, j);
        assert(b.holds(CellRef { sheet: sheet.id, row: s[j].row, col: s[j].col }));
        assert(e.contains(s[j]));
        let k = choose|k: int| 0 <= k < e.len() && e[k] == s[j];
        assert(keep(e[k]));
    }
    lemma_rows(sheet, e, b.top as int, b.bottom as int, col, keep, q);
    let c = t.columns@[i];
    assert(c.range.width() == 1);
    assert(c.range.height() * c.range.width() == c.range.height()) by (nonlinear_arith)
        requires
            c.range.width() == 1,
    ;
}

/// All the counts of a list together.
pub open spec fn counted(l: Seq<ValueCount>) -> int
    decreases l.len(),
{
    if l.len() == 0 {
        0
    } else {
        counted(l.drop_last()) + l.last().count
    }
}

/// How often the values of a list occur, all together.
spec fn occurring(l: Seq<ValueCount>, vals: Seq<CellValue>, max: int) -> int
    decreases l.len(),
{
    if l.len() == 0 {
        0
    } else {
        occurring(l.drop_last(), vals, max) + profile::occurrences(vals, max, l.last().value@)
    }
}

/// How many of a list's values are this one.
spec fn naming(l: Seq<ValueCount>, key: Seq<char>) -> int
    decreases l.len(),
{
    if l.len() == 0 {
        0
    } else {
        naming(l.drop_last(), key) + (if l.last().value@ == key {
            1int
        } else {
            0int
        })
    }
}

proof fn lemma_occurring(l: Seq<ValueCount>, vals: Seq<CellValue>, max: int)
    ensures
        vals.len() == 0 ==> occurring(l, vals, max) == 0,
        vals.len() > 0 ==> occurring(l, vals, max) == occurring(l, vals.drop_last(), max) + naming(
            l,
            profile::key_of(vals.last(), max),
        ),
    decreases l.len(),
{
    reveal(Seq::filter);
    if l.len() > 0 {
        lemma_occurring(l.drop_last(), vals, max);
    }
}

proof fn lemma_naming(l: Seq<ValueCount>, key: Seq<char>)
    requires
        forall|i: int, j: int|
            0 <= i < j < l.len() ==> (#[trigger] l[i]).value@ != (#[trigger] l[j]).value@,
    ensures
        naming(l, key) == (if profile::lists_value(l, key) {
            1int
        } else {
            0int
        }),
    decreases l.len(),
{
    if l.len() > 0 {
        let d = l.drop_last();
        lemma_naming(d, key);
        assert forall|i: int| 0 <= i < d.len() implies #[trigger] d[i] == l[i] by {}
        if l.last().value@ == key {
            assert(l[l.len() - 1].value@ == key);
            if profile::lists_value(d, key) {
                let i = choose|i: int| 0 <= i < d.len() && (#[trigger] d[i]).value@ == key;
                assert(l[i].value@ != l[l.len() - 1].value@);
            }
        } else if profile::lists_value(l, key) {
            let i = choose|i: int| 0 <= i < l.len() && (#[trigger] l[i]).value@ == key;
            assert(d[i].value@ == key);
        } else if profile::lists_value(d, key) {
            let i = choose|i: int| 0 <= i < d.len() && (#[trigger] d[i]).value@ == key;
            assert(l[i].value@ == key);
        }
    }
}

proof fn lemma_all_occur(l: Seq<ValueCount>, vals: Seq<CellValue>, max: int)
    requires
        forall|i: int, j: int|
            0 <= i < j < l.len() ==> (#[trigger] l[i]).value@ != (#[trigger] l[j]).value@,
        forall|k: int|
            0 <= k < vals.len() ==> profile::lists_value(
                l,
                profile::key_of(#[trigger] vals[k], max),
            ),
    ensures
        occurring(l, vals, max) == vals.len(),
    decreases vals.len(),
{
    lemma_occurring(l, vals, max);
    if vals.len() > 0 {
        let d = vals.drop_last();
        assert forall|k: int| 0 <= k < d.len() implies profile::lists_value(
            l,
            profile::key_of(#[trigger] d[k], max),
        ) by {
            assert(d[k] == vals[k]);
        }
        lemma_all_occur(l, d, max);
        lemma_naming(l, profile::key_of(vals.last(), max));
        assert(vals[vals.len() - 1] == vals.last());
    }
}

proof fn lemma_counted(l: Seq<ValueCount>, vals: Seq<CellValue>, max: int)
    requires
        forall|i: int|
            0 <= i < l.len() ==> (#[trigger] l[i]).count == profile::occurrences(
                vals,
                max,
                l[i].value@,
            ),
    ensures
        counted(l) == occurring(l, vals, max),
    decreases l.len(),
{
    if l.len() > 0 {
        let d = l.drop_last();
        assert forall|i: int| 0 <= i < d.len() implies (#[trigger] d[i]).count
            == profile::occurrences(vals, max, d[i].value@) by {
            assert(d[i] == l[i]);
        }
        lemma_counted(d, vals, max);
        assert(l[l.len() - 1] == l.last());
    }
}

proof fn lemma_not_before_itself(s: Seq<char>)
    ensures
        !text::text_before(s, s),
    decreases s.len(),
{
    if s.len() > 0 {
        lemma_not_before_itself(s.drop_first());
    }
}

/// The distinct values of a column share its cells out among them: each stands in
/// the list once, none without a cell, the commoner ones first, and their counts
/// together are the cells that hold something.
pub proof fn the_counts_of_distinct_values_add_up(
    p: ColumnProfile,
    column: table::TableColumn,
    vals: Seq<CellValue>,
    opts: ProfileOptions,
)
    requires
        profile::is_profile(p, column, vals, opts),
        p.distinct is Some,
    ensures
        ({
            let l = p.distinct->0@;
            &&& counted(l) == p.populated
            &&& forall|i: int| 0 <= i < l.len() ==> (#[trigger] l[i]).count > 0
            &&& forall|i: int, j: int|
                0 <= i < j < l.len() ==> (#[trigger] l[i]).count >= (#[trigger] l[j]).count
                    && l[i].value@ != l[j].value@
            &&& p.distinct_count == Some(l.len() as u64)
            &&& l.len() <= opts.max_distinct
        }),
{
    let max = opts.max_value_chars as int;
    let l = p.distinct->0@;
    assert forall|i: int, j: int| 0 <= i < j < l.len() implies (#[trigger] l[i]).value@ != (
    #[trigger] l[j]).value@ by {
        assert(profile::ranks_before(l[i], l[j]));
        if l[i].value@ == l[j].value@ {
            assert(l[i].count == l[j].count);
            lemma_not_before_itself(l[i].value@);
        }
    }
    lemma_all_occur(l, vals, max);
    lemma_counted(l, vals, max);
    let names = l.map_values(|v: ValueCount| v.value@);
    let ks = profile::keys(vals, max);
    assert(names.no_duplicates()) by {
        assert forall|i: int, j: int|
            0 <= i < names.len() && 0 <= j < names.len() && i != j implies names[i] != names[j] by {
            if i < j {
                assert(l[i].value@ != l[j].value@);
            } else {
                assert(l[j].value@ != l[i].value@);
            }
        }
    }
    names.unique_seq_to_set();
    assert(names.to_set() =~= ks.to_set()) by {
        assert forall|key: Seq<char>| names.to_set().contains(key) <==> ks.to_set().contains(
            key,
        ) by {
            if names.to_set().contains(key) {
                let i = choose|i: int| 0 <= i < names.len() && names[i] == key;
                assert(l[i].count > 0);
                let f = |v: CellValue| profile::key_of(v, max) == key;
                let u = vals.filter(f);
                assert(u.len() > 0);
                vals.lemma_filter_pred(f, 0);
                vals.lemma_filter_contains_rev(f, u[0]);
                let k = choose|k: int| 0 <= k < vals.len() && vals[k] == u[0];
                assert(ks[k] == key);
            }
            if ks.to_set().contains(key) {
                let k = choose|k: int| 0 <= k < ks.len() && ks[k] == key;
                assert(profile::lists_value(l, profile::key_of(vals[k], max)));
                let i = choose|i: int| 0 <= i < l.len() && (#[trigger] l[i]).value@ == key;
                assert(names[i] == key);
            }
        }
    }
}

// ---------------------------------------------------------------------------
// Notes.

/// The entries of a row that lie in some columns and answer to something are as many
/// as the columns in which the row does.
proof fn lemma_cols(
    t: Seq<Entry>,
    left: int,
    right: int,
    row: u32,
    keep: spec_fn(Entry) -> bool,
    p: spec_fn(int) -> bool,
)
    requires
        workbook::row_major(t),
        0 <= left,
        right <= u16::MAX,
        forall|i: int| 0 <= i < t.len() && keep(#[trigger] t[i]) ==> t[i].row == row,
        forall|i: int|
            0 <= i < t.len() && keep(#[trigger] t[i]) ==> left <= t[i].col <= right && p(
                t[i].col as int,
            ),
        forall|col: int|
            left <= col <= right && #[trigger] p(col) ==> exists|i: int|
                0 <= i < t.len() && (#[trigger] t[i]).col == col && t[i].row == row && keep(t[i]),
    ensures
        t.filter(keep).len() == how_many(left, right, p),
{
    region::lemma_kept_places(t, keep);
    let u = t.filter(keep);
    let cols = u.map_values(|e: Entry| e.col as int);
    let places = region::places(u);
    assert forall|i: int| 0 <= i < u.len() implies (#[trigger] u[i]).row == row && left <= u[i].col
        <= right && p(u[i].col as int) by {
        assert(places[i] == (u[i].row, u[i].col));
        assert(places.contains(places[i]));
    }
    assert(cols.no_duplicates()) by {
        assert forall|i: int, j: int|
            0 <= i < cols.len() && 0 <= j < cols.len() && i != j implies cols[i] != cols[j] by {
            assert(places[i] == (u[i].row, u[i].col));
            assert(places[j] == (u[j].row, u[j].col));
            assert(places[i] != places[j]);
        }
    }
    cols.unique_seq_to_set();
    assert(cols.to_set() =~= those(left, right, p)) by {
        assert forall|col: int| cols.to_set().contains(col) <==> those(left, right, p).contains(
            col,
        ) by {
            if cols.to_set().contains(col) {
                let i = choose|i: int| 0 <= i < cols.len() && cols[i] == col;
                assert(u[i].col == col);
            }
            if those(left, right, p).contains(col) {
                assert(p(col));
                let i = choose|i: int|
                    0 <= i < t.len() && (#[trigger] t[i]).col == col && t[i].row == row && keep(
                        t[i],
                    );
                let at: Place = (row, col as u16);
                assert(t[i].row == at.0);
                assert(places.contains(at));
                let j = choose|j: int| 0 <= j < places.len() && places[j] == at;
                assert(cols[j] == col);
            }
        }
    }
    lemma_those(left, right, p);
}

spec fn is_value(e: Entry) -> bool {
    !(e.cell.value is Empty)
}

spec fn is_text(e: Entry) -> bool {
    e.cell.value is Text
}

proof fn lemma_tally(s: Seq<Entry>)
    ensures
        region::value_tally(s).0 == s.filter(|e: Entry| is_value(e)).len(),
        region::value_tally(s).1 == s.filter(|e: Entry| is_text(e)).len(),
    decreases s.len(),
{
    reveal(Seq::filter);
    if s.len() > 0 {
        lemma_tally(s.drop_last());
    }
}

/// What the sheet holds at a place is what an entry of a range there holds.
proof fn lemma_holds(sheet: Sheet, range: RangeRef)
    requires
        workbook::row_major(sheet.entries()),
    ensures
        workbook::row_major(sheet.entries_in(range)),
        forall|k: int|
            0 <= k < sheet.entries_in(range).len() ==> {
                let e = #[trigger] sheet.entries_in(range)[k];
                &&& range.holds(CellRef { sheet: sheet.id, row: e.row, col: e.col })
                &&& sheet.value_at(e.row, e.col) == e.cell.value
            },
        forall|row: u32, col: u16|
            range.holds(CellRef { sheet: sheet.id, row, col }) && !((#[trigger] sheet.value_at(
                row,
                col,
            )) is Empty) ==> exists|k: int|
                0 <= k < sheet.entries_in(range).len() && (#[trigger] sheet.entries_in(
                    range,
                )[k]).row == row && sheet.entries_in(range)[k].col == col,
{
    let s = sheet.entries();
    let e = sheet.entries_in(range);
    table::lemma_entries_in(sheet, range);
    assert forall|k: int| 0 <= k < e.len() implies {
        let x = #[trigger] e[k];
        &&& range.holds(CellRef { sheet: sheet.id, row: x.row, col: x.col })
        &&& sheet.value_at(x.row, x.col) == x.cell.value
    } by {
        let j = choose|j: int| 0 <= j < s.len() && s[j] == e[k];
        workbook::lemma_at(s, j);
    }
    assert forall|row: u32, col: u16|
        range.holds(CellRef { sheet: sheet.id, row, col }) && !((#[trigger] sheet.value_at(
            row,
            col,
        )) is Empty) implies exists|k: int|
        0 <= k < e.len() && (#[trigger] e[k]).row == row && e[k].col == col by {
        assert(workbook::occupied(s, row, col));
        let j = choose|j: int| 0 <= j < s.len() && (#[trigger] s[j]).row == row && s[j].col == col;
        assert(range.holds(CellRef { sheet: sheet.id, row: s[j].row, col: s[j].col }));
        assert(e.contains(s[j]));
        let k = choose|k: int| 0 <= k < e.len() && e[k] == s[j];
        assert(e[k].row == row);
    }
}

/// More than half of the cells of a column that hold anything hold a text.
pub open spec fn column_is_mostly_text(sheet: Sheet, r: RangeRef) -> bool {
    2 * how_many(
        r.top as int,
        r.bottom as int,
        |row: int| sheet.value_at(row as u32, r.left) is Text,
    ) > how_many(
        r.top as int,
        r.bottom as int,
        |row: int| !(sheet.value_at(row as u32, r.left) is Empty),
    )
}

/// More than half of the cells of a row that hold anything hold a text.
pub open spec fn row_is_mostly_text(sheet: Sheet, r: RangeRef) -> bool {
    2 * how_many(
        r.left as int,
        r.right as int,
        |col: int| sheet.value_at(r.top, col as u16) is Text,
    ) > how_many(
        r.left as int,
        r.right as int,
        |col: int| !(sheet.value_at(r.top, col as u16) is Empty),
    )
}

proof fn lemma_mostly_text(sheet: Sheet, r: RangeRef)
    requires
        workbook::row_major(sheet.entries()),
        r.sheet == sheet.id,
        r.normalised(),
    ensures
        r.left == r.right ==> region::mostly_text(sheet, r) == column_is_mostly_text(sheet, r),
        r.top == r.bottom ==> region::mostly_text(sheet, r) == row_is_mostly_text(sheet, r),
{
    let e = sheet.entries_in(r);
    lemma_holds(sheet, r);
    lemma_tally(e);
    let values = |e: Entry| is_value(e);
    let texts = |e: Entry| is_text(e);
    if r.left == r.right {
        let p = |row: int| !(sheet.value_at(row as u32, r.left) is Empty);
        let q = |row: int| sheet.value_at(row as u32, r.left) is Text;
        assert forall|row: int| r.top <= row <= r.bottom && #[trigger] p(row) implies exists|i: int|
            0 <= i < e.len() && (#[trigger] e[i]).row == row && e[i].col == r.left && values(
                e[i],
            ) by {
            let k = choose|k: int|
                0 <= k < e.len() && (#[trigger] e[k]).row == row as u32 && e[k].col == r.left;
            assert(values(e[k]));
        }
        assert forall|row: int| r.top <= row <= r.bottom && #[trigger] q(row) implies exists|i: int|
            0 <= i < e.len() && (#[trigger] e[i]).row == row && e[i].col == r.left && texts(
                e[i],
            ) by {
            let k = choose|k: int|
                0 <= k < e.len() && (#[trigger] e[k]).row == row as u32 && e[k].col == r.left;
            assert(texts(e[k]));
        }
        lemma_rows(sheet, e, r.top as int, r.bottom as int, r.left, values, p);
        lemma_rows(sheet, e, r.top as int, r.bottom as int, r.left, texts, q);
    }
    if r.top == r.bottom {
        let p = |col: int| !(sheet.value_at(r.top, col as u16) is Empty);
        let q = |col: int| sheet.value_at(r.top, col as u16) is Text;
        assert forall|col: int| r.left <= col <= r.right && #[trigger] p(col) implies exists|i: int|
            0 <= i < e.len() && (#[trigger] e[i]).col == col && e[i].row == r.top && values(
                e[i],
            ) by {
            let k = choose|k: int|
                0 <= k < e.len() && (#[trigger] e[k]).row == r.top && e[k].col == col as u16;
            assert(values(e[k]));
        }
        assert forall|col: int| r.left <= col <= r.right && #[trigger] q(col) implies exists|i: int|
            0 <= i < e.len() && (#[trigger] e[i]).col == col && e[i].row == r.top && texts(
                e[i],
            ) by {
            let k = choose|k: int|
                0 <= k < e.len() && (#[trigger] e[k]).row == r.top && e[k].col == col as u16;
            assert(texts(e[k]));
        }
        lemma_cols(e, r.left as int, r.right as int, r.top, values, p);
        lemma_cols(e, r.left as int, r.right as int, r.top, texts, q);
    }
}

/// A block that is no table is a note exactly where it is a single row or a single
/// column, and more than half of the values in it are texts.
pub proof fn a_note_is_a_line_of_mostly_texts(
    sheet: Sheet,
    opts: RegionOptions,
    regions: Seq<Region>,
    k: int,
)
    requires
        region::is_sound(sheet),
        region::in_place(regions, region::found(sheet, opts)),
        0 <= k < regions.len(),
        regions[k].source == RegionSource::Detected,
        regions[k].kind != RegionKind::Table,
    ensures
        regions[k].kind == RegionKind::Note <==> {
            let r = regions[k].range;
            ||| r.top == r.bottom && row_is_mostly_text(sheet, r)
            ||| r.left == r.right && column_is_mostly_text(sheet, r)
        },
{
    let r = regions[k].range;
    let n = headers::lemma_described(sheet, opts, regions, k);
    region::regions_lie_on_their_sheet(sheet, opts, regions, k);
    lemma_mostly_text(sheet, r);
}

} // verus!
