//! A region, read as the table it already is.
//!
//! Region detection recovers the rectangle, the header rows, the row-label
//! columns and one header string per body column. What this adds is the column:
//! a header, the cells beneath it, and a type read off those cells. A column is
//! [`ColumnKind`] by majority of what it holds, and a column that cannot decide
//! says so rather than picking.
//!
//! Blanks are filled in when rows are read. A sheet stores only its populated
//! cells, so the third column of a row whose third cell is empty is *absent*,
//! not blank, and a table that silently shortened its rows would misalign every
//! column after the gap.
//!
//! Nothing here reads a formula or evaluates anything. This is the data as the
//! workbook last saved it.

use crate::address;
use crate::address::{CellRef, RangeRef};
use crate::cell::{Cell, CellValue, ValueKind};
use crate::region;
use crate::region::Region;
use crate::text;
use crate::text::same_text_but_for_case;
use crate::workbook;
use crate::workbook::{Entry, Sheet};
use vstd::prelude::*;

verus! {

/// What a column holds, by majority of its populated cells.
#[derive(Debug, Clone, Copy, PartialEq, Eq, Structural)]
pub enum ColumnKind {
    Number,
    Text,
    Bool,
    /// Most cells are error values.
    Error,
    /// Populated, and no kind holds a majority: a column of numbers with a
    /// "n/a" written into half of it. Named rather than resolved, because
    /// summing it and reading it as text are both wrong.
    Mixed,
    /// No populated cell at all.
    Empty,
}

/// How many cells of each kind there are.
#[derive(Debug, Clone, Copy, PartialEq, Eq, Structural)]
pub struct KindCounts {
    pub numbers: u64,
    pub texts: u64,
    pub bools: u64,
    pub errors: u64,
}

impl KindCounts {
    /// All cells that hold something.
    pub open spec fn total(self) -> int {
        self.numbers + self.texts + self.bools + self.errors
    }
}

impl ColumnKind {
    pub open spec fn shown(self) -> Seq<char> {
        match self {
            ColumnKind::Number => "number"@,
            ColumnKind::Text => "text"@,
            ColumnKind::Bool => "bool"@,
            ColumnKind::Error => "error"@,
            ColumnKind::Mixed => "mixed"@,
            ColumnKind::Empty => "empty"@,
        }
    }

    /// The kind that a strict majority of the cells are.
    pub open spec fn by_majority(c: KindCounts) -> ColumnKind {
        if c.total() == 0 {
            ColumnKind::Empty
        } else if 2 * c.numbers > c.total() {
            ColumnKind::Number
        } else if 2 * c.texts > c.total() {
            ColumnKind::Text
        } else if 2 * c.bools > c.total() {
            ColumnKind::Bool
        } else if 2 * c.errors > c.total() {
            ColumnKind::Error
        } else {
            ColumnKind::Mixed
        }
    }

    pub fn as_str(self) -> (r: &'static str)
        ensures
            r@ == self.shown(),
    {
        match self {
            ColumnKind::Number => "number",
            ColumnKind::Text => "text",
            ColumnKind::Bool => "bool",
            ColumnKind::Error => "error",
            ColumnKind::Mixed => "mixed",
            ColumnKind::Empty => "empty",
        }
    }

    /// Whether arithmetic over this column means anything.
    pub fn is_numeric(self) -> (r: bool)
        ensures
            r == (self is Number),
    {
        matches!(self, ColumnKind::Number)
    }

    /// The kind holding a majority of the cells.
    ///
    /// A strict majority, not a plurality: a column that is 40% number, 35% text
    /// and 25% error has no type anyone should rely on.
    fn of(c: KindCounts) -> (r: ColumnKind)
        requires
            c.total() <= u64::MAX,
        ensures
            r == ColumnKind::by_majority(c),
    {
        let populated: u64 = c.numbers + c.texts + c.bools + c.errors;
        if populated == 0 {
            return ColumnKind::Empty;
        }
        let half: u64 = populated / 2;
        if c.numbers > half {
            ColumnKind::Number
        } else if c.texts > half {
            ColumnKind::Text
        } else if c.bools > half {
            ColumnKind::Bool
        } else if c.errors > half {
            ColumnKind::Error
        } else {
            ColumnKind::Mixed
        }
    }
}

/// One column of a table: a name, the cells under it, and what they are.
#[derive(Debug, Clone, PartialEq, Eq)]
pub struct TableColumn {
    /// The header as written, with stacked header rows joined by `.`. Empty for
    /// a body column the region found no header for.
    pub header: String,
    /// The body cells of this column, excluding header and title rows.
    pub range: RangeRef,
    pub kind: ColumnKind,
    /// Populated cells. The rest of `range` is empty.
    pub populated: u64,
}

/// A region, read as a table.
#[derive(Debug, Clone, PartialEq, Eq)]
pub struct Table {
    /// The data rows, excluding title and header.
    pub body: RangeRef,
    /// The region's title, where it has one.
    pub title: Option<String>,
    /// Left to right, one per body column.
    pub columns: Vec<TableColumn>,
    /// The row-label columns to the left of the body, if the region has any.
    /// They are not data: they name the rows.
    pub labels: Option<RangeRef>,
}

impl Table {
    /// How many rows the body covers, blank ones included.
    pub fn rows(&self) -> (r: u32)
        requires
            self.body.top <= self.body.bottom,
            self.body.height() <= u32::MAX,
        ensures
            r == self.body.height(),
    {
        self.body.bottom - self.body.top + 1
    }

    /// The column at `i` has this header, whatever its case.
    pub open spec fn is_headed(self, i: int, header: Seq<char>) -> bool {
        text::same_but_for_case(self.columns@[i].header@, header)
    }

    /// The column with this header, case-insensitively.
    ///
    /// `None` rather than a guess when two columns share a header, which real
    /// workbooks do: `Total` under both `Q3` and `Q4` is two different numbers.
    pub fn column(&self, header: &str) -> (r: Option<&TableColumn>)
        ensures
            match r {
                Some(c) => exists|i: int|
                    0 <= i < self.columns@.len() && *c == self.columns@[i] && #[trigger]
                    self.is_headed(i, header@) && forall|j: int|
                        0 <= j < self.columns@.len() && #[trigger] self.is_headed(j, header@) ==> j
                            == i,
                None => {
                    ||| forall|i: int|
                        0 <= i < self.columns@.len() ==> !#[trigger] self.is_headed(i, header@)
                    ||| exists|i: int, j: int|
                        0 <= i < j < self.columns@.len() && #[trigger] self.is_headed(i, header@)
                            && #[trigger] self.is_headed(j, header@)
                },
            },
    {
        let mut found: Option<usize> = None;
        let mut i: usize = 0;
        while i < self.columns.len()
            invariant
                i <= self.columns@.len(),
                match found {
                    Some(k) => k < i && self.is_headed(k as int, header@) && forall|j: int|
                        0 <= j < i && #[trigger] self.is_headed(j, header@) ==> j == k,
                    None => forall|j: int| 0 <= j < i ==> !#[trigger] self.is_headed(j, header@),
                },
            decreases self.columns@.len() - i,
        {
            if same_text_but_for_case(self.columns[i].header.as_str(), header) {
                assert(self.is_headed(i as int, header@));
                if found.is_some() {
                    return None;
                }
                found = Some(i);
            } else {
                assert(!self.is_headed(i as int, header@));
            }
            i += 1;
        }
        match found {
            Some(k) => Some(&self.columns[k]),
            None => None,
        }
    }

    /// What the body shows in a row, at the `j`-th column: nothing beyond its
    /// right edge, and nothing on another sheet.
    pub open spec fn shows(self, sheet: Sheet, row: u32, j: int) -> CellValue {
        if self.body.sheet == sheet.id && self.body.left + j <= self.body.right {
            sheet.value_at(row, (self.body.left + j) as u16)
        } else {
            CellValue::Empty
        }
    }

    /// The rows of the body, in order, one value per column.
    ///
    /// Empty cells are filled in as [`CellValue::Empty`] so that row `n`
    /// position `i` is always column `i`.
    pub fn read(&self, sheet: &Sheet) -> (r: Vec<Vec<CellValue>>)
        requires
            self.body.normalised(),
        ensures
            r@.len() == self.body.height(),
            forall|i: int|
                0 <= i < r@.len() ==> (#[trigger] r@[i])@.len() == self.columns@.len(),
            forall|i: int, j: int|
                0 <= i < r@.len() && 0 <= j < self.columns@.len() ==> #[trigger] r@[i]@[j]
                    == self.shows(*sheet, (self.body.top + i) as u32, j),
    {
        let mut out: Vec<Vec<CellValue>> = Vec::new();
        let mut row: u64 = self.body.top as u64;
        while row <= self.body.bottom as u64
            invariant
                self.body.normalised(),
                self.body.top <= row <= self.body.bottom + 1,
                out@.len() == row - self.body.top,
                forall|i: int|
                    0 <= i < out@.len() ==> (#[trigger] out@[i])@.len() == self.columns@.len(),
                forall|i: int, j: int|
                    0 <= i < out@.len() && 0 <= j < self.columns@.len() ==> #[trigger] out@[i]@[j]
                        == self.shows(*sheet, (self.body.top + i) as u32, j),
            decreases self.body.bottom + 1 - row,
        {
            out.push(self.read_row(sheet, row as u32));
            row += 1;
        }
        out
    }

    /// One row, by a single scan over its cells.
    fn read_row(&self, sheet: &Sheet, row: u32) -> (r: Vec<CellValue>)
        requires
            self.body.normalised(),
        ensures
            r@.len() == self.columns@.len(),
            forall|j: int|
                0 <= j < r@.len() ==> #[trigger] r@[j] == self.shows(*sheet, row, j),
    {
        let width: usize = self.columns.len();
        let mut out: Vec<CellValue> = Vec::new();
        let mut k: usize = 0;
        while k < width
            invariant
                k <= width,
                out@.len() == k,
                forall|j: int| 0 <= j < k ==> (#[trigger] out@[j]) == CellValue::Empty,
            decreases width - k,
        {
            out.push(CellValue::Empty);
            k += 1;
        }
        let left: u16 = self.body.left;
        let line: RangeRef = RangeRef::new(self.body.sheet, row, left, row, self.body.right);
        let cells: Vec<(CellRef, &Cell)> = sheet.iter_range(line);
        let ghost t = sheet.entries_in(line);
        proof {
            lemma_entries_in(*sheet, line);
        }
        let mut i: usize = 0;
        while i < cells.len()
            invariant
                self.body.normalised(),
                left == self.body.left,
                width == self.columns@.len(),
                line == (RangeRef {
                    sheet: self.body.sheet,
                    top: row,
                    left,
                    bottom: row,
                    right: self.body.right,
                }),
                t == sheet.entries_in(line),
                workbook::listed(cells@, t, sheet.id),
                workbook::row_major(t),
                forall|k: int|
                    0 <= k < t.len() ==> line.holds(
                        CellRef {
                            sheet: sheet.id,
                            row: (#[trigger] t[k]).row,
                            col: t[k].col,
                        },
                    ),
                i <= cells@.len(),
                out@.len() == width,
                forall|j: int|
                    0 <= j < width ==> (#[trigger] out@[j]) == value_among(
                        t.take(i as int),
                        row,
                        left + j,
                    ),
            decreases cells@.len() - i,
        {
            let at: CellRef = cells[i].0;
            assert(t[i as int].row == row && left <= t[i as int].col);
            let j: usize = (at.col - left) as usize;
            proof {
                assert(t.take(i + 1).drop_last() =~= t.take(i as int));
                assert(t.take(i + 1).last() == t[i as int]);
            }
            if j < width {
                let v: CellValue = cells[i].1.value.clone();
                out.set(j, v);
            }
            i += 1;
        }
        proof {
            assert(t.take(i as int) =~= t);
            assert forall|j: int| 0 <= j < out@.len() implies #[trigger] out@[j] == self.shows(
                *sheet,
                row,
                j,
            ) by {
                lemma_value_among(*sheet, line, row, left + j);
            }
        }
        out
    }

    /// The label of one body row, where the region has a row-label column and a
    /// cell is stored there.
    pub fn label_of(&self, sheet: &Sheet, row: u32) -> (r: Option<CellValue>)
        ensures
            r == (match self.labels {
                Some(l) => if l.sheet == sheet.id {
                    match sheet.cell_at(row, l.left) {
                        Some(c) => Some(c.value),
                        None => None,
                    }
                } else {
                    None
                },
                None => None,
            }),
    {
        match self.labels {
            Some(labels) => match sheet.get_ref(CellRef::new(labels.sheet, row, labels.left)) {
                Some(cell) => Some(cell.value.clone()),
                None => None,
            },
            None => None,
        }
    }
}

/// The value of the last entry at a place, nothing where there is none.
spec fn value_among(s: Seq<Entry>, row: u32, col: int) -> CellValue
    decreases s.len(),
{
    if s.len() == 0 {
        CellValue::Empty
    } else if s.last().row == row && s.last().col == col {
        s.last().cell.value
    } else {
        value_among(s.drop_last(), row, col)
    }
}

/// The entries of a range are entries of the sheet that lie in it.
pub proof fn lemma_entries_in(sheet: Sheet, range: RangeRef)
    requires
        workbook::row_major(sheet.entries()),
    ensures
        workbook::row_major(sheet.entries_in(range)),
        forall|k: int|
            0 <= k < sheet.entries_in(range).len() ==> range.holds(
                CellRef {
                    sheet: sheet.id,
                    row: (#[trigger] sheet.entries_in(range)[k]).row,
                    col: sheet.entries_in(range)[k].col,
                },
            ) && sheet.entries().contains(sheet.entries_in(range)[k]),
        forall|i: int|
            0 <= i < sheet.entries().len() && range.holds(
                CellRef {
                    sheet: sheet.id,
                    row: (#[trigger] sheet.entries()[i]).row,
                    col: sheet.entries()[i].col,
                },
            ) ==> sheet.entries_in(range).contains(sheet.entries()[i]),
{
    let s = sheet.entries();
    let keep = |e: Entry| range.holds(CellRef { sheet: sheet.id, row: e.row, col: e.col });
    let t = sheet.entries_in(range);
    assert(t == s.filter(keep));
    region::lemma_kept_places(s, keep);
    assert forall|i: int|
        0 <= i < s.len() && range.holds(
            CellRef { sheet: sheet.id, row: (#[trigger] s[i]).row, col: s[i].col },
        ) implies t.contains(s[i]) by {
        s.lemma_filter_contains(keep, i);
    }
    assert forall|k: int| 0 <= k < t.len() implies range.holds(
        CellRef { sheet: sheet.id, row: (#[trigger] t[k]).row, col: t[k].col },
    ) && s.contains(t[k]) by {
        s.lemma_filter_pred(keep, k);
        assert(s.filter(keep).contains(t[k]));
        s.lemma_filter_contains_rev(keep, t[k]);
    }
}

proof fn lemma_value_among(sheet: Sheet, line: RangeRef, row: u32, col: int)
    requires
        workbook::row_major(sheet.entries()),
        line.top == row,
        line.bottom == row,
        line.left <= col,
    ensures
        value_among(sheet.entries_in(line), row, col) == (if line.sheet == sheet.id && col
            <= line.right {
            sheet.value_at(row, col as u16)
        } else {
            CellValue::Empty
        }),
{
    let t = sheet.entries_in(line);
    let s = sheet.entries();
    lemma_entries_in(sheet, line);
    lemma_value_found(t, row, col);
    if line.sheet == sheet.id && col <= line.right && workbook::occupied(s, row, col as u16) {
        let i = choose|i: int|
            0 <= i < s.len() && (#[trigger] s[i]).row == row && s[i].col == col as u16;
        assert(t.contains(s[i]));
        let k = choose|k: int| 0 <= k < t.len() && t[k] == s[i];
        workbook::lemma_at(s, i);
        assert(t[k].row == row && t[k].col == col);
    } else if exists|k: int| 0 <= k < t.len() && (#[trigger] t[k]).row == row && t[k].col == col {
        let k = choose|k: int| 0 <= k < t.len() && (#[trigger] t[k]).row == row && t[k].col == col;
        assert(s.contains(t[k]));
        let i = choose|i: int| 0 <= i < s.len() && s[i] == t[k];
        assert(workbook::occupied(s, row, col as u16));
    }
}

proof fn lemma_value_found(t: Seq<Entry>, row: u32, col: int)
    requires
        workbook::row_major(t),
    ensures
        forall|k: int|
            0 <= k < t.len() && (#[trigger] t[k]).row == row && t[k].col == col ==> value_among(
                t,
                row,
                col,
            ) == t[k].cell.value,
        (forall|k: int| 0 <= k < t.len() ==> !((#[trigger] t[k]).row == row && t[k].col == col))
            ==> value_among(t, row, col) is Empty,
    decreases t.len(),
{
    if t.len() > 0 {
        let d = t.drop_last();
        lemma_value_found(d, row, col);
        assert forall|k: int|
            0 <= k < t.len() && (#[trigger] t[k]).row == row && t[k].col == col implies value_among(
            t,
            row,
            col,
        ) == t[k].cell.value by {
            if k < t.len() - 1 {
                assert(d[k] == t[k]);
                assert(workbook::before(
                    t[k].row,
                    t[k].col,
                    t[t.len() - 1].row,
                    t[t.len() - 1].col,
                ));
            }
        }
        if forall|k: int| 0 <= k < t.len() ==> !((#[trigger] t[k]).row == row && t[k].col == col) {
            assert forall|k: int| 0 <= k < d.len() implies !((#[trigger] d[k]).row == row && d[k].col
                == col) by {
                assert(d[k] == t[k]);
            }
        }
    }
}

/// How many of some entries lie in a column and hold a kind of value.
pub open spec fn kind_count(s: Seq<Entry>, col: int, kind: ValueKind) -> nat {
    s.filter(|e: Entry| e.col == col && e.cell.value.spec_kind() == kind).len()
}

/// What a column holds, kind by kind.
pub open spec fn column_counts(s: Seq<Entry>, col: int) -> KindCounts {
    KindCounts {
        numbers: kind_count(s, col, ValueKind::Number) as u64,
        texts: kind_count(s, col, ValueKind::Text) as u64,
        bools: kind_count(s, col, ValueKind::Bool) as u64,
        errors: kind_count(s, col, ValueKind::Error) as u64,
    }
}

proof fn lemma_kind_count(s: Seq<Entry>, col: int, kind: ValueKind)
    requires
        s.len() > 0,
    ensures
        kind_count(s, col, kind) == kind_count(s.drop_last(), col, kind) + (if s.last().col == col
            && s.last().cell.value.spec_kind() == kind {
            1int
        } else {
            0
        }),
{
    reveal(Seq::filter);
}

proof fn lemma_column_counts(s: Seq<Entry>, col: int)
    requires
        s.len() <= u64::MAX,
    ensures
        kind_count(s, col, ValueKind::Number) + kind_count(s, col, ValueKind::Text) + kind_count(
            s,
            col,
            ValueKind::Bool,
        ) + kind_count(s, col, ValueKind::Error) <= s.len(),
        column_counts(s, col).total() <= s.len(),
        s.len() == 0 ==> column_counts(s, col).total() == 0,
        s.len() > 0 ==> ({
            let d = column_counts(s.drop_last(), col);
            let v = s.last().cell.value;
            column_counts(s, col) == (if s.last().col != col {
                d
            } else {
                match v {
                    CellValue::Empty => d,
                    CellValue::Number(_) => KindCounts { numbers: (d.numbers + 1) as u64, ..d },
                    CellValue::Text(_) => KindCounts { texts: (d.texts + 1) as u64, ..d },
                    CellValue::Bool(_) => KindCounts { bools: (d.bools + 1) as u64, ..d },
                    CellValue::Error(_) => KindCounts { errors: (d.errors + 1) as u64, ..d },
                }
            })
        }),
    decreases s.len(),
{
    if s.len() > 0 {
        lemma_column_counts(s.drop_last(), col);
        lemma_kind_count(s, col, ValueKind::Number);
        lemma_kind_count(s, col, ValueKind::Text);
        lemma_kind_count(s, col, ValueKind::Bool);
        lemma_kind_count(s, col, ValueKind::Error);
    } else {
        reveal(Seq::filter);
    }
}

/// The header that a region gives its `i`-th body column, empty where it found
/// none.
pub open spec fn header_at(headers: Seq<String>, i: int) -> Seq<char> {
    if i < headers.len() {
        headers[i]@
    } else {
        Seq::empty()
    }
}

/// A column of the body of a region, as the sheet fills it.
pub open spec fn is_column(c: TableColumn, sheet: Sheet, region: Region, body: RangeRef, i: int) -> bool {
    let counts = column_counts(sheet.entries_in(body), body.left + i);
    let col = (body.left + i) as u16;
    &&& c.header@ == header_at(region.headers@, i)
    &&& c.range == (RangeRef {
        sheet: body.sheet,
        top: body.top,
        left: col,
        bottom: body.bottom,
        right: col,
    })
    &&& c.kind == ColumnKind::by_majority(counts)
    &&& c.populated == counts.total()
}

/// Where the row labels of a region's body stand: the columns left of it.
pub open spec fn label_columns(region: Region, body: RangeRef) -> Option<RangeRef> {
    if region.header_cols == 0 {
        None
    } else {
        Some(
            RangeRef {
                sheet: region.range.sheet,
                top: body.top,
                left: region.range.left,
                bottom: body.bottom,
                right: (body.left - 1) as u16,
            },
        )
    }
}

/// A table is a region of a sheet, read.
pub open spec fn is_table_of(t: Table, sheet: Sheet, region: Region) -> bool {
    &&& Some(t.body) == region.spec_body()
    &&& address::opt_view(t.title) == address::opt_view(region.title)
    &&& t.columns@.len() == t.body.width()
    &&& forall|i: int|
        0 <= i < t.columns@.len() ==> is_column(
            #[trigger] t.columns@[i],
            sheet,
            region,
            t.body,
            i,
        )
    &&& t.labels == label_columns(region, t.body)
}

/// Read a detected region as a table.
///
/// `None` when the region has no body at all: a title with nothing under it, or
/// a header row that is the whole of it.
pub fn read_table(sheet: &Sheet, region: &Region) -> (r: Option<Table>)
    requires
        region.body_fits(),
    ensures
        r is Some == region.spec_body() is Some,
        r matches Some(t) ==> is_table_of(t, *sheet, *region),
{
    let body: RangeRef = match region.body() {
        Some(b) => b,
        None => return None,
    };
    let width: usize = (body.right - body.left) as usize + 1;
    let left: u16 = body.left;
    let none: KindCounts = KindCounts { numbers: 0, texts: 0, bools: 0, errors: 0 };
    let mut tally: Vec<KindCounts> = Vec::new();
    let mut k: usize = 0;
    while k < width
        invariant
            k <= width,
            tally@.len() == k,
            forall|j: int| 0 <= j < k ==> (#[trigger] tally@[j]) == none,
        decreases width - k,
    {
        tally.push(none);
        k += 1;
    }
    let cells: Vec<(CellRef, &Cell)> = sheet.iter_range(body);
    let count: usize = cells.len();
    let ghost s = sheet.entries_in(body);
    proof {
        lemma_entries_in(*sheet, body);
        assert forall|j: int| 0 <= j < width implies (#[trigger] tally@[j]) == column_counts(
            s.take(0),
            left + j,
        ) by {
            lemma_column_counts(s.take(0), left + j);
        }
    }
    let mut i: usize = 0;
    while i < count
        invariant
            count == cells@.len(),
            count <= u64::MAX,
            width == body.right - body.left + 1,
            left == body.left,
            s == sheet.entries_in(body),
            workbook::listed(cells@, s, sheet.id),
            forall|k: int|
                0 <= k < s.len() ==> body.holds(
                    CellRef { sheet: sheet.id, row: (#[trigger] s[k]).row, col: s[k].col },
                ),
            i <= count,
            tally@.len() == width,
            forall|j: int|
                0 <= j < width ==> (#[trigger] tally@[j]) == column_counts(
                    s.take(i as int),
                    left + j,
                ),
        decreases count - i,
    {
        let at: CellRef = cells[i].0;
        assert(body.holds(CellRef { sheet: sheet.id, row: s[i as int].row, col: s[i as int].col }));
        let j: usize = (at.col - left) as usize;
        let mut slot: KindCounts = tally[j];
        proof {
            assert(s.take(i + 1).drop_last() =~= s.take(i as int));
            assert(s.take(i + 1).last() == s[i as int]);
            assert forall|c: int| 0 <= c < width implies #[trigger] column_counts(
                s.take(i + 1),
                left + c,
            ).total() <= i + 1 by {
                lemma_column_counts(s.take(i + 1), left + c);
            }
            lemma_column_counts(s.take(i + 1), left + j);
            lemma_column_counts(s.take(i as int), left + j);
        }
        match cells[i].1.value.kind() {
            ValueKind::Number => slot.numbers = slot.numbers + 1,
            ValueKind::Text => slot.texts = slot.texts + 1,
            ValueKind::Bool => slot.bools = slot.bools + 1,
            ValueKind::Error => slot.errors = slot.errors + 1,
            ValueKind::Empty => {},
        }
        tally.set(j, slot);
        proof {
            assert forall|c: int| 0 <= c < width implies (#[trigger] tally@[c]) == column_counts(
                s.take(i + 1),
                left + c,
            ) by {
                lemma_column_counts(s.take(i + 1), left + c);
            }
        }
        i += 1;
    }
    proof {
        assert(s.take(count as int) =~= s);
    }
    let mut columns: Vec<TableColumn> = Vec::new();
    let mut c: usize = 0;
    while c < width
        invariant
            count == s.len(),
            body.left <= body.right,
            body.top <= body.bottom,
            width == body.right - body.left + 1,
            left == body.left,
            s == sheet.entries_in(body),
            tally@.len() == width,
            forall|j: int|
                0 <= j < width ==> (#[trigger] tally@[j]) == column_counts(s, left + j),
            c <= width,
            columns@.len() == c,
            forall|j: int|
                0 <= j < c ==> is_column(#[trigger] columns@[j], *sheet, *region, body, j),
        decreases width - c,
    {
        let col: u16 = left + c as u16;
        let counts: KindCounts = tally[c];
        proof {
            lemma_column_counts(s, left + c);
        }
        let header: String = if c < region.headers.len() {
            region.headers[c].clone()
        } else {
            String::new()
        };
        columns.push(
            TableColumn {
                header,
                range: RangeRef::new(body.sheet, body.top, col, body.bottom, col),
                kind: ColumnKind::of(counts),
                populated: counts.numbers + counts.texts + counts.bools + counts.errors,
            },
        );
        c += 1;
    }
    let labels: Option<RangeRef> = if region.header_cols > 0 {
        Some(
            RangeRef::new(
                region.range.sheet,
                body.top,
                region.range.left,
                body.bottom,
                region.range.left + (region.header_cols - 1),
            ),
        )
    } else {
        None
    };
    Some(Table { body, title: region.title.clone(), columns, labels })
}

} // verus!
