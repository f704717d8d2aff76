//! The in-memory workbook: sparse sheets, defined names, tables, and merges.
//!
//! Sheets are stored sparsely. A worksheet nominally addresses a million rows by
//! sixteen thousand columns, but a real one is overwhelmingly blank, so only
//! populated cells are materialised. They are kept ordered by `(row, col)`, so
//! that row-major scans, which is how region detection reads a sheet, come for
//! free without a sort.

use crate::address;
use crate::address::{CellRef, RangeRef, SheetId};
use crate::cell::{Cell, CellFormat, CellValue, ValueKind};
use crate::text;
use crate::text::same_text_but_for_case;
use vstd::prelude::*;

verus! {

/// Source file format, which determines what operations are available.
#[derive(Debug, Clone, Copy, PartialEq, Eq, Hash, Structural)]
pub enum WorkbookFormat {
    Xlsx,
    Xlsm,
    Xlsb,
    Xls,
    Ods,
}

impl WorkbookFormat {
    /// The file extension of the format.
    pub open spec fn extension(self) -> Seq<char> {
        match self {
            WorkbookFormat::Xlsx => "xlsx"@,
            WorkbookFormat::Xlsm => "xlsm"@,
            WorkbookFormat::Xlsb => "xlsb"@,
            WorkbookFormat::Xls => "xls"@,
            WorkbookFormat::Ods => "ods"@,
        }
    }

    /// The format whose extension this is, in any case.
    pub fn from_extension(ext: &str) -> (r: Option<Self>)
        ensures
            match r {
                Some(f) => text::same_but_for_case(ext@, f.extension()),
                None => forall|f: WorkbookFormat|
                    !text::same_but_for_case(ext@, #[trigger] f.extension()),
            },
    {
        if same_text_but_for_case(ext, "xlsx") {
            Some(WorkbookFormat::Xlsx)
        } else if same_text_but_for_case(ext, "xlsm") {
            Some(WorkbookFormat::Xlsm)
        } else if same_text_but_for_case(ext, "xlsb") {
            Some(WorkbookFormat::Xlsb)
        } else if same_text_but_for_case(ext, "xls") {
            Some(WorkbookFormat::Xls)
        } else if same_text_but_for_case(ext, "ods") {
            Some(WorkbookFormat::Ods)
        } else {
            None
        }
    }

    pub fn as_str(&self) -> (r: &'static str)
        ensures
            r@ == self.extension(),
    {
        match self {
            WorkbookFormat::Xlsx => "xlsx",
            WorkbookFormat::Xlsm => "xlsm",
            WorkbookFormat::Xlsb => "xlsb",
            WorkbookFormat::Xls => "xls",
            WorkbookFormat::Ods => "ods",
        }
    }

    /// Whether a modified workbook can be written back in this format.
    ///
    /// Only `xlsx` can be written. What-if analysis on any other format stays
    /// in memory. Callers must surface this rather than failing at save.
    pub fn is_writable(&self) -> (r: bool)
        ensures
            r == (*self is Xlsx),
    {
        matches!(self, WorkbookFormat::Xlsx)
    }
}

/// Formats round-trip: a text that is a format's extension, in any case, is no
/// other format's.
pub proof fn an_extension_names_one_format(ext: Seq<char>, f: WorkbookFormat, g: WorkbookFormat)
    ensures
        text::same_but_for_case(f.extension(), f.extension()),
        text::same_but_for_case(ext, f.extension()) && text::same_but_for_case(ext, g.extension())
            ==> f == g,
{
    reveal_strlit("xlsx");
    reveal_strlit("xlsm");
    reveal_strlit("xlsb");
    reveal_strlit("xls");
    reveal_strlit("ods");
    if text::same_but_for_case(ext, f.extension()) && text::same_but_for_case(ext, g.extension()) {
        let a = f.extension();
        let b = g.extension();
        assert(text::lower_of(ext[0]) == text::lower_of(b[0]));
        if a.len() == 4 {
            assert(text::lower_of(ext[3]) == text::lower_of(b[3]));
        }
    }
}

/// Whether a sheet is visible in the Excel UI.
#[derive(Debug, Clone, Copy, PartialEq, Eq, Structural)]
pub enum Visibility {
    Visible,
    Hidden,
    /// Hidden and not un-hideable from the UI; usually machinery, not content.
    VeryHidden,
}

impl Default for Visibility {
    fn default() -> (r: Self)
        ensures
            r == Visibility::Visible,
    {
        Visibility::Visible
    }
}

impl Visibility {
    pub fn is_visible(&self) -> (r: bool)
        ensures
            r == (*self is Visible),
    {
        matches!(self, Visibility::Visible)
    }
}

/// A name defined at workbook or sheet scope.
#[derive(Debug, Clone, PartialEq, Eq)]
pub struct DefinedName {
    pub name: String,
    /// The raw formula text the name refers to, e.g. `Sheet1!$A$1:$B$9`.
    pub refers_to: String,
    /// `None` for workbook scope, otherwise the sheet the name is local to.
    pub scope: Option<SheetId>,
}

/// A structured Excel table (`ListObject`) declared in the workbook.
///
/// These are ground truth for region detection: where Excel says a table is, we
/// do not guess.
#[derive(Debug, Clone, PartialEq, Eq)]
pub struct ExcelTable {
    pub name: String,
    pub range: RangeRef,
    /// Column names in left-to-right order, as declared by the table.
    pub columns: Vec<String>,
    pub has_header_row: bool,
    pub has_totals_row: bool,
}

// ---------------------------------------------------------------------------
// The cells of a sheet
// ---------------------------------------------------------------------------

/// A stored cell and its place.
#[derive(Debug, PartialEq, Eq)]
pub struct Entry {
    pub row: u32,
    pub col: u16,
    pub cell: Cell,
}

impl Clone for Entry {
    fn clone(&self) -> (r: Self)
        ensures
            r == *self,
    {
        Entry { row: self.row, col: self.col, cell: self.cell.clone() }
    }
}

/// One place comes before another in row-major order.
pub open spec fn before(r1: u32, c1: u16, r2: u32, c2: u16) -> bool {
    r1 < r2 || (r1 == r2 && c1 < c2)
}

/// The entries are in row-major order and no place occurs twice.
pub open spec fn row_major(s: Seq<Entry>) -> bool {
    forall|i: int, j: int|
        #![trigger s[i], s[j]]
        0 <= i < j < s.len() ==> before(s[i].row, s[i].col, s[j].row, s[j].col)
}

/// Whether an entry stands at this place.
pub open spec fn occupied(s: Seq<Entry>, row: u32, col: u16) -> bool {
    exists|i: int| 0 <= i < s.len() && (#[trigger] s[i]).row == row && s[i].col == col
}

/// The cell at a place, where there is one.
pub open spec fn at(s: Seq<Entry>, row: u32, col: u16) -> Option<Cell> {
    if occupied(s, row, col) {
        let i = choose|i: int| 0 <= i < s.len() && (#[trigger] s[i]).row == row && s[i].col == col;
        Some(s[i].cell)
    } else {
        None
    }
}

pub proof fn lemma_at(s: Seq<Entry>, i: int)
    requires
        row_major(s),
        0 <= i < s.len(),
    ensures
        at(s, s[i].row, s[i].col) == Some(s[i].cell),
{
    let row = s[i].row;
    let col = s[i].col;
    assert(occupied(s, row, col));
    let j = choose|j: int| 0 <= j < s.len() && (#[trigger] s[j]).row == row && s[j].col == col;
    if i < j {
        assert(before(s[i].row, s[i].col, s[j].row, s[j].col));
    } else if j < i {
        assert(before(s[j].row, s[j].col, s[i].row, s[i].col));
    }
}

/// Some entry lies in this row.
pub open spec fn touches_row(s: Seq<Entry>, row: u32) -> bool {
    exists|i: int| 0 <= i < s.len() && (#[trigger] s[i]).row == row
}

/// Some entry lies in this column.
pub open spec fn touches_col(s: Seq<Entry>, col: u16) -> bool {
    exists|i: int| 0 <= i < s.len() && (#[trigger] s[i]).col == col
}

/// The rows and columns between which cells lie.
#[derive(Debug, Clone, Copy, PartialEq, Eq, Structural)]
pub struct Edges {
    pub top: u32,
    pub left: u16,
    pub bottom: u32,
    pub right: u16,
}

/// `u` is the smallest rectangle around all entries, or absent when there are
/// none.
pub open spec fn is_bounding_box(u: Option<Edges>, s: Seq<Entry>) -> bool {
    match u {
        None => s.len() == 0,
        Some(u) => {
            &&& s.len() > 0
            &&& forall|i: int|
                0 <= i < s.len() ==> u.top <= (#[trigger] s[i]).row <= u.bottom && u.left
                    <= s[i].col <= u.right
            &&& touches_row(s, u.top)
            &&& touches_row(s, u.bottom)
            &&& touches_col(s, u.left)
            &&& touches_col(s, u.right)
        },
    }
}

/// The populated cells of a sheet, with their bounding box kept at hand.
#[derive(Debug)]
pub struct Grid {
    cells: Vec<Entry>,
    edges: Option<Edges>,
}

impl Clone for Grid {
    fn clone(&self) -> (r: Self)
        ensures
            r.entries() == self.entries(),
            r.bounds() == self.bounds(),
    {
        proof {
            use_type_invariant(self);
        }
        let cells: Vec<Entry> = self.cells.clone();
        assert(cells@ =~= self.cells@);
        Grid { cells, edges: self.edges }
    }
}

impl Grid {
    /// The stored cells, in row-major order.
    pub closed spec fn entries(self) -> Seq<Entry> {
        self.cells@
    }

    /// The kept bounding box.
    pub closed spec fn bounds(self) -> Option<Edges> {
        self.edges
    }

    /// The stored cells are in order, and the kept box is theirs.
    #[verifier::type_invariant]
    closed spec fn well_formed(self) -> bool {
        row_major(self.cells@) && is_bounding_box(self.edges, self.cells@)
    }

    /// A cell that is worth storing: it holds something or is formatted.
    pub open spec fn stores(cell: Cell) -> bool {
        !cell.vacant() || cell.format != CellFormat::plain()
    }

    pub fn new() -> (r: Self)
        ensures
            r.entries().len() == 0,
    {
        Self { cells: Vec::new(), edges: None }
    }

    /// The index of the first entry at or behind a place.
    fn lower_bound(&self, row: u32, col: u16) -> (r: usize)
        ensures
            r <= self.cells@.len(),
            forall|i: int|
                0 <= i < r ==> before(
                    (#[trigger] self.cells@[i]).row,
                    self.cells@[i].col,
                    row,
                    col,
                ),
            forall|i: int|
                r <= i < self.cells@.len() ==> !before(
                    (#[trigger] self.cells@[i]).row,
                    self.cells@[i].col,
                    row,
                    col,
                ),
    {
        proof {
            use_type_invariant(self);
        }
        let mut lo: usize = 0;
        let mut hi: usize = self.cells.len();
        while lo < hi
            invariant
                lo <= hi <= self.cells@.len(),
                row_major(self.cells@),
                forall|i: int|
                    0 <= i < lo ==> before(
                        (#[trigger] self.cells@[i]).row,
                        self.cells@[i].col,
                        row,
                        col,
                    ),
                forall|i: int|
                    hi <= i < self.cells@.len() ==> !before(
                        (#[trigger] self.cells@[i]).row,
                        self.cells@[i].col,
                        row,
                        col,
                    ),
            decreases hi - lo,
        {
            let mid: usize = lo + (hi - lo) / 2;
            let e: &Entry = &self.cells[mid];
            if e.row < row || (e.row == row && e.col < col) {
                lo = mid + 1;
            } else {
                hi = mid;
            }
        }
        lo
    }

    /// The grid with one cell stored, or with a place cleared where the cell is
    /// not worth storing. The bounding box follows: storing can only grow it,
    /// and only a cell that leaves one of its edges can shrink it.
    fn with(self, row: u32, col: u16, cell: Cell) -> (r: Grid)
        ensures
            forall|i: u32, j: u16|
                #[trigger] at(r.entries(), i, j) == (if i == row && j == col {
                    if Grid::stores(cell) {
                        Some(cell)
                    } else {
                        None
                    }
                } else {
                    at(self.entries(), i, j)
                }),
    {
        let i: usize = self.lower_bound(row, col);
        proof {
            use_type_invariant(&self);
        }
        let Grid { mut cells, edges } = self;
        let there: bool = i < cells.len() && cells[i].row == row && cells[i].col == col;
        let ghost s = cells@;
        assert(there == occupied(s, row, col)) by {
            if occupied(s, row, col) {
                let j = choose|j: int|
                    0 <= j < s.len() && (#[trigger] s[j]).row == row && s[j].col == col;
                if j > i {
                    assert(before(s[i as int].row, s[i as int].col, s[j].row, s[j].col));
                }
            }
        }
        if cell.is_vacant() && cell.format == CellFormat::default() {
            if !there {
                return Grid { cells, edges };
            }
            cells.remove(i);
            proof {
                lemma_removed(s, i as int, cells@);
            }
            let on_edge: bool = match edges {
                Some(u) => row == u.top || row == u.bottom || col == u.left || col == u.right,
                None => false,
            };
            if on_edge {
                let fresh: Option<Edges> = Grid::edges_of(&cells);
                return Grid { cells, edges: fresh };
            }
            proof {
                lemma_removed_box(edges, s, i as int, cells@);
            }
            return Grid { cells, edges };
        }
        let grown: Edges = match edges {
            Some(u) => Edges {
                top: if row < u.top {
                    row
                } else {
                    u.top
                },
                left: if col < u.left {
                    col
                } else {
                    u.left
                },
                bottom: if row > u.bottom {
                    row
                } else {
                    u.bottom
                },
                right: if col > u.right {
                    col
                } else {
                    u.right
                },
            },
            None => Edges { top: row, left: col, bottom: row, right: col },
        };
        let ghost stored = cell;
        if there {
            cells.set(i, Entry { row, col, cell });
            proof {
                lemma_replaced(s, i as int, stored, cells@);
                lemma_replaced_box(edges, s, i as int, stored);
            }
        } else {
            cells.insert(i, Entry { row, col, cell });
            proof {
                let e = Entry { row, col, cell: stored };
                lemma_inserted(s, i as int, e, cells@);
                lemma_inserted_box(edges, s, i as int, e, cells@, grown);
            }
        }
        Grid { cells, edges: Some(grown) }
    }

    /// The bounding box of some cells, found by looking at all of them.
    fn edges_of(cells: &Vec<Entry>) -> (r: Option<Edges>)
        requires
            row_major(cells@),
        ensures
            is_bounding_box(r, cells@),
    {
        if cells.len() == 0 {
            return None;
        }
        let top: u32 = cells[0].row;
        let mut bottom: u32 = top;
        let mut left: u16 = cells[0].col;
        let mut right: u16 = left;
        let mut i: usize = 1;
        while i < cells.len()
            invariant
                1 <= i <= cells@.len(),
                row_major(cells@),
                top == cells@[0].row,
                bottom == cells@[i - 1].row,
                forall|j: int| 0 <= j < i ==> left <= (#[trigger] cells@[j]).col <= right,
                exists|j: int| 0 <= j < i && (#[trigger] cells@[j]).col == left,
                exists|j: int| 0 <= j < i && (#[trigger] cells@[j]).col == right,
            decreases cells@.len() - i,
        {
            let row: u32 = cells[i].row;
            let col: u16 = cells[i].col;
            bottom = row;
            if col < left {
                left = col;
            }
            if col > right {
                right = col;
            }
            i += 1;
        }
        proof {
            let s = cells@;
            let n = s.len() as int;
            assert forall|j: int| 0 <= j < n implies top <= (#[trigger] s[j]).row <= bottom by {
                if j > 0 {
                    assert(before(s[0].row, s[0].col, s[j].row, s[j].col));
                }
                if j < n - 1 {
                    assert(before(s[j].row, s[j].col, s[n - 1].row, s[n - 1].col));
                }
            }
            assert(s[0].row == top && s[n - 1].row == bottom);
        }
        Some(Edges { top, left, bottom, right })
    }

    fn get(&self, row: u32, col: u16) -> (r: Option<&Cell>)
        ensures
            match r {
                Some(c) => at(self.entries(), row, col) == Some(*c),
                None => at(self.entries(), row, col) is None,
            },
    {
        let i: usize = self.lower_bound(row, col);
        proof {
            use_type_invariant(self);
        }
        if i < self.cells.len() && self.cells[i].row == row && self.cells[i].col == col {
            proof {
                lemma_at(self.cells@, i as int);
            }
            Some(&self.cells[i].cell)
        } else {
            assert(!occupied(self.cells@, row, col)) by {
                let s = self.cells@;
                if occupied(s, row, col) {
                    let j = choose|j: int|
                        0 <= j < s.len() && (#[trigger] s[j]).row == row && s[j].col == col;
                    if j > i {
                        assert(before(s[i as int].row, s[i as int].col, s[j].row, s[j].col));
                    }
                }
            }
            None
        }
    }
}

/// One sheet's contents.
#[derive(Debug, Clone)]
pub struct Sheet {
    pub id: SheetId,
    pub name: String,
    pub visibility: Visibility,
    /// Populated cells.
    pub grid: Grid,
    pub merges: Vec<RangeRef>,
    /// Tables declared on this sheet.
    pub tables: Vec<ExcelTable>,
    /// Columns explicitly hidden in the UI.
    pub hidden_cols: Vec<u16>,
    pub hidden_rows: Vec<u32>,
}

impl Default for Sheet {
    fn default() -> (r: Self)
        ensures
            r.id == SheetId(0),
            r.name@.len() == 0,
            r.is_bare(),
    {
        proof {
            reveal_strlit("");
        }
        Sheet::new(SheetId(0), "")
    }
}

impl Sheet {
    /// The stored cells, in row-major order.
    pub open spec fn entries(self) -> Seq<Entry> {
        self.grid.entries()
    }

    /// The cell at a place, where one is stored.
    pub open spec fn cell_at(self, row: u32, col: u16) -> Option<Cell> {
        at(self.entries(), row, col)
    }

    /// A visible sheet with nothing on it.
    pub open spec fn is_bare(self) -> bool {
        &&& self.visibility == Visibility::Visible
        &&& self.entries().len() == 0
        &&& self.merges@.len() == 0
        &&& self.tables@.len() == 0
        &&& self.hidden_cols@.len() == 0
        &&& self.hidden_rows@.len() == 0
    }

    pub fn new(id: SheetId, name: &str) -> (r: Self)
        ensures
            r.id == id,
            r.name@ == name@,
            r.is_bare(),
    {
        Self {
            id,
            name: name.to_owned(),
            visibility: Visibility::Visible,
            grid: Grid::new(),
            merges: Vec::new(),
            tables: Vec::new(),
            hidden_cols: Vec::new(),
            hidden_rows: Vec::new(),
        }
    }

    /// Insert a cell, growing the cached used-range. Vacant cells are dropped.
    pub fn set(&mut self, row: u32, col: u16, cell: Cell)
        ensures
            forall|r: u32, c: u16|
                #[trigger] final(self).cell_at(r, c) == (if r == row && c == col {
                    if Grid::stores(cell) {
                        Some(cell)
                    } else {
                        None
                    }
                } else {
                    old(self).cell_at(r, c)
                }),
            final(self).id == old(self).id,
            final(self).name == old(self).name,
            final(self).visibility == old(self).visibility,
            final(self).merges == old(self).merges,
            final(self).tables == old(self).tables,
            final(self).hidden_cols == old(self).hidden_cols,
            final(self).hidden_rows == old(self).hidden_rows,
    {
        let mut grid: Grid = Grid::new();
        std::mem::swap(&mut grid, &mut self.grid);
        self.grid = grid.with(row, col, cell);
    }

    pub fn get(&self, row: u32, col: u16) -> (r: Option<&Cell>)
        ensures
            match r {
                Some(c) => self.cell_at(row, col) == Some(*c),
                None => self.cell_at(row, col) is None,
            },
    {
        self.grid.get(row, col)
    }

    pub fn get_ref(&self, cell: CellRef) -> (r: Option<&Cell>)
        ensures
            match r {
                Some(c) => cell.sheet == self.id && self.cell_at(cell.row, cell.col) == Some(*c),
                None => cell.sheet == self.id ==> self.cell_at(cell.row, cell.col) is None,
            },
    {
        if cell.sheet == self.id {
            self.get(cell.row, cell.col)
        } else {
            None
        }
    }

    /// The value that a place shows: that of its cell, or nothing.
    pub open spec fn value_at(self, row: u32, col: u16) -> CellValue {
        match self.cell_at(row, col) {
            Some(c) => c.value,
            None => CellValue::Empty,
        }
    }

    /// Something other than formatting is at this place.
    pub open spec fn populated(self, row: u32, col: u16) -> bool {
        self.cell_at(row, col) matches Some(c) && !c.vacant()
    }

    pub fn value(&self, row: u32, col: u16) -> (r: CellValue)
        ensures
            r == self.value_at(row, col),
    {
        match self.get(row, col) {
            Some(c) => c.value.clone(),
            None => CellValue::Empty,
        }
    }

    pub fn kind(&self, row: u32, col: u16) -> (r: ValueKind)
        ensures
            r == self.value_at(row, col).spec_kind(),
    {
        match self.get(row, col) {
            Some(c) => c.value.kind(),
            None => ValueKind::Empty,
        }
    }

    pub fn is_populated(&self, row: u32, col: u16) -> (r: bool)
        ensures
            r == self.populated(row, col),
    {
        match self.get(row, col) {
            Some(c) => !c.is_vacant(),
            None => false,
        }
    }

    pub fn len(&self) -> (r: usize)
        ensures
            r == self.entries().len(),
    {
        self.grid.cells.len()
    }

    pub fn is_empty(&self) -> (r: bool)
        ensures
            r == (self.entries().len() == 0),
    {
        self.grid.cells.len() == 0
    }

    /// The range of this sheet between some edges.
    pub open spec fn range_of(self, u: Option<Edges>) -> Option<RangeRef> {
        match u {
            Some(u) => Some(
                RangeRef {
                    sheet: self.id,
                    top: u.top,
                    left: u.left,
                    bottom: u.bottom,
                    right: u.right,
                },
            ),
            None => None,
        }
    }

    /// The bounding box of populated cells, or `None` for an empty sheet.
    pub fn used_range(&self) -> (r: Option<RangeRef>)
        ensures
            r == self.range_of(self.grid.bounds()),
            is_bounding_box(self.grid.bounds(), self.entries()),
            row_major(self.entries()),
    {
        proof {
            use_type_invariant(&self.grid);
        }
        match self.grid.edges {
            Some(u) => Some(RangeRef::new(self.id, u.top, u.left, u.bottom, u.right)),
            None => None,
        }
    }

    /// Every populated cell in row-major order.
    pub fn iter(&self) -> (r: Vec<(CellRef, &Cell)>)
        ensures
            listed(r@, self.entries(), self.id),
            row_major(self.entries()),
    {
        proof {
            use_type_invariant(&self.grid);
        }
        let cells: &Vec<Entry> = &self.grid.cells;
        let mut out: Vec<(CellRef, &Cell)> = Vec::new();
        let mut i: usize = 0;
        while i < cells.len()
            invariant
                i <= cells@.len(),
                listed(out@, cells@.take(i as int), self.id),
            decreases cells@.len() - i,
        {
            let e: &Entry = &cells[i];
            out.push((CellRef::new(self.id, e.row, e.col), &e.cell));
            i += 1;
        }
        assert(cells@.take(i as int) =~= cells@);
        out
    }

    /// The populated cells of one row, left to right.
    pub fn iter_row(&self, row: u32) -> (r: Vec<(u16, &Cell)>)
        ensures
            ({
                let kept = self.entries().filter(|e: Entry| e.row == row);
                &&& r@.len() == kept.len()
                &&& forall|k: int|
                    0 <= k < r@.len() ==> (#[trigger] r@[k]).0 == kept[k].col && *r@[k].1
                        == kept[k].cell
            }),
    {
        proof {
            use_type_invariant(&self.grid);
        }
        let cells: &Vec<Entry> = &self.grid.cells;
        let mut out: Vec<(u16, &Cell)> = Vec::new();
        let ghost s = cells@;
        let ghost keep = |e: Entry| e.row == row;
        let start: usize = self.grid.lower_bound(row, 0);
        let mut i: usize = start;
        proof {
            lemma_filter_none(s.take(i as int), keep);
        }
        while i < cells.len() && cells[i].row == row
            invariant
                start <= i <= cells@.len(),
                s == cells@,
                keep == (|e: Entry| e.row == row),
                out@.len() == s.take(i as int).filter(keep).len(),
                forall|k: int|
                    0 <= k < out@.len() ==> (#[trigger] out@[k]).0 == s.take(i as int).filter(
                        keep,
                    )[k].col && *out@[k].1 == s.take(i as int).filter(keep)[k].cell,
            decreases cells@.len() - i,
        {
            let e: &Entry = &cells[i];
            out.push((e.col, &e.cell));
            proof {
                assert(s.take(i + 1) =~= s.take(i as int).push(s[i as int]));
                s.take(i as int).lemma_filter_push(s[i as int], keep);
            }
            i += 1;
        }
        proof {
            let rest = s.skip(i as int);
            assert forall|j: int| 0 <= j < rest.len() implies !keep(#[trigger] rest[j]) by {
                assert(rest[j] == s[i + j]);
                if j > 0 {
                    assert(before(s[i as int].row, s[i as int].col, s[i + j].row, s[i + j].col));
                }
            }
            lemma_filter_none(rest, keep);
            assert(s =~= s.take(i as int) + rest);
            Seq::filter_distributes_over_add(s.take(i as int), rest, keep);
            assert(s.filter(keep) =~= s.take(i as int).filter(keep));
        }
        out
    }

    /// The entries of this sheet that lie in a range.
    pub open spec fn entries_in(self, range: RangeRef) -> Seq<Entry> {
        self.entries().filter(
            |e: Entry| range.holds(CellRef { sheet: self.id, row: e.row, col: e.col }),
        )
    }

    /// The populated cells within a range, row-major. A range of another sheet
    /// holds none of them.
    pub fn iter_range(&self, range: RangeRef) -> (r: Vec<(CellRef, &Cell)>)
        requires
            range.sheet == self.id && range.top <= range.bottom ==> range.left <= range.right,
        ensures
            listed(r@, self.entries_in(range), self.id),
            row_major(self.entries()),
    {
        proof {
            use_type_invariant(&self.grid);
        }
        let cells: &Vec<Entry> = &self.grid.cells;
        let mut out: Vec<(CellRef, &Cell)> = Vec::new();
        let ghost s = cells@;
        let ghost keep = |e: Entry|
            range.holds(CellRef { sheet: self.id, row: e.row, col: e.col });
        if range.sheet != self.id {
            proof {
                lemma_filter_none(s, keep);
            }
            return out;
        }
        let start: usize = self.grid.lower_bound(range.top, 0);
        let mut i: usize = start;
        proof {
            lemma_filter_none(s.take(i as int), keep);
        }
        while i < cells.len() && cells[i].row <= range.bottom
            invariant
                start <= i <= cells@.len(),
                s == cells@,
                range.sheet == self.id,
                keep == (|e: Entry|
                    range.holds(CellRef { sheet: self.id, row: e.row, col: e.col })),
                forall|j: int| start <= j < s.len() ==> (#[trigger] s[j]).row >= range.top,
                listed(out@, s.take(i as int).filter(keep), self.id),
            decreases cells@.len() - i,
        {
            let e: &Entry = &cells[i];
            proof {
                assert(s.take(i + 1) =~= s.take(i as int).push(s[i as int]));
                s.take(i as int).lemma_filter_push(s[i as int], keep);
            }
            if range.left <= e.col && e.col <= range.right {
                assert(keep(s[i as int]));
                out.push((CellRef::new(self.id, e.row, e.col), &e.cell));
            }
            i += 1;
        }
        proof {
            let rest = s.skip(i as int);
            assert forall|j: int| 0 <= j < rest.len() implies !keep(#[trigger] rest[j]) by {
                assert(rest[j] == s[i + j]);
                if j > 0 {
                    assert(before(s[i as int].row, s[i as int].col, s[i + j].row, s[i + j].col));
                }
            }
            lemma_filter_none(rest, keep);
            assert(s =~= s.take(i as int) + rest);
            Seq::filter_distributes_over_add(s.take(i as int), rest, keep);
            assert(s.filter(keep) =~= s.take(i as int).filter(keep));
        }
        out
    }

    /// The merged range covering this cell, if any: the first that does.
    pub fn merge_at(&self, row: u32, col: u16) -> (r: Option<RangeRef>)
        ensures
            ({
                let cell = CellRef { sheet: self.id, row, col };
                match r {
                    Some(m) => exists|i: int|
                        0 <= i < self.merges@.len() && m == #[trigger] self.merges@[i] && m.holds(
                            cell,
                        ) && forall|j: int| 0 <= j < i ==> !(#[trigger] self.merges@[j]).holds(
                            cell,
                        ),
                    None => forall|j: int|
                        0 <= j < self.merges@.len() ==> !(#[trigger] self.merges@[j]).holds(cell),
                }
            }),
    {
        let cell: CellRef = CellRef::new(self.id, row, col);
        let mut i: usize = 0;
        while i < self.merges.len()
            invariant
                i <= self.merges@.len(),
                cell == (CellRef { sheet: self.id, row, col }),
                forall|j: int| 0 <= j < i ==> !(#[trigger] self.merges@[j]).holds(cell),
            decreases self.merges@.len() - i,
        {
            if self.merges[i].contains(cell) {
                let found: RangeRef = self.merges[i];
                assert(found == self.merges@[i as int]);
                return Some(found);
            }
            i += 1;
        }
        None
    }
}

/// A listing of these entries, each with its address on the sheet.
pub open spec fn listed(out: Seq<(CellRef, &Cell)>, s: Seq<Entry>, id: SheetId) -> bool {
    out.len() == s.len() && forall|k: int|
        0 <= k < out.len() ==> (#[trigger] out[k]).0 == (CellRef {
            sheet: id,
            row: s[k].row,
            col: s[k].col,
        }) && *out[k].1 == s[k].cell
}

proof fn lemma_filter_none(s: Seq<Entry>, keep: spec_fn(Entry) -> bool)
    requires
        forall|i: int| 0 <= i < s.len() ==> !keep(#[trigger] s[i]),
    ensures
        s.filter(keep).len() == 0,
    decreases s.len(),
{
    reveal(Seq::filter);
    if s.len() > 0 {
        lemma_filter_none(s.drop_last(), keep);
    }
}

proof fn lemma_removed(s: Seq<Entry>, i: int, t: Seq<Entry>)
    requires
        row_major(s),
        0 <= i < s.len(),
        t == s.remove(i),
    ensures
        row_major(t),
        forall|r: u32, c: u16|
            #[trigger] at(t, r, c) == (if r == s[i].row && c == s[i].col {
                None
            } else {
                at(s, r, c)
            }),
{
    assert forall|r: u32, c: u16| #[trigger]
        at(t, r, c) == (if r == s[i].row && c == s[i].col {
            None
        } else {
            at(s, r, c)
        }) by {
        if occupied(t, r, c) {
            let k = choose|k: int| 0 <= k < t.len() && (#[trigger] t[k]).row == r && t[k].col == c;
            let j = if k < i {
                k
            } else {
                k + 1
            };
            assert(t[k] == s[j]);
            lemma_at(s, j);
            lemma_at(t, k);
            if j < i {
                assert(before(s[j].row, s[j].col, s[i].row, s[i].col));
            } else {
                assert(before(s[i].row, s[i].col, s[j].row, s[j].col));
            }
        } else if occupied(s, r, c) {
            let j = choose|j: int| 0 <= j < s.len() && (#[trigger] s[j]).row == r && s[j].col == c;
            if j < i {
                assert(t[j] == s[j]);
            } else if j > i {
                assert(t[j - 1] == s[j]);
            }
        }
    }
}

proof fn lemma_removed_box(u: Option<Edges>, s: Seq<Entry>, i: int, t: Seq<Entry>)
    requires
        is_bounding_box(u, s),
        0 <= i < s.len(),
        t == s.remove(i),
        u matches Some(b) ==> s[i].row != b.top && s[i].row != b.bottom && s[i].col != b.left
            && s[i].col != b.right,
    ensures
        is_bounding_box(u, t),
{
    let b = u->0;
    let kept = |j: int|
        if j < i {
            j
        } else {
            j - 1
        };
    let a1 = choose|j: int| 0 <= j < s.len() && (#[trigger] s[j]).row == b.top;
    assert(t[kept(a1)] == s[a1]);
    let a2 = choose|j: int| 0 <= j < s.len() && (#[trigger] s[j]).row == b.bottom;
    assert(t[kept(a2)] == s[a2]);
    let a3 = choose|j: int| 0 <= j < s.len() && (#[trigger] s[j]).col == b.left;
    assert(t[kept(a3)] == s[a3]);
    let a4 = choose|j: int| 0 <= j < s.len() && (#[trigger] s[j]).col == b.right;
    assert(t[kept(a4)] == s[a4]);
}

proof fn lemma_replaced(s: Seq<Entry>, i: int, cell: Cell, t: Seq<Entry>)
    requires
        row_major(s),
        0 <= i < s.len(),
        t == s.update(i, Entry { row: s[i].row, col: s[i].col, cell }),
    ensures
        row_major(t),
        forall|r: u32, c: u16|
            #[trigger] at(t, r, c) == (if r == s[i].row && c == s[i].col {
                Some(cell)
            } else {
                at(s, r, c)
            }),
{
    assert forall|r: u32, c: u16| #[trigger]
        at(t, r, c) == (if r == s[i].row && c == s[i].col {
            Some(cell)
        } else {
            at(s, r, c)
        }) by {
        if occupied(t, r, c) {
            let k = choose|k: int| 0 <= k < t.len() && (#[trigger] t[k]).row == r && t[k].col == c;
            lemma_at(t, k);
            lemma_at(s, k);
            if k < i {
                assert(before(s[k].row, s[k].col, s[i].row, s[i].col));
            } else if i < k {
                assert(before(s[i].row, s[i].col, s[k].row, s[k].col));
            }
        } else if occupied(s, r, c) {
            let j = choose|j: int| 0 <= j < s.len() && (#[trigger] s[j]).row == r && s[j].col == c;
            assert(t[j].row == r && t[j].col == c);
        } else if r == s[i].row && c == s[i].col {
            assert(t[i].row == r);
        }
    }
}

proof fn lemma_replaced_box(u: Option<Edges>, s: Seq<Entry>, i: int, cell: Cell)
    requires
        is_bounding_box(u, s),
        0 <= i < s.len(),
    ensures
        is_bounding_box(u, s.update(i, Entry { row: s[i].row, col: s[i].col, cell })),
{
    let t = s.update(i, Entry { row: s[i].row, col: s[i].col, cell });
    let b = u->0;
    let a1 = choose|j: int| 0 <= j < s.len() && (#[trigger] s[j]).row == b.top;
    assert(t[a1].row == b.top);
    let a2 = choose|j: int| 0 <= j < s.len() && (#[trigger] s[j]).row == b.bottom;
    assert(t[a2].row == b.bottom);
    let a3 = choose|j: int| 0 <= j < s.len() && (#[trigger] s[j]).col == b.left;
    assert(t[a3].col == b.left);
    let a4 = choose|j: int| 0 <= j < s.len() && (#[trigger] s[j]).col == b.right;
    assert(t[a4].col == b.right);
}

proof fn lemma_inserted(s: Seq<Entry>, i: int, e: Entry, t: Seq<Entry>)
    requires
        row_major(s),
        0 <= i <= s.len(),
        !occupied(s, e.row, e.col),
        forall|j: int| 0 <= j < i ==> before((#[trigger] s[j]).row, s[j].col, e.row, e.col),
        forall|j: int| i <= j < s.len() ==> !before((#[trigger] s[j]).row, s[j].col, e.row, e.col),
        t == s.insert(i, e),
    ensures
        row_major(t),
        forall|r: u32, c: u16|
            #[trigger] at(t, r, c) == (if r == e.row && c == e.col {
                Some(e.cell)
            } else {
                at(s, r, c)
            }),
{
    assert forall|j: int, k: int|
        #![trigger t[j], t[k]]
        0 <= j < k < t.len() implies before(t[j].row, t[j].col, t[k].row, t[k].col) by {
        let x = if j < i {
            j
        } else {
            j - 1
        };
        let y = if k < i {
            k
        } else {
            k - 1
        };
        if j == i {
            assert(t[k] == s[y]);
            assert(!(s[y].row == e.row && s[y].col == e.col));
        } else if k == i {
            assert(t[j] == s[x]);
        } else {
            assert(t[j] == s[x] && t[k] == s[y]);
        }
    }
    assert(t[i] == e);
    lemma_at(t, i);
    assert forall|r: u32, c: u16| #[trigger]
        at(t, r, c) == (if r == e.row && c == e.col {
            Some(e.cell)
        } else {
            at(s, r, c)
        }) by {
        if !(r == e.row && c == e.col) {
            if occupied(t, r, c) {
                let k = choose|k: int|
                    0 <= k < t.len() && (#[trigger] t[k]).row == r && t[k].col == c;
                let j = if k < i {
                    k
                } else {
                    k - 1
                };
                assert(k != i);
                assert(t[k] == s[j]);
                lemma_at(s, j);
                lemma_at(t, k);
            } else if occupied(s, r, c) {
                let j = choose|j: int|
                    0 <= j < s.len() && (#[trigger] s[j]).row == r && s[j].col == c;
                let k = if j < i {
                    j
                } else {
                    j + 1
                };
                assert(t[k] == s[j]);
            }
        }
    }
}

proof fn lemma_inserted_box(
    u: Option<Edges>,
    s: Seq<Entry>,
    i: int,
    e: Entry,
    t: Seq<Entry>,
    v: Edges,
)
    requires
        is_bounding_box(u, s),
        0 <= i <= s.len(),
        t == s.insert(i, e),
        match u {
            Some(b) => {
                &&& v.top == vstd::math::min(b.top as int, e.row as int)
                &&& v.left == vstd::math::min(b.left as int, e.col as int)
                &&& v.bottom == vstd::math::max(b.bottom as int, e.row as int)
                &&& v.right == vstd::math::max(b.right as int, e.col as int)
            },
            None => v == (Edges { top: e.row, left: e.col, bottom: e.row, right: e.col }),
        },
    ensures
        is_bounding_box(Some(v), t),
{
    assert(t[i] == e);
    let place = |j: int|
        if j < i {
            j
        } else {
            j + 1
        };
    assert forall|k: int| 0 <= k < t.len() implies v.top <= (#[trigger] t[k]).row <= v.bottom
        && v.left <= t[k].col <= v.right by {
        if k < i {
            assert(t[k] == s[k]);
        } else if k > i {
            assert(t[k] == s[k - 1]);
        }
    }
    if u is Some {
        let b = u->0;
        let a1 = choose|j: int| 0 <= j < s.len() && (#[trigger] s[j]).row == b.top;
        assert(t[place(a1)] == s[a1]);
        let a2 = choose|j: int| 0 <= j < s.len() && (#[trigger] s[j]).row == b.bottom;
        assert(t[place(a2)] == s[a2]);
        let a3 = choose|j: int| 0 <= j < s.len() && (#[trigger] s[j]).col == b.left;
        assert(t[place(a3)] == s[a3]);
        let a4 = choose|j: int| 0 <= j < s.len() && (#[trigger] s[j]).col == b.right;
        assert(t[place(a4)] == s[a4]);
    }
}


// ---------------------------------------------------------------------------
// Workbooks
// ---------------------------------------------------------------------------

/// A whole workbook as loaded from disk.
#[derive(Debug, Clone)]
pub struct Workbook {
    /// Path the workbook was loaded from, for citations and re-ingest.
    pub path: String,
    pub format: Option<WorkbookFormat>,
    /// Content hash of the source file, used to skip unchanged re-ingests.
    pub content_hash: String,
    pub sheets: Vec<Sheet>,
    pub defined_names: Vec<DefinedName>,
    /// Paths of workbooks referenced by external links, in link-index order.
    pub external_links: Vec<String>,
}

impl Default for Workbook {
    fn default() -> (r: Self)
        ensures
            r.path@ == Seq::<char>::empty(),
            r.format is None,
            r.content_hash@ == Seq::<char>::empty(),
            r.sheets@.len() == 0,
            r.defined_names@.len() == 0,
            r.external_links@.len() == 0,
    {
        Workbook {
            path: String::new(),
            format: None,
            content_hash: String::new(),
            sheets: Vec::new(),
            defined_names: Vec::new(),
            external_links: Vec::new(),
        }
    }
}

/// The number of cells stored on some sheets.
pub open spec fn cell_total(sheets: Seq<Sheet>) -> nat
    decreases sheets.len(),
{
    if sheets.len() == 0 {
        0
    } else {
        cell_total(sheets.drop_last()) + sheets.last().entries().len()
    }
}

proof fn lemma_cell_total_grows(sheets: Seq<Sheet>, n: int)
    requires
        0 <= n <= sheets.len(),
    ensures
        cell_total(sheets.take(n)) <= cell_total(sheets),
    decreases sheets.len() - n,
{
    if n < sheets.len() {
        lemma_cell_total_grows(sheets, n + 1);
        assert(sheets.take(n + 1).drop_last() =~= sheets.take(n));
    } else {
        assert(sheets.take(n) =~= sheets);
    }
}

impl Workbook {
    /// The name of a sheet, where the workbook has that sheet.
    pub open spec fn name_of(self, id: SheetId) -> Option<Seq<char>> {
        if id.0 < self.sheets@.len() {
            Some(self.sheets@[id.0 as int].name@)
        } else {
            None
        }
    }

    /// A local address with its sheet in front: the sheet's name where the
    /// workbook knows it, its number otherwise.
    pub open spec fn citation(self, sheet: SheetId, local: Seq<char>) -> Seq<char> {
        match self.name_of(sheet) {
            Some(name) => address::cited(name, local),
            None => sheet.shown().push('!') + local,
        }
    }

    pub fn sheet(&self, id: SheetId) -> (r: Option<&Sheet>)
        ensures
            match r {
                Some(s) => id.0 < self.sheets@.len() && *s == self.sheets@[id.0 as int],
                None => id.0 >= self.sheets@.len(),
            },
    {
        let i: usize = id.0 as usize;
        if i < self.sheets.len() {
            Some(&self.sheets[i])
        } else {
            None
        }
    }

    pub fn sheet_mut(&mut self, id: SheetId) -> (r: Option<&mut Sheet>)
        ensures
            match r {
                Some(s) => {
                    &&& id.0 < old(self).sheets@.len()
                    &&& *s == old(self).sheets@[id.0 as int]
                    &&& final(self).sheets@ == old(self).sheets@.update(id.0 as int, *final(s))
                },
                None => id.0 >= old(self).sheets@.len() && final(self).sheets == old(self).sheets,
            },
            final(self).path == old(self).path,
            final(self).format == old(self).format,
            final(self).content_hash == old(self).content_hash,
            final(self).defined_names == old(self).defined_names,
            final(self).external_links == old(self).external_links,
    {
        let i: usize = id.0 as usize;
        if i < self.sheets.len() {
            Some(&mut self.sheets[i])
        } else {
            None
        }
    }

    /// Look up a sheet by name, case-insensitively as Excel does: the first one
    /// that matches.
    pub fn sheet_by_name(&self, name: &str) -> (r: Option<&Sheet>)
        ensures
            match r {
                Some(s) => exists|i: int|
                    0 <= i < self.sheets@.len() && *s == #[trigger] self.sheets@[i]
                        && text::same_but_for_case(s.name@, name@) && forall|j: int|
                        0 <= j < i ==> !text::same_but_for_case(
                            (#[trigger] self.sheets@[j]).name@,
                            name@,
                        ),
                None => forall|j: int|
                    0 <= j < self.sheets@.len() ==> !text::same_but_for_case(
                        (#[trigger] self.sheets@[j]).name@,
                        name@,
                    ),
            },
    {
        let mut i: usize = 0;
        while i < self.sheets.len()
            invariant
                i <= self.sheets@.len(),
                forall|j: int|
                    0 <= j < i ==> !text::same_but_for_case(
                        (#[trigger] self.sheets@[j]).name@,
                        name@,
                    ),
            decreases self.sheets@.len() - i,
        {
            if same_text_but_for_case(self.sheets[i].name.as_str(), name) {
                let found: &Sheet = &self.sheets[i];
                assert(*found == self.sheets@[i as int]);
                return Some(found);
            }
            i += 1;
        }
        None
    }

    pub fn sheet_id_by_name(&self, name: &str) -> (r: Option<SheetId>)
        ensures
            match r {
                Some(id) => exists|i: int|
                    0 <= i < self.sheets@.len() && id == (#[trigger] self.sheets@[i]).id
                        && text::same_but_for_case(self.sheets@[i].name@, name@) && forall|j: int|
                        0 <= j < i ==> !text::same_but_for_case(
                            (#[trigger] self.sheets@[j]).name@,
                            name@,
                        ),
                None => forall|j: int|
                    0 <= j < self.sheets@.len() ==> !text::same_but_for_case(
                        (#[trigger] self.sheets@[j]).name@,
                        name@,
                    ),
            },
    {
        match self.sheet_by_name(name) {
            Some(s) => Some(s.id),
            None => None,
        }
    }

    pub fn sheet_name(&self, id: SheetId) -> (r: Option<&str>)
        ensures
            match r {
                Some(s) => self.name_of(id) == Some(s@),
                None => self.name_of(id) is None,
            },
    {
        match self.sheet(id) {
            Some(s) => Some(s.name.as_str()),
            None => None,
        }
    }

    /// Render a fully-qualified citation for a cell, falling back to the sheet
    /// index when the name is unknown so a citation is never silently dropped.
    pub fn cite(&self, cell: CellRef) -> (r: String)
        ensures
            r@ == self.citation(cell.sheet, address::cell_a1(cell.row, cell.col)),
    {
        match self.sheet_name(cell.sheet) {
            Some(name) => cell.to_a1_with_sheet(name),
            None => {
                let mut out: String = cell.sheet.to_text();
                out.push('!');
                out.push_str(cell.to_a1().as_str());
                out
            },
        }
    }

    pub fn cite_range(&self, range: RangeRef) -> (r: String)
        ensures
            r@ == self.citation(range.sheet, range.local_a1()),
    {
        match self.sheet_name(range.sheet) {
            Some(name) => range.to_a1_with_sheet(name),
            None => {
                let mut out: String = range.sheet.to_text();
                out.push('!');
                out.push_str(range.to_a1().as_str());
                out
            },
        }
    }

    pub fn total_cells(&self) -> (r: usize)
        requires
            cell_total(self.sheets@) <= usize::MAX,
        ensures
            r == cell_total(self.sheets@),
    {
        let mut total: usize = 0;
        let mut i: usize = 0;
        while i < self.sheets.len()
            invariant
                i <= self.sheets@.len(),
                total == cell_total(self.sheets@.take(i as int)),
                cell_total(self.sheets@) <= usize::MAX,
            decreases self.sheets@.len() - i,
        {
            proof {
                lemma_cell_total_grows(self.sheets@, i + 1);
                assert(self.sheets@.take(i + 1).drop_last() =~= self.sheets@.take(i as int));
            }
            total += self.sheets[i].len();
            i += 1;
        }
        assert(self.sheets@.take(i as int) =~= self.sheets@);
        total
    }

    /// Whether edits to this workbook could be written back to its own format.
    pub fn is_writable(&self) -> (r: bool)
        ensures
            r == (self.format == Some(WorkbookFormat::Xlsx)),
    {
        match self.format {
            Some(f) => f.is_writable(),
            None => false,
        }
    }
}

} // verus!
