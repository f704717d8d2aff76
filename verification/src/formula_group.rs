//! Collapsing repeated formulas into groups.
//!
//! A filled-down column is one idea written ten thousand times. Represented
//! cell-by-cell it would dominate the graph and bury a reader in near-identical
//! text. Represented as a group it is a single node saying "column D, rows 2 to
//! 10001, each row is `RC[-1]*RC[-2]`".
//!
//! Two formulas belong to the same group when they share an R1C1 *shape*: they
//! do the same thing to correspondingly-placed cells. A group is made of
//! vertical runs of one shape, one per column, side by side and over the same
//! rows. Shapes are compared one pair at a time, so memory stays flat.

use crate::address;
use crate::address::{CellRef, RangeRef};
use crate::cell::Cell;
use crate::formula;
use crate::formula::to_r1c1_shape;
use crate::region;
use crate::region::Fraction;
use crate::text::same_text;
use crate::workbook;
use crate::workbook::{Entry, Sheet};
use vstd::prelude::*;

verus! {

/// The formula at a place, where there is one.
pub open spec fn formula_at(sheet: Sheet, row: u32, col: u16) -> Option<Seq<char>> {
    match sheet.cell_at(row, col) {
        Some(c) => address::opt_view(c.formula),
        None => None,
    }
}

/// The shape of the formula at a place, where there is one.
pub open spec fn shape_at(sheet: Sheet, row: u32, col: u16) -> Option<Seq<char>> {
    match formula_at(sheet, row, col) {
        Some(f) => Some(formula::shape(f, row, col)),
        None => None,
    }
}

fn read_shape(sheet: &Sheet, row: u32, col: u16) -> (r: Option<String>)
    ensures
        address::opt_view(r) == shape_at(*sheet, row, col),
{
    match sheet.get(row, col) {
        Some(cell) => match &cell.formula {
            Some(f) => Some(to_r1c1_shape(f.as_str(), CellRef::new(sheet.id, row, col))),
            None => None,
        },
        None => None,
    }
}

/// Whether the formula at a place has this shape.
fn has_shape(sheet: &Sheet, row: u32, col: u16, shape: &str) -> (r: bool)
    ensures
        r == (shape_at(*sheet, row, col) == Some(shape@)),
{
    match read_shape(sheet, row, col) {
        Some(s) => same_text(s.as_str(), shape),
        None => false,
    }
}

/// A vertical run of one shape starts here: there is a formula, and the one
/// directly above, if any, has another shape.
pub open spec fn is_run_top(sheet: Sheet, row: u32, col: u16) -> bool {
    shape_at(sheet, row, col) is Some && !(row > 0 && shape_at(sheet, (row - 1) as u32, col)
        == shape_at(sheet, row, col))
}

/// The last row of the run of one shape that goes down from here.
pub open spec fn run_bottom(sheet: Sheet, row: u32, col: u16) -> u32
    decreases u32::MAX - row,
{
    if row < u32::MAX && shape_at(sheet, (row + 1) as u32, col) == shape_at(sheet, row, col) {
        run_bottom(sheet, (row + 1) as u32, col)
    } else {
        row
    }
}

/// Two runs that start on one row have the same shape and the same height.
pub open spec fn alike(sheet: Sheet, row: u32, a: u16, b: u16) -> bool {
    &&& is_run_top(sheet, row, a)
    &&& is_run_top(sheet, row, b)
    &&& shape_at(sheet, row, a) == shape_at(sheet, row, b)
    &&& run_bottom(sheet, row, a) == run_bottom(sheet, row, b)
}

/// A group starts here: a run does, and the column to the left has no run like
/// it.
pub open spec fn is_group_start(sheet: Sheet, row: u32, col: u16) -> bool {
    is_run_top(sheet, row, col) && !(col > 0 && alike(sheet, row, (col - 1) as u16, col))
}

/// The last column of the runs like this one that stand side by side from here.
pub open spec fn group_right(sheet: Sheet, row: u32, col: u16) -> u16
    decreases u16::MAX - col,
{
    if col < u16::MAX && alike(sheet, row, col, (col + 1) as u16) {
        group_right(sheet, row, (col + 1) as u16)
    } else {
        col
    }
}

/// A rectangle of cells that all share one formula shape.
#[derive(Debug, Clone, PartialEq, Eq)]
pub struct FormulaGroup {
    /// The rectangle the group covers.
    pub range: RangeRef,
    /// The shared shape, in R1C1.
    pub shape: String,
    /// The formula as written at the group's top-left cell, in A1. Kept so the
    /// group can be shown to a reader the way the workbook shows it.
    pub representative: String,
    /// Cells in the rectangle that carry the shape, which is all of them.
    pub cell_count: u64,
}

/// The rectangle of the group that starts at a place.
pub open spec fn group_range(sheet: Sheet, row: u32, col: u16) -> RangeRef {
    RangeRef {
        sheet: sheet.id,
        top: row,
        left: col,
        bottom: run_bottom(sheet, row, col),
        right: group_right(sheet, row, col),
    }
}

impl FormulaGroup {
    /// The group is the one that starts at a place.
    pub open spec fn is_at(self, sheet: Sheet, row: u32, col: u16) -> bool {
        &&& self.range == group_range(sheet, row, col)
        &&& Some(self.shape@) == shape_at(sheet, row, col)
        &&& Some(self.representative@) == formula_at(sheet, row, col)
        &&& self.cell_count == self.range.height() * self.range.width()
    }

    /// The cell whose formula `representative` was taken from.
    pub fn anchor(&self) -> (r: CellRef)
        ensures
            r == (CellRef {
                sheet: self.range.sheet,
                row: self.range.top,
                col: self.range.left,
            }),
    {
        self.range.top_left()
    }

    /// Whether the group is a single cell, i.e. a one-off formula.
    pub fn is_singleton(&self) -> (r: bool)
        ensures
            r == (self.cell_count == 1),
    {
        self.cell_count == 1
    }
}

/// What grouping achieved, for reporting and for tuning.
#[derive(Debug, Clone, Copy, PartialEq, Eq, Structural)]
pub struct GroupingStats {
    pub formula_cells: u64,
    pub groups: u64,
    /// Groups covering exactly one cell, genuinely one-off formulas.
    pub singletons: u64,
    /// Cells in the largest group.
    pub largest_group: u64,
}

impl Default for GroupingStats {
    fn default() -> (r: Self)
        ensures
            r == (GroupingStats { formula_cells: 0, groups: 0, singletons: 0, largest_group: 0 }),
    {
        GroupingStats { formula_cells: 0, groups: 0, singletons: 0, largest_group: 0 }
    }
}

impl GroupingStats {
    /// Formula cells per group, as a fraction; nothing where there are no
    /// groups. The whole point of grouping is for this to be large.
    pub fn compression(&self) -> (r: Option<Fraction>)
        ensures
            r == (if self.groups == 0 {
                None::<Fraction>
            } else {
                Some(Fraction { part: self.formula_cells, whole: self.groups })
            }),
    {
        if self.groups == 0 {
            None
        } else {
            Some(Fraction { part: self.formula_cells, whole: self.groups })
        }
    }
}

fn check_run_top(sheet: &Sheet, row: u32, col: u16, shape: &str) -> (r: bool)
    requires
        shape_at(*sheet, row, col) == Some(shape@),
    ensures
        r == is_run_top(*sheet, row, col),
{
    !(row > 0 && has_shape(sheet, row - 1, col, shape))
}

fn find_run_bottom(sheet: &Sheet, row: u32, col: u16, shape: &str) -> (r: u32)
    requires
        shape_at(*sheet, row, col) == Some(shape@),
    ensures
        r == run_bottom(*sheet, row, col),
        r >= row,
{
    let mut at: u32 = row;
    while at < u32::MAX && has_shape(sheet, at + 1, col, shape)
        invariant
            row <= at,
            shape_at(*sheet, at, col) == Some(shape@),
            run_bottom(*sheet, row, col) == run_bottom(*sheet, at, col),
        decreases u32::MAX - at,
    {
        at += 1;
    }
    at
}

/// Whether a run like the given one starts on its row in another column.
fn has_like(sheet: &Sheet, row: u32, col: u16, other: u16, shape: &str, bottom: u32) -> (r: bool)
    requires
        is_run_top(*sheet, row, col),
        shape_at(*sheet, row, col) == Some(shape@),
        bottom == run_bottom(*sheet, row, col),
    ensures
        r == alike(*sheet, row, col, other),
        r == alike(*sheet, row, other, col),
{
    if !has_shape(sheet, row, other, shape) {
        return false;
    }
    check_run_top(sheet, row, other, shape) && find_run_bottom(sheet, row, other, shape) == bottom
}

fn find_group_right(sheet: &Sheet, row: u32, col: u16, shape: &str, bottom: u32) -> (r: u16)
    requires
        is_run_top(*sheet, row, col),
        shape_at(*sheet, row, col) == Some(shape@),
        bottom == run_bottom(*sheet, row, col),
    ensures
        r == group_right(*sheet, row, col),
        r >= col,
{
    let mut at: u16 = col;
    while at < u16::MAX && has_like(sheet, row, at, at + 1, shape, bottom)
        invariant
            col <= at,
            is_run_top(*sheet, row, at),
            shape_at(*sheet, row, at) == Some(shape@),
            bottom == run_bottom(*sheet, row, at),
            group_right(*sheet, row, col) == group_right(*sheet, row, at),
        decreases u16::MAX - at,
    {
        at += 1;
    }
    at
}

/// The entries at which groups start, in row-major order.
pub open spec fn group_starts(sheet: Sheet) -> Seq<Entry> {
    sheet.entries().filter(|e: Entry| is_group_start(sheet, e.row, e.col))
}

/// The entries that hold a formula.
pub open spec fn formula_entries(sheet: Sheet) -> Seq<Entry> {
    sheet.entries().filter(|e: Entry| e.cell.formula is Some)
}

/// The groups of a sheet, by their top left cells in row-major order.
pub open spec fn groups_are(groups: Seq<FormulaGroup>, sheet: Sheet) -> bool {
    let starts = group_starts(sheet);
    groups.len() == starts.len() && forall|k: int|
        0 <= k < groups.len() ==> (#[trigger] groups[k]).is_at(
            sheet,
            starts[k].row,
            starts[k].col,
        )
}

/// How many groups are a single cell.
pub open spec fn singletons(groups: Seq<FormulaGroup>) -> nat
    decreases groups.len(),
{
    if groups.len() == 0 {
        0
    } else {
        singletons(groups.drop_last()) + (if groups.last().cell_count == 1 {
            1nat
        } else {
            0nat
        })
    }
}

/// The most cells that a group has.
pub open spec fn largest(groups: Seq<FormulaGroup>) -> u64
    decreases groups.len(),
{
    if groups.len() == 0 {
        0
    } else {
        let rest = largest(groups.drop_last());
        if groups.last().cell_count > rest {
            groups.last().cell_count
        } else {
            rest
        }
    }
}

/// Group every formula on a sheet by shape.
///
/// Groups are returned in row-major order of their top-left cell.
pub fn group_formulas(sheet: &Sheet) -> (r: (Vec<FormulaGroup>, GroupingStats))
    ensures
        groups_are(r.0@, *sheet),
        r.1.formula_cells == formula_entries(*sheet).len(),
        r.1.groups == r.0@.len(),
        r.1.singletons == singletons(r.0@),
        r.1.largest_group == largest(r.0@),
{
    let cells: Vec<(CellRef, &Cell)> = sheet.iter();
    let total: usize = cells.len();
    let ghost s = sheet.entries();
    let ghost starts = |e: Entry| is_group_start(*sheet, e.row, e.col);
    let ghost holds = |e: Entry| e.cell.formula is Some;
    let mut groups: Vec<FormulaGroup> = Vec::new();
    let mut formulas: usize = 0;
    let mut single: usize = 0;
    let mut most: u64 = 0;
    let mut i: usize = 0;
    assert(s.take(0).filter(starts).len() == 0 && s.take(0).filter(holds).len() == 0) by {
        reveal(Seq::filter);
    }
    while i < total
        invariant
            total == cells@.len(),
            workbook::listed(cells@, s, sheet.id),
            s == sheet.entries(),
            workbook::row_major(s),
            starts == (|e: Entry| is_group_start(*sheet, e.row, e.col)),
            holds == (|e: Entry| e.cell.formula is Some),
            i <= total,
            formulas == s.take(i as int).filter(holds).len(),
            formulas <= i,
            groups@.len() == s.take(i as int).filter(starts).len(),
            groups@.len() <= i,
            forall|k: int|
                0 <= k < groups@.len() ==> (#[trigger] groups@[k]).is_at(
                    *sheet,
                    s.take(i as int).filter(starts)[k].row,
                    s.take(i as int).filter(starts)[k].col,
                ),
            single == singletons(groups@),
            single <= groups@.len(),
            most == largest(groups@),
        decreases total - i,
    {
        let at: CellRef = cells[i].0;
        let cell: &Cell = cells[i].1;
        proof {
            workbook::lemma_at(s, i as int);
            assert(s.take(i + 1) =~= s.take(i as int).push(s[i as int]));
            s.take(i as int).lemma_filter_push(s[i as int], starts);
            s.take(i as int).lemma_filter_push(s[i as int], holds);
        }
        if let Some(f) = &cell.formula {
            formulas += 1;
            let shape: String = to_r1c1_shape(
                f.as_str(),
                CellRef::new(sheet.id, at.row, at.col),
            );
            assert(shape_at(*sheet, at.row, at.col) == Some(shape@));
            if check_run_top(sheet, at.row, at.col, shape.as_str()) {
                let bottom: u32 = find_run_bottom(sheet, at.row, at.col, shape.as_str());
                let joined: bool = at.col > 0 && has_like(
                    sheet,
                    at.row,
                    at.col,
                    at.col - 1,
                    shape.as_str(),
                    bottom,
                );
                if !joined {
                    let right: u16 = find_group_right(
                        sheet,
                        at.row,
                        at.col,
                        shape.as_str(),
                        bottom,
                    );
                    let range: RangeRef = RangeRef::new(sheet.id, at.row, at.col, bottom, right);
                    let count: u64 = range.cell_count();
                    let group: FormulaGroup = FormulaGroup {
                        range,
                        shape,
                        representative: f.clone(),
                        cell_count: count,
                    };
                    let ghost before = groups@;
                    if count == 1 {
                        single += 1;
                    }
                    if count > most {
                        most = count;
                    }
                    groups.push(group);
                    assert(groups@.drop_last() =~= before);
                }
            }
        } else {
            assert(shape_at(*sheet, at.row, at.col) is None);
        }
        i += 1;
    }
    assert(s.take(i as int) =~= s);
    let stats: GroupingStats = GroupingStats {
        formula_cells: formulas as u64,
        groups: groups.len() as u64,
        singletons: single as u64,
        largest_group: most,
    };
    (groups, stats)
}

/// A formula that breaks the pattern of the cells around it.
///
/// This is the classic spreadsheet bug: a column of `=SUM(B2:B9)` where one row
/// was edited by hand. It is worth surfacing directly, because it is exactly
/// what a reader would want to be told about and exactly what a summary hides.
#[derive(Debug, Clone, PartialEq, Eq)]
pub struct ShapeException {
    pub cell: CellRef,
    /// The formula at the odd cell, in A1. Empty if it holds none.
    pub formula: String,
    /// The shape its neighbours agree on.
    pub expected_shape: String,
    /// The shape this cell actually has, or `None` if it holds no formula.
    pub actual_shape: Option<String>,
}

/// The cells directly above and below a place hold formulas that share a shape,
/// and the place has another shape or no formula at all.
pub open spec fn is_exception(sheet: Sheet, row: u32, col: u16) -> bool {
    &&& 0 < row < u32::MAX
    &&& shape_at(sheet, (row - 1) as u32, col) is Some
    &&& shape_at(sheet, (row - 1) as u32, col) == shape_at(sheet, (row + 1) as u32, col)
    &&& shape_at(sheet, row, col) != shape_at(sheet, (row - 1) as u32, col)
}

impl ShapeException {
    /// What is reported of an exception.
    pub open spec fn is_at(self, sheet: Sheet, row: u32, col: u16) -> bool {
        &&& is_exception(sheet, row, col)
        &&& self.cell == (CellRef { sheet: sheet.id, row, col })
        &&& self.formula@ == (match formula_at(sheet, row, col) {
            Some(f) => f,
            None => Seq::empty(),
        })
        &&& Some(self.expected_shape@) == shape_at(sheet, (row - 1) as u32, col)
        &&& address::opt_view(self.actual_shape) == shape_at(sheet, row, col)
    }
}

/// Find cells that break a vertical run of otherwise identical formulas.
///
/// A cell is an exception when the cells directly above and below it share a
/// shape that it does not. Requiring agreement on both sides is what keeps this
/// quiet: the boundary between two different blocks has disagreement on one side
/// only, so it is not reported. Exceptions come in row-major order.
pub fn find_shape_exceptions(sheet: &Sheet) -> (r: Vec<ShapeException>)
    ensures
        forall|k: int|
            0 <= k < r@.len() ==> (#[trigger] r@[k]).is_at(
                *sheet,
                r@[k].cell.row,
                r@[k].cell.col,
            ),
        forall|row: u32, col: u16|
            #[trigger] is_exception(*sheet, row, col) ==> exists|k: int|
                0 <= k < r@.len() && (#[trigger] r@[k]).cell.row == row && r@[k].cell.col == col,
        forall|i: int, j: int|
            #![trigger r@[i], r@[j]]
            0 <= i < j < r@.len() ==> workbook::before(
                r@[i].cell.row,
                r@[i].cell.col,
                r@[j].cell.row,
                r@[j].cell.col,
            ),
{
    let cells: Vec<(CellRef, &Cell)> = sheet.iter();
    let ghost s = sheet.entries();
    let mut out: Vec<ShapeException> = Vec::new();
    let mut i: usize = 0;
    while i < cells.len()
        invariant
            workbook::listed(cells@, s, sheet.id),
            s == sheet.entries(),
            workbook::row_major(s),
            i <= cells@.len(),
            forall|k: int|
                0 <= k < out@.len() ==> (#[trigger] out@[k]).is_at(
                    *sheet,
                    out@[k].cell.row,
                    out@[k].cell.col,
                ),
            forall|k: int|
                0 <= k < out@.len() ==> exists|j: int|
                    0 <= j < i && (#[trigger] s[j]).row == (#[trigger] out@[k]).cell.row - 1
                        && s[j].col == out@[k].cell.col,
            forall|j: int|
                0 <= j < i && (#[trigger] s[j]).row < u32::MAX && is_exception(
                    *sheet,
                    (s[j].row + 1) as u32,
                    s[j].col,
                ) ==> exists|k: int|
                    0 <= k < out@.len() && (#[trigger] out@[k]).cell.row == s[j].row + 1
                        && out@[k].cell.col == s[j].col,
            forall|a: int, b: int|
                #![trigger out@[a], out@[b]]
                0 <= a < b < out@.len() ==> workbook::before(
                    out@[a].cell.row,
                    out@[a].cell.col,
                    out@[b].cell.row,
                    out@[b].cell.col,
                ),
        decreases cells@.len() - i,
    {
        let at: CellRef = cells[i].0;
        let cell: &Cell = cells[i].1;
        let ghost before = out@;
        proof {
            workbook::lemma_at(s, i as int);
        }
        if let Some(f) = &cell.formula {
            if at.row < u32::MAX - 1 {
                let above: String = to_r1c1_shape(
                    f.as_str(),
                    CellRef::new(sheet.id, at.row, at.col),
                );
                assert(shape_at(*sheet, at.row, at.col) == Some(above@));
                let row: u32 = at.row + 1;
                if has_shape(sheet, row + 1, at.col, above.as_str()) {
                    let here: Option<String> = read_shape(sheet, row, at.col);
                    let differs: bool = match &here {
                        Some(h) => !same_text(h.as_str(), above.as_str()),
                        None => true,
                    };
                    if differs {
                        let formula: String = match sheet.get(row, at.col) {
                            Some(c) => match &c.formula {
                                Some(g) => g.clone(),
                                None => String::new(),
                            },
                            None => String::new(),
                        };
                        assert forall|a: int| 0 <= a < out@.len() implies workbook::before(
                            (#[trigger] out@[a]).cell.row,
                            out@[a].cell.col,
                            row,
                            at.col,
                        ) by {
                            let j = choose|j: int|
                                0 <= j < i && (#[trigger] s[j]).row == out@[a].cell.row - 1
                                    && s[j].col == out@[a].cell.col;
                            assert(workbook::before(
                                s[j].row,
                                s[j].col,
                                s[i as int].row,
                                s[i as int].col,
                            ));
                        }
                        out.push(
                            ShapeException {
                                cell: CellRef::new(sheet.id, row, at.col),
                                formula,
                                expected_shape: above,
                                actual_shape: here,
                            },
                        );
                        assert(out@[out@.len() - 1].cell.row == s[i as int].row + 1);
                    }
                }
            }
        } else {
            assert(shape_at(*sheet, at.row, at.col) is None);
        }
        proof {
            assert forall|k: int| 0 <= k < before.len() implies #[trigger] out@[k] == before[k] by {}
            assert forall|j: int|
                0 <= j < i + 1 && (#[trigger] s[j]).row < u32::MAX && is_exception(
                    *sheet,
                    (s[j].row + 1) as u32,
                    s[j].col,
                ) implies exists|k: int|
                0 <= k < out@.len() && (#[trigger] out@[k]).cell.row == s[j].row + 1
                    && out@[k].cell.col == s[j].col by {
                if j < i {
                    let k = choose|k: int|
                        0 <= k < before.len() && (#[trigger] before[k]).cell.row == s[j].row + 1
                            && before[k].cell.col == s[j].col;
                    assert(out@[k] == before[k]);
                }
            }
        }
        i += 1;
    }
    proof {
        assert forall|row: u32, col: u16| #[trigger] is_exception(*sheet, row, col) implies exists|
            k: int,
        |
            0 <= k < out@.len() && (#[trigger] out@[k]).cell.row == row && out@[k].cell.col
                == col by {
            let up = (row - 1) as u32;
            assert(workbook::occupied(s, up, col));
            let j = choose|j: int| 0 <= j < s.len() && (#[trigger] s[j]).row == up && s[j].col == col;
            assert(s[j].row < u32::MAX);
        }
    }
    out
}


// ---------------------------------------------------------------------------
// Laws
// ---------------------------------------------------------------------------

/// Everything in a run has the shape of its first cell.
proof fn lemma_run(sheet: Sheet, row: u32, col: u16, r: u32)
    requires
        row <= r <= run_bottom(sheet, row, col),
    ensures
        shape_at(sheet, r, col) == shape_at(sheet, row, col),
        run_bottom(sheet, r, col) == run_bottom(sheet, row, col),
    decreases r - row,
{
    if row < r {
        lemma_run(sheet, (row + 1) as u32, col, r);
    }
}

proof fn lemma_run_bottom(sheet: Sheet, row: u32, col: u16)
    ensures
        row <= run_bottom(sheet, row, col),
    decreases u32::MAX - row,
{
    if row < u32::MAX && shape_at(sheet, (row + 1) as u32, col) == shape_at(sheet, row, col) {
        lemma_run_bottom(sheet, (row + 1) as u32, col);
    }
}

/// Every column of a group has a run like its first.
proof fn lemma_chain(sheet: Sheet, row: u32, col: u16, c: u16)
    requires
        is_run_top(sheet, row, col),
        col <= c <= group_right(sheet, row, col),
    ensures
        alike(sheet, row, col, c),
    decreases c - col,
{
    if col < c {
        lemma_chain(sheet, row, (col + 1) as u16, c);
    }
}

proof fn lemma_group_right(sheet: Sheet, row: u32, col: u16)
    ensures
        col <= group_right(sheet, row, col),
    decreases u16::MAX - col,
{
    if col < u16::MAX && alike(sheet, row, col, (col + 1) as u16) {
        lemma_group_right(sheet, row, (col + 1) as u16);
    }
}

/// Every cell in the rectangle of a group carries the group's shape.
pub proof fn a_group_is_one_shape(sheet: Sheet, row: u32, col: u16, r: u32, c: u16)
    requires
        is_group_start(sheet, row, col),
        group_range(sheet, row, col).holds(CellRef { sheet: sheet.id, row: r, col: c }),
    ensures
        shape_at(sheet, r, c) is Some,
        shape_at(sheet, r, c) == shape_at(sheet, row, col),
{
    lemma_chain(sheet, row, col, c);
    lemma_run(sheet, row, c, r);
}

/// The place where the run through a formula starts.
proof fn lemma_run_through(sheet: Sheet, row: u32, col: u16) -> (top: u32)
    requires
        shape_at(sheet, row, col) is Some,
    ensures
        is_run_top(sheet, top, col),
        top <= row <= run_bottom(sheet, top, col),
    decreases row,
{
    if is_run_top(sheet, row, col) {
        lemma_run_bottom(sheet, row, col);
        row
    } else {
        let top = lemma_run_through(sheet, (row - 1) as u32, col);
        lemma_run(sheet, top, col, (row - 1) as u32);
        lemma_run_bottom(sheet, row, col);
        assert(run_bottom(sheet, (row - 1) as u32, col) == run_bottom(sheet, row, col));
        top
    }
}

/// The column where the group through a run starts.
proof fn lemma_group_through(sheet: Sheet, row: u32, col: u16) -> (left: u16)
    requires
        is_run_top(sheet, row, col),
    ensures
        is_group_start(sheet, row, left),
        left <= col <= group_right(sheet, row, left),
    decreases col,
{
    if is_group_start(sheet, row, col) {
        lemma_group_right(sheet, row, col);
        col
    } else {
        let prev = (col - 1) as u16;
        let left = lemma_group_through(sheet, row, prev);
        lemma_chain_right(sheet, row, left, prev);
        lemma_group_right(sheet, row, col);
        assert(group_right(sheet, row, prev) == group_right(sheet, row, col));
        left
    }
}

proof fn lemma_chain_right(sheet: Sheet, row: u32, col: u16, c: u16)
    requires
        col <= c <= group_right(sheet, row, col),
    ensures
        group_right(sheet, row, c) == group_right(sheet, row, col),
    decreases c - col,
{
    if col < c {
        lemma_chain_right(sheet, row, (col + 1) as u16, c);
    }
}

/// No place lies in two groups.
proof fn lemma_one_group(sheet: Sheet, r1: u32, c1: u16, r2: u32, c2: u16, row: u32, col: u16)
    requires
        is_group_start(sheet, r1, c1),
        is_group_start(sheet, r2, c2),
        group_range(sheet, r1, c1).holds(CellRef { sheet: sheet.id, row, col }),
        group_range(sheet, r2, c2).holds(CellRef { sheet: sheet.id, row, col }),
    ensures
        r1 == r2,
        c1 == c2,
{
    lemma_chain(sheet, r1, c1, col);
    lemma_chain(sheet, r2, c2, col);
    if r1 < r2 {
        lemma_run(sheet, r1, col, r2);
        lemma_run(sheet, r1, col, (r2 - 1) as u32);
    } else if r2 < r1 {
        lemma_run(sheet, r2, col, r1);
        lemma_run(sheet, r2, col, (r1 - 1) as u32);
    }
    if c1 < c2 {
        lemma_chain(sheet, r1, c1, c2);
        lemma_chain(sheet, r1, c1, (c2 - 1) as u16);
    } else if c2 < c1 {
        lemma_chain(sheet, r2, c2, c1);
        lemma_chain(sheet, r2, c2, (c1 - 1) as u16);
    }
}

/// The groups share the formulas of a sheet out among them: every formula lies
/// in exactly one group.
pub proof fn every_formula_lies_in_one_group(
    sheet: Sheet,
    groups: Seq<FormulaGroup>,
    row: u32,
    col: u16,
)
    requires
        workbook::row_major(sheet.entries()),
        groups_are(groups, sheet),
        formula_at(sheet, row, col) is Some,
    ensures
        exists|k: int|
            0 <= k < groups.len() && (#[trigger] groups[k]).range.holds(
                CellRef { sheet: sheet.id, row, col },
            ),
        forall|j: int, k: int|
            #![trigger groups[j], groups[k]]
            0 <= j < groups.len() && 0 <= k < groups.len() && groups[j].range.holds(
                CellRef { sheet: sheet.id, row, col },
            ) && groups[k].range.holds(CellRef { sheet: sheet.id, row, col }) ==> j == k,
{
    let cell = CellRef { sheet: sheet.id, row, col };
    let s = sheet.entries();
    let keep = |e: Entry| is_group_start(sheet, e.row, e.col);
    let starts = group_starts(sheet);
    region::lemma_kept_places(s, keep);
    let top = lemma_run_through(sheet, row, col);
    let left = lemma_group_through(sheet, top, col);
    lemma_chain(sheet, top, left, col);
    assert(group_range(sheet, top, left).holds(cell));
    assert(workbook::occupied(s, top, left));
    let i = choose|i: int| 0 <= i < s.len() && (#[trigger] s[i]).row == top && s[i].col == left;
    assert(keep(s[i]));
    let p: region::Place = (top, left);
    assert(region::places(starts).contains(p));
    let k = choose|k: int| 0 <= k < starts.len() && region::places(starts)[k] == p;
    assert(groups[k].is_at(sheet, starts[k].row, starts[k].col));
    assert forall|j: int, k: int|
        #![trigger groups[j], groups[k]]
        0 <= j < groups.len() && 0 <= k < groups.len() && groups[j].range.holds(cell)
            && groups[k].range.holds(cell) implies j == k by {
        assert(groups[j].is_at(sheet, starts[j].row, starts[j].col));
        assert(groups[k].is_at(sheet, starts[k].row, starts[k].col));
        lemma_start(sheet, j);
        lemma_start(sheet, k);
        lemma_one_group(
            sheet,
            starts[j].row,
            starts[j].col,
            starts[k].row,
            starts[k].col,
            row,
            col,
        );
        if j < k {
            assert(workbook::before(starts[j].row, starts[j].col, starts[k].row, starts[k].col));
        } else if k < j {
            assert(workbook::before(starts[k].row, starts[k].col, starts[j].row, starts[j].col));
        }
    }
}

proof fn lemma_start(sheet: Sheet, k: int)
    requires
        0 <= k < group_starts(sheet).len(),
    ensures
        is_group_start(sheet, group_starts(sheet)[k].row, group_starts(sheet)[k].col),
{
    let keep = |e: Entry| is_group_start(sheet, e.row, e.col);
    sheet.entries().lemma_filter_pred(keep, k);
}

/// How many cells some groups have between them.
pub open spec fn cells_grouped(groups: Seq<FormulaGroup>) -> nat
    decreases groups.len(),
{
    if groups.len() == 0 {
        0
    } else {
        cells_grouped(groups.drop_last()) + groups.last().cell_count as nat
    }
}

/// The cells of some groups, group by group.
spec fn grouped_places(groups: Seq<FormulaGroup>) -> Seq<region::Place>
    decreases groups.len(),
{
    if groups.len() == 0 {
        Seq::empty()
    } else {
        grouped_places(groups.drop_last()) + groups.last().range.cells().map_values(
            |c: CellRef| (c.row, c.col),
        )
    }
}

/// The cells of some groups of a sheet are told apart, and each is counted.
proof fn lemma_grouped_places(sheet: Sheet, groups: Seq<FormulaGroup>, n: int)
    requires
        workbook::row_major(sheet.entries()),
        groups_are(groups, sheet),
        0 <= n <= groups.len(),
    ensures
        grouped_places(groups.take(n)).len() == cells_grouped(groups.take(n)),
        grouped_places(groups.take(n)).no_duplicates(),
        forall|p: region::Place| #[trigger]
            grouped_places(groups.take(n)).contains(p) <==> exists|k: int|
                0 <= k < n && (#[trigger] groups[k]).range.holds(
                    CellRef { sheet: sheet.id, row: p.0, col: p.1 },
                ),
    decreases n,
{
    if n > 0 {
        lemma_grouped_places(sheet, groups, n - 1);
        let now = groups.take(n);
        assert(now.drop_last() =~= groups.take(n - 1));
        assert(now.last() == groups[n - 1]);
        let g = groups[n - 1];
        let starts = group_starts(sheet);
        assert(g.is_at(sheet, starts[n - 1].row, starts[n - 1].col));
        lemma_start(sheet, n - 1);
        lemma_run_bottom(sheet, starts[n - 1].row, starts[n - 1].col);
        lemma_group_right(sheet, starts[n - 1].row, starts[n - 1].col);
        assert(g.range.normalised());
        address::cells_are_the_range_row_by_row(g.range);
        let f = |c: CellRef| (c.row, c.col);
        let cells = g.range.cells();
        let here = cells.map_values(f);
        let before = grouped_places(groups.take(n - 1));
        let all = grouped_places(now);
        assert(all == before + here);
        assert forall|p: region::Place| #[trigger] here.contains(p) <==> g.range.holds(
            CellRef { sheet: sheet.id, row: p.0, col: p.1 },
        ) by {
            let c = CellRef { sheet: sheet.id, row: p.0, col: p.1 };
            if here.contains(p) {
                let i = choose|i: int| 0 <= i < here.len() && here[i] == p;
                assert(g.range.holds(cells[i]));
                assert(cells[i] == c);
            }
            if g.range.holds(c) {
                assert(cells.contains(c));
                let i = choose|i: int| 0 <= i < cells.len() && cells[i] == c;
                assert(here[i] == p);
            }
        }
        assert forall|i: int, j: int| 0 <= i < here.len() && 0 <= j < here.len() && i != j implies
            here[i] != here[j] by {
            if i < j {
                assert(cells[i].row < cells[j].row || cells[i].col < cells[j].col);
            } else {
                assert(cells[j].row < cells[i].row || cells[j].col < cells[i].col);
            }
        }
        assert forall|p: region::Place| #[trigger] before.contains(p) implies !here.contains(p) by {
            let c = CellRef { sheet: sheet.id, row: p.0, col: p.1 };
            let k = choose|k: int| 0 <= k < n - 1 && (#[trigger] groups[k]).range.holds(c);
            if here.contains(p) {
                lemma_grouped_is_formula(sheet, groups, k, p.0, p.1);
                every_formula_lies_in_one_group(sheet, groups, p.0, p.1);
                assert(groups[k].range.holds(c) && groups[n - 1].range.holds(c));
                assert(k == n - 1);
            }
        }
        assert forall|i: int, j: int| 0 <= i < all.len() && 0 <= j < all.len() && i != j implies
            all[i] != all[j] by {
            let m = before.len() as int;
            if i < m && j < m {
                assert(before[i] != before[j]);
            } else if i >= m && j >= m {
                assert(here[i - m] != here[j - m]);
            } else if i < m {
                assert(before.contains(before[i]) && here.contains(here[j - m]));
            } else {
                assert(before.contains(before[j]) && here.contains(here[i - m]));
            }
        }
        assert forall|p: region::Place| #[trigger] all.contains(p) <==> exists|k: int|
            0 <= k < n && (#[trigger] groups[k]).range.holds(
                CellRef { sheet: sheet.id, row: p.0, col: p.1 },
            ) by {
            let c = CellRef { sheet: sheet.id, row: p.0, col: p.1 };
            assert(all.contains(p) <==> before.contains(p) || here.contains(p)) by {
                if all.contains(p) {
                    let i = choose|i: int| 0 <= i < all.len() && all[i] == p;
                    if i < before.len() {
                        assert(before[i] == p);
                    } else {
                        assert(here[i - before.len()] == p);
                    }
                }
                if before.contains(p) {
                    let i = choose|i: int| 0 <= i < before.len() && before[i] == p;
                    assert(all[i] == p);
                }
                if here.contains(p) {
                    let i = choose|i: int| 0 <= i < here.len() && here[i] == p;
                    assert(all[i + before.len()] == p);
                }
            }
            if here.contains(p) {
                assert(groups[n - 1].range.holds(c));
            }
        }
    }
}

proof fn lemma_grouped_is_formula(
    sheet: Sheet,
    groups: Seq<FormulaGroup>,
    k: int,
    row: u32,
    col: u16,
)
    requires
        groups_are(groups, sheet),
        0 <= k < groups.len(),
        groups[k].range.holds(CellRef { sheet: sheet.id, row, col }),
    ensures
        formula_at(sheet, row, col) is Some,
{
    let starts = group_starts(sheet);
    assert(groups[k].is_at(sheet, starts[k].row, starts[k].col));
    lemma_start(sheet, k);
    a_group_is_one_shape(sheet, starts[k].row, starts[k].col, row, col);
}

/// The groups of a sheet count every formula once: their cells add up to the
/// formulas of the sheet.
pub proof fn groups_count_every_formula_once(sheet: Sheet, groups: Seq<FormulaGroup>)
    requires
        workbook::row_major(sheet.entries()),
        groups_are(groups, sheet),
    ensures
        cells_grouped(groups) == formula_entries(sheet).len(),
{
    let s = sheet.entries();
    let keep = |e: Entry| e.cell.formula is Some;
    let written = region::places(formula_entries(sheet));
    region::lemma_kept_places(s, keep);
    lemma_grouped_places(sheet, groups, groups.len() as int);
    assert(groups.take(groups.len() as int) =~= groups);
    let cells = grouped_places(groups);
    assert forall|p: region::Place| #[trigger] cells.contains(p) <==> written.contains(p) by {
        let c = CellRef { sheet: sheet.id, row: p.0, col: p.1 };
        if cells.contains(p) {
            let k = choose|k: int|
                0 <= k < groups.len() && (#[trigger] groups[k]).range.holds(c);
            lemma_grouped_is_formula(sheet, groups, k, p.0, p.1);
            let i = choose|i: int| 0 <= i < s.len() && (#[trigger] s[i]).row == p.0 && s[i].col
                == p.1;
            workbook::lemma_at(s, i);
            assert(keep(s[i]));
        }
        if written.contains(p) {
            let i = choose|i: int|
                0 <= i < s.len() && (#[trigger] s[i]).row == p.0 && s[i].col == p.1 && keep(s[i]);
            workbook::lemma_at(s, i);
            every_formula_lies_in_one_group(sheet, groups, p.0, p.1);
        }
    }
    assert(cells.to_set() =~= written.to_set());
    cells.unique_seq_to_set();
    written.unique_seq_to_set();
}

/// Groups come in row-major order of their top left cells.
pub proof fn groups_are_row_major(sheet: Sheet, groups: Seq<FormulaGroup>)
    requires
        workbook::row_major(sheet.entries()),
        groups_are(groups, sheet),
    ensures
        forall|j: int, k: int|
            #![trigger groups[j], groups[k]]
            0 <= j < k < groups.len() ==> workbook::before(
                groups[j].range.top,
                groups[j].range.left,
                groups[k].range.top,
                groups[k].range.left,
            ),
{
    let keep = |e: Entry| is_group_start(sheet, e.row, e.col);
    let starts = group_starts(sheet);
    region::lemma_kept_places(sheet.entries(), keep);
    assert forall|j: int, k: int|
        #![trigger groups[j], groups[k]]
        0 <= j < k < groups.len() implies workbook::before(
        groups[j].range.top,
        groups[j].range.left,
        groups[k].range.top,
        groups[k].range.left,
    ) by {
        assert(groups[j].is_at(sheet, starts[j].row, starts[j].col));
        assert(groups[k].is_at(sheet, starts[k].row, starts[k].col));
        assert(workbook::before(starts[j].row, starts[j].col, starts[k].row, starts[k].col));
    }
}

proof fn lemma_run_ends(sheet: Sheet, row: u32, col: u16, bottom: u32)
    requires
        row <= bottom,
        forall|r: int|
            row <= r < bottom ==> #[trigger] shape_at(sheet, (r + 1) as u32, col) == shape_at(
                sheet,
                r as u32,
                col,
            ),
        bottom < u32::MAX ==> shape_at(sheet, (bottom + 1) as u32, col) != shape_at(
            sheet,
            bottom,
            col,
        ),
    ensures
        run_bottom(sheet, row, col) == bottom,
    decreases bottom - row,
{
    if row < bottom {
        assert(shape_at(sheet, (row as int + 1) as u32, col) == shape_at(
            sheet,
            row as int as u32,
            col,
        ));
        lemma_run_ends(sheet, (row + 1) as u32, col, bottom);
    }
}

proof fn lemma_right_of(sheet: Sheet, row: u32, col: u16, c: u16)
    requires
        col <= c <= group_right(sheet, row, col),
        c < u16::MAX,
        alike(sheet, row, c, (c + 1) as u16),
    ensures
        c < group_right(sheet, row, col),
    decreases c - col,
{
    if col < c {
        lemma_right_of(sheet, row, (col + 1) as u16, c);
    } else {
        lemma_group_right(sheet, row, (col + 1) as u16);
    }
}

/// A formula filled down stays together: a cell whose formula has the shape of the
/// one above it lies in the same group.
pub proof fn a_shape_filled_down_is_one_group(
    sheet: Sheet,
    groups: Seq<FormulaGroup>,
    k: int,
    row: u32,
    col: u16,
)
    requires
        groups_are(groups, sheet),
        0 <= k < groups.len(),
        row < u32::MAX,
        shape_at(sheet, row, col) is Some,
        shape_at(sheet, (row + 1) as u32, col) == shape_at(sheet, row, col),
    ensures
        groups[k].range.holds(CellRef { sheet: sheet.id, row, col }) <==> groups[k].range.holds(
            CellRef { sheet: sheet.id, row: (row + 1) as u32, col },
        ),
{
    let s = group_starts(sheet)[k];
    assert(groups[k].is_at(sheet, s.row, s.col));
    lemma_start(sheet, k);
    if s.col <= col <= group_right(sheet, s.row, s.col) {
        lemma_chain(sheet, s.row, s.col, col);
        if s.row <= row <= run_bottom(sheet, s.row, col) {
            lemma_run(sheet, s.row, col, row);
            lemma_run_bottom(sheet, (row + 1) as u32, col);
        }
    }
}

/// Runs of one shape that start and end on the same rows, side by side, are one
/// group.
pub proof fn a_shape_filled_across_is_one_group(
    sheet: Sheet,
    groups: Seq<FormulaGroup>,
    k: int,
    top: u32,
    bottom: u32,
    col: u16,
)
    requires
        groups_are(groups, sheet),
        0 <= k < groups.len(),
        top <= bottom,
        col < u16::MAX,
        shape_at(sheet, top, col) is Some,
        forall|r: int, c: u16|
            top <= r <= bottom && col <= c <= col + 1 ==> #[trigger] shape_at(sheet, r as u32, c)
                == shape_at(sheet, top, col),
        forall|c: u16|
            col <= c <= col + 1 && top > 0 ==> #[trigger] shape_at(sheet, (top - 1) as u32, c)
                != shape_at(sheet, top, col),
        forall|c: u16|
            col <= c <= col + 1 && bottom < u32::MAX ==> #[trigger] shape_at(
                sheet,
                (bottom + 1) as u32,
                c,
            ) != shape_at(sheet, top, col),
        groups[k].range.holds(CellRef { sheet: sheet.id, row: top, col }),
    ensures
        groups[k].range.top == top,
        groups[k].range.bottom == bottom,
        groups[k].range.left <= col < groups[k].range.right,
{
    let s = group_starts(sheet)[k];
    let next = (col + 1) as u16;
    assert(groups[k].is_at(sheet, s.row, s.col));
    lemma_start(sheet, k);
    assert forall|c: u16| col <= c <= col + 1 implies run_bottom(sheet, top, c) == bottom
        && #[trigger] is_run_top(sheet, top, c) by {
        assert(shape_at(sheet, top as int as u32, c) == shape_at(sheet, top, col));
        assert(shape_at(sheet, bottom as int as u32, c) == shape_at(sheet, top, col));
        assert forall|r: int| top <= r < bottom implies #[trigger] shape_at(
            sheet,
            (r + 1) as u32,
            c,
        ) == shape_at(sheet, r as u32, c) by {
            assert(shape_at(sheet, (r + 1) as u32, c) == shape_at(sheet, top, col));
        }
        if bottom < u32::MAX {
            assert(shape_at(sheet, (bottom + 1) as u32, c) != shape_at(sheet, top, col));
        }
        if top > 0 {
            assert(shape_at(sheet, (top - 1) as u32, c) != shape_at(sheet, top, col));
        }
        lemma_run_ends(sheet, top, c, bottom);
    }
    assert(is_run_top(sheet, top, col) && is_run_top(sheet, top, next));
    lemma_chain(sheet, s.row, s.col, col);
    if s.row < top {
        lemma_run(sheet, s.row, col, (top - 1) as u32);
        lemma_run(sheet, s.row, col, top);
        assert(false);
    }
    assert(shape_at(sheet, top as int as u32, next) == shape_at(sheet, top, col));
    assert(alike(sheet, top, col, next));
    lemma_right_of(sheet, top, s.col, col);
}

} // verus!
