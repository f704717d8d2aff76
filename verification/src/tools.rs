//! What each tool answers.
//!
//! Each tool returns text, because text is what lands in the caller's context.
//! The evaluator and the indexes are asked by the caller of this module; what
//! they are asked, and how their findings read, is decided here.
//!
//! Values are the workbook's data. A server told to redact replaces every one
//! with its kind, formulas' literals included, so that it can still be asked
//! about structure.

use crate::address;
use crate::address::{parse_a1, CellRef, ParsedRef, RangeRef, SheetId};
use crate::args;
use crate::args::{opt_bool, opt_bounded, opt_str, opt_usize, want_str};
use crate::cell::{Cell, CellValue, Number};
use crate::context;
use crate::context::{push_blanks, push_joined, RenderOptions, Rendered};
use crate::expand;
use crate::expand::{ExpandOptions, Hit, Retrieved, WorkbookContext};
use crate::formula;
use crate::formula::redact_formula_literals;
use crate::json;
use crate::json::Json;
use crate::region;
use crate::region::{detect_regions, Region};
use crate::search::Search;
use crate::sort;
use crate::state;
use crate::state::{resolve, CorpusEntry};
use crate::table;
use crate::table::{read_table, Table, TableColumn};
use crate::text;
use crate::text::{chars_of, debug_str, push_chars, push_decimal, same_text, utf8_len};
use crate::workbook;
use crate::workbook::{Entry, Sheet, Workbook};
use vstd::prelude::*;

verus! {

// ---------------------------------------------------------------------------
// Pieces of text.

/// A text filled up with spaces to a width.
pub open spec fn padded(s: Seq<char>, width: nat) -> Seq<char> {
    if s.len() >= width {
        s
    } else {
        s + context::blanks((width - s.len()) as nat)
    }
}

fn push_padded(out: &mut String, s: &str, width: usize)
    ensures
        final(out)@ == old(out)@ + padded(s@, width as nat),
{
    let ghost before = out@;
    let len: usize = chars_of(s).len();
    out.push_str(s);
    if len < width {
        push_blanks(out, width - len);
        assert(out@ =~= before + (s@ + context::blanks((width - len) as nat)));
    }
}

/// A value, or the shape of one where it may not be said.
pub open spec fn value_text(v: CellValue, redact: bool) -> Seq<char> {
    if redact {
        "<"@ + v.spec_kind().shown() + ">"@
    } else {
        match v {
            CellValue::Text(s) => text::debug_text(s@),
            other => other.shown(),
        }
    }
}

/// A formula's text, with its own literals hidden the same way a value is.
pub open spec fn formula_text(f: Seq<char>, redact: bool) -> Seq<char> {
    if redact {
        formula::redacted(f)
    } else {
        f
    }
}

/// A value, or the shape of one when this server is not allowed to say.
pub fn show(value: &CellValue, redact: bool) -> (r: String)
    ensures
        r@ == value_text(*value, redact),
{
    if redact {
        let mut out: String = "<".to_owned();
        out.push_str(value.kind().as_str());
        out.push_str(">");
        out
    } else {
        match value {
            CellValue::Text(s) => debug_str(s.as_str()),
            other => other.to_display(),
        }
    }
}

/// A formula's text, with its own literals hidden the same way a value is.
///
/// A formula's literals are the workbook's data as much as any cell's value is:
/// `=IF(A2="Smith, John",B2*0.15,0)` names a person and a rate.
pub fn show_formula(formula: &str, redact: bool) -> (r: String)
    ensures
        r@ == formula_text(formula@, redact),
{
    if redact {
        redact_formula_literals(formula)
    } else {
        formula.to_owned()
    }
}

/// How long a workbook took to open, where this call opened it: the seconds as
/// they are shown.
pub open spec fn opened_note(path: Seq<char>, opened: Option<Seq<char>>) -> Seq<char> {
    match opened {
        Some(seconds) => "(opened "@ + path + " in "@ + seconds + "s)\n"@,
        None => Seq::empty(),
    }
}

/// The same, as a heading of its own.
pub open spec fn opened_heading(path: Seq<char>, opened: Option<Seq<char>>) -> Seq<char> {
    match opened {
        Some(seconds) => path + " opened in "@ + seconds + "s\n\n"@,
        None => Seq::empty(),
    }
}

pub open spec fn opt_str_view(s: Option<&str>) -> Option<Seq<char>> {
    match s {
        Some(t) => Some(t@),
        None => None,
    }
}

/// A note of how long a workbook took to open.
pub fn note_of(path: &str, opened: Option<&str>) -> (r: String)
    ensures
        r@ == opened_note(path@, opt_str_view(opened)),
{
    let mut out: String = String::new();
    if let Some(seconds) = opened {
        out.push_str("(opened ");
        out.push_str(path);
        out.push_str(" in ");
        out.push_str(seconds);
        out.push_str("s)\n");
    }
    assert(out@ =~= opened_note(path@, opt_str_view(opened)));
    out
}

fn heading_of(path: &str, opened: Option<&str>) -> (r: String)
    ensures
        r@ == opened_heading(path@, opt_str_view(opened)),
{
    let mut out: String = String::new();
    if let Some(seconds) = opened {
        out.push_str(path);
        out.push_str(" opened in ");
        out.push_str(seconds);
        out.push_str("s\n\n");
    }
    assert(out@ =~= opened_heading(path@, opt_str_view(opened)));
    out
}

/// How many characters of a text from `i` on fit into so many bytes of UTF-8,
/// those before `i` counted in.
pub open spec fn fitting(s: Seq<char>, i: int, bytes: int) -> int
    decreases s.len() - i,
{
    if 0 <= i < s.len() && text::utf8_width(s[i]) <= bytes {
        fitting(s, i + 1, bytes - text::utf8_width(s[i]))
    } else {
        i
    }
}

/// The first twelve bytes of a hash, which is how it is shown; where they end
/// inside a character, it is left out.
pub open spec fn short_hash(hash: Seq<char>) -> Seq<char> {
    hash.take(fitting(hash, 0, 12))
}

proof fn lemma_fitting(s: Seq<char>, i: int, bytes: int)
    requires
        0 <= i <= s.len(),
        0 <= bytes,
    ensures
        i <= fitting(s, i, bytes) <= s.len(),
        text::byte_offset(s, fitting(s, i, bytes)) - text::byte_offset(s, i) <= bytes,
        fitting(s, i, bytes) < s.len() ==> text::byte_offset(s, fitting(s, i, bytes) + 1)
            - text::byte_offset(s, i) > bytes,
    decreases s.len() - i,
{
    if i < s.len() {
        text::lemma_byte_offset_step(s, i);
        if text::utf8_width(s[i]) <= bytes {
            lemma_fitting(s, i + 1, bytes - text::utf8_width(s[i]));
        }
    }
}

/// A hash is shown by its first twelve bytes: where a character ends there, by the
/// characters up to it, and whole where it has no more bytes than that.
pub proof fn a_short_hash_is_its_first_twelve_bytes(hash: Seq<char>, k: int)
    requires
        0 <= k <= hash.len(),
        text::byte_offset(hash, k) == 12 || (k == hash.len() && text::byte_offset(hash, k) <= 12),
    ensures
        short_hash(hash) == hash.take(k),
{
    let n = fitting(hash, 0, 12);
    lemma_fitting(hash, 0, 12);
    assert(hash.take(0) =~= Seq::empty());
    assert(text::byte_offset(hash, 0) == 0);
    if n < k {
        text::lemma_byte_offset_order(hash, n + 1, k);
    } else if k < n {
        text::lemma_byte_offset_step(hash, k);
        text::lemma_byte_offset_order(hash, k + 1, n);
    }
}

fn push_short(out: &mut String, hash: &str)
    ensures
        final(out)@ == old(out)@ + short_hash(hash@),
{
    let chars: Vec<char> = chars_of(hash);
    let len: usize = chars.len();
    let mut left: usize = 12;
    let mut i: usize = 0;
    while i < len && utf8_len(chars[i]) <= left
        invariant
            len == chars@.len(),
            i <= len,
            left <= 12,
            fitting(chars@, 0, 12) == fitting(chars@, i as int, left as int),
        decreases len - i,
    {
        left = left - utf8_len(chars[i]);
        i += 1;
    }
    assert(chars@.subrange(0, i as int) =~= chars@.take(i as int));
    push_chars(out, &chars.as_slice()[0..i]);
}

// ---------------------------------------------------------------------------
// Finding the cells a citation names.

/// The first sheet from `i` on of a name, whatever its case; the number of
/// sheets where there is none.
pub open spec fn sheet_place(sheets: Seq<Sheet>, name: Seq<char>, i: nat) -> nat
    decreases sheets.len() - i,
{
    if i >= sheets.len() || text::same_but_for_case(sheets[i as int].name@, name) {
        i
    } else {
        sheet_place(sheets, name, i + 1)
    }
}

pub open spec fn sheet_names(sheets: Seq<Sheet>) -> Seq<Seq<char>> {
    sheets.map_values(|s: Sheet| s.name@)
}

/// The range that a citation names in a workbook, or why it names none.
pub open spec fn cited_range(w: Workbook, citation: Seq<char>) -> Result<RangeRef, Seq<char>> {
    match address::a1(citation) {
        Err(f) => Err(text::debug_text(citation) + " is not an A1 range: "@ + f.sentence()),
        Ok(p) => match p.sheet_name {
            None => Err(
                text::debug_text(citation)
                    + " names no sheet. A citation needs one, e.g. \"Sheet1!B2\"."@,
            ),
            Some(name) => {
                let k = sheet_place(w.sheets@, name, 0);
                if k < w.sheets@.len() {
                    Ok(
                        RangeRef::between(
                            w.sheets@[k as int].id,
                            p.top,
                            p.left,
                            p.bottom,
                            p.right,
                        ),
                    )
                } else {
                    Err(
                        "no sheet called "@ + text::debug_text(name) + ". This workbook has: "@
                            + context::joined(sheet_names(w.sheets@), ", "@),
                    )
                }
            },
        },
    }
}

/// The range that a citation names.
pub fn resolve_range(w: &Workbook, citation: &str) -> (r: Result<RangeRef, String>)
    ensures
        match (r, cited_range(*w, citation@)) {
            (Ok(x), Ok(y)) => x == y && x.normalised(),
            (Err(e), Err(m)) => e@ == m,
            _ => false,
        },
{
    let parsed: ParsedRef = match parse_a1(citation) {
        Ok(p) => p,
        Err(f) => {
            let mut out: String = debug_str(citation);
            out.push_str(" is not an A1 range: ");
            out.push_str(f.message().as_str());
            return Err(out);
        },
    };
    let name: &str = match &parsed.sheet_name {
        Some(name) => name.as_str(),
        None => {
            let mut out: String = debug_str(citation);
            out.push_str(" names no sheet. A citation needs one, e.g. \"Sheet1!B2\".");
            return Err(out);
        },
    };
    let ghost sheets = w.sheets@;
    let mut k: usize = 0;
    while k < w.sheets.len() && !text::same_text_but_for_case(w.sheets[k].name.as_str(), name)
        invariant
            sheets == w.sheets@,
            k <= sheets.len(),
            sheet_place(sheets, name@, 0) == sheet_place(sheets, name@, k as nat),
        decreases sheets.len() - k,
    {
        k += 1;
    }
    if k < w.sheets.len() {
        return Ok(parsed.resolve(w.sheets[k].id));
    }
    let mut names: Vec<String> = Vec::new();
    let mut i: usize = 0;
    while i < w.sheets.len()
        invariant
            sheets == w.sheets@,
            i <= sheets.len(),
            names@.len() == i,
            forall|j: int| 0 <= j < i ==> (#[trigger] names@[j])@ == sheets[j].name@,
        decreases sheets.len() - i,
    {
        names.push(w.sheets[i].name.clone());
        i += 1;
    }
    let mut out: String = "no sheet called ".to_owned();
    out.push_str(debug_str(name).as_str());
    out.push_str(". This workbook has: ");
    push_joined(&mut out, &names, ", ");
    assert(names@.map_values(|p: String| p@) =~= sheet_names(sheets));
    Err(out)
}

/// The populated cells of a range, in the workbook's order; none where the
/// workbook has no such sheet.
pub open spec fn populated(w: Workbook, range: RangeRef) -> Seq<Entry> {
    if range.sheet.0 < w.sheets@.len() {
        w.sheets@[range.sheet.0 as int].entries_in(range)
    } else {
        Seq::empty()
    }
}

/// Clipping a range to the cells in use loses no cell.
proof fn lemma_clipped(sheet: Sheet, range: RangeRef, used: RangeRef)
    requires
        range.sheet == used.sheet,
        forall|i: int|
            0 <= i < sheet.entries().len() ==> used.top <= (#[trigger] sheet.entries()[i]).row
                <= used.bottom && used.left <= sheet.entries()[i].col <= used.right,
    ensures
        sheet.entries_in(range.meet(used)) == sheet.entries_in(range),
{
    let a = |e: Entry|
        range.meet(used).holds(CellRef { sheet: sheet.id, row: e.row, col: e.col });
    let b = |e: Entry| range.holds(CellRef { sheet: sheet.id, row: e.row, col: e.col });
    lemma_same_filter(sheet.entries(), a, b);
}

proof fn lemma_same_filter(s: Seq<Entry>, a: spec_fn(Entry) -> bool, b: spec_fn(Entry) -> bool)
    requires
        forall|i: int| 0 <= i < s.len() ==> a(#[trigger] s[i]) == b(s[i]),
    ensures
        s.filter(a) == s.filter(b),
    decreases s.len(),
{
    reveal(Seq::filter);
    if s.len() > 0 {
        let d = s.drop_last();
        assert forall|i: int| 0 <= i < d.len() implies a(#[trigger] d[i]) == b(d[i]) by {
            assert(d[i] == s[i]);
        }
        lemma_same_filter(d, a, b);
        assert(a(s[s.len() - 1]) == b(s[s.len() - 1]));
    }
}

proof fn lemma_none_meet(sheet: Sheet, range: RangeRef, used: RangeRef)
    requires
        sheet.id != range.sheet || sheet.entries().len() == 0 || (range.sheet == used.sheet
            && !range.meet(used).normalised()),
        forall|i: int|
            0 <= i < sheet.entries().len() ==> used.top <= (#[trigger] sheet.entries()[i]).row
                <= used.bottom && used.left <= sheet.entries()[i].col <= used.right,
    ensures
        sheet.entries_in(range) == Seq::<Entry>::empty(),
{
    let s = sheet.entries();
    let b = |e: Entry| range.holds(CellRef { sheet: sheet.id, row: e.row, col: e.col });
    let never = |e: Entry| false;
    lemma_same_filter(s, b, never);
    lemma_filter_never(s);
}

proof fn lemma_filter_never(s: Seq<Entry>)
    ensures
        s.filter(|e: Entry| false) == Seq::<Entry>::empty(),
    decreases s.len(),
{
    reveal(Seq::filter);
    if s.len() > 0 {
        lemma_filter_never(s.drop_last());
    }
}

/// The populated cells of a range, clipped to what the sheet actually uses, so
/// that a whole-column citation costs no more than the cells that are there.
pub fn populated_in<'a>(w: &'a Workbook, range: RangeRef) -> (r: Vec<(CellRef, &'a Cell)>)
    requires
        range.normalised(),
    ensures
        range.sheet.0 < w.sheets@.len() ==> workbook::listed(
            r@,
            populated(*w, range),
            w.sheets@[range.sheet.0 as int].id,
        ),
        range.sheet.0 >= w.sheets@.len() ==> r@.len() == 0,
{
    let sheet: &Sheet = match w.sheet(range.sheet) {
        Some(s) => s,
        None => return Vec::new(),
    };
    let used: RangeRef = match sheet.used_range() {
        Some(u) => u,
        None => {
            proof {
                lemma_none_meet(*sheet, range, range);
            }
            return Vec::new();
        },
    };
    match range.intersection(&used) {
        Some(clipped) => {
            proof {
                lemma_clipped(*sheet, range, used);
            }
            sheet.iter_range(clipped)
        },
        None => {
            proof {
                lemma_none_meet(*sheet, range, used);
            }
            Vec::new()
        },
    }
}

// ---------------------------------------------------------------------------
// Cells.

/// A cell as the evaluator reports it.
#[derive(Debug, PartialEq, Eq)]
pub struct CellFact {
    pub a1: String,
    pub formula: Option<String>,
    pub value: CellValue,
}

pub open spec fn fact_line(f: CellFact, redact: bool) -> Seq<char> {
    "  "@ + padded(f.a1@, 24) + (match f.formula {
        Some(x) => " ="@ + formula_text(x@, redact),
        None => Seq::empty(),
    }) + "  "@ + value_text(f.value, redact) + "\n"@
}

pub open spec fn fact_lines(s: Seq<CellFact>, redact: bool) -> Seq<char>
    decreases s.len(),
{
    if s.len() == 0 {
        Seq::empty()
    } else {
        fact_lines(s.drop_last(), redact) + fact_line(s.last(), redact)
    }
}

fn push_fact(out: &mut String, f: &CellFact, redact: bool)
    ensures
        final(out)@ == old(out)@ + fact_line(*f, redact),
{
    let mut line: String = "  ".to_owned();
    push_padded(&mut line, f.a1.as_str(), 24);
    let mut formula: String = String::new();
    if let Some(x) = &f.formula {
        formula = " =".to_owned();
        formula.push_str(show_formula(x.as_str(), redact).as_str());
    } else {
        assert(formula@ =~= Seq::<char>::empty());
    }
    line.push_str(formula.as_str());
    line.push_str("  ");
    line.push_str(show(&f.value, redact).as_str());
    line.push_str("\n");
    out.push_str(line.as_str());
}

fn push_facts(out: &mut String, cells: &Vec<CellFact>, redact: bool)
    ensures
        final(out)@ == old(out)@ + fact_lines(cells@, redact),
{
    let ghost before = out@;
    let mut i: usize = 0;
    assert(before + fact_lines(cells@.take(0), redact) =~= before);
    while i < cells.len()
        invariant
            i <= cells@.len(),
            out@ == before + fact_lines(cells@.take(i as int), redact),
        decreases cells@.len() - i,
    {
        proof {
            assert(cells@.take(i + 1).drop_last() =~= cells@.take(i as int));
            assert(cells@.take(i + 1).last() == cells@[i as int]);
        }
        push_fact(out, &cells[i], redact);
        assert(out@ =~= before + (fact_lines(cells@.take(i as int), redact) + fact_line(
            cells@[i as int],
            redact,
        )));
        i += 1;
    }
    assert(cells@.take(i as int) =~= cells@);
}

/// What `read_cells` answers.
pub open spec fn cells_text(
    w: Workbook,
    range: RangeRef,
    note: Seq<char>,
    cells: Seq<CellFact>,
    capped: bool,
    redact: bool,
) -> Seq<char> {
    note + w.citation(range.sheet, range.local_a1()) + " — "@ + text::decimal(cells.len())
        + " populated cell(s)"@ + (if capped {
        ", capped"@
    } else {
        Seq::empty()
    }) + "\n"@ + fact_lines(cells, redact) + (if cells.len() == 0 {
        "  nothing populated in that range\n"@
    } else {
        Seq::empty()
    })
}

/// The answer of `read_cells`, from the cells that the evaluator read.
pub fn read_cells(
    w: &Workbook,
    range: RangeRef,
    note: &str,
    cells: &Vec<CellFact>,
    capped: bool,
    redact: bool,
) -> (r: String)
    ensures
        r@ == cells_text(*w, range, note@, cells@, capped, redact),
{
    let mut out: String = note.to_owned();
    out.push_str(w.cite_range(range).as_str());
    out.push_str(" — ");
    push_decimal(&mut out, cells.len() as u64);
    out.push_str(" populated cell(s)");
    if capped {
        out.push_str(", capped");
    }
    out.push_str("\n");
    push_facts(&mut out, cells, redact);
    if cells.len() == 0 {
        out.push_str("  nothing populated in that range\n");
    }
    assert(out@ =~= cells_text(*w, range, note@, cells@, capped, redact));
    out
}

/// A reference that a formula makes.
#[derive(Debug, PartialEq, Eq)]
pub struct ReadRef {
    /// The cell that holds the formula.
    pub at: CellRef,
    /// The reference as the formula writes it.
    pub text: String,
    /// What it comes to, as a citation.
    pub target: String,
}

pub open spec fn cited_cell(w: Workbook, at: CellRef) -> Seq<char> {
    w.citation(at.sheet, address::cell_a1(at.row, at.col))
}

pub open spec fn read_line(w: Workbook, x: ReadRef) -> Seq<char> {
    "  "@ + padded(cited_cell(w, x.at), 24) + " "@ + x.text@ + " → "@ + x.target@ + "\n"@
}

pub open spec fn read_lines(w: Workbook, s: Seq<ReadRef>) -> Seq<char>
    decreases s.len(),
{
    if s.len() == 0 {
        Seq::empty()
    } else {
        read_lines(w, s.drop_last()) + read_line(w, s.last())
    }
}

/// What `precedents` answers: the references of the formulas in a range, up to a
/// limit.
pub open spec fn precedents_text(
    w: Workbook,
    range: RangeRef,
    note: Seq<char>,
    reads: Seq<ReadRef>,
    limit: usize,
) -> Seq<char> {
    note + w.citation(range.sheet, range.local_a1()) + " reads\n"@ + (if reads.len() > limit {
        read_lines(w, reads.take(limit as int)) + "  … more, raise limit\n"@
    } else if reads.len() > 0 {
        read_lines(w, reads)
    } else {
        "  nothing — no formulas in that range\n"@
    })
}

fn push_read(out: &mut String, w: &Workbook, x: &ReadRef)
    ensures
        final(out)@ == old(out)@ + read_line(*w, *x),
{
    let mut line: String = "  ".to_owned();
    push_padded(&mut line, w.cite(x.at).as_str(), 24);
    line.push_str(" ");
    line.push_str(x.text.as_str());
    line.push_str(" → ");
    line.push_str(x.target.as_str());
    line.push_str("\n");
    out.push_str(line.as_str());
}

/// The places of the formulas among some entries, in their order.
pub open spec fn formula_places(s: Seq<Entry>, id: SheetId) -> Seq<CellRef>
    decreases s.len(),
{
    if s.len() == 0 {
        Seq::empty()
    } else {
        let before = formula_places(s.drop_last(), id);
        if s.last().cell.formula is Some {
            before.push(CellRef { sheet: id, row: s.last().row, col: s.last().col })
        } else {
            before
        }
    }
}

/// The formulas of a range, in row-major order.
pub open spec fn formulas_in(w: Workbook, range: RangeRef) -> Seq<CellRef> {
    if range.sheet.0 < w.sheets@.len() {
        formula_places(populated(w, range), w.sheets@[range.sheet.0 as int].id)
    } else {
        Seq::empty()
    }
}

fn formulas_of(w: &Workbook, range: RangeRef) -> (r: Vec<CellRef>)
    requires
        range.normalised(),
    ensures
        r@ == formulas_in(*w, range),
{
    let all: Vec<(CellRef, &Cell)> = populated_in(w, range);
    let ghost s = populated(*w, range);
    let ghost id = if range.sheet.0 < w.sheets@.len() {
        w.sheets@[range.sheet.0 as int].id
    } else {
        range.sheet
    };
    let mut cells: Vec<CellRef> = Vec::new();
    let mut i: usize = 0;
    while i < all.len()
        invariant
            workbook::listed(all@, s, id),
            i <= all@.len(),
            cells@ == formula_places(s.take(i as int), id),
        decreases all@.len() - i,
    {
        proof {
            assert(s.take(i + 1).drop_last() =~= s.take(i as int));
            assert(s.take(i + 1).last() == s[i as int]);
        }
        if all[i].1.formula.is_some() {
            cells.push(all[i].0);
        }
        i += 1;
    }
    assert(s.take(i as int) =~= s);
    cells
}

/// The formulas of a range whose references are to be resolved one by one, and
/// the references so far.
///
/// One reference more than are listed is enough to know that there are more: once
/// there is one, no formula is asked for.
pub struct Preceding {
    pub cells: Vec<CellRef>,
    pub next: usize,
    pub limit: usize,
    pub reads: Vec<ReadRef>,
}

impl Preceding {
    /// The formulas of a range.
    pub fn of(w: &Workbook, range: RangeRef, limit: usize) -> (r: Preceding)
        requires
            range.normalised(),
        ensures
            r.cells@ == formulas_in(*w, range),
            r.next == 0,
            r.limit == limit,
            r.reads@.len() == 0,
    {
        Preceding { cells: formulas_of(w, range), next: 0, limit, reads: Vec::new() }
    }

    /// The formula whose references are to be resolved next; none once there are
    /// more than the limit or no more formulas.
    pub fn ask(&self) -> (r: Option<CellRef>)
        ensures
            r == (if self.reads@.len() <= self.limit && self.next < self.cells@.len() {
                Some(self.cells@[self.next as int])
            } else {
                None
            }),
    {
        if self.reads.len() <= self.limit && self.next < self.cells.len() {
            Some(self.cells[self.next])
        } else {
            None
        }
    }

    /// What the formula asked for reads, in the order of its references.
    pub fn told(&mut self, reads: Vec<ReadRef>)
        requires
            old(self).next < old(self).cells@.len(),
        ensures
            final(self).next == old(self).next + 1,
            final(self).cells == old(self).cells,
            final(self).limit == old(self).limit,
            final(self).reads@ == old(self).reads@ + reads@,
    {
        let count: usize = self.cells.len();
        if self.next < count {
            self.next = self.next + 1;
        }
        let mut more: Vec<ReadRef> = reads;
        self.reads.append(&mut more);
    }
}

/// The answer of `precedents`, from the references that the evaluator resolved.
pub fn precedents(w: &Workbook, range: RangeRef, note: &str, reads: &Vec<ReadRef>, limit: usize) -> (r:
    String)
    ensures
        r@ == precedents_text(*w, range, note@, reads@, limit),
{
    let mut out: String = note.to_owned();
    out.push_str(w.cite_range(range).as_str());
    out.push_str(" reads\n");
    let ghost head = out@;
    let shown: usize = if reads.len() > limit {
        limit
    } else {
        reads.len()
    };
    let mut i: usize = 0;
    assert(head + read_lines(*w, reads@.take(0)) =~= head);
    while i < shown
        invariant
            shown <= reads@.len(),
            i <= shown,
            out@ == head + read_lines(*w, reads@.take(i as int)),
        decreases shown - i,
    {
        proof {
            assert(reads@.take(i + 1).drop_last() =~= reads@.take(i as int));
            assert(reads@.take(i + 1).last() == reads@[i as int]);
        }
        push_read(&mut out, w, &reads[i]);
        assert(out@ =~= head + (read_lines(*w, reads@.take(i as int)) + read_line(
            *w,
            reads@[i as int],
        )));
        i += 1;
    }
    if reads.len() > limit {
        out.push_str("  … more, raise limit\n");
    } else if reads.len() == 0 {
        out.push_str("  nothing — no formulas in that range\n");
    }
    proof {
        assert(shown == reads@.len() ==> reads@.take(shown as int) =~= reads@);
        assert(out@ =~= precedents_text(*w, range, note@, reads@, limit));
    }
    out
}

/// A formula that reads a range.
#[derive(Debug, PartialEq, Eq)]
pub struct Dependent {
    pub from: CellRef,
    /// The reference as the formula writes it.
    pub text: String,
}

pub open spec fn dependent_line(w: Workbook, x: Dependent) -> Seq<char> {
    "  "@ + padded(cited_cell(w, x.from), 24) + " "@ + x.text@ + "\n"@
}

pub open spec fn dependent_lines(w: Workbook, s: Seq<Dependent>) -> Seq<char>
    decreases s.len(),
{
    if s.len() == 0 {
        Seq::empty()
    } else {
        dependent_lines(w, s.drop_last()) + dependent_line(w, s.last())
    }
}

/// What a scan of a workbook's formulas came to.
#[derive(Debug, Clone, Copy, PartialEq, Eq)]
pub struct ScanReport {
    pub matches: u64,
    /// How many formulas, or cells, were looked at.
    pub scanned: u64,
    /// Whether there was more than was returned.
    pub capped: bool,
    /// Cells that show the same characters while holding another type.
    pub other_kind: u64,
}

/// What `dependents` answers.
pub open spec fn dependents_text(
    w: Workbook,
    range: RangeRef,
    note: Seq<char>,
    refs: Seq<Dependent>,
    report: ScanReport,
) -> Seq<char> {
    note + w.citation(range.sheet, range.local_a1()) + " is read by "@ + text::decimal(
        report.matches as nat,
    ) + " formula(s), of "@ + text::decimal(report.scanned as nat) + " scanned\n"@
        + dependent_lines(w, refs) + (if refs.len() == 0 {
        "  nothing in this workbook reads it\n"@
    } else if report.capped {
        "  … more, raise limit\n"@
    } else {
        Seq::empty()
    })
}

fn push_dependent(out: &mut String, w: &Workbook, x: &Dependent)
    ensures
        final(out)@ == old(out)@ + dependent_line(*w, *x),
{
    let mut line: String = "  ".to_owned();
    push_padded(&mut line, w.cite(x.from).as_str(), 24);
    line.push_str(" ");
    line.push_str(x.text.as_str());
    line.push_str("\n");
    out.push_str(line.as_str());
}

/// The answer of `dependents`, from the readers that the evaluator found.
pub fn dependents(
    w: &Workbook,
    range: RangeRef,
    note: &str,
    refs: &Vec<Dependent>,
    report: &ScanReport,
) -> (r: String)
    ensures
        r@ == dependents_text(*w, range, note@, refs@, *report),
{
    let mut out: String = note.to_owned();
    out.push_str(w.cite_range(range).as_str());
    out.push_str(" is read by ");
    push_decimal(&mut out, report.matches);
    out.push_str(" formula(s), of ");
    push_decimal(&mut out, report.scanned);
    out.push_str(" scanned\n");
    let ghost head = out@;
    let mut i: usize = 0;
    assert(head + dependent_lines(*w, refs@.take(0)) =~= head);
    while i < refs.len()
        invariant
            i <= refs@.len(),
            out@ == head + dependent_lines(*w, refs@.take(i as int)),
        decreases refs@.len() - i,
    {
        proof {
            assert(refs@.take(i + 1).drop_last() =~= refs@.take(i as int));
            assert(refs@.take(i + 1).last() == refs@[i as int]);
        }
        push_dependent(&mut out, w, &refs[i]);
        assert(out@ =~= head + (dependent_lines(*w, refs@.take(i as int)) + dependent_line(
            *w,
            refs@[i as int],
        )));
        i += 1;
    }
    assert(refs@.take(i as int) =~= refs@);
    if refs.len() == 0 {
        out.push_str("  nothing in this workbook reads it\n");
    } else if report.capped {
        out.push_str("  … more, raise limit\n");
    }
    assert(out@ =~= dependents_text(*w, range, note@, refs@, *report));
    out
}

/// What `find_value` looks for, or why it looks for nothing.
pub open spec fn probe_fault(args: json::Tree) -> Option<Seq<char>> {
    match args.at("value"@) {
        None => Some("value is required — the value to find"@),
        Some(json::Tree::Null) => Some(
            "value names nothing to look for; an empty cell is not a value"@,
        ),
        Some(v) => args::unholdable(v),
    }
}

/// Read the value that `find_value` looks for.
pub fn read_probe(args: &Json) -> (r: Result<CellValue, String>)
    ensures
        match r {
            Ok(v) => probe_fault(json::tree(*args)) is None && (json::tree(*args).at(
                "value"@,
            ) matches Some(t) && args::holds(v, t)),
            Err(e) => probe_fault(json::tree(*args)) == Some(e@),
        },
{
    let value: &Json = match args.get("value") {
        Some(v) => v,
        None => return Err("value is required — the value to find".to_owned()),
    };
    if matches!(value, Json::Null) {
        return Err("value names nothing to look for; an empty cell is not a value".to_owned());
    }
    args::cell_value(value)
}

/// What `find_value` answers. The scan is exhaustive, so finding nothing is an
/// answer; and cells that show the same characters as another type are the usual
/// reason a value that is on the screen scans as absent.
pub open spec fn found_text(
    note: Seq<char>,
    probe: CellValue,
    cells: Seq<CellFact>,
    report: ScanReport,
    redact: bool,
) -> Seq<char> {
    note + text::decimal(report.matches as nat) + " cell(s) hold "@ + value_text(probe, redact)
        + ", of "@ + text::decimal(report.scanned as nat) + " scanned\n"@ + fact_lines(
        cells,
        redact,
    ) + (if report.capped {
        "  … more, raise limit\n"@
    } else {
        Seq::empty()
    }) + (if report.other_kind > 0 {
        "  "@ + text::decimal(report.other_kind as nat)
            + " more cell(s) show the same characters while holding another type. A number and the string of its digits are different values here: send 1612 to find one and \"1612\" to find the other.\n"@
    } else {
        Seq::empty()
    }) + (if report.matches == 0 {
        "  every populated cell was compared, so this is exhaustive: the value is not in this workbook\n"@
    } else {
        Seq::empty()
    })
}

/// The answer of `find_value`, from the cells that the scan found.
pub fn find_value(
    note: &str,
    probe: &CellValue,
    cells: &Vec<CellFact>,
    report: &ScanReport,
    redact: bool,
) -> (r: String)
    ensures
        r@ == found_text(note@, *probe, cells@, *report, redact),
{
    let mut out: String = note.to_owned();
    push_decimal(&mut out, report.matches);
    out.push_str(" cell(s) hold ");
    out.push_str(show(probe, redact).as_str());
    out.push_str(", of ");
    push_decimal(&mut out, report.scanned);
    out.push_str(" scanned\n");
    push_facts(&mut out, cells, redact);
    if report.capped {
        out.push_str("  … more, raise limit\n");
    }
    if report.other_kind > 0 {
        out.push_str("  ");
        push_decimal(&mut out, report.other_kind);
        out.push_str(
            " more cell(s) show the same characters while holding another type. A number and the string of its digits are different values here: send 1612 to find one and \"1612\" to find the other.\n",
        );
    }
    if report.matches == 0 {
        out.push_str(
            "  every populated cell was compared, so this is exhaustive: the value is not in this workbook\n",
        );
    }
    assert(out@ =~= found_text(note@, *probe, cells@, *report, redact));
    out
}

// ---------------------------------------------------------------------------
// Recomputing.

/// What recomputing a formula came to.
#[derive(Debug, PartialEq, Eq)]
pub enum Outcome {
    Agrees(CellValue),
    Differs { computed: CellValue, stored: CellValue },
    /// What it cannot model it refuses by name.
    Unsupported(String),
}

/// A range that a formula read.
#[derive(Debug, PartialEq, Eq)]
pub struct Input {
    pub a1: String,
    /// The reference as the formula writes it.
    pub text: String,
    /// The value, where the range is one cell.
    pub value: Option<CellValue>,
    pub cells: u64,
}

/// A formula recomputed from the stored values of the cells it reads.
#[derive(Debug, PartialEq, Eq)]
pub struct Recomputed {
    pub a1: String,
    pub formula: String,
    pub outcome: Outcome,
    pub inputs: Vec<Input>,
}

/// The formulas of a range that are to be recomputed one by one, and what has
/// come of it so far.
///
/// The limit bounds the work and not only what is printed: once so many formulas
/// have been recomputed, none is asked for.
pub struct Recomputing {
    pub cells: Vec<CellRef>,
    pub next: usize,
    pub limit: usize,
    pub results: Vec<Recomputed>,
}

impl Recomputing {
    pub open spec fn is_sound(self) -> bool {
        self.next <= self.cells@.len() && self.results@.len() <= self.next
    }

    /// The formulas of a range.
    pub fn of(w: &Workbook, range: RangeRef, limit: usize) -> (r: Recomputing)
        requires
            range.normalised(),
        ensures
            r.is_sound(),
            r.next == 0,
            r.limit == limit,
            r.results@.len() == 0,
            r.cells@ == formulas_in(*w, range),
    {
        Recomputing { cells: formulas_of(w, range), next: 0, limit, results: Vec::new() }
    }

    /// The formula to recompute next; none once there are enough results or no
    /// more formulas.
    pub fn ask(&self) -> (r: Option<CellRef>)
        ensures
            r == (if self.results@.len() < self.limit && self.next < self.cells@.len() {
                Some(self.cells@[self.next as int])
            } else {
                None
            }),
    {
        if self.results.len() < self.limit && self.next < self.cells.len() {
            Some(self.cells[self.next])
        } else {
            None
        }
    }

    /// What came of the formula asked for; nothing where it is none after all.
    pub fn told(&mut self, result: Option<Recomputed>)
        requires
            old(self).is_sound(),
            old(self).next < old(self).cells@.len(),
        ensures
            final(self).is_sound(),
            final(self).next == old(self).next + 1,
            final(self).cells == old(self).cells,
            final(self).limit == old(self).limit,
            final(self).results@ == (match result {
                Some(x) => old(self).results@.push(x),
                None => old(self).results@,
            }),
    {
        let count: usize = self.cells.len();
        if self.next < count {
            self.next = self.next + 1;
        }
        if let Some(x) = result {
            self.results.push(x);
        }
    }

    /// Whether formulas were left that the limit did not let be asked for.
    pub fn has_more(&self) -> (r: bool)
        ensures
            r == (self.results@.len() >= self.limit && self.next < self.cells@.len()),
    {
        self.results.len() >= self.limit && self.next < self.cells.len()
    }
}

pub open spec fn outcome_line(o: Outcome, redact: bool) -> Seq<char> {
    match o {
        Outcome::Agrees(v) => "  agrees with the stored value "@ + value_text(v, redact) + "\n"@,
        Outcome::Differs { computed, stored } => "  DIFFERS — computed "@ + value_text(
            computed,
            redact,
        ) + ", stored "@ + value_text(stored, redact) + "\n"@,
        Outcome::Unsupported(reason) => "  not recomputed: "@ + reason@ + "\n"@,
    }
}

pub open spec fn input_line(x: Input, redact: bool) -> Seq<char> {
    "    "@ + padded(x.a1@, 24) + " "@ + padded(x.text@, 12) + " "@ + (match x.value {
        Some(v) => value_text(v, redact),
        None => text::decimal(x.cells as nat) + " cells"@,
    }) + "\n"@
}

pub open spec fn input_lines(s: Seq<Input>, redact: bool) -> Seq<char>
    decreases s.len(),
{
    if s.len() == 0 {
        Seq::empty()
    } else {
        input_lines(s.drop_last(), redact) + input_line(s.last(), redact)
    }
}

pub open spec fn recomputed_lines(x: Recomputed, redact: bool) -> Seq<char> {
    x.a1@ + "\n  ="@ + formula_text(x.formula@, redact) + "\n"@ + outcome_line(x.outcome, redact)
        + input_lines(x.inputs@, redact)
}

pub open spec fn all_recomputed(s: Seq<Recomputed>, redact: bool) -> Seq<char>
    decreases s.len(),
{
    if s.len() == 0 {
        Seq::empty()
    } else {
        all_recomputed(s.drop_last(), redact) + recomputed_lines(s.last(), redact)
    }
}

/// What `recompute` answers; where nothing was recomputed, what stands at the
/// range's first cell instead of a formula.
pub open spec fn recompute_text(
    w: Workbook,
    range: RangeRef,
    note: Seq<char>,
    results: Seq<Recomputed>,
    more: bool,
    corner: Option<CellFact>,
    redact: bool,
) -> Seq<char> {
    note + all_recomputed(results, redact) + (if more {
        "… more, raise limit\n"@
    } else {
        Seq::empty()
    }) + (if results.len() > 0 {
        Seq::empty()
    } else {
        match corner {
            Some(f) => f.a1@ + " holds no formula — "@ + value_text(f.value, redact)
                + " is a literal, and there is nothing to recompute.\n"@,
            None => w.citation(range.sheet, range.local_a1())
                + " is empty — nothing to recompute.\n"@,
        }
    })
}

fn push_input(out: &mut String, x: &Input, redact: bool)
    ensures
        final(out)@ == old(out)@ + input_line(*x, redact),
{
    let mut line: String = "    ".to_owned();
    push_padded(&mut line, x.a1.as_str(), 24);
    line.push_str(" ");
    push_padded(&mut line, x.text.as_str(), 12);
    line.push_str(" ");
    let mut detail: String = String::new();
    match &x.value {
        Some(v) => {
            detail = show(v, redact);
        },
        None => {
            push_decimal(&mut detail, x.cells);
            detail.push_str(" cells");
            assert(detail@ =~= text::decimal(x.cells as nat) + " cells"@);
        },
    }
    line.push_str(detail.as_str());
    line.push_str("\n");
    out.push_str(line.as_str());
}

fn push_inputs(out: &mut String, inputs: &Vec<Input>, redact: bool)
    ensures
        final(out)@ == old(out)@ + input_lines(inputs@, redact),
{
    let ghost before = out@;
    let mut i: usize = 0;
    assert(before + input_lines(inputs@.take(0), redact) =~= before);
    while i < inputs.len()
        invariant
            i <= inputs@.len(),
            out@ == before + input_lines(inputs@.take(i as int), redact),
        decreases inputs@.len() - i,
    {
        proof {
            assert(inputs@.take(i + 1).drop_last() =~= inputs@.take(i as int));
            assert(inputs@.take(i + 1).last() == inputs@[i as int]);
        }
        push_input(out, &inputs[i], redact);
        assert(out@ =~= before + (input_lines(inputs@.take(i as int), redact) + input_line(
            inputs@[i as int],
            redact,
        )));
        i += 1;
    }
    assert(inputs@.take(i as int) =~= inputs@);
}

fn push_outcome(out: &mut String, outcome: &Outcome, redact: bool)
    ensures
        final(out)@ == old(out)@ + outcome_line(*outcome, redact),
{
    let ghost before = out@;
    match outcome {
        Outcome::Agrees(v) => {
            out.push_str("  agrees with the stored value ");
            out.push_str(show(v, redact).as_str());
            out.push_str("\n");
        },
        Outcome::Differs { computed, stored } => {
            out.push_str("  DIFFERS — computed ");
            out.push_str(show(computed, redact).as_str());
            out.push_str(", stored ");
            out.push_str(show(stored, redact).as_str());
            out.push_str("\n");
        },
        Outcome::Unsupported(reason) => {
            out.push_str("  not recomputed: ");
            out.push_str(reason.as_str());
            out.push_str("\n");
        },
    }
    assert(out@ =~= before + outcome_line(*outcome, redact));
}

fn push_recomputed(out: &mut String, x: &Recomputed, redact: bool)
    ensures
        final(out)@ == old(out)@ + recomputed_lines(*x, redact),
{
    let mut line: String = x.a1.clone();
    line.push_str("\n  =");
    line.push_str(show_formula(x.formula.as_str(), redact).as_str());
    line.push_str("\n");
    push_outcome(&mut line, &x.outcome, redact);
    push_inputs(&mut line, &x.inputs, redact);
    out.push_str(line.as_str());
}

/// The answer of `recompute`, from what was recomputed and from the cell at the
/// range's top left.
pub fn recompute_tool(
    w: &Workbook,
    range: RangeRef,
    note: &str,
    done: &Recomputing,
    corner: &Option<CellFact>,
    redact: bool,
) -> (r: String)
    ensures
        r@ == recompute_text(
            *w,
            range,
            note@,
            done.results@,
            done.results@.len() >= done.limit && done.next < done.cells@.len(),
            *corner,
            redact,
        ),
{
    let mut out: String = note.to_owned();
    let ghost all = done.results@;
    let mut i: usize = 0;
    assert(note@ + all_recomputed(all.take(0), redact) =~= note@);
    while i < done.results.len()
        invariant
            all == done.results@,
            i <= all.len(),
            out@ == note@ + all_recomputed(all.take(i as int), redact),
        decreases all.len() - i,
    {
        let x: &Recomputed = &done.results[i];
        proof {
            assert(all.take(i + 1).drop_last() =~= all.take(i as int));
            assert(all.take(i + 1).last() == *x);
        }
        push_recomputed(&mut out, x, redact);
        assert(out@ =~= note@ + (all_recomputed(all.take(i as int), redact) + recomputed_lines(
            *x,
            redact,
        )));
        i += 1;
    }
    assert(all.take(i as int) =~= all);
    if done.has_more() {
        out.push_str("… more, raise limit\n");
    }
    if done.results.len() == 0 {
        match corner {
            Some(f) => {
                out.push_str(f.a1.as_str());
                out.push_str(" holds no formula — ");
                out.push_str(show(&f.value, redact).as_str());
                out.push_str(" is a literal, and there is nothing to recompute.\n");
            },
            None => {
                out.push_str(w.cite_range(range).as_str());
                out.push_str(" is empty — nothing to recompute.\n");
            },
        }
    }
    assert(out@ =~= recompute_text(
        *w,
        range,
        note@,
        all,
        all.len() >= done.limit && done.next < done.cells@.len(),
        *corner,
        redact,
    ));
    out
}

// ---------------------------------------------------------------------------
// What if.

/// One substitution to make.
#[derive(Debug, PartialEq, Eq)]
pub struct Change {
    pub at: CellRef,
    pub value: CellValue,
}

/// What keeps a JSON value from naming a change to a workbook.
pub open spec fn change_fault(w: Workbook, t: json::Tree) -> Option<Seq<char>> {
    match args::wanted_text(t, "citation"@) {
        Err(e) => Some(e),
        Ok(citation) => match cited_range(w, citation) {
            Err(e) => Some(e),
            Ok(range) => {
                let cells = range.height() * range.width();
                if cells != 1 {
                    Some(
                        text::debug_text(citation) + " is "@ + text::decimal(cells)
                            + " cells. A change names one."@,
                    )
                } else {
                    match t.at("value"@) {
                        None => Some(
                            text::debug_text(citation) + " has no value to put in it"@,
                        ),
                        Some(v) => args::unholdable(v),
                    }
                }
            },
        },
    }
}

/// A change is what a JSON value says.
pub open spec fn is_change(c: Change, w: Workbook, t: json::Tree) -> bool {
    &&& args::wanted_text(t, "citation"@) matches Ok(citation) && (cited_range(
        w,
        citation,
    ) matches Ok(range) && c.at == (CellRef {
        sheet: range.sheet,
        row: range.top,
        col: range.left,
    }))
    &&& t.at("value"@) matches Some(v) && args::holds(c.value, v)
}

fn read_change(w: &Workbook, change: &Json) -> (r: Result<Change, String>)
    ensures
        match r {
            Ok(c) => change_fault(*w, json::tree(*change)) is None && is_change(
                c,
                *w,
                json::tree(*change),
            ),
            Err(e) => change_fault(*w, json::tree(*change)) == Some(e@),
        },
{
    let citation: String = match want_str(change, "citation") {
        Ok(s) => s,
        Err(e) => return Err(e),
    };
    let range: RangeRef = match resolve_range(w, citation.as_str()) {
        Ok(x) => x,
        Err(e) => return Err(e),
    };
    let cells: u64 = range.cell_count();
    if cells != 1 {
        let mut out: String = debug_str(citation.as_str());
        out.push_str(" is ");
        push_decimal(&mut out, cells);
        out.push_str(" cells. A change names one.");
        return Err(out);
    }
    let value: &Json = match change.get("value") {
        Some(v) => v,
        None => {
            let mut out: String = debug_str(citation.as_str());
            out.push_str(" has no value to put in it");
            return Err(out);
        },
    };
    match args::cell_value(value) {
        Ok(v) => Ok(Change { at: range.top_left(), value: v }),
        Err(e) => Err(e),
    }
}

/// The first thing wrong with a change from `i` on.
pub open spec fn changes_fault(w: Workbook, items: Seq<json::Tree>, i: nat) -> Option<Seq<char>>
    decreases items.len() - i,
{
    if i >= items.len() {
        None
    } else if change_fault(w, items[i as int]) is Some {
        change_fault(w, items[i as int])
    } else {
        changes_fault(w, items, i + 1)
    }
}

/// How far a change is followed, and how much of it is listed.
#[derive(Debug, Clone, Copy, PartialEq, Eq)]
pub struct WhatIfLimits {
    pub levels: usize,
    pub limit: usize,
}

/// What is wrong with the arguments of `what_if` before any workbook is opened.
pub open spec fn what_if_fault(args: json::Tree) -> Option<Seq<char>> {
    if let Err(e) = args::bounded_count(args, "levels"@, 8, 1, 32) {
        Some(e)
    } else if let Err(e) = args::bounded_count(args, "limit"@, 40, 1, 500) {
        Some(e)
    } else {
        match args.list_at("changes"@) {
            None => Some("changes is required, as an array of {citation, value}"@),
            Some(v) => if v.len() == 0 {
                Some("changes is empty — name at least one cell to change"@)
            } else {
                None
            },
        }
    }
}

/// Read the limits of `what_if`, and see that it names something to change.
pub fn read_what_if(args: &Json) -> (r: Result<WhatIfLimits, String>)
    ensures
        match r {
            Ok(x) => {
                &&& what_if_fault(json::tree(*args)) is None
                &&& args::bounded_count(json::tree(*args), "levels"@, 8, 1, 32) == Ok::<
                    usize,
                    Seq<char>,
                >(x.levels)
                &&& args::bounded_count(json::tree(*args), "limit"@, 40, 1, 500) == Ok::<
                    usize,
                    Seq<char>,
                >(x.limit)
            },
            Err(e) => what_if_fault(json::tree(*args)) == Some(e@),
        },
{
    let levels: usize = match opt_bounded(args, "levels", 8, 1, 32) {
        Ok(n) => n,
        Err(e) => return Err(e),
    };
    let limit: usize = match opt_bounded(args, "limit", 40, 1, 500) {
        Ok(n) => n,
        Err(e) => return Err(e),
    };
    match args.get("changes") {
        Some(Json::List(items)) => {
            proof {
                json::lemma_trees(*items, items@.len());
            }
            if items.len() == 0 {
                Err("changes is empty — name at least one cell to change".to_owned())
            } else {
                Ok(WhatIfLimits { levels, limit })
            }
        },
        _ => Err("changes is required, as an array of {citation, value}".to_owned()),
    }
}

/// Read the changes that `what_if` is to make to a workbook.
pub fn read_changes(w: &Workbook, args: &Json) -> (r: Result<Vec<Change>, String>)
    requires
        json::tree(*args).list_at("changes"@) is Some,
    ensures
        ({
            let t = json::tree(*args).list_at("changes"@)->Some_0;
            match r {
                Ok(v) => changes_fault(*w, t, 0) is None && v@.len() == t.len() && forall|i: int|
                    0 <= i < t.len() ==> is_change(#[trigger] v@[i], *w, t[i]),
                Err(e) => changes_fault(*w, t, 0) == Some(e@),
            }
        }),
{
    let mut out: Vec<Change> = Vec::new();
    let items: &Vec<Json> = match args.get("changes") {
        Some(Json::List(items)) => items,
        _ => return Ok(out),
    };
    let ghost t = json::trees(*items, items@.len());
    proof {
        json::lemma_trees(*items, items@.len());
    }
    let mut i: usize = 0;
    while i < items.len()
        invariant
            json::tree(*args).list_at("changes"@) == Some(t),
            t.len() == items@.len(),
            forall|k: int| 0 <= k < t.len() ==> (#[trigger] t[k]) == json::tree(items@[k]),
            i <= items@.len(),
            out@.len() == i,
            forall|k: int| 0 <= k < i ==> is_change(#[trigger] out@[k], *w, t[k]),
            changes_fault(*w, t, 0) == changes_fault(*w, t, i as nat),
        decreases items@.len() - i,
    {
        assert(t[i as int] == json::tree(items@[i as int]));
        match read_change(w, &items[i]) {
            Ok(c) => out.push(c),
            Err(e) => return Err(e),
        }
        i += 1;
    }
    Ok(out)
}

/// A substitution that was made.
#[derive(Debug, PartialEq, Eq)]
pub struct Applied {
    pub a1: String,
    pub before: CellValue,
    pub after: CellValue,
    pub replaced_formula: Option<String>,
}

/// A cell that moved.
#[derive(Debug, PartialEq, Eq)]
pub struct Moved {
    pub a1: String,
    pub formula: String,
    pub before: CellValue,
    pub after: CellValue,
    pub level: u64,
    /// The cell already disagreed with its stored value.
    pub was_stale: bool,
}

/// Why a cell that a change reaches has no answer.
#[derive(Debug, PartialEq, Eq)]
pub enum Blocked {
    Formula(String),
    Upstream(String),
    Cycle,
}

/// A cell that a change reaches and that has no answer.
#[derive(Debug, PartialEq, Eq)]
pub struct Unanswered {
    pub a1: String,
    pub reason: Blocked,
}

/// How far a change reached.
#[derive(Debug, PartialEq, Eq)]
pub struct ImpactReport {
    pub affected: u64,
    pub levels: u64,
    pub moved: u64,
    pub unchanged: u64,
    pub blocked: u64,
    /// What the walk stopped at, where it stopped early.
    pub stopped: Option<String>,
    pub moved_not_listed: u64,
}

/// What a change came to.
#[derive(Debug, PartialEq, Eq)]
pub struct Impact {
    pub changes: Vec<Applied>,
    pub report: ImpactReport,
    pub moved: Vec<Moved>,
    pub unanswered: Vec<Unanswered>,
}

pub open spec fn applied_line(x: Applied, redact: bool) -> Seq<char> {
    padded(x.a1@, 24) + " "@ + value_text(x.before, redact) + " → "@ + value_text(x.after, redact)
        + "\n"@ + (match x.replaced_formula {
        Some(f) => "  replacing ="@ + formula_text(f@, redact) + "\n"@,
        None => Seq::empty(),
    })
}

pub open spec fn applied_lines(s: Seq<Applied>, redact: bool) -> Seq<char>
    decreases s.len(),
{
    if s.len() == 0 {
        Seq::empty()
    } else {
        applied_lines(s.drop_last(), redact) + applied_line(s.last(), redact)
    }
}

pub open spec fn moved_line(x: Moved, redact: bool) -> Seq<char> {
    "  "@ + padded(x.a1@, 24) + " ="@ + formula_text(x.formula@, redact) + "\n    "@ + value_text(
        x.before,
        redact,
    ) + " → "@ + value_text(x.after, redact) + "   (level "@ + text::decimal(x.level as nat)
        + ")"@ + (if x.was_stale {
        "  — this cell already disagreed with its stored value"@
    } else {
        Seq::empty()
    }) + "\n"@
}

pub open spec fn moved_lines(s: Seq<Moved>, redact: bool) -> Seq<char>
    decreases s.len(),
{
    if s.len() == 0 {
        Seq::empty()
    } else {
        moved_lines(s.drop_last(), redact) + moved_line(s.last(), redact)
    }
}

pub open spec fn blocked_text(b: Blocked) -> Seq<char> {
    match b {
        Blocked::Formula(reason) => reason@,
        Blocked::Upstream(cause) => "reads "@ + cause@ + ", which has no answer"@,
        Blocked::Cycle => "circular reference"@,
    }
}

pub open spec fn unanswered_line(x: Unanswered) -> Seq<char> {
    "  "@ + padded(x.a1@, 24) + " "@ + blocked_text(x.reason) + "\n"@
}

pub open spec fn unanswered_lines(s: Seq<Unanswered>) -> Seq<char>
    decreases s.len(),
{
    if s.len() == 0 {
        Seq::empty()
    } else {
        unanswered_lines(s.drop_last()) + unanswered_line(s.last())
    }
}

/// The part of a what-if that lists the cells that moved.
pub open spec fn moved_part(x: Impact, redact: bool) -> Seq<char> {
    if x.moved@.len() == 0 {
        Seq::empty()
    } else {
        "\nmoved ("@ + text::decimal(x.moved@.len()) + " of "@ + text::decimal(
            x.report.moved as nat,
        ) + ")\n"@ + moved_lines(x.moved@, redact) + (if x.report.moved_not_listed > 0 {
            "  … "@ + text::decimal(x.report.moved_not_listed as nat) + " more, raise limit\n"@
        } else {
            Seq::empty()
        })
    }
}

/// The part of a what-if that lists the cells without an answer.
pub open spec fn unanswered_part(x: Impact) -> Seq<char> {
    if x.unanswered@.len() == 0 {
        Seq::empty()
    } else {
        "\nno answer ("@ + text::decimal(x.unanswered@.len()) + " of "@ + text::decimal(
            x.report.blocked as nat,
        ) + ") — the change reaches these and this cannot say where it leaves them\n"@
            + unanswered_lines(x.unanswered@)
    }
}

/// How far a change reached, in words.
pub open spec fn reach_part(r: ImpactReport) -> Seq<char> {
    "\n"@ + text::decimal(r.affected as nat) + " cell(s) downstream over "@ + text::decimal(
        r.levels as nat,
    ) + " level(s): "@ + text::decimal(r.moved as nat) + " moved, "@ + text::decimal(
        r.unchanged as nat,
    ) + " unchanged, "@ + text::decimal(r.blocked as nat) + " with no answer\n"@ + (
    match r.stopped {
        Some(s) => "the walk stopped at "@ + s@ + " — the change reaches further than this\n"@,
        None => Seq::empty(),
    })
}

/// What `what_if` answers.
pub open spec fn impact_text(note: Seq<char>, x: Impact, redact: bool) -> Seq<char> {
    note + applied_lines(x.changes@, redact) + reach_part(x.report) + moved_part(x, redact)
        + unanswered_part(x) + (if x.report.affected == 0 {
        "\nnothing in this workbook reads it.\n"@
    } else {
        Seq::empty()
    })
}

fn push_applied_line(out: &mut String, x: &Applied, redact: bool)
    ensures
        final(out)@ == old(out)@ + applied_line(*x, redact),
{
    let mut line: String = String::new();
    push_padded(&mut line, x.a1.as_str(), 24);
    assert(line@ =~= padded(x.a1@, 24));
    line.push_str(" ");
    line.push_str(show(&x.before, redact).as_str());
    line.push_str(" → ");
    line.push_str(show(&x.after, redact).as_str());
    line.push_str("\n");
    let mut replaced: String = String::new();
    if let Some(f) = &x.replaced_formula {
        replaced = "  replacing =".to_owned();
        replaced.push_str(show_formula(f.as_str(), redact).as_str());
        replaced.push_str("\n");
    } else {
        assert(replaced@ =~= Seq::<char>::empty());
    }
    line.push_str(replaced.as_str());
    out.push_str(line.as_str());
}

fn push_applied(out: &mut String, changes: &Vec<Applied>, redact: bool)
    ensures
        final(out)@ == old(out)@ + applied_lines(changes@, redact),
{
    let ghost before = out@;
    let mut i: usize = 0;
    assert(before + applied_lines(changes@.take(0), redact) =~= before);
    while i < changes.len()
        invariant
            i <= changes@.len(),
            out@ == before + applied_lines(changes@.take(i as int), redact),
        decreases changes@.len() - i,
    {
        let x: &Applied = &changes[i];
        proof {
            assert(changes@.take(i + 1).drop_last() =~= changes@.take(i as int));
            assert(changes@.take(i + 1).last() == *x);
        }
        push_applied_line(out, x, redact);
        assert(out@ =~= before + (applied_lines(changes@.take(i as int), redact) + applied_line(
            *x,
            redact,
        )));
        i += 1;
    }
    assert(changes@.take(i as int) =~= changes@);
}

fn push_moved_line(out: &mut String, x: &Moved, redact: bool)
    ensures
        final(out)@ == old(out)@ + moved_line(*x, redact),
{
    let mut line: String = "  ".to_owned();
    push_padded(&mut line, x.a1.as_str(), 24);
    line.push_str(" =");
    line.push_str(show_formula(x.formula.as_str(), redact).as_str());
    line.push_str("\n    ");
    line.push_str(show(&x.before, redact).as_str());
    line.push_str(" → ");
    line.push_str(show(&x.after, redact).as_str());
    line.push_str("   (level ");
    push_decimal(&mut line, x.level);
    line.push_str(")");
    if x.was_stale {
        line.push_str("  — this cell already disagreed with its stored value");
    } else {
        assert(line@ =~= line@ + Seq::<char>::empty());
    }
    line.push_str("\n");
    out.push_str(line.as_str());
}

fn push_moved(out: &mut String, moved: &Vec<Moved>, redact: bool)
    ensures
        final(out)@ == old(out)@ + moved_lines(moved@, redact),
{
    let ghost before = out@;
    let mut i: usize = 0;
    assert(before + moved_lines(moved@.take(0), redact) =~= before);
    while i < moved.len()
        invariant
            i <= moved@.len(),
            out@ == before + moved_lines(moved@.take(i as int), redact),
        decreases moved@.len() - i,
    {
        let x: &Moved = &moved[i];
        proof {
            assert(moved@.take(i + 1).drop_last() =~= moved@.take(i as int));
            assert(moved@.take(i + 1).last() == *x);
        }
        push_moved_line(out, x, redact);
        assert(out@ =~= before + (moved_lines(moved@.take(i as int), redact) + moved_line(
            *x,
            redact,
        )));
        i += 1;
    }
    assert(moved@.take(i as int) =~= moved@);
}

fn push_unanswered_line(out: &mut String, x: &Unanswered)
    ensures
        final(out)@ == old(out)@ + unanswered_line(*x),
{
    let why: String = match &x.reason {
        Blocked::Formula(reason) => reason.clone(),
        Blocked::Upstream(cause) => {
            let mut why: String = "reads ".to_owned();
            why.push_str(cause.as_str());
            why.push_str(", which has no answer");
            why
        },
        Blocked::Cycle => "circular reference".to_owned(),
    };
    let mut line: String = "  ".to_owned();
    push_padded(&mut line, x.a1.as_str(), 24);
    line.push_str(" ");
    line.push_str(why.as_str());
    line.push_str("\n");
    out.push_str(line.as_str());
}

fn push_unanswered(out: &mut String, cells: &Vec<Unanswered>)
    ensures
        final(out)@ == old(out)@ + unanswered_lines(cells@),
{
    let ghost before = out@;
    let mut i: usize = 0;
    assert(before + unanswered_lines(cells@.take(0)) =~= before);
    while i < cells.len()
        invariant
            i <= cells@.len(),
            out@ == before + unanswered_lines(cells@.take(i as int)),
        decreases cells@.len() - i,
    {
        proof {
            assert(cells@.take(i + 1).drop_last() =~= cells@.take(i as int));
            assert(cells@.take(i + 1).last() == cells@[i as int]);
        }
        push_unanswered_line(out, &cells[i]);
        assert(out@ =~= before + (unanswered_lines(cells@.take(i as int)) + unanswered_line(
            cells@[i as int],
        )));
        i += 1;
    }
    assert(cells@.take(i as int) =~= cells@);
}

fn push_reach(out: &mut String, report: &ImpactReport)
    ensures
        final(out)@ == old(out)@ + reach_part(*report),
{
    let mut line: String = "\n".to_owned();
    push_decimal(&mut line, report.affected);
    line.push_str(" cell(s) downstream over ");
    push_decimal(&mut line, report.levels);
    line.push_str(" level(s): ");
    push_decimal(&mut line, report.moved);
    line.push_str(" moved, ");
    push_decimal(&mut line, report.unchanged);
    line.push_str(" unchanged, ");
    push_decimal(&mut line, report.blocked);
    line.push_str(" with no answer\n");
    let mut stop: String = String::new();
    if let Some(stopped) = &report.stopped {
        stop = "the walk stopped at ".to_owned();
        stop.push_str(stopped.as_str());
        stop.push_str(" — the change reaches further than this\n");
    } else {
        assert(stop@ =~= Seq::<char>::empty());
    }
    line.push_str(stop.as_str());
    out.push_str(line.as_str());
}

fn push_moved_part(out: &mut String, impact: &Impact, redact: bool)
    ensures
        final(out)@ == old(out)@ + moved_part(*impact, redact),
{
    let ghost before = out@;
    if impact.moved.len() > 0 {
        out.push_str("\nmoved (");
        push_decimal(out, impact.moved.len() as u64);
        out.push_str(" of ");
        push_decimal(out, impact.report.moved);
        out.push_str(")\n");
        push_moved(out, &impact.moved, redact);
        if impact.report.moved_not_listed > 0 {
            out.push_str("  … ");
            push_decimal(out, impact.report.moved_not_listed);
            out.push_str(" more, raise limit\n");
        }
    }
    assert(out@ =~= before + moved_part(*impact, redact));
}

fn push_unanswered_part(out: &mut String, impact: &Impact)
    ensures
        final(out)@ == old(out)@ + unanswered_part(*impact),
{
    let ghost before = out@;
    if impact.unanswered.len() > 0 {
        out.push_str("\nno answer (");
        push_decimal(out, impact.unanswered.len() as u64);
        out.push_str(" of ");
        push_decimal(out, impact.report.blocked);
        out.push_str(
            ") — the change reaches these and this cannot say where it leaves them\n",
        );
        push_unanswered(out, &impact.unanswered);
    }
    assert(out@ =~= before + unanswered_part(*impact));
}

/// The answer of `what_if`, from what the evaluator found.
pub fn what_if_tool(note: &str, impact: &Impact, redact: bool) -> (r: String)
    ensures
        r@ == impact_text(note@, *impact, redact),
{
    let mut out: String = note.to_owned();
    push_applied(&mut out, &impact.changes, redact);
    push_reach(&mut out, &impact.report);
    push_moved_part(&mut out, impact, redact);
    push_unanswered_part(&mut out, impact);
    if impact.report.affected == 0 {
        out.push_str("\nnothing in this workbook reads it.\n");
    }
    assert(out@ =~= impact_text(note@, *impact, redact));
    out
}

// ---------------------------------------------------------------------------
// Tables.

/// A region has rows to read.
pub open spec fn has_rows(r: Region) -> bool {
    r.body_fits() && r.spec_body() is Some
}

/// The places of the regions that have rows to read.
pub open spec fn read_places(regions: Seq<Region>) -> Seq<int>
    decreases regions.len(),
{
    if regions.len() == 0 {
        Seq::empty()
    } else {
        let before = read_places(regions.drop_last());
        if has_rows(regions.last()) {
            before.push(regions.len() - 1)
        } else {
            before
        }
    }
}

/// The tables of some regions of a sheet.
pub open spec fn are_read(ts: Seq<Table>, sheet: Sheet, regions: Seq<Region>) -> bool {
    let at = read_places(regions);
    ts.len() == at.len() && forall|k: int|
        0 <= k < ts.len() ==> table::is_table_of(#[trigger] ts[k], sheet, regions[at[k]])
}

/// The tables of a sheet: those of its regions that have rows.
pub open spec fn are_tables_of(ts: Seq<Table>, sheet: Sheet) -> bool {
    exists|regions: Seq<Region>|
        region::in_place(
            regions,
            region::found(sheet, region::RegionOptions::usual()),
        ) && #[trigger] are_read(ts, sheet, regions)
}

/// Whether a region can be read: its rows and columns fit a worksheet.
fn fits(r: &Region) -> (b: bool)
    ensures
        b == r.body_fits(),
{
    let top: u64 = r.range.top as u64 + r.title_rows() as u64 + r.header_rows as u64;
    let left: u64 = r.range.left as u64 + r.header_cols as u64;
    top <= u32::MAX as u64 && left <= u16::MAX as u64
}

/// The tables of a sheet.
pub fn sheet_tables(sheet: &Sheet) -> (r: Vec<Table>)
    requires
        region::all_normalised(region::table_ranges(*sheet)),
    ensures
        are_tables_of(r@, *sheet),
        forall|k: int| 0 <= k < r@.len() ==> (#[trigger] r@[k]).body.normalised(),
{
    let regions: Vec<Region> = detect_regions(sheet);
    let ghost all = regions@;
    let mut out: Vec<Table> = Vec::new();
    let mut i: usize = 0;
    while i < regions.len()
        invariant
            all == regions@,
            i <= all.len(),
            are_read(out@, *sheet, all.take(i as int)),
            forall|k: int|
                0 <= k < out@.len() ==> 0 <= #[trigger] read_places(all.take(i as int))[k] < i,
            forall|k: int| 0 <= k < out@.len() ==> (#[trigger] out@[k]).body.normalised(),
        decreases all.len() - i,
    {
        let ghost now = all.take(i as int);
        let ghost next = all.take(i + 1);
        let ghost before = out@;
        proof {
            assert(next.drop_last() =~= now);
            assert(next.last() == all[i as int]);
        }
        if fits(&regions[i]) {
            if let Some(t) = read_table(sheet, &regions[i]) {
                out.push(t);
            }
        }
        proof {
            assert forall|k: int| 0 <= k < out@.len() implies 0 <= #[trigger] read_places(next)[k]
                < i + 1 by {
                if k < before.len() {
                    assert(read_places(next)[k] == read_places(now)[k]);
                }
            }
            assert forall|k: int| 0 <= k < out@.len() implies table::is_table_of(
                #[trigger] out@[k],
                *sheet,
                next[read_places(next)[k]],
            ) by {
                if k < before.len() {
                    assert(out@[k] == before[k]);
                    assert(read_places(next)[k] == read_places(now)[k]);
                    assert(table::is_table_of(before[k], *sheet, now[read_places(now)[k]]));
                    assert(next[read_places(next)[k]] == now[read_places(now)[k]]);
                }
            }
        }
        i += 1;
    }
    proof {
        assert(all.take(i as int) =~= all);
        assert(are_read(out@, *sheet, all));
    }
    out
}

/// Whether a sheet is asked about.
pub open spec fn is_wanted(sheet: Sheet, only: Option<Seq<char>>) -> bool {
    only matches Some(name) ==> name == sheet.name@
}

/// The tables of the sheets asked about, sheet by sheet.
pub open spec fn are_listed(ts: Seq<Table>, sheets: Seq<Sheet>, only: Option<Seq<char>>) -> bool
    decreases sheets.len(),
{
    if sheets.len() == 0 {
        ts.len() == 0
    } else {
        exists|n: int|
            #![trigger ts.take(n)]
            0 <= n <= ts.len() && are_listed(ts.take(n), sheets.drop_last(), only) && (
            if is_wanted(sheets.last(), only) {
                are_tables_of(ts.skip(n), sheets.last())
            } else {
                n == ts.len()
            })
    }
}

pub open spec fn column_line(c: TableColumn) -> Seq<char> {
    "    "@ + padded(
        if c.header@.len() == 0 {
            "(no header)"@
        } else {
            c.header@
        },
        38,
    ) + " "@ + padded(c.kind.shown(), 7) + " "@ + text::decimal(c.populated as nat)
        + " populated\n"@
}

pub open spec fn column_lines(s: Seq<TableColumn>) -> Seq<char>
    decreases s.len(),
{
    if s.len() == 0 {
        Seq::empty()
    } else {
        column_lines(s.drop_last()) + column_line(s.last())
    }
}

pub open spec fn table_part(w: Workbook, t: Table) -> Seq<char> {
    w.citation(t.body.sheet, t.body.local_a1()) + (match t.title {
        Some(title) => "  "@ + text::debug_text(title@),
        None => Seq::empty(),
    }) + "\n  "@ + text::decimal(t.body.height()) + " row(s), "@ + text::decimal(t.columns@.len())
        + " column(s)\n"@ + column_lines(t.columns@)
}

pub open spec fn table_parts(w: Workbook, ts: Seq<Table>) -> Seq<char>
    decreases ts.len(),
{
    if ts.len() == 0 {
        Seq::empty()
    } else {
        table_parts(w, ts.drop_last()) + table_part(w, ts.last())
    }
}

/// What `tables` answers: the first tables, how many more there are, and what to
/// do with them.
pub open spec fn tables_text(w: Workbook, head: Seq<char>, ts: Seq<Table>, limit: usize) -> Seq<
    char,
> {
    head + (if ts.len() > limit {
        table_parts(w, ts.take(limit as int)) + "\n… "@ + text::decimal((ts.len() - limit) as nat)
            + " more table(s) not listed\n"@
    } else {
        table_parts(w, ts)
    }) + (if ts.len() == 0 {
        "no tables found\n"@
    } else {
        "\nQuery one with `query_table`, naming its range and its column headers.\n"@
    })
}

fn push_column(out: &mut String, c: &TableColumn)
    ensures
        final(out)@ == old(out)@ + column_line(*c),
{
    let mut line: String = "    ".to_owned();
    if c.header.as_str().is_empty() {
        push_padded(&mut line, "(no header)", 38);
    } else {
        push_padded(&mut line, c.header.as_str(), 38);
    }
    line.push_str(" ");
    push_padded(&mut line, c.kind.as_str(), 7);
    line.push_str(" ");
    push_decimal(&mut line, c.populated);
    line.push_str(" populated\n");
    out.push_str(line.as_str());
}

fn push_columns(out: &mut String, columns: &Vec<TableColumn>)
    ensures
        final(out)@ == old(out)@ + column_lines(columns@),
{
    let ghost before = out@;
    let mut i: usize = 0;
    assert(before + column_lines(columns@.take(0)) =~= before);
    while i < columns.len()
        invariant
            i <= columns@.len(),
            out@ == before + column_lines(columns@.take(i as int)),
        decreases columns@.len() - i,
    {
        proof {
            assert(columns@.take(i + 1).drop_last() =~= columns@.take(i as int));
            assert(columns@.take(i + 1).last() == columns@[i as int]);
        }
        push_column(out, &columns[i]);
        assert(out@ =~= before + (column_lines(columns@.take(i as int)) + column_line(
            columns@[i as int],
        )));
        i += 1;
    }
    assert(columns@.take(i as int) =~= columns@);
}

fn push_table(out: &mut String, w: &Workbook, t: &Table)
    requires
        t.body.normalised(),
    ensures
        final(out)@ == old(out)@ + table_part(*w, *t),
{
    let mut line: String = w.cite_range(t.body);
    let mut titled: String = String::new();
    if let Some(title) = &t.title {
        titled = "  ".to_owned();
        titled.push_str(debug_str(title.as_str()).as_str());
    } else {
        assert(titled@ =~= Seq::<char>::empty());
    }
    line.push_str(titled.as_str());
    line.push_str("\n  ");
    push_decimal(&mut line, t.body.rows());
    line.push_str(" row(s), ");
    push_decimal(&mut line, t.columns.len() as u64);
    line.push_str(" column(s)\n");
    push_columns(&mut line, &t.columns);
    out.push_str(line.as_str());
}

/// The tables of the sheets asked about.
pub fn listed_tables(w: &Workbook, only: Option<&str>) -> (r: Vec<Table>)
    requires
        forall|i: int|
            0 <= i < w.sheets@.len() ==> region::all_normalised(
                region::table_ranges(#[trigger] w.sheets@[i]),
            ),
    ensures
        are_listed(r@, w.sheets@, opt_str_view(only)),
        forall|k: int| 0 <= k < r@.len() ==> (#[trigger] r@[k]).body.normalised(),
{
    let ghost sheets = w.sheets@;
    let ghost wanted = opt_str_view(only);
    let mut out: Vec<Table> = Vec::new();
    let mut i: usize = 0;
    while i < w.sheets.len()
        invariant
            sheets == w.sheets@,
            wanted == opt_str_view(only),
            forall|i: int|
                0 <= i < w.sheets@.len() ==> region::all_normalised(
                    region::table_ranges(#[trigger] w.sheets@[i]),
                ),
            i <= sheets.len(),
            are_listed(out@, sheets.take(i as int), wanted),
            forall|k: int| 0 <= k < out@.len() ==> (#[trigger] out@[k]).body.normalised(),
        decreases sheets.len() - i,
    {
        let sheet: &Sheet = &w.sheets[i];
        let ghost before = out@;
        proof {
            assert(sheets.take(i + 1).drop_last() =~= sheets.take(i as int));
            assert(sheets.take(i + 1).last() == *sheet);
        }
        let asked: bool = match only {
            Some(name) => same_text(name, sheet.name.as_str()),
            None => true,
        };
        if asked {
            let mut more: Vec<Table> = sheet_tables(sheet);
            let ghost added = more@;
            let ghost n = before.len() as int;
            out.append(&mut more);
            proof {
                assert(out@ =~= before + added);
                assert(out@.take(n) =~= before);
                assert(out@.skip(n) =~= added);
            }
        } else {
            assert(out@.take(out@.len() as int) =~= before);
        }
        i += 1;
    }
    assert(sheets.take(i as int) =~= sheets);
    out
}

/// The answer of `tables`: `opened` is how long the workbook took to open, where
/// it did.
pub fn tables(w: &Workbook, path: &str, opened: Option<&str>, ts: &Vec<Table>, limit: usize) -> (r:
    String)
    requires
        forall|k: int| 0 <= k < ts@.len() ==> (#[trigger] ts@[k]).body.normalised(),
    ensures
        r@ == tables_text(*w, opened_heading(path@, opt_str_view(opened)), ts@, limit),
{
    let mut out: String = heading_of(path, opened);
    let ghost head = out@;
    let total: usize = ts.len();
    let shown: usize = if total > limit {
        limit
    } else {
        total
    };
    let mut i: usize = 0;
    assert(head + table_parts(*w, ts@.take(0)) =~= head);
    while i < shown
        invariant
            forall|k: int| 0 <= k < ts@.len() ==> (#[trigger] ts@[k]).body.normalised(),
            shown <= ts@.len(),
            i <= shown,
            out@ == head + table_parts(*w, ts@.take(i as int)),
        decreases shown - i,
    {
        proof {
            assert(ts@.take(i + 1).drop_last() =~= ts@.take(i as int));
            assert(ts@.take(i + 1).last() == ts@[i as int]);
        }
        push_table(&mut out, w, &ts[i]);
        assert(out@ =~= head + (table_parts(*w, ts@.take(i as int)) + table_part(
            *w,
            ts@[i as int],
        )));
        i += 1;
    }
    if total > limit {
        out.push_str("\n… ");
        push_decimal(&mut out, (total - limit) as u64);
        out.push_str(" more table(s) not listed\n");
    }
    if total == 0 {
        out.push_str("no tables found\n");
    } else {
        out.push_str("\nQuery one with `query_table`, naming its range and its column headers.\n");
    }
    proof {
        assert(shown == total ==> ts@.take(shown as int) =~= ts@);
        assert(out@ =~= tables_text(*w, head, ts@, limit));
    }
    out
}

/// A region answers to a range: its own, or that of its rows, which is how
/// `tables` lists it.
pub open spec fn answers_to(region: Region, range: RangeRef) -> bool {
    region.range == range || (has_rows(region) && region.spec_body() == Some(range))
}

/// The place of the first region from `i` on that answers to a range, the length
/// where there is none.
pub open spec fn region_place(regions: Seq<Region>, range: RangeRef, i: nat) -> nat
    decreases regions.len() - i,
{
    if i >= regions.len() || answers_to(regions[i as int], range) {
        i
    } else {
        region_place(regions, range, i + 1)
    }
}

/// The table that a caller names by its range, or why there is none.
pub open spec fn names_table(r: Result<Table, String>, w: Workbook, citation: Seq<char>) -> bool {
    match cited_range(w, citation) {
        Err(m) => r matches Err(e) && e@ == m,
        Ok(range) => if range.sheet.0 >= w.sheets@.len() {
            r matches Err(e) && e@ == citation + " names no sheet of this workbook"@
        } else {
            let sheet = w.sheets@[range.sheet.0 as int];
            exists|regions: Seq<Region>|
                region::in_place(
                    regions,
                    region::found(sheet, region::RegionOptions::usual()),
                ) && #[trigger] settles_table(r, sheet, regions, range, citation)
        },
    }
}

/// What the region that answers to a range makes of a request for its table.
pub open spec fn settles_table(
    r: Result<Table, String>,
    sheet: Sheet,
    regions: Seq<Region>,
    range: RangeRef,
    citation: Seq<char>,
) -> bool {
    let k = region_place(regions, range, 0);
    if k >= regions.len() {
        r matches Err(e) && e@ == citation
            + " is not a table of this workbook — `tables` lists the ranges that are"@
    } else if has_rows(regions[k as int]) {
        r matches Ok(t) && table::is_table_of(t, sheet, regions[k as int])
    } else {
        r matches Err(e) && e@ == citation + " is a region with no rows under its header"@
    }
}

/// Whether a region answers to a range.
fn is_named_by(region: &Region, range: RangeRef) -> (r: bool)
    ensures
        r == answers_to(*region, range),
{
    if region.range == range {
        return true;
    }
    if !fits(region) {
        return false;
    }
    match region.body() {
        Some(body) => body == range,
        None => false,
    }
}

/// Find the table a caller named by its range, as `tables` lists it or with the
/// title, headers and labels around it.
pub fn table_at(w: &Workbook, citation: &str) -> (r: Result<Table, String>)
    requires
        forall|i: int|
            0 <= i < w.sheets@.len() ==> region::all_normalised(
                region::table_ranges(#[trigger] w.sheets@[i]),
            ),
    ensures
        names_table(r, *w, citation@),
{
    let range: RangeRef = match resolve_range(w, citation) {
        Ok(x) => x,
        Err(e) => return Err(e),
    };
    let sheet: &Sheet = match w.sheet(range.sheet) {
        Some(s) => s,
        None => {
            let mut out: String = citation.to_owned();
            out.push_str(" names no sheet of this workbook");
            return Err(out);
        },
    };
    let regions: Vec<Region> = detect_regions(sheet);
    let ghost all = regions@;
    let mut k: usize = 0;
    while k < regions.len() && !is_named_by(&regions[k], range)
        invariant
            all == regions@,
            k <= all.len(),
            region_place(all, range, 0) == region_place(all, range, k as nat),
        decreases all.len() - k,
    {
        k += 1;
    }
    let found: Result<Table, String> = if k >= regions.len() {
        let mut out: String = citation.to_owned();
        out.push_str(" is not a table of this workbook — `tables` lists the ranges that are");
        Err(out)
    } else {
        let t: Option<Table> = if fits(&regions[k]) {
            read_table(sheet, &regions[k])
        } else {
            None
        };
        match t {
            Some(t) => Ok(t),
            None => {
                let mut out: String = citation.to_owned();
                out.push_str(" is a region with no rows under its header");
                Err(out)
            },
        }
    };
    assert(settles_table(found, *sheet, all, range, citation@));
    found
}

/// A sheet with tables that a citation can tell apart: each sheet's id is its
/// place, and its declared tables are ranges of it that do not overlap.
pub open spec fn has_sound_sheets(w: Workbook) -> bool {
    forall|i: int|
        0 <= i < w.sheets@.len() ==> (#[trigger] w.sheets@[i]).id.0 == i && region::is_sound(
            w.sheets@[i],
        )
}

proof fn lemma_read_places(regions: Seq<Region>, k: int)
    requires
        0 <= k < read_places(regions).len(),
    ensures
        0 <= read_places(regions)[k] < regions.len(),
        has_rows(regions[read_places(regions)[k]]),
    decreases regions.len(),
{
    if k < read_places(regions.drop_last()).len() {
        lemma_read_places(regions.drop_last(), k);
    }
}

proof fn lemma_listed_on(ts: Seq<Table>, sheets: Seq<Sheet>, k: int) -> (at: (int, Seq<Region>, int))
    requires
        are_listed(ts, sheets, None),
        0 <= k < ts.len(),
    ensures
        0 <= at.0 < sheets.len(),
        region::in_place(
            at.1,
            region::found(sheets[at.0], region::RegionOptions::usual()),
        ),
        0 <= at.2 < at.1.len(),
        has_rows(at.1[at.2]),
        at.1[at.2].spec_body() == Some(ts[k].body),
    decreases sheets.len(),
{
    let n = choose|n: int|
        #![trigger ts.take(n)]
        0 <= n <= ts.len() && are_listed(ts.take(n), sheets.drop_last(), None) && are_tables_of(
            ts.skip(n),
            sheets.last(),
        );
    if k < n {
        let at = lemma_listed_on(ts.take(n), sheets.drop_last(), k);
        assert(ts.take(n)[k] == ts[k]);
        at
    } else {
        let here = ts.skip(n);
        let regions = choose|regions: Seq<Region>|
            region::in_place(
                regions,
                region::found(sheets.last(), region::RegionOptions::usual()),
            ) && #[trigger] are_read(here, sheets.last(), regions);
        assert(here[k - n] == ts[k]);
        lemma_read_places(regions, k - n);
        assert(table::is_table_of(here[k - n], sheets.last(), regions[read_places(regions)[k - n]]));
        (sheets.len() - 1, regions, read_places(regions)[k - n])
    }
}

/// The same regions are found whichever of two ways they are arranged in.
proof fn lemma_found_again(sheet: Sheet, a: Seq<Region>, b: Seq<Region>, i: int) -> (j: int)
    requires
        region::in_place(a, region::found(sheet, region::RegionOptions::usual())),
        region::in_place(b, region::found(sheet, region::RegionOptions::usual())),
        0 <= i < a.len(),
    ensures
        0 <= j < b.len(),
        a[i]@ == b[j]@,
{
    let all = region::found(sheet, region::RegionOptions::usual());
    let p = choose|order: Seq<usize>| region::arranged(a, all, order);
    let q = choose|order: Seq<usize>| region::arranged(b, all, order);
    sort::order_lists_every_place(q, region::corner_keys(all), p[i] as int);
    let j = choose|j: int| 0 <= j < q.len() && (#[trigger] q[j]) == p[i];
    assert(a[i]@ == all[p[i] as int]);
    assert(b[j]@ == all[q[j] as int]);
    j
}

proof fn lemma_region_place(regions: Seq<Region>, range: RangeRef, i: nat, j: int)
    requires
        i <= j < regions.len(),
        answers_to(regions[j], range),
    ensures
        i <= region_place(regions, range, i) <= j,
        answers_to(regions[region_place(regions, range, i) as int], range),
    decreases j - i,
{
    if !answers_to(regions[i as int], range) {
        lemma_region_place(regions, range, i + 1, j);
    }
}

/// Regions that look alike have the same rows.
proof fn lemma_same_rows(a: Region, b: Region)
    requires
        a@ == b@,
    ensures
        has_rows(a) == has_rows(b),
        a.spec_body() == b.spec_body(),
{
    assert(a@.title == b@.title);
    assert(a.spec_title_rows() == b.spec_title_rows());
}

/// On a sound sheet no other region answers to the range of a region's rows.
proof fn lemma_only_one_answers(sheet: Sheet, regions: Seq<Region>, range: RangeRef, j: int)
    requires
        region::is_sound(sheet),
        region::in_place(
            regions,
            region::found(sheet, region::RegionOptions::usual()),
        ),
        0 <= j < regions.len(),
        has_rows(regions[j]),
        regions[j].spec_body() == Some(range),
    ensures
        region_place(regions, range, 0) == j,
{
    lemma_region_place(regions, range, 0, j);
    let first = region_place(regions, range, 0) as int;
    if first < j {
        region::regions_never_overlap(sheet, region::RegionOptions::usual(), regions);
        assert(regions[first].range.overlaps(regions[j].range));
    }
}

/// The range under which `tables` lists a table is one that names it: asked for
/// by it, `query_table` gets that table and no other.
pub proof fn a_listed_range_names_its_table(
    w: Workbook,
    ts: Seq<Table>,
    k: int,
    citation: Seq<char>,
    r: Result<Table, String>,
)
    requires
        has_sound_sheets(w),
        are_listed(ts, w.sheets@, None),
        0 <= k < ts.len(),
        cited_range(w, citation) == Ok::<RangeRef, Seq<char>>(ts[k].body),
        names_table(r, w, citation),
    ensures
        r matches Ok(t) && t.body == ts[k].body,
{
    let range = ts[k].body;
    let (at, regions, i) = lemma_listed_on(ts, w.sheets@, k);
    let sheet = w.sheets@[at];
    let usual = region::RegionOptions::usual();
    region::regions_lie_on_their_sheet(sheet, usual, regions, i);
    assert(range.sheet == sheet.id);
    let again = choose|again: Seq<Region>|
        region::in_place(again, region::found(sheet, usual)) && #[trigger] settles_table(
            r,
            sheet,
            again,
            range,
            citation,
        );
    let j = lemma_found_again(sheet, regions, again, i);
    lemma_same_rows(regions[i], again[j]);
    lemma_only_one_answers(sheet, again, range, j);
}

proof fn lemma_sheet_place(sheets: Seq<Sheet>, name: Seq<char>, i: nat, at: int)
    requires
        i <= at < sheets.len(),
        text::same_but_for_case(sheets[at].name@, name),
        forall|j: int|
            i <= j < at ==> !text::same_but_for_case((#[trigger] sheets[j]).name@, name),
    ensures
        sheet_place(sheets, name, i) == at,
    decreases at - i,
{
    if i < at {
        assert(!text::same_but_for_case(sheets[i as int].name@, name));
        lemma_sheet_place(sheets, name, i + 1, at);
    }
}

/// A range as an answer prints it is a citation that leads back to it.
pub proof fn a_printed_range_can_be_cited(w: Workbook, range: RangeRef, at: int)
    requires
        0 <= at < w.sheets@.len(),
        w.sheets@[at].id.0 == at,
        range.sheet == w.sheets@[at].id,
        range.on_sheet(),
        w.sheets@[at].name@.len() > 0,
        forall|i: int|
            0 <= i < w.sheets@[at].name@.len() ==> #[trigger] w.sheets@[at].name@[i] != '['
                && w.sheets@[at].name@[i] != ':',
        forall|j: int|
            0 <= j < at ==> !text::same_but_for_case(
                (#[trigger] w.sheets@[j]).name@,
                w.sheets@[at].name@,
            ),
    ensures
        cited_range(w, w.citation(range.sheet, range.local_a1())) == Ok::<RangeRef, Seq<char>>(
            range,
        ),
{
    let name = w.sheets@[at].name@;
    address::citation_round_trips(name, range);
    lemma_sheet_place(w.sheets@, name, 0, at);
}

// ---------------------------------------------------------------------------
// Queries.

/// One group of a query's answer.
#[derive(Debug, PartialEq, Eq)]
pub struct QueryGroup {
    pub key: Vec<CellValue>,
    pub rows: u64,
    /// For each aggregate, its number where it is one.
    pub values: Vec<Option<Number>>,
    /// For each aggregate, its count where it is one.
    pub counts: Vec<Option<u64>>,
}

/// What a query came to.
#[derive(Debug, PartialEq, Eq)]
pub struct QueryAnswer {
    pub over: RangeRef,
    pub rows_scanned: u64,
    pub rows_matched: u64,
    /// Rows dropped because the column a filter tested held an error.
    pub rows_with_errors: u64,
    /// Error cells left out of the totals.
    pub errors_in_aggregates: u64,
    pub groups: Vec<QueryGroup>,
    pub groups_not_listed: u64,
}

/// A total is a value, and is redacted like any other.
pub open spec fn aggregate_text(
    label: Seq<char>,
    value: Option<Number>,
    count: Option<u64>,
    redact: bool,
) -> Seq<char> {
    label + " "@ + (match (value, count) {
        (Some(v), _) => value_text(CellValue::Number(v), redact),
        (None, Some(c)) => text::decimal(c as nat),
        (None, None) => "—"@,
    })
}

pub open spec fn key_text(key: Seq<CellValue>, redact: bool) -> Seq<char> {
    if key.len() == 0 {
        Seq::empty()
    } else {
        context::joined(key.map_values(|v: CellValue| value_text(v, redact)), " / "@) + "  "@
    }
}

pub open spec fn aggregate_texts(g: QueryGroup, labels: Seq<String>, redact: bool) -> Seq<
    Seq<char>,
> {
    Seq::new(
        labels.len(),
        |i: int| aggregate_text(labels[i]@, g.values@[i], g.counts@[i], redact),
    )
}

pub open spec fn group_line(g: QueryGroup, labels: Seq<String>, redact: bool) -> Seq<char> {
    "  "@ + key_text(g.key@, redact) + "("@ + text::decimal(g.rows as nat) + " rows)  "@
        + context::joined(aggregate_texts(g, labels, redact), ", "@) + "\n"@
}

pub open spec fn group_lines(s: Seq<QueryGroup>, labels: Seq<String>, redact: bool) -> Seq<char>
    decreases s.len(),
{
    if s.len() == 0 {
        Seq::empty()
    } else {
        group_lines(s.drop_last(), labels, redact) + group_line(s.last(), labels, redact)
    }
}

/// What a query was computed over. The range comes first: a table's boundaries
/// are inferred, and an answer that cannot be checked against the cells it came
/// from is a number with no provenance.
pub open spec fn over_part(w: Workbook, a: QueryAnswer) -> Seq<char> {
    "over "@ + w.citation(a.over.sheet, a.over.local_a1()) + "\n"@ + text::decimal(
        a.rows_scanned as nat,
    ) + " row(s) scanned, "@ + text::decimal(a.rows_matched as nat) + " matched\n"@ + (
    if a.rows_with_errors > 0 {
        text::decimal(a.rows_with_errors as nat)
            + " row(s) dropped: the column a filter tested held an error value\n"@
    } else {
        Seq::empty()
    }) + (if a.errors_in_aggregates > 0 {
        text::decimal(a.errors_in_aggregates as nat)
            + " error cell(s) left out of the totals — check the column before trusting them\n"@
    } else {
        Seq::empty()
    }) + "\n"@
}

/// What `query_table` answers.
pub open spec fn query_text(
    w: Workbook,
    head: Seq<char>,
    a: QueryAnswer,
    labels: Seq<String>,
    redact: bool,
) -> Seq<char> {
    head + over_part(w, a) + group_lines(a.groups@, labels, redact) + (if a.groups@.len() == 0 {
        "  no rows matched\n"@
    } else {
        Seq::empty()
    }) + (if a.groups_not_listed > 0 {
        "  … "@ + text::decimal(a.groups_not_listed as nat) + " more group(s), raise `limit`\n"@
    } else {
        Seq::empty()
    })
}

fn key_of(key: &Vec<CellValue>, redact: bool) -> (r: String)
    ensures
        r@ == key_text(key@, redact),
{
    let mut out: String = String::new();
    if key.len() == 0 {
        assert(out@ =~= Seq::<char>::empty());
        return out;
    }
    let mut parts: Vec<String> = Vec::new();
    let mut i: usize = 0;
    while i < key.len()
        invariant
            i <= key@.len(),
            parts@.len() == i,
            forall|k: int| 0 <= k < i ==> (#[trigger] parts@[k])@ == value_text(key@[k], redact),
        decreases key@.len() - i,
    {
        parts.push(show(&key[i], redact));
        i += 1;
    }
    push_joined(&mut out, &parts, " / ");
    proof {
        let texts = key@.map_values(|v: CellValue| value_text(v, redact));
        assert(parts@.map_values(|p: String| p@) =~= texts);
        assert(out@ =~= context::joined(texts, " / "@));
    }
    out.push_str("  ");
    out
}

fn aggregate_of(label: &str, value: &Option<Number>, count: Option<u64>, redact: bool) -> (r: String)
    ensures
        r@ == aggregate_text(label@, *value, count, redact),
{
    let mut out: String = label.to_owned();
    out.push_str(" ");
    match (value, count) {
        (Some(v), _) => out.push_str(show(&CellValue::Number(v.clone()), redact).as_str()),
        (None, Some(c)) => push_decimal(&mut out, c),
        (None, None) => out.push_str("—"),
    }
    out
}

fn push_group(out: &mut String, g: &QueryGroup, labels: &Vec<String>, redact: bool)
    requires
        g.values@.len() == labels@.len(),
        g.counts@.len() == labels@.len(),
    ensures
        final(out)@ == old(out)@ + group_line(*g, labels@, redact),
{
    let mut parts: Vec<String> = Vec::new();
    let mut i: usize = 0;
    while i < labels.len()
        invariant
            g.values@.len() == labels@.len(),
            g.counts@.len() == labels@.len(),
            i <= labels@.len(),
            parts@.len() == i,
            forall|k: int|
                0 <= k < i ==> (#[trigger] parts@[k])@ == aggregate_text(
                    labels@[k]@,
                    g.values@[k],
                    g.counts@[k],
                    redact,
                ),
        decreases labels@.len() - i,
    {
        parts.push(aggregate_of(labels[i].as_str(), &g.values[i], g.counts[i], redact));
        i += 1;
    }
    assert(parts@.map_values(|p: String| p@) =~= aggregate_texts(*g, labels@, redact));
    let mut line: String = "  ".to_owned();
    line.push_str(key_of(&g.key, redact).as_str());
    line.push_str("(");
    push_decimal(&mut line, g.rows);
    line.push_str(" rows)  ");
    push_joined(&mut line, &parts, ", ");
    line.push_str("\n");
    out.push_str(line.as_str());
}

fn push_over(out: &mut String, w: &Workbook, a: &QueryAnswer)
    ensures
        final(out)@ == old(out)@ + over_part(*w, *a),
{
    let mut line: String = "over ".to_owned();
    line.push_str(w.cite_range(a.over).as_str());
    line.push_str("\n");
    push_decimal(&mut line, a.rows_scanned);
    line.push_str(" row(s) scanned, ");
    push_decimal(&mut line, a.rows_matched);
    line.push_str(" matched\n");
    let mut dropped: String = String::new();
    if a.rows_with_errors > 0 {
        push_decimal(&mut dropped, a.rows_with_errors);
        dropped.push_str(" row(s) dropped: the column a filter tested held an error value\n");
        assert(dropped@ =~= text::decimal(a.rows_with_errors as nat)
            + " row(s) dropped: the column a filter tested held an error value\n"@);
    } else {
        assert(dropped@ =~= Seq::<char>::empty());
    }
    line.push_str(dropped.as_str());
    let mut errors: String = String::new();
    if a.errors_in_aggregates > 0 {
        push_decimal(&mut errors, a.errors_in_aggregates);
        errors.push_str(
            " error cell(s) left out of the totals — check the column before trusting them\n",
        );
        assert(errors@ =~= text::decimal(a.errors_in_aggregates as nat)
            + " error cell(s) left out of the totals — check the column before trusting them\n"@);
    } else {
        assert(errors@ =~= Seq::<char>::empty());
    }
    line.push_str(errors.as_str());
    line.push_str("\n");
    out.push_str(line.as_str());
}

/// The answer of `query_table`, from what the query came to. Each group has a
/// number or a count for each of the labels.
pub fn query_table(
    w: &Workbook,
    path: &str,
    opened: Option<&str>,
    answer: &QueryAnswer,
    labels: &Vec<String>,
    redact: bool,
) -> (r: String)
    requires
        forall|i: int|
            0 <= i < answer.groups@.len() ==> (#[trigger] answer.groups@[i]).values@.len()
                == labels@.len() && answer.groups@[i].counts@.len() == labels@.len(),
    ensures
        r@ == query_text(
            *w,
            opened_heading(path@, opt_str_view(opened)),
            *answer,
            labels@,
            redact,
        ),
{
    let mut out: String = heading_of(path, opened);
    push_over(&mut out, w, answer);
    let ghost head = out@;
    let ghost all = answer.groups@;
    let mut i: usize = 0;
    assert(head + group_lines(all.take(0), labels@, redact) =~= head);
    while i < answer.groups.len()
        invariant
            all == answer.groups@,
            forall|i: int|
                0 <= i < all.len() ==> (#[trigger] all[i]).values@.len() == labels@.len()
                    && all[i].counts@.len() == labels@.len(),
            i <= all.len(),
            out@ == head + group_lines(all.take(i as int), labels@, redact),
        decreases all.len() - i,
    {
        let g: &QueryGroup = &answer.groups[i];
        proof {
            assert(all.take(i + 1).drop_last() =~= all.take(i as int));
            assert(all.take(i + 1).last() == *g);
            assert(all[i as int].values@.len() == labels@.len());
        }
        push_group(&mut out, g, labels, redact);
        assert(out@ =~= head + (group_lines(all.take(i as int), labels@, redact) + group_line(
            *g,
            labels@,
            redact,
        )));
        i += 1;
    }
    assert(all.take(i as int) =~= all);
    if answer.groups.len() == 0 {
        out.push_str("  no rows matched\n");
    } else {
        assert(out@ =~= out@ + Seq::<char>::empty());
    }
    let mut more: String = String::new();
    if answer.groups_not_listed > 0 {
        more = "  … ".to_owned();
        push_decimal(&mut more, answer.groups_not_listed);
        more.push_str(" more group(s), raise `limit`\n");
    } else {
        assert(more@ =~= Seq::<char>::empty());
    }
    out.push_str(more.as_str());
    out
}

// ---------------------------------------------------------------------------
// The schema a workbook states in its lookups.

/// A relation that a group of lookup formulas states.
#[derive(Debug, PartialEq, Eq)]
pub struct Lookup {
    /// What kind of lookup it is.
    pub kind: String,
    /// Where its formulas are.
    pub from: RangeRef,
    /// The column that the key comes from, where it is one.
    pub key: Option<RangeRef>,
    pub table: RangeRef,
    pub column: Option<u64>,
    pub result: Option<RangeRef>,
    pub cells: u64,
    /// A banding over thresholds rather than a key to join on.
    pub approximate: bool,
}

/// The relations of a workbook.
#[derive(Debug, PartialEq, Eq)]
pub struct Schema {
    pub lookups: Vec<Lookup>,
    /// The formula groups that hold a lookup.
    pub with_lookups: u64,
    pub unrecognised: u64,
    pub unresolvable: u64,
}

pub open spec fn cited(w: Workbook, r: RangeRef) -> Seq<char> {
    w.citation(r.sheet, r.local_a1())
}

pub open spec fn lookup_part(w: Workbook, l: Lookup) -> Seq<char> {
    l.kind@ + " "@ + cited(w, l.from) + "\n  key "@ + (match l.key {
        Some(k) => cited(w, k),
        None => "(computed, no single column)"@,
    }) + " → "@ + cited(w, l.table) + (match l.column {
        Some(c) => " column "@ + text::decimal(c as nat),
        None => Seq::empty(),
    }) + "\n"@ + (match l.result {
        Some(x) => "  returns "@ + cited(w, x) + "\n"@,
        None => Seq::empty(),
    }) + "  "@ + text::decimal(l.cells as nat) + " formula cell(s)"@ + (if l.approximate {
        "  [approximate — a banding over thresholds, not a key to join on]"@
    } else {
        Seq::empty()
    }) + "\n"@
}

pub open spec fn lookup_parts(w: Workbook, s: Seq<Lookup>) -> Seq<char>
    decreases s.len(),
{
    if s.len() == 0 {
        Seq::empty()
    } else {
        lookup_parts(w, s.drop_last()) + lookup_part(w, s.last())
    }
}

/// The formulas of a lookup are on the sheet of a name.
pub open spec fn is_on(w: Workbook, l: Lookup, only: Option<Seq<char>>) -> bool {
    only matches Some(name) ==> w.name_of(l.from.sheet) == Some(name)
}

/// What a schema says before its relations.
pub open spec fn schema_head(s: Schema) -> Seq<char> {
    text::decimal(s.lookups@.len()) + " relation(s) stated by "@ + text::decimal(
        s.with_lookups as nat,
    ) + " lookup formula group(s)"@ + (if s.unrecognised > 0 || s.unresolvable > 0 {
        " ("@ + text::decimal(s.unrecognised as nat) + " shape(s) not read, "@ + text::decimal(
            s.unresolvable as nat,
        ) + " pointing outside this workbook)"@
    } else {
        Seq::empty()
    }) + "\n\n"@
}

/// What `schema` answers.
pub open spec fn schema_text(
    w: Workbook,
    head: Seq<char>,
    s: Schema,
    only: Option<Seq<char>>,
    limit: usize,
) -> Seq<char> {
    let wanted = s.lookups@.filter(|l: Lookup| is_on(w, l, only));
    head + schema_head(s) + (if wanted.len() > limit {
        lookup_parts(w, wanted.take(limit as int)) + "\n… "@ + text::decimal(
            (wanted.len() - limit) as nat,
        ) + " more relation(s)\n"@
    } else {
        lookup_parts(w, wanted)
    }) + (if wanted.len() == 0 {
        "no lookup relations here\n"@
    } else {
        Seq::empty()
    })
}

fn push_lookup(out: &mut String, w: &Workbook, l: &Lookup)
    ensures
        final(out)@ == old(out)@ + lookup_part(*w, *l),
{
    let mut line: String = l.kind.clone();
    line.push_str(" ");
    line.push_str(w.cite_range(l.from).as_str());
    line.push_str("\n  key ");
    match l.key {
        Some(k) => line.push_str(w.cite_range(k).as_str()),
        None => line.push_str("(computed, no single column)"),
    }
    line.push_str(" → ");
    line.push_str(w.cite_range(l.table).as_str());
    let mut column: String = String::new();
    if let Some(c) = l.column {
        column = " column ".to_owned();
        push_decimal(&mut column, c);
    } else {
        assert(column@ =~= Seq::<char>::empty());
    }
    line.push_str(column.as_str());
    line.push_str("\n");
    let mut given: String = String::new();
    if let Some(x) = l.result {
        given = "  returns ".to_owned();
        given.push_str(w.cite_range(x).as_str());
        given.push_str("\n");
    } else {
        assert(given@ =~= Seq::<char>::empty());
    }
    line.push_str(given.as_str());
    line.push_str("  ");
    push_decimal(&mut line, l.cells);
    line.push_str(" formula cell(s)");
    if l.approximate {
        line.push_str("  [approximate — a banding over thresholds, not a key to join on]");
    } else {
        assert(line@ =~= line@ + Seq::<char>::empty());
    }
    line.push_str("\n");
    out.push_str(line.as_str());
}

fn push_schema_head(out: &mut String, s: &Schema)
    ensures
        final(out)@ == old(out)@ + schema_head(*s),
{
    let mut line: String = String::new();
    push_decimal(&mut line, s.lookups.len() as u64);
    assert(line@ =~= text::decimal(s.lookups@.len()));
    line.push_str(" relation(s) stated by ");
    push_decimal(&mut line, s.with_lookups);
    line.push_str(" lookup formula group(s)");
    let mut rest: String = String::new();
    if s.unrecognised > 0 || s.unresolvable > 0 {
        rest = " (".to_owned();
        push_decimal(&mut rest, s.unrecognised);
        rest.push_str(" shape(s) not read, ");
        push_decimal(&mut rest, s.unresolvable);
        rest.push_str(" pointing outside this workbook)");
    } else {
        assert(rest@ =~= Seq::<char>::empty());
    }
    line.push_str(rest.as_str());
    line.push_str("\n\n");
    out.push_str(line.as_str());
}

/// Whether the formulas of a lookup are on the sheet asked about.
fn stands_on(w: &Workbook, l: &Lookup, only: Option<&str>) -> (r: bool)
    ensures
        r == is_on(*w, *l, opt_str_view(only)),
{
    match only {
        None => true,
        Some(name) => match w.sheet_name(l.from.sheet) {
            Some(n) => same_text(n, name),
            None => false,
        },
    }
}

/// The lookups asked about, among the first so many.
spec fn kept_before(w: Workbook, s: Seq<Lookup>, only: Option<Seq<char>>, n: int) -> Seq<Lookup> {
    s.take(n).filter(|l: Lookup| is_on(w, l, only))
}

proof fn lemma_kept_step(w: Workbook, s: Seq<Lookup>, only: Option<Seq<char>>, n: int)
    requires
        0 <= n < s.len(),
    ensures
        kept_before(w, s, only, n + 1) == (if is_on(w, s[n], only) {
            kept_before(w, s, only, n).push(s[n])
        } else {
            kept_before(w, s, only, n)
        }),
{
    reveal(Seq::filter);
    assert(s.take(n + 1).drop_last() =~= s.take(n));
    assert(s.take(n + 1).last() == s[n]);
}

proof fn lemma_kept_none(w: Workbook, s: Seq<Lookup>, only: Option<Seq<char>>)
    ensures
        kept_before(w, s, only, 0) == Seq::<Lookup>::empty(),
{
    reveal(Seq::filter);
    assert(s.take(0) =~= Seq::empty());
}

proof fn lemma_one_more_part(w: Workbook, s: Seq<Lookup>, l: Lookup, limit: usize, before: Seq<char>)
    ensures
        s.len() < limit ==> before + lookup_parts(w, first_of(s, limit)) + lookup_part(w, l)
            == before + lookup_parts(w, first_of(s.push(l), limit)),
        s.len() >= limit ==> first_of(s.push(l), limit) == first_of(s, limit),
{
    if s.len() < limit {
        assert(s.push(l).drop_last() =~= s);
        assert(before + lookup_parts(w, s) + lookup_part(w, l) =~= before + (lookup_parts(w, s)
            + lookup_part(w, l)));
    } else {
        assert(first_of(s.push(l), limit) =~= first_of(s, limit));
    }
}

/// Print the lookups asked about, up to a limit, and say how many they are.
fn push_lookups(
    out: &mut String,
    w: &Workbook,
    lookups: &Vec<Lookup>,
    only: Option<&str>,
    limit: usize,
) -> (count: usize)
    ensures
        ({
            let wanted = lookups@.filter(|l: Lookup| is_on(*w, l, opt_str_view(only)));
            &&& count == wanted.len()
            &&& final(out)@ == old(out)@ + lookup_parts(*w, first_of(wanted, limit))
        }),
{
    let ghost before = out@;
    let ghost name = opt_str_view(only);
    let mut count: usize = 0;
    let mut i: usize = 0;
    proof {
        lemma_kept_none(*w, lookups@, name);
        assert(before + lookup_parts(*w, first_of(Seq::empty(), limit)) =~= before);
    }
    while i < lookups.len()
        invariant
            name == opt_str_view(only),
            i <= lookups@.len(),
            count == kept_before(*w, lookups@, name, i as int).len(),
            count <= i,
            out@ == before + lookup_parts(
                *w,
                first_of(kept_before(*w, lookups@, name, i as int), limit),
            ),
        decreases lookups@.len() - i,
    {
        let l: &Lookup = &lookups[i];
        proof {
            let so_far = kept_before(*w, lookups@, name, i as int);
            lemma_kept_step(*w, lookups@, name, i as int);
            lemma_one_more_part(*w, so_far, *l, limit, before);
        }
        if stands_on(w, l, only) {
            if count < limit {
                push_lookup(out, w, l);
            }
            count += 1;
        }
        i += 1;
    }
    assert(lookups@.take(i as int) =~= lookups@);
    count
}

/// The answer of `schema`, from the relations that the evaluator inferred.
pub fn schema(
    w: &Workbook,
    path: &str,
    opened: Option<&str>,
    found: &Schema,
    only: Option<&str>,
    limit: usize,
) -> (r: String)
    ensures
        r@ == schema_text(
            *w,
            opened_heading(path@, opt_str_view(opened)),
            *found,
            opt_str_view(only),
            limit,
        ),
{
    let mut out: String = heading_of(path, opened);
    push_schema_head(&mut out, found);
    let mut listed: String = String::new();
    let count: usize = push_lookups(&mut listed, w, &found.lookups, only, limit);
    let ghost wanted = found.lookups@.filter(|l: Lookup| is_on(*w, l, opt_str_view(only)));
    proof {
        assert(listed@ =~= lookup_parts(*w, first_of(wanted, limit)));
        assert(wanted.len() > limit ==> first_of(wanted, limit) == wanted.take(limit as int));
    }
    if count > limit {
        listed.push_str("\n… ");
        push_decimal(&mut listed, (count - limit) as u64);
        listed.push_str(" more relation(s)\n");
    }
    out.push_str(listed.as_str());
    if count == 0 {
        out.push_str("no lookup relations here\n");
    } else {
        assert(out@ =~= out@ + Seq::<char>::empty());
    }
    out
}

/// The first so many of some lookups.
spec fn first_of(s: Seq<Lookup>, n: usize) -> Seq<Lookup> {
    if s.len() <= n {
        s
    } else {
        s.take(n as int)
    }
}

// ---------------------------------------------------------------------------
// Asking the corpus.

pub open spec fn entry_part(e: CorpusEntry) -> Seq<char> {
    short_hash(e.hash@) + "  "@ + e.path@ + "\n    "@ + text::decimal(e.sheets as nat)
        + " sheets, "@ + text::decimal(e.cells as nat) + " cells, "@ + text::decimal(
        e.nodes as nat,
    ) + " nodes, "@ + text::decimal(e.edges as nat) + " edges\n"@
}

pub open spec fn entry_parts(s: Seq<CorpusEntry>) -> Seq<char>
    decreases s.len(),
{
    if s.len() == 0 {
        Seq::empty()
    } else {
        entry_parts(s.drop_last()) + entry_part(s.last())
    }
}

/// What `workbooks` answers.
pub open spec fn workbooks_text(entries: Seq<CorpusEntry>) -> Seq<char> {
    if entries.len() == 0 {
        "The corpus is empty. Index a workbook first."@
    } else {
        text::decimal(entries.len()) + " workbook(s)\n"@ + entry_parts(entries)
    }
}

fn push_entry(out: &mut String, e: &CorpusEntry)
    ensures
        final(out)@ == old(out)@ + entry_part(*e),
{
    let mut line: String = String::new();
    push_short(&mut line, e.hash.as_str());
    assert(line@ =~= short_hash(e.hash@));
    line.push_str("  ");
    line.push_str(e.path.as_str());
    line.push_str("\n    ");
    push_decimal(&mut line, e.sheets);
    line.push_str(" sheets, ");
    push_decimal(&mut line, e.cells);
    line.push_str(" cells, ");
    push_decimal(&mut line, e.nodes);
    line.push_str(" nodes, ");
    push_decimal(&mut line, e.edges);
    line.push_str(" edges\n");
    out.push_str(line.as_str());
}

/// The answer of `workbooks`.
pub fn workbooks(entries: &Vec<CorpusEntry>) -> (r: String)
    ensures
        r@ == workbooks_text(entries@),
{
    if entries.len() == 0 {
        return "The corpus is empty. Index a workbook first.".to_owned();
    }
    let mut out: String = String::new();
    push_decimal(&mut out, entries.len() as u64);
    assert(out@ =~= text::decimal(entries@.len()));
    out.push_str(" workbook(s)\n");
    let ghost head = out@;
    let mut i: usize = 0;
    assert(head + entry_parts(entries@.take(0)) =~= head);
    while i < entries.len()
        invariant
            i <= entries@.len(),
            out@ == head + entry_parts(entries@.take(i as int)),
        decreases entries@.len() - i,
    {
        proof {
            assert(entries@.take(i + 1).drop_last() =~= entries@.take(i as int));
            assert(entries@.take(i + 1).last() == entries@[i as int]);
        }
        push_entry(&mut out, &entries[i]);
        assert(out@ =~= head + (entry_parts(entries@.take(i as int)) + entry_part(
            entries@[i as int],
        )));
        i += 1;
    }
    assert(entries@.take(i as int) =~= entries@);
    out
}

/// A question put to the corpus.
#[derive(Debug, PartialEq, Eq)]
pub struct Question {
    pub query: String,
    /// How many results are wanted.
    pub wanted: usize,
    /// The hash of the one workbook to ask, where it is one.
    pub workbook: Option<String>,
    pub sheet: Option<String>,
    pub lexical_only: bool,
}

/// What is wrong with the workbook of a question.
pub open spec fn workbook_fault(args: json::Tree, entries: Seq<CorpusEntry>) -> Option<Seq<char>> {
    match args::optional_text(args, "workbook"@) {
        Err(e) => Some(e),
        Ok(None) => None,
        Ok(Some(want)) => match state::meant(entries, Some(want)) {
            Err(e) => Some(e),
            Ok(_) => None,
        },
    }
}

/// What is wrong with the sheet of a question, or with its flag.
pub open spec fn scope_fault(args: json::Tree) -> Option<Seq<char>> {
    if let Err(e) = args::optional_text(args, "sheet"@) {
        Some(e)
    } else if let Err(e) = args::optional_flag(args, "lexical_only"@) {
        Some(e)
    } else {
        None
    }
}

/// The first thing wrong with the arguments of `search`.
pub open spec fn search_fault(args: json::Tree, entries: Seq<CorpusEntry>) -> Option<Seq<char>> {
    if let Err(e) = args::wanted_text(args, "query"@) {
        Some(e)
    } else if workbook_fault(args, entries) is Some {
        workbook_fault(args, entries)
    } else if let Err(e) = args::bounded_count(args, "limit"@, 8, 1, 100) {
        Some(e)
    } else {
        scope_fault(args)
    }
}

/// The first thing wrong with the question of `context`.
pub open spec fn context_fault(args: json::Tree, entries: Seq<CorpusEntry>) -> Option<Seq<char>> {
    if let Err(e) = args::wanted_text(args, "query"@) {
        Some(e)
    } else if let Err(e) = args::bounded_count(args, "seeds"@, 5, 1, 50) {
        Some(e)
    } else if workbook_fault(args, entries) is Some {
        workbook_fault(args, entries)
    } else {
        scope_fault(args)
    }
}

/// A question is what the arguments say.
pub open spec fn is_question(q: Question, args: json::Tree, entries: Seq<CorpusEntry>) -> bool {
    &&& args::wanted_text(args, "query"@) == Ok::<Seq<char>, Seq<char>>(q.query@)
    &&& match args::optional_text(args, "workbook"@) {
        Err(_) => false,
        Ok(None) => q.workbook is None,
        Ok(Some(want)) => q.workbook matches Some(h) && (state::meant(
            entries,
            Some(want),
        ) matches Ok(e) && e.hash@ == h@),
    }
    &&& args::optional_text(args, "sheet"@) == Ok::<Option<Seq<char>>, Seq<char>>(
        address::opt_view(q.sheet),
    )
    &&& args::optional_flag(args, "lexical_only"@) == Ok::<bool, Seq<char>>(q.lexical_only)
}

fn read_workbook(args: &Json, entries: &Vec<CorpusEntry>) -> (r: Result<Option<String>, String>)
    ensures
        match r {
            Ok(found) => {
                &&& workbook_fault(json::tree(*args), entries@) is None
                &&& match args::optional_text(json::tree(*args), "workbook"@) {
                    Err(_) => false,
                    Ok(None) => found is None,
                    Ok(Some(want)) => found matches Some(h) && (state::meant(
                        entries@,
                        Some(want),
                    ) matches Ok(e) && e.hash@ == h@),
                }
            },
            Err(e) => workbook_fault(json::tree(*args), entries@) == Some(e@),
        },
{
    match opt_str(args, "workbook") {
        Err(e) => Err(e),
        Ok(None) => Ok(None),
        Ok(Some(want)) => match resolve(entries, Some(want.as_str())) {
            Ok((hash, _)) => Ok(Some(hash)),
            Err(e) => Err(e),
        },
    }
}

fn read_scope(args: &Json) -> (r: Result<(Option<String>, bool), String>)
    ensures
        match r {
            Ok(x) => {
                &&& scope_fault(json::tree(*args)) is None
                &&& args::optional_text(json::tree(*args), "sheet"@) == Ok::<
                    Option<Seq<char>>,
                    Seq<char>,
                >(address::opt_view(x.0))
                &&& args::optional_flag(json::tree(*args), "lexical_only"@) == Ok::<
                    bool,
                    Seq<char>,
                >(x.1)
            },
            Err(e) => scope_fault(json::tree(*args)) == Some(e@),
        },
{
    let sheet: Option<String> = match opt_str(args, "sheet") {
        Ok(s) => s,
        Err(e) => return Err(e),
    };
    match opt_bool(args, "lexical_only") {
        Ok(b) => Ok((sheet, b)),
        Err(e) => Err(e),
    }
}

/// Read the question of `search`.
pub fn read_search(args: &Json, entries: &Vec<CorpusEntry>) -> (r: Result<Question, String>)
    ensures
        match r {
            Ok(q) => {
                &&& search_fault(json::tree(*args), entries@) is None
                &&& is_question(q, json::tree(*args), entries@)
                &&& args::bounded_count(json::tree(*args), "limit"@, 8, 1, 100) == Ok::<
                    usize,
                    Seq<char>,
                >(q.wanted)
            },
            Err(e) => search_fault(json::tree(*args), entries@) == Some(e@),
        },
{
    let query: String = match want_str(args, "query") {
        Ok(s) => s,
        Err(e) => return Err(e),
    };
    let workbook: Option<String> = match read_workbook(args, entries) {
        Ok(w) => w,
        Err(e) => return Err(e),
    };
    let wanted: usize = match opt_bounded(args, "limit", 8, 1, 100) {
        Ok(n) => n,
        Err(e) => return Err(e),
    };
    match read_scope(args) {
        Ok((sheet, lexical_only)) => Ok(
            Question { query, wanted, workbook, sheet, lexical_only },
        ),
        Err(e) => Err(e),
    }
}

/// Read the question of `context`.
pub fn read_context(args: &Json, entries: &Vec<CorpusEntry>) -> (r: Result<Question, String>)
    ensures
        match r {
            Ok(q) => {
                &&& context_fault(json::tree(*args), entries@) is None
                &&& is_question(q, json::tree(*args), entries@)
                &&& args::bounded_count(json::tree(*args), "seeds"@, 5, 1, 50) == Ok::<
                    usize,
                    Seq<char>,
                >(q.wanted)
            },
            Err(e) => context_fault(json::tree(*args), entries@) == Some(e@),
        },
{
    let query: String = match want_str(args, "query") {
        Ok(s) => s,
        Err(e) => return Err(e),
    };
    let wanted: usize = match opt_bounded(args, "seeds", 5, 1, 50) {
        Ok(n) => n,
        Err(e) => return Err(e),
    };
    let workbook: Option<String> = match read_workbook(args, entries) {
        Ok(w) => w,
        Err(e) => return Err(e),
    };
    match read_scope(args) {
        Ok((sheet, lexical_only)) => Ok(
            Question { query, wanted, workbook, sheet, lexical_only },
        ),
        Err(e) => Err(e),
    }
}

/// The first thing wrong with how far `context` is to walk.
pub open spec fn expansion_fault(args: json::Tree) -> Option<Seq<char>> {
    if let Err(e) = args::optional_count(args, "hops"@, 2) {
        Some(e)
    } else if let Err(e) = args::bounded_count(args, "budget"@, 40, 1, usize::MAX) {
        Some(e)
    } else if let Err(e) = args::optional_count(args, "children"@, 0) {
        Some(e)
    } else {
        None
    }
}

/// Read how far `context` is to walk.
pub fn read_expansion(args: &Json) -> (r: Result<ExpandOptions, String>)
    ensures
        match r {
            Ok(x) => {
                &&& expansion_fault(json::tree(*args)) is None
                &&& args::optional_count(json::tree(*args), "hops"@, 2) == Ok::<
                    usize,
                    Seq<char>,
                >(x.hops)
                &&& args::bounded_count(json::tree(*args), "budget"@, 40, 1, usize::MAX) == Ok::<
                    usize,
                    Seq<char>,
                >(x.budget)
                &&& args::optional_count(json::tree(*args), "children"@, 0) == Ok::<
                    usize,
                    Seq<char>,
                >(x.children)
                &&& x.min_weight == 1
            },
            Err(e) => expansion_fault(json::tree(*args)) == Some(e@),
        },
{
    let hops: usize = match opt_usize(args, "hops", 2) {
        Ok(n) => n,
        Err(e) => return Err(e),
    };
    let budget: usize = match opt_bounded(args, "budget", 40, 1, usize::MAX) {
        Ok(n) => n,
        Err(e) => return Err(e),
    };
    match opt_usize(args, "children", 0) {
        Ok(children) => Ok(ExpandOptions { hops, budget, children, min_weight: 1 }),
        Err(e) => Err(e),
    }
}

/// Read how much text `context` is to produce.
pub fn read_rendering(args: &Json) -> (r: Result<RenderOptions, String>)
    ensures
        match (
            r,
            args::bounded_count(json::tree(*args), "max_chars"@, 8000, 200, usize::MAX),
        ) {
            (Ok(x), Ok(n)) => x.max_chars == n && x.weights,
            (Err(e), Err(m)) => e@ == m,
            _ => false,
        },
{
    match opt_bounded(args, "max_chars", 8000, 200, usize::MAX) {
        Ok(max_chars) => Ok(RenderOptions { max_chars, weights: true }),
        Err(e) => Err(e),
    }
}

/// What is answered where nothing matched: what came of looking, and for a question
/// without a content word the banner that says so in front of it. A figure that
/// is in no index may be in a cell, and the evidence says that too.
pub open spec fn nothing_text(query: Seq<char>, found: Search) -> Seq<char> {
    (match found.banner() {
        Some(b) if found.no_content_words => b + "\n\n"@,
        _ => Seq::empty(),
    }) + text::debug_text(query) + " — "@ + found.found_on() + "."@
}

/// What stands in front of the results: a caveat below a list of answers is one
/// that most readers never reach.
pub open spec fn front_part(found: Search) -> Seq<char> {
    (match found.banner() {
        Some(b) => b + "\n\n"@,
        None => Seq::empty(),
    }) + "Matched: "@ + found.found_on() + "\n\n"@
}

pub open spec fn hit_line(h: Hit, score: Seq<char>) -> Seq<char> {
    "  "@ + score + "  "@ + padded(h.kind.shown(), 8) + " "@ + h.label@ + "\n"@ + (match h.a1 {
        Some(a1) => "          "@ + a1@ + "\n"@,
        None => Seq::empty(),
    })
}

pub open spec fn hit_lines(s: Seq<Hit>, scores: Seq<String>) -> Seq<char>
    decreases s.len(),
{
    if s.len() == 0 {
        Seq::empty()
    } else {
        hit_lines(s.drop_last(), scores) + hit_line(s.last(), scores[s.len() - 1]@)
    }
}

/// What `search` answers.
pub open spec fn search_text(query: Seq<char>, found: Search, scores: Seq<String>) -> Seq<char> {
    if found.hits@.len() == 0 {
        nothing_text(query, found)
    } else {
        front_part(found) + text::decimal(found.hits@.len()) + " hit(s) for "@ + text::debug_text(
            query,
        ) + "\n"@ + hit_lines(found.hits@, scores)
            + "\nFollow one with `context` for what explains it, or `read_cells` for the cells.\n"@
    }
}

/// What is answered where nothing matched.
pub fn nothing_matched(query: &str, found: &Search) -> (r: String)
    requires
        found.matched@.len() + found.unmatched@.len() <= u64::MAX,
    ensures
        r@ == nothing_text(query@, *found),
{
    let mut out: String = String::new();
    if found.no_content_words {
        if let Some(b) = found.warning() {
            out = b;
            out.push_str("\n\n");
        } else {
            assert(out@ =~= Seq::<char>::empty());
        }
    } else {
        assert(out@ =~= Seq::<char>::empty());
    }
    out.push_str(debug_str(query).as_str());
    out.push_str(" — ");
    out.push_str(found.evidence().as_str());
    out.push_str(".");
    out
}

fn front_of(found: &Search) -> (r: String)
    requires
        found.matched@.len() + found.unmatched@.len() <= u64::MAX,
    ensures
        r@ == front_part(*found),
{
    let mut out: String = String::new();
    if let Some(b) = found.warning() {
        out = b;
        out.push_str("\n\n");
    } else {
        assert(out@ =~= Seq::<char>::empty());
    }
    out.push_str("Matched: ");
    out.push_str(found.evidence().as_str());
    out.push_str("\n\n");
    out
}

fn push_hit(out: &mut String, h: &Hit, score: &str)
    ensures
        final(out)@ == old(out)@ + hit_line(*h, score@),
{
    let mut line: String = "  ".to_owned();
    line.push_str(score);
    line.push_str("  ");
    push_padded(&mut line, h.kind.as_str(), 8);
    line.push_str(" ");
    line.push_str(h.label.as_str());
    line.push_str("\n");
    let mut cited: String = String::new();
    if let Some(a1) = &h.a1 {
        cited = "          ".to_owned();
        cited.push_str(a1.as_str());
        cited.push_str("\n");
    } else {
        assert(cited@ =~= Seq::<char>::empty());
    }
    line.push_str(cited.as_str());
    out.push_str(line.as_str());
}

/// The answer of `search`, with the score of each hit as it is shown.
pub fn search(query: &str, found: &Search, scores: &Vec<String>) -> (r: String)
    requires
        scores@.len() == found.hits@.len(),
        found.matched@.len() + found.unmatched@.len() <= u64::MAX,
    ensures
        r@ == search_text(query@, *found, scores@),
{
    if found.hits.len() == 0 {
        return nothing_matched(query, found);
    }
    let mut out: String = front_of(found);
    push_decimal(&mut out, found.hits.len() as u64);
    out.push_str(" hit(s) for ");
    out.push_str(debug_str(query).as_str());
    out.push_str("\n");
    let ghost head = out@;
    let ghost all = found.hits@;
    let mut i: usize = 0;
    assert(head + hit_lines(all.take(0), scores@) =~= head);
    while i < found.hits.len()
        invariant
            all == found.hits@,
            scores@.len() == all.len(),
            i <= all.len(),
            out@ == head + hit_lines(all.take(i as int), scores@),
        decreases all.len() - i,
    {
        proof {
            assert(all.take(i + 1).drop_last() =~= all.take(i as int));
            assert(all.take(i + 1).last() == all[i as int]);
        }
        push_hit(&mut out, &found.hits[i], scores[i].as_str());
        assert(out@ =~= head + (hit_lines(all.take(i as int), scores@) + hit_line(
            all[i as int],
            scores@[i as int]@,
        )));
        i += 1;
    }
    assert(all.take(i as int) =~= all);
    out.push_str(
        "\nFollow one with `context` for what explains it, or `read_cells` for the cells.\n",
    );
    out
}

pub open spec fn missing_lines(s: Seq<String>) -> Seq<char>
    decreases s.len(),
{
    if s.len() == 0 {
        Seq::empty()
    } else {
        missing_lines(s.drop_last()) + ("\n"@ + short_hash(s.last()@)
            + ": matched in the index but is not in the corpus — reindex"@)
    }
}

pub open spec fn stale_line(w: WorkbookContext) -> Seq<char> {
    if w.stale_seeds@.len() == 0 {
        Seq::empty()
    } else {
        "\n"@ + short_hash(w.content_hash@) + ": "@ + text::decimal(w.stale_seeds@.len())
            + " seed(s) the index ranked no longer exist in the stored graph — reindex to refresh it"@
    }
}

pub open spec fn stale_lines(s: Seq<WorkbookContext>) -> Seq<char>
    decreases s.len(),
{
    if s.len() == 0 {
        Seq::empty()
    } else {
        stale_lines(s.drop_last()) + stale_line(s.last())
    }
}

/// What stands below a passage: what it was made from, and what is missing from
/// it.
pub open spec fn below_part(seeds: nat, retrieved: Retrieved, rendered: Rendered) -> Seq<char> {
    "\n---\n"@ + text::decimal(expand::node_total(retrieved.workbooks@)) + " node(s) from "@
        + text::decimal(seeds) + " seed(s), "@ + text::decimal(rendered.citations@.len())
        + " citation(s)"@ + (if rendered.omitted > 0 {
        ", "@ + text::decimal(rendered.omitted as nat) + " omitted to fit"@
    } else {
        Seq::empty()
    }) + missing_lines(retrieved.missing_workbooks@) + stale_lines(retrieved.workbooks@) + "\n"@
}

/// What `context` answers where something matched.
pub open spec fn context_text(found: Search, retrieved: Retrieved, rendered: Rendered) -> Seq<char> {
    front_part(found) + rendered.text@ + below_part(found.hits@.len(), retrieved, rendered)
}

/// What `context` answers: the passage, or what came of looking where there is
/// nothing to make one of.
pub open spec fn context_answer(
    query: Seq<char>,
    found: Search,
    retrieved: Retrieved,
    rendered: Rendered,
) -> Seq<char> {
    if found.hits@.len() == 0 {
        nothing_text(query, found)
    } else {
        context_text(found, retrieved, rendered)
    }
}

fn push_missing(out: &mut String, missing: &Vec<String>)
    ensures
        final(out)@ == old(out)@ + missing_lines(missing@),
{
    let ghost before = out@;
    let mut i: usize = 0;
    assert(before + missing_lines(missing@.take(0)) =~= before);
    while i < missing.len()
        invariant
            i <= missing@.len(),
            out@ == before + missing_lines(missing@.take(i as int)),
        decreases missing@.len() - i,
    {
        proof {
            assert(missing@.take(i + 1).drop_last() =~= missing@.take(i as int));
            assert(missing@.take(i + 1).last() == missing@[i as int]);
        }
        let mut line: String = "\n".to_owned();
        push_short(&mut line, missing[i].as_str());
        line.push_str(": matched in the index but is not in the corpus — reindex");
        out.push_str(line.as_str());
        assert(out@ =~= before + (missing_lines(missing@.take(i as int)) + line@));
        i += 1;
    }
    assert(missing@.take(i as int) =~= missing@);
}

fn push_stale(out: &mut String, workbooks: &Vec<WorkbookContext>)
    ensures
        final(out)@ == old(out)@ + stale_lines(workbooks@),
{
    let ghost before = out@;
    let mut i: usize = 0;
    assert(before + stale_lines(workbooks@.take(0)) =~= before);
    while i < workbooks.len()
        invariant
            i <= workbooks@.len(),
            out@ == before + stale_lines(workbooks@.take(i as int)),
        decreases workbooks@.len() - i,
    {
        let w: &WorkbookContext = &workbooks[i];
        proof {
            assert(workbooks@.take(i + 1).drop_last() =~= workbooks@.take(i as int));
            assert(workbooks@.take(i + 1).last() == *w);
        }
        let mut line: String = String::new();
        if w.stale_seeds.len() > 0 {
            line = "\n".to_owned();
            push_short(&mut line, w.content_hash.as_str());
            line.push_str(": ");
            push_decimal(&mut line, w.stale_seeds.len() as u64);
            line.push_str(
                " seed(s) the index ranked no longer exist in the stored graph — reindex to refresh it",
            );
        } else {
            assert(line@ =~= Seq::<char>::empty());
        }
        out.push_str(line.as_str());
        assert(out@ =~= before + (stale_lines(workbooks@.take(i as int)) + stale_line(*w)));
        i += 1;
    }
    assert(workbooks@.take(i as int) =~= workbooks@);
}

/// The answer of `context`: the passage, with what it was found on above it and
/// what is missing from it below; or what came of looking where nothing matched.
pub fn context(query: &str, found: &Search, retrieved: &Retrieved, rendered: &Rendered) -> (r:
    String)
    requires
        found.matched@.len() + found.unmatched@.len() <= u64::MAX,
        expand::node_total(retrieved.workbooks@) <= usize::MAX,
    ensures
        r@ == context_answer(query@, *found, *retrieved, *rendered),
{
    if found.hits.len() == 0 {
        return nothing_matched(query, found);
    }
    let mut below: String = "\n---\n".to_owned();
    push_decimal(&mut below, retrieved.total_nodes() as u64);
    below.push_str(" node(s) from ");
    push_decimal(&mut below, found.hits.len() as u64);
    below.push_str(" seed(s), ");
    push_decimal(&mut below, rendered.citations.len() as u64);
    below.push_str(" citation(s)");
    let mut cut: String = String::new();
    if rendered.omitted > 0 {
        cut = ", ".to_owned();
        push_decimal(&mut cut, rendered.omitted as u64);
        cut.push_str(" omitted to fit");
    } else {
        assert(cut@ =~= Seq::<char>::empty());
    }
    below.push_str(cut.as_str());
    push_missing(&mut below, &retrieved.missing_workbooks);
    push_stale(&mut below, &retrieved.workbooks);
    below.push_str("\n");
    let mut out: String = front_of(found);
    out.push_str(rendered.text.as_str());
    out.push_str(below.as_str());
    out
}

/// What is said of a text that begins with what was found on.
proof fn lemma_said_in_front(found: Search, rest: Seq<char>)
    ensures
        front_part(found).is_prefix_of(front_part(found) + rest),
        context::occurs_in("Matched: "@ + found.found_on(), front_part(found)),
        context::occurs_in(found.found_on(), front_part(found) + rest),
        found.banner() matches Some(b) ==> b.is_prefix_of(front_part(found)) && b.is_prefix_of(
            front_part(found) + rest,
        ),
{
    let on = found.found_on();
    let front = front_part(found);
    let banner = match found.banner() {
        Some(b) => b + "\n\n"@,
        None => Seq::empty(),
    };
    assert(front =~= banner + ("Matched: "@ + on) + "\n\n"@);
    assert(front =~= (banner + "Matched: "@) + on + "\n\n"@);
    context::lemma_occurs_wider(on, front, Seq::empty(), rest);
    assert(Seq::<char>::empty() + front + rest =~= front + rest);
    assert((front + rest).take(front.len() as int) =~= front);
    if let Some(b) = found.banner() {
        assert(front.take(b.len() as int) =~= b);
        assert((front + rest).take(b.len() as int) =~= b);
    }
}

proof fn lemma_said_of_a_miss(query: Seq<char>, found: Search)
    ensures
        context::occurs_in(found.found_on(), nothing_text(query, found)),
        found.no_content_words ==> found.banner() is Some && found.banner()->0.is_prefix_of(
            nothing_text(query, found),
        ),
{
    let whole = nothing_text(query, found);
    let first = match found.banner() {
        Some(b) if found.no_content_words => b + "\n\n"@,
        _ => Seq::empty(),
    };
    let head = first + text::debug_text(query) + " — "@;
    assert(whole == head + found.found_on() + "."@);
    if found.no_content_words {
        let b = found.banner()->0;
        assert(whole.take(b.len() as int) =~= b);
    }
}

/// Every answer says what it was found on, a miss too: where there is a result,
/// in front of it and behind any banner; where there is none, in place of it, and
/// a question without a content word is told so first.
pub proof fn every_answer_says_what_it_was_found_on(
    query: Seq<char>,
    found: Search,
    scores: Seq<String>,
    retrieved: Retrieved,
    rendered: Rendered,
)
    ensures
        context::occurs_in(found.found_on(), search_text(query, found, scores)),
        context::occurs_in(found.found_on(), context_answer(query, found, retrieved, rendered)),
        found.hits@.len() > 0 ==> {
            &&& front_part(found).is_prefix_of(search_text(query, found, scores))
            &&& front_part(found).is_prefix_of(context_text(found, retrieved, rendered))
            &&& context::occurs_in("Matched: "@ + found.found_on(), front_part(found))
            &&& found.banner() matches Some(b) ==> b.is_prefix_of(front_part(found))
        },
        found.no_content_words ==> found.banner() is Some && found.banner()->0.is_prefix_of(
            search_text(query, found, scores),
        ) && found.banner()->0.is_prefix_of(context_answer(query, found, retrieved, rendered)),
{
    if found.hits@.len() > 0 {
        let front = front_part(found);
        let count = text::decimal(found.hits@.len());
        let asked = " hit(s) for "@ + text::debug_text(query) + "\n"@;
        let listed = hit_lines(found.hits@, scores)
            + "\nFollow one with `context` for what explains it, or `read_cells` for the cells.\n"@;
        assert(search_text(query, found, scores) =~= front + (count + asked + listed));
        lemma_said_in_front(found, count + asked + listed);
        let rest = rendered.text@ + below_part(found.hits@.len(), retrieved, rendered);
        assert(context_text(found, retrieved, rendered) =~= front + rest);
        lemma_said_in_front(found, rest);
    } else {
        lemma_said_of_a_miss(query, found);
    }
}

/// References past the first one too many do not show: two lists that agree up to
/// the limit, and both go on, are answered alike.
pub proof fn references_past_the_limit_do_not_show(
    w: Workbook,
    range: RangeRef,
    note: Seq<char>,
    a: Seq<ReadRef>,
    b: Seq<ReadRef>,
    limit: usize,
)
    requires
        a.len() > limit,
        b.len() > limit,
        a.take(limit as int) == b.take(limit as int),
    ensures
        precedents_text(w, range, note, a, limit) == precedents_text(w, range, note, b, limit),
{
}

// ---------------------------------------------------------------------------
// Redaction.

/// A redacted value shows nothing but its kind.
pub proof fn a_redacted_value_shows_only_its_kind(a: CellValue, b: CellValue)
    requires
        a.spec_kind() == b.spec_kind(),
    ensures
        value_text(a, true) == value_text(b, true),
{
}

/// Two cells that differ at most in the values that redaction hides.
pub open spec fn differ_in_values(a: CellFact, b: CellFact) -> bool {
    &&& a.a1@ == b.a1@
    &&& a.value.spec_kind() == b.value.spec_kind()
    &&& match (a.formula, b.formula) {
        (Some(f), Some(g)) => formula::redacted(f@) == formula::redacted(g@),
        (None, None) => true,
        _ => false,
    }
}

proof fn lemma_redacted_lines(a: Seq<CellFact>, b: Seq<CellFact>)
    requires
        a.len() == b.len(),
        forall|i: int| 0 <= i < a.len() ==> differ_in_values(#[trigger] a[i], b[i]),
    ensures
        fact_lines(a, true) == fact_lines(b, true),
    decreases a.len(),
{
    if a.len() > 0 {
        let x = a.drop_last();
        let y = b.drop_last();
        assert forall|i: int| 0 <= i < x.len() implies differ_in_values(#[trigger] x[i], y[i]) by {
            assert(x[i] == a[i] && y[i] == b[i]);
        }
        lemma_redacted_lines(x, y);
        assert(differ_in_values(a[a.len() - 1], b[b.len() - 1]));
    }
}

/// A server told to redact says the same of two workbooks that differ only in
/// their values: the cells of a range read the same.
pub proof fn redacted_cells_say_nothing_of_their_values(
    w: Workbook,
    range: RangeRef,
    note: Seq<char>,
    a: Seq<CellFact>,
    b: Seq<CellFact>,
    capped: bool,
)
    requires
        a.len() == b.len(),
        forall|i: int| 0 <= i < a.len() ==> differ_in_values(#[trigger] a[i], b[i]),
    ensures
        cells_text(w, range, note, a, capped, true) == cells_text(w, range, note, b, capped, true),
{
    lemma_redacted_lines(a, b);
}

/// Two values are of the same kind.
pub open spec fn same_kind(a: CellValue, b: CellValue) -> bool {
    a.spec_kind() == b.spec_kind()
}

/// A server told to redact says the same of two scans that differ only in the
/// values that they met.
pub proof fn a_redacted_scan_says_nothing_of_its_values(
    note: Seq<char>,
    p: CellValue,
    q: CellValue,
    a: Seq<CellFact>,
    b: Seq<CellFact>,
    report: ScanReport,
)
    requires
        same_kind(p, q),
        a.len() == b.len(),
        forall|i: int| 0 <= i < a.len() ==> differ_in_values(#[trigger] a[i], b[i]),
    ensures
        found_text(note, p, a, report, true) == found_text(note, q, b, report, true),
{
    lemma_redacted_lines(a, b);
}

/// Two inputs that differ at most in the values that redaction hides.
pub open spec fn inputs_differ_in_values(a: Input, b: Input) -> bool {
    &&& a.a1@ == b.a1@
    &&& a.text@ == b.text@
    &&& match (a.value, b.value) {
        (Some(v), Some(w)) => same_kind(v, w),
        (None, None) => a.cells == b.cells,
        _ => false,
    }
}

/// Two outcomes that differ at most in the values that redaction hides.
pub open spec fn outcomes_differ_in_values(a: Outcome, b: Outcome) -> bool {
    match (a, b) {
        (Outcome::Agrees(v), Outcome::Agrees(w)) => same_kind(v, w),
        (
            Outcome::Differs { computed: v, stored: x },
            Outcome::Differs { computed: w, stored: y },
        ) => same_kind(v, w) && same_kind(x, y),
        (Outcome::Unsupported(x), Outcome::Unsupported(y)) => x@ == y@,
        _ => false,
    }
}

/// Two recomputed formulas that differ at most in the values that redaction
/// hides.
pub open spec fn results_differ_in_values(a: Recomputed, b: Recomputed) -> bool {
    &&& a.a1@ == b.a1@
    &&& formula::redacted(a.formula@) == formula::redacted(b.formula@)
    &&& outcomes_differ_in_values(a.outcome, b.outcome)
    &&& a.inputs@.len() == b.inputs@.len()
    &&& forall|i: int|
        0 <= i < a.inputs@.len() ==> inputs_differ_in_values(#[trigger] a.inputs@[i], b.inputs@[i])
}

proof fn lemma_redacted_inputs(a: Seq<Input>, b: Seq<Input>)
    requires
        a.len() == b.len(),
        forall|i: int| 0 <= i < a.len() ==> inputs_differ_in_values(#[trigger] a[i], b[i]),
    ensures
        input_lines(a, true) == input_lines(b, true),
    decreases a.len(),
{
    if a.len() > 0 {
        let x = a.drop_last();
        let y = b.drop_last();
        assert forall|i: int| 0 <= i < x.len() implies inputs_differ_in_values(
            #[trigger] x[i],
            y[i],
        ) by {
            assert(x[i] == a[i] && y[i] == b[i]);
        }
        lemma_redacted_inputs(x, y);
        assert(inputs_differ_in_values(a[a.len() - 1], b[b.len() - 1]));
    }
}

proof fn lemma_redacted_results(a: Seq<Recomputed>, b: Seq<Recomputed>)
    requires
        a.len() == b.len(),
        forall|i: int| 0 <= i < a.len() ==> results_differ_in_values(#[trigger] a[i], b[i]),
    ensures
        all_recomputed(a, true) == all_recomputed(b, true),
    decreases a.len(),
{
    if a.len() > 0 {
        let x = a.drop_last();
        let y = b.drop_last();
        assert forall|i: int| 0 <= i < x.len() implies results_differ_in_values(
            #[trigger] x[i],
            y[i],
        ) by {
            assert(x[i] == a[i] && y[i] == b[i]);
        }
        lemma_redacted_results(x, y);
        assert(results_differ_in_values(a[a.len() - 1], b[b.len() - 1]));
        lemma_redacted_inputs(a.last().inputs@, b.last().inputs@);
    }
}

/// A server told to redact says the same of two recomputations that differ only
/// in the values that they met.
pub proof fn a_redacted_recomputation_says_nothing_of_its_values(
    w: Workbook,
    range: RangeRef,
    note: Seq<char>,
    a: Seq<Recomputed>,
    b: Seq<Recomputed>,
    more: bool,
    x: Option<CellFact>,
    y: Option<CellFact>,
)
    requires
        a.len() == b.len(),
        forall|i: int| 0 <= i < a.len() ==> results_differ_in_values(#[trigger] a[i], b[i]),
        match (x, y) {
            (Some(f), Some(g)) => differ_in_values(f, g),
            (None, None) => true,
            _ => false,
        },
    ensures
        recompute_text(w, range, note, a, more, x, true) == recompute_text(
            w,
            range,
            note,
            b,
            more,
            y,
            true,
        ),
{
    lemma_redacted_results(a, b);
}

/// Two substitutions that differ at most in the values that redaction hides.
pub open spec fn applied_differ_in_values(a: Applied, b: Applied) -> bool {
    &&& a.a1@ == b.a1@
    &&& same_kind(a.before, b.before)
    &&& same_kind(a.after, b.after)
    &&& match (a.replaced_formula, b.replaced_formula) {
        (Some(f), Some(g)) => formula::redacted(f@) == formula::redacted(g@),
        (None, None) => true,
        _ => false,
    }
}

/// Two moved cells that differ at most in the values that redaction hides.
pub open spec fn moved_differ_in_values(a: Moved, b: Moved) -> bool {
    &&& a.a1@ == b.a1@
    &&& formula::redacted(a.formula@) == formula::redacted(b.formula@)
    &&& same_kind(a.before, b.before)
    &&& same_kind(a.after, b.after)
    &&& a.level == b.level
    &&& a.was_stale == b.was_stale
}

proof fn lemma_redacted_applied(a: Seq<Applied>, b: Seq<Applied>)
    requires
        a.len() == b.len(),
        forall|i: int| 0 <= i < a.len() ==> applied_differ_in_values(#[trigger] a[i], b[i]),
    ensures
        applied_lines(a, true) == applied_lines(b, true),
    decreases a.len(),
{
    if a.len() > 0 {
        let x = a.drop_last();
        let y = b.drop_last();
        assert forall|i: int| 0 <= i < x.len() implies applied_differ_in_values(
            #[trigger] x[i],
            y[i],
        ) by {
            assert(x[i] == a[i] && y[i] == b[i]);
        }
        lemma_redacted_applied(x, y);
        assert(applied_differ_in_values(a[a.len() - 1], b[b.len() - 1]));
    }
}

proof fn lemma_redacted_moved(a: Seq<Moved>, b: Seq<Moved>)
    requires
        a.len() == b.len(),
        forall|i: int| 0 <= i < a.len() ==> moved_differ_in_values(#[trigger] a[i], b[i]),
    ensures
        moved_lines(a, true) == moved_lines(b, true),
    decreases a.len(),
{
    if a.len() > 0 {
        let x = a.drop_last();
        let y = b.drop_last();
        assert forall|i: int| 0 <= i < x.len() implies moved_differ_in_values(
            #[trigger] x[i],
            y[i],
        ) by {
            assert(x[i] == a[i] && y[i] == b[i]);
        }
        lemma_redacted_moved(x, y);
        assert(moved_differ_in_values(a[a.len() - 1], b[b.len() - 1]));
    }
}

/// A server told to redact says the same of two changes that differ only in the
/// values that they met.
pub proof fn a_redacted_change_says_nothing_of_its_values(note: Seq<char>, a: Impact, b: Impact)
    requires
        a.report == b.report,
        a.unanswered == b.unanswered,
        a.changes@.len() == b.changes@.len(),
        forall|i: int|
            0 <= i < a.changes@.len() ==> applied_differ_in_values(
                #[trigger] a.changes@[i],
                b.changes@[i],
            ),
        a.moved@.len() == b.moved@.len(),
        forall|i: int|
            0 <= i < a.moved@.len() ==> moved_differ_in_values(#[trigger] a.moved@[i], b.moved@[i]),
    ensures
        impact_text(note, a, true) == impact_text(note, b, true),
{
    lemma_redacted_applied(a.changes@, b.changes@);
    lemma_redacted_moved(a.moved@, b.moved@);
}

/// Two groups of an answer that differ at most in the values that redaction
/// hides. A count is no value.
pub open spec fn groups_differ_in_values(a: QueryGroup, b: QueryGroup) -> bool {
    &&& a.rows == b.rows
    &&& a.key@.len() == b.key@.len()
    &&& forall|i: int| 0 <= i < a.key@.len() ==> same_kind(#[trigger] a.key@[i], b.key@[i])
    &&& a.counts@ == b.counts@
    &&& a.values@.len() == b.values@.len()
    &&& forall|i: int|
        0 <= i < a.values@.len() ==> (#[trigger] a.values@[i]) is Some == b.values@[i] is Some
}

proof fn lemma_redacted_group(a: QueryGroup, b: QueryGroup, labels: Seq<String>)
    requires
        groups_differ_in_values(a, b),
        a.values@.len() == labels.len(),
    ensures
        group_line(a, labels, true) == group_line(b, labels, true),
{
    let f = |v: CellValue| value_text(v, true);
    assert forall|i: int| 0 <= i < a.key@.len() implies f(a.key@[i]) == f(b.key@[i]) by {
        assert(same_kind(a.key@[i], b.key@[i]));
    }
    assert(a.key@.map_values(f) =~= b.key@.map_values(f));
    assert(key_text(a.key@, true) == key_text(b.key@, true));
    let x = aggregate_texts(a, labels, true);
    let y = aggregate_texts(b, labels, true);
    assert forall|i: int| 0 <= i < labels.len() implies x[i] == y[i] by {
        assert(a.values@[i] is Some == b.values@[i] is Some);
    }
    assert(x =~= y);
}

proof fn lemma_redacted_groups(a: Seq<QueryGroup>, b: Seq<QueryGroup>, labels: Seq<String>)
    requires
        a.len() == b.len(),
        forall|i: int|
            0 <= i < a.len() ==> groups_differ_in_values(#[trigger] a[i], b[i])
                && a[i].values@.len() == labels.len(),
    ensures
        group_lines(a, labels, true) == group_lines(b, labels, true),
    decreases a.len(),
{
    if a.len() > 0 {
        let x = a.drop_last();
        let y = b.drop_last();
        assert forall|i: int| 0 <= i < x.len() implies groups_differ_in_values(
            #[trigger] x[i],
            y[i],
        ) && x[i].values@.len() == labels.len() by {
            assert(x[i] == a[i] && y[i] == b[i]);
        }
        lemma_redacted_groups(x, y, labels);
        assert(groups_differ_in_values(a[a.len() - 1], b[b.len() - 1]));
        lemma_redacted_group(a.last(), b.last(), labels);
    }
}

/// A server told to redact says the same of two answers that differ only in the
/// values that they group by and in the totals.
pub proof fn a_redacted_answer_says_nothing_of_its_values(
    w: Workbook,
    head: Seq<char>,
    a: QueryAnswer,
    b: QueryAnswer,
    labels: Seq<String>,
)
    requires
        b == (QueryAnswer { groups: b.groups, ..a }),
        a.groups@.len() == b.groups@.len(),
        forall|i: int|
            0 <= i < a.groups@.len() ==> groups_differ_in_values(
                #[trigger] a.groups@[i],
                b.groups@[i],
            ) && a.groups@[i].values@.len() == labels.len(),
    ensures
        query_text(w, head, a, labels, true) == query_text(w, head, b, labels, true),
{
    lemma_redacted_groups(a.groups@, b.groups@, labels);
}

} // verus!
