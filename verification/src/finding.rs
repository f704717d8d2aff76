//! What a request is settled on: a workbook by its name, a file by where it was, the
//! formulas of a range and the range that a sheet uses.

use crate::address::{CellRef, RangeRef, SheetId};
use crate::formula_group;
use crate::state;
use crate::state::{Candidate, CorpusEntry};
use crate::table;
use crate::tools;
use crate::workbook;
use crate::workbook::{Edges, Entry, Sheet, Workbook};
use vstd::prelude::*;

verus! {

// ---------------------------------------------------------------------------
// Workbooks.

proof fn lemma_filtered<A>(s: Seq<A>, p: spec_fn(A) -> bool)
    ensures
        s.filter(p).len() > 0 <==> exists|i: int| 0 <= i < s.len() && p(#[trigger] s[i]),
        s.filter(p).len() > 1 <==> exists|i: int, j: int|
            0 <= i < j < s.len() && p(#[trigger] s[i]) && p(#[trigger] s[j]),
    decreases s.len(),
{
    reveal(Seq::filter);
    if s.len() > 0 {
        let d = s.drop_last();
        let n = s.len() - 1;
        lemma_filtered(d, p);
        assert forall|i: int| 0 <= i < n implies #[trigger] d[i] == s[i] by {}
        assert(s[n] == s.last());
        if d.filter(p).len() > 0 {
            let i = choose|i: int| 0 <= i < d.len() && p(#[trigger] d[i]);
            assert(p(s[i]));
        }
        if d.filter(p).len() > 1 {
            let (i, j) = choose|i: int, j: int|
                0 <= i < j < d.len() && p(#[trigger] d[i]) && p(#[trigger] d[j]);
            assert(p(s[i]) && p(s[j]));
        }
        if exists|i: int| 0 <= i < s.len() && p(#[trigger] s[i]) {
            let i = choose|i: int| 0 <= i < s.len() && p(#[trigger] s[i]);
            if i < n {
                assert(p(d[i]));
            }
        }
        if exists|i: int, j: int|
            0 <= i < j < s.len() && p(#[trigger] s[i]) && p(#[trigger] s[j]) {
            let (i, j) = choose|i: int, j: int|
                0 <= i < j < s.len() && p(#[trigger] s[i]) && p(#[trigger] s[j]);
            assert(p(d[i]));
            if j < n {
                assert(p(d[j]));
            }
        }
    }
}

/// A workbook goes by a name: its hash begins with it, or it is the path or the name
/// of its file.
pub open spec fn goes_by(e: CorpusEntry, want: Seq<char>) -> bool {
    ||| want.len() <= e.hash@.len() && e.hash@.take(want.len() as int) == want
    ||| e.path@ == want
    ||| (e.file_name matches Some(n) && n@ == want)
}

/// A caller who names a workbook means the one that goes by the name, where there is
/// just one; one who names none means the only one there is. In every other case
/// the caller is asked.
pub proof fn a_caller_means_the_one_workbook_there_is(
    entries: Seq<CorpusEntry>,
    wanted: Option<Seq<char>>,
    i: int,
)
    requires
        0 <= i < entries.len(),
    ensures
        ({
            let fits = |k: int| wanted matches Some(want) ==> goes_by(entries[k], want);
            &&& fits(i) && (forall|j: int| 0 <= j < entries.len() && #[trigger] fits(j) ==> j == i)
                ==> state::meant(entries, wanted) == Ok::<CorpusEntry, Seq<char>>(entries[i])
            &&& (forall|j: int| 0 <= j < entries.len() ==> !#[trigger] fits(j)) ==> state::meant(
                entries,
                wanted,
            ) is Err
            &&& (exists|j: int, k: int|
                0 <= j < k < entries.len() && #[trigger] fits(j) && #[trigger] fits(k))
                ==> state::meant(entries, wanted) is Err
        }),
{
    let fits = |k: int| wanted matches Some(want) ==> goes_by(entries[k], want);
    if let Some(want) = wanted {
        let p = |e: CorpusEntry| state::answers_to(e, want);
        lemma_filtered(entries, p);
        assert forall|k: int| 0 <= k < entries.len() implies #[trigger] fits(k) == p(entries[k]) by {
            let e = entries[k];
            if want.is_prefix_of(e.hash@) {
                assert(e.hash@.take(want.len() as int) =~= want);
            }
            if want.len() <= e.hash@.len() && e.hash@.take(want.len() as int) == want {
                assert(want =~= e.hash@.subrange(0, want.len() as int));
            }
        }
        if fits(i) && (forall|j: int| 0 <= j < entries.len() && #[trigger] fits(j) ==> j == i) {
            assert(p(entries[i]));
            assert forall|a: int, b: int|
                0 <= a < b < entries.len() && p(#[trigger] entries[a]) && p(
                    #[trigger] entries[b],
                ) implies false by {
                assert(fits(a) && fits(b));
            }
            entries.lemma_filter_contains(p, i);
            let found = entries.filter(p);
            assert(found.len() == 1);
            let k = choose|k: int| 0 <= k < found.len() && found[k] == entries[i];
            assert(found[0] == entries[i]);
        }
        if forall|j: int| 0 <= j < entries.len() ==> !#[trigger] fits(j) {
            assert forall|a: int| 0 <= a < entries.len() && p(#[trigger] entries[a]) implies
                false by {
                assert(fits(a));
            }
        }
        if exists|j: int, k: int|
            0 <= j < k < entries.len() && #[trigger] fits(j) && #[trigger] fits(k) {
            let (j, k) = choose|j: int, k: int|
                0 <= j < k < entries.len() && #[trigger] fits(j) && #[trigger] fits(k);
            assert(p(entries[j]) && p(entries[k]));
        }
    } else {
        assert(fits(i));
        if entries.len() > 1 {
            assert(fits(0) && fits(1));
        }
        if forall|j: int| 0 <= j < entries.len() && #[trigger] fits(j) ==> j == i {
            assert(entries.len() == 1);
        }
    }
}

proof fn lemma_first_existing(places: Seq<Candidate>, i: nat)
    requires
        i <= places.len(),
    ensures
        i <= state::first_existing(places, i) <= places.len(),
        forall|j: int|
            i <= j < state::first_existing(places, i) ==> !(#[trigger] places[j]).exists,
        state::first_existing(places, i) < places.len() ==> places[state::first_existing(
            places,
            i,
        ) as int].exists,
    decreases places.len() - i,
{
    if i < places.len() && !places[i as int].exists {
        lemma_first_existing(places, i + 1);
    }
}

/// A workbook's file is taken from where it was indexed, if it is there; if it was
/// indexed by a relative path, from the first other place that has one. It is found
/// nowhere else.
pub proof fn a_file_is_taken_from_the_first_place_that_has_it(
    path: Seq<char>,
    here: bool,
    absolute: bool,
    places: Seq<Candidate>,
    k: int,
)
    requires
        0 <= k <= places.len(),
        forall|j: int| 0 <= j < k ==> !(#[trigger] places[j]).exists,
        k < places.len() ==> places[k].exists,
    ensures
        here ==> state::located(path, here, absolute, places) == Ok::<Seq<char>, Seq<char>>(path),
        !here && absolute ==> state::located(path, here, absolute, places) is Err,
        !here && !absolute && k < places.len() ==> state::located(path, here, absolute, places)
            == Ok::<Seq<char>, Seq<char>>(places[k].path@),
        !here && !absolute && k == places.len() ==> state::located(path, here, absolute, places)
            is Err,
{
    lemma_first_existing(places, 0);
    let f = state::first_existing(places, 0) as int;
    if f < k {
        assert(!places[f].exists);
    } else if k < f {
        assert(!places[k].exists);
    }
}

// ---------------------------------------------------------------------------
// Formulas.

proof fn lemma_formula_places(s: Seq<Entry>, id: SheetId)
    requires
        workbook::row_major(s),
    ensures
        forall|c: CellRef| #[trigger]
            tools::formula_places(s, id).contains(c) <==> c.sheet == id && exists|i: int|
                0 <= i < s.len() && (#[trigger] s[i]).row == c.row && s[i].col == c.col
                    && s[i].cell.formula is Some,
        forall|i: int, j: int|
            0 <= i < j < tools::formula_places(s, id).len() ==> workbook::before(
                (#[trigger] tools::formula_places(s, id)[i]).row,
                tools::formula_places(s, id)[i].col,
                (#[trigger] tools::formula_places(s, id)[j]).row,
                tools::formula_places(s, id)[j].col,
            ),
    decreases s.len(),
{
    let all = tools::formula_places(s, id);
    if s.len() > 0 {
        let d = s.drop_last();
        let n = s.len() - 1;
        let x = s.last();
        assert(s[n] == x);
        assert forall|i: int| 0 <= i < n implies #[trigger] d[i] == s[i] by {}
        assert(workbook::row_major(d));
        lemma_formula_places(d, id);
        let before = tools::formula_places(d, id);
        let at = CellRef { sheet: id, row: x.row, col: x.col };
        assert forall|c: CellRef| #[trigger] all.contains(c) <==> c.sheet == id && exists|i: int|
            0 <= i < s.len() && (#[trigger] s[i]).row == c.row && s[i].col == c.col
                && s[i].cell.formula is Some by {
            if all.contains(c) {
                let k = choose|k: int| 0 <= k < all.len() && all[k] == c;
                if k < before.len() {
                    assert(before[k] == c);
                    assert(before.contains(c));
                    let i = choose|i: int|
                        0 <= i < d.len() && (#[trigger] d[i]).row == c.row && d[i].col == c.col
                            && d[i].cell.formula is Some;
                    assert(s[i].row == c.row);
                } else {
                    assert(s[n].row == c.row);
                }
            }
            if c.sheet == id && exists|i: int|
                0 <= i < s.len() && (#[trigger] s[i]).row == c.row && s[i].col == c.col
                    && s[i].cell.formula is Some {
                let i = choose|i: int|
                    0 <= i < s.len() && (#[trigger] s[i]).row == c.row && s[i].col == c.col
                        && s[i].cell.formula is Some;
                if i < n {
                    assert(d[i].row == c.row);
                    assert(before.contains(c));
                    let k = choose|k: int| 0 <= k < before.len() && before[k] == c;
                    assert(all[k] == c);
                } else {
                    assert(all[before.len() as int] == c);
                }
            }
        }
        assert forall|i: int, j: int| 0 <= i < j < all.len() implies workbook::before(
            (#[trigger] all[i]).row,
            all[i].col,
            (#[trigger] all[j]).row,
            all[j].col,
        ) by {
            assert(all[i] == before[i]);
            if j < before.len() {
                assert(all[j] == before[j]);
            } else {
                assert(before.contains(before[i]));
                let k = choose|k: int|
                    0 <= k < d.len() && (#[trigger] d[k]).row == before[i].row && d[k].col
                        == before[i].col && d[k].cell.formula is Some;
                assert(workbook::before(s[k].row, s[k].col, s[n].row, s[n].col));
            }
        }
    }
}

/// The formulas of a range are the cells in it that hold one, all of them, row by
/// row.
pub proof fn the_formulas_of_a_range_are_all_its_formulas(w: Workbook, range: RangeRef, c: CellRef)
    requires
        range.sheet.0 < w.sheets@.len(),
        w.sheets@[range.sheet.0 as int].id == range.sheet,
        workbook::row_major(w.sheets@[range.sheet.0 as int].entries()),
    ensures
        tools::formulas_in(w, range).contains(c) <==> range.holds(c) && formula_group::formula_at(
            w.sheets@[range.sheet.0 as int],
            c.row,
            c.col,
        ) is Some,
        forall|i: int, j: int|
            0 <= i < j < tools::formulas_in(w, range).len() ==> workbook::before(
                (#[trigger] tools::formulas_in(w, range)[i]).row,
                tools::formulas_in(w, range)[i].col,
                (#[trigger] tools::formulas_in(w, range)[j]).row,
                tools::formulas_in(w, range)[j].col,
            ),
{
    let sheet: Sheet = w.sheets@[range.sheet.0 as int];
    let s = sheet.entries();
    let e = sheet.entries_in(range);
    table::lemma_entries_in(sheet, range);
    lemma_formula_places(e, sheet.id);
    if tools::formulas_in(w, range).contains(c) {
        let i = choose|i: int|
            0 <= i < e.len() && (#[trigger] e[i]).row == c.row && e[i].col == c.col
                && e[i].cell.formula is Some;
        let j = choose|j: int| 0 <= j < s.len() && s[j] == e[i];
        workbook::lemma_at(s, j);
    }
    if range.holds(c) && formula_group::formula_at(sheet, c.row, c.col) is Some {
        assert(workbook::occupied(s, c.row, c.col));
        let j = choose|j: int|
            0 <= j < s.len() && (#[trigger] s[j]).row == c.row && s[j].col == c.col;
        workbook::lemma_at(s, j);
        assert(range.holds(CellRef { sheet: sheet.id, row: s[j].row, col: s[j].col }));
        assert(e.contains(s[j]));
        let i = choose|i: int| 0 <= i < e.len() && e[i] == s[j];
        assert(e[i].cell.formula is Some);
    }
}

// ---------------------------------------------------------------------------
// Sheets.

/// The range in use is the smallest that holds every stored cell: it holds them all,
/// and so does no range that does not hold all of it.
pub proof fn the_range_in_use_is_the_smallest_around_all_cells(
    s: Seq<Entry>,
    u: Edges,
    e: Edges,
)
    requires
        workbook::is_bounding_box(Some(u), s),
    ensures
        s.len() > 0,
        forall|i: int|
            0 <= i < s.len() ==> u.top <= (#[trigger] s[i]).row <= u.bottom && u.left <= s[i].col
                <= u.right,
        (forall|i: int|
            0 <= i < s.len() ==> e.top <= (#[trigger] s[i]).row <= e.bottom && e.left <= s[i].col
                <= e.right) ==> e.top <= u.top && u.bottom <= e.bottom && e.left <= u.left
            && u.right <= e.right,
{
}

} // verus!
