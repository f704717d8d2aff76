//! What a formula refers to, said of how the formula is written.
//!
//! A formula is put together of pieces: cells, ranges, whole columns and rows,
//! names, calls, texts in quotes. Here it is said of each piece, wherever it stands
//! in a formula, what the scan makes of it, and that the pieces around it are
//! scanned as they would be on their own.

use crate::address;
use crate::formula;
use crate::literals;
use crate::literals::{is_stop, moved_on};
use crate::text;
use vstd::prelude::*;

verus! {

// ---------------------------------------------------------------------------
// Pieces in their places.

/// A piece that can stand in front of another: it is empty, or it ends with a
/// character at which every word ends; and it opens no quotes and no bracket.
pub open spec fn can_precede(before: Seq<char>) -> bool {
    &&& before.len() > 0 ==> is_stop(before.last())
    &&& forall|i: int|
        0 <= i < before.len() ==> #[trigger] before[i] != '"' && before[i] != '\'' && before[i]
            != '['
}

/// A piece that can stand behind a word: it is empty, or it begins with a character
/// at which every word ends, and is no list of arguments.
pub open spec fn can_follow(behind: Seq<char>) -> bool {
    behind.len() > 0 ==> is_stop(behind[0]) && behind[0] != '('
}

/// References that stand further on.
pub open spec fn all_moved(refs: Seq<formula::Found>, d: int) -> Seq<formula::Found> {
    refs.map_values(|f: formula::Found| moved_on(f, d))
}

/// What a formula of three pieces refers to: what the first does, what is found in
/// the second, and what the third does.
pub open spec fn refers_to(
    before: Seq<char>,
    piece: Seq<char>,
    behind: Seq<char>,
    found: Seq<formula::Found>,
) -> bool {
    formula::references(before + piece + behind) == formula::references(before) + all_moved(
        found,
        before.len() as int,
    ) + all_moved(formula::references(behind), (before.len() + piece.len()) as int)
}

proof fn lemma_before(before: Seq<char>, rest: Seq<char>)
    requires
        can_precede(before),
    ensures
        formula::references(before + rest) == formula::references(before)
            + formula::references_from(before + rest, before.len() as int),
{
    let f = before + rest;
    let n = before.len() as int;
    if n == 0 {
        assert(formula::references(before) =~= Seq::empty());
        assert(formula::references(f) =~= formula::references(before) + formula::references_from(
            f,
            0,
        ));
    } else {
        let m = n - 1;
        assert forall|j: int| 0 <= j < m implies #[trigger] before[j] == f[j + 0] by {}
        assert(f[m] == before[m]);
        assert(before[m] == before.last());
        assert(literals::tracks(before, f, 0, m, 0));
        let pre = literals::lemma_references_before(before, f, m, 0);
        lemma_stop_step(before, m);
        lemma_stop_step(f, m);
        assert(formula::references_from(before, m) =~= Seq::empty());
        assert(formula::references(before) =~= pre);
        assert(formula::references_from(f, m) == formula::references_from(f, n));
    }
}

proof fn lemma_stop_step(s: Seq<char>, i: int)
    requires
        0 <= i < s.len(),
        is_stop(s[i]),
        s[i] != '"',
        s[i] != '\'',
        s[i] != '[',
    ensures
        formula::reference_step(s, i) == (formula::Step { found: None, next: i + 1 }),
        formula::references_from(s, i) == formula::references_from(s, i + 1),
{
    reveal(formula::reference_step);
    formula::lemma_reference_step(s, i);
}

proof fn lemma_behind(before: Seq<char>, rest: Seq<char>)
    requires
        before.len() > 0 && rest.len() > 0 ==> !formula::is_ident(before.last())
            || !literals::starts_token(rest[0]),
    ensures
        formula::references_from(before + rest, before.len() as int) == all_moved(
            formula::references(rest),
            before.len() as int,
        ),
{
    let f = before + rest;
    let n = before.len() as int;
    assert forall|j: int| 0 <= j < rest.len() implies #[trigger] rest[j] == f[j + n] by {}
    assert(literals::tracks(rest, f, 0, rest.len() as int, n));
    if rest.len() > 0 && n > 0 {
        assert(f[n - 1] == before.last());
    }
    literals::lemma_references_behind(rest, f, 0, n, 0);
    assert(formula::references_from(f, n) =~= all_moved(formula::references(rest), n));
}

proof fn lemma_moved_twice(refs: Seq<formula::Found>, a: int, b: int)
    ensures
        all_moved(all_moved(refs, a), b) == all_moved(refs, a + b),
{
    assert(all_moved(all_moved(refs, a), b) =~= all_moved(refs, a + b));
}

/// A piece is found in its place as it is at the head of what stands behind it.
#[verifier::spinoff_prover]
#[verifier::rlimit(40)]
proof fn lemma_in_place(
    before: Seq<char>,
    piece: Seq<char>,
    behind: Seq<char>,
    found: Seq<formula::Found>,
)
    requires
        can_precede(before),
        piece.len() > 0,
        behind.len() > 0 ==> !formula::is_ident(piece.last()) || !literals::starts_token(behind[0]),
        found.len() <= 1,
        formula::reference_step(piece + behind, 0) == (formula::Step {
            found: if found.len() == 1 {
                Some(found[0])
            } else {
                None
            },
            next: piece.len() as int,
        }),
    ensures
        refers_to(before, piece, behind, found),
{
    let g = piece + behind;
    let f = before + piece + behind;
    let n = before.len() as int;
    let m = piece.len() as int;
    assert(f =~= before + g);
    lemma_before(before, g);
    lemma_behind(before, g);
    lemma_behind(piece, behind);
    formula::lemma_reference_step(g, 0);
    let rest = all_moved(formula::references(behind), m);
    assert(formula::references(g) =~= found + rest);
    assert(all_moved(found + rest, n) =~= all_moved(found, n) + all_moved(rest, n));
    lemma_moved_twice(formula::references(behind), m, n);
    assert(formula::references(f) =~= formula::references(before) + all_moved(found, n)
        + all_moved(formula::references(behind), n + m));
}

// ---------------------------------------------------------------------------
// Cells.

/// A cell as a formula writes it.
pub struct Corner {
    pub row: u32,
    pub col: u16,
    pub abs_row: bool,
    pub abs_col: bool,
}

pub open spec fn dollar(absolute: bool) -> Seq<char> {
    if absolute {
        seq!['$']
    } else {
        Seq::empty()
    }
}

/// The letters name a column of a worksheet.
pub open spec fn names_column(letters: Seq<char>, col: u16) -> bool {
    &&& 1 <= letters.len() <= 3
    &&& forall|i: int| 0 <= i < letters.len() ==> text::is_letter(#[trigger] letters[i])
    &&& col <= address::MAX_COL
    &&& address::base26(letters) == col + 1
}

/// The digits name a row of a worksheet.
pub open spec fn names_row(digits: Seq<char>, row: u32) -> bool {
    &&& digits.len() > 0
    &&& forall|i: int| 0 <= i < digits.len() ==> text::is_digit(#[trigger] digits[i])
    &&& row <= address::MAX_ROW
    &&& text::number(digits) == row + 1
}

/// A text writes a cell: the letters of its column and the digits of its row, each
/// behind a `$` where it is absolute.
pub open spec fn writes_cell(t: Seq<char>, c: Corner) -> bool {
    exists|letters: Seq<char>, digits: Seq<char>|
        names_column(letters, c.col) && names_row(digits, c.row) && t == #[trigger] (dollar(
            c.abs_col,
        ) + letters + dollar(c.abs_row) + digits)
}

proof fn lemma_column(letters: Seq<char>, col: u16)
    requires
        names_column(letters, col),
    ensures
        address::column(letters) == Ok::<u16, address::Fault>(col),
{
}

pub proof fn lemma_cell(t: Seq<char>, c: Corner)
    requires
        writes_cell(t, c),
    ensures
        t.len() >= 2,
        formula::is_cell_shape(t),
        address::local_parts(t) == Ok::<(u16, u32, bool, bool), address::Fault>(
            (c.col, c.row, c.abs_col, c.abs_row),
        ),
        address::column_only(t) is None,
        address::row_only(t) is None,
        text::is_letter(t[0]) || t[0] == '$',
        text::is_digit(t.last()),
        forall|i: int|
            0 <= i < t.len() ==> text::is_letter(#[trigger] t[i]) || text::is_digit(t[i]) || t[i]
                == '$',
{
    let (letters, digits) = choose|letters: Seq<char>, digits: Seq<char>|
        names_column(letters, c.col) && names_row(digits, c.row) && t == #[trigger] (dollar(
            c.abs_col,
        ) + letters + dollar(c.abs_row) + digits);
    let a: int = dollar(c.abs_col).len() as int;
    let b = a + letters.len();
    let d = b + dollar(c.abs_row).len();
    assert(t.len() == d + digits.len());
    assert forall|i: int| a <= i < b implies text::is_letter(#[trigger] t[i]) by {
        assert(t[i] == letters[i - a]);
    }
    assert forall|i: int| d <= i < t.len() implies text::is_digit(#[trigger] t[i]) by {
        assert(t[i] == digits[i - d]);
    }
    if c.abs_col {
        assert(t[0] == '$');
    }
    if c.abs_row {
        assert(t[b] == '$');
    }
    text::lemma_letter_run_is(t, a, b);
    text::lemma_digit_run_is(t, d, t.len() as int);
    text::lemma_digit_run_is(t, a, a);
    text::lemma_trim_nothing(t);
    assert(t.subrange(a, b) =~= letters);
    assert(t.skip(d) =~= digits);
    lemma_column(letters, c.col);
}

/// What a formula refers to with a cell on its own.
pub open spec fn cell_reference(c: Corner) -> address::Reference {
    address::Reference {
        sheet_name: None,
        end_sheet_name: None,
        workbook: None,
        top: c.row,
        left: c.col,
        bottom: c.row,
        right: c.col,
        abs_top: c.abs_row,
        abs_left: c.abs_col,
        abs_bottom: c.abs_row,
        abs_right: c.abs_col,
    }
}

/// What a formula refers to with two cells and a colon between them: everything
/// from the upper row to the lower and from the left column to the right, whichever
/// of the two cells each is taken from, with the `$` that it has there.
pub open spec fn range_reference(a: Corner, b: Corner) -> address::Reference {
    let (up, down) = if a.row <= b.row {
        (a, b)
    } else {
        (b, a)
    };
    let (left, right) = if a.col <= b.col {
        (a, b)
    } else {
        (b, a)
    };
    address::Reference {
        sheet_name: None,
        end_sheet_name: None,
        workbook: None,
        top: up.row,
        left: left.col,
        bottom: down.row,
        right: right.col,
        abs_top: up.abs_row,
        abs_left: left.abs_col,
        abs_bottom: down.abs_row,
        abs_right: right.abs_col,
    }
}

/// A local reference as its text is read.
#[verifier::opaque]
pub open spec fn is_local(t: Seq<char>, r: address::Reference) -> bool {
    &&& t.len() > 0
    &&& text::is_letter(t[0]) || text::is_digit(t[0]) || t[0] == '$'
    &&& text::is_letter(t.last()) || text::is_digit(t.last())
    &&& forall|i: int|
        0 <= i < t.len() ==> text::is_letter(#[trigger] t[i]) || text::is_digit(t[i]) || t[i] == '$'
            || t[i] == ':'
    &&& r.sheet_name is None && r.end_sheet_name is None && r.workbook is None
    &&& address::local_corners(t) matches Ok(c) && address::reference_of(
        address::Qualifier { workbook: None, sheet: None, end_sheet: None },
        c,
    ) == r
}

proof fn lemma_local(t: Seq<char>, r: address::Reference)
    requires
        is_local(t, r),
    ensures
        address::a1(t) == Ok::<address::Reference, address::Fault>(r),
{
    reveal(is_local);
    text::lemma_trim_nothing(t);
    text::lemma_last_position_is(t, '!', t.len() as int, -1);
}

pub proof fn lemma_cell_local(t: Seq<char>, c: Corner)
    requires
        writes_cell(t, c),
    ensures
        is_local(t, cell_reference(c)),
        formula::cell_token(t) == Some(cell_reference(c)),
{
    reveal(is_local);
    lemma_cell(t, c);
    text::lemma_position_is(t, ':', 0, t.len() as int);
    lemma_local(t, cell_reference(c));
}

proof fn lemma_range_local(p: Seq<char>, q: Seq<char>, a: Corner, b: Corner)
    requires
        writes_cell(p, a),
        writes_cell(q, b),
    ensures
        is_local(p + seq![':'] + q, range_reference(a, b)),
{
    reveal(is_local);
    let t = p + seq![':'] + q;
    let n = p.len() as int;
    lemma_cell(p, a);
    lemma_cell(q, b);
    assert forall|i: int| 0 <= i < t.len() implies text::is_letter(#[trigger] t[i])
        || text::is_digit(t[i]) || t[i] == '$' || t[i] == ':' by {
        if i < n {
            assert(t[i] == p[i]);
        } else if i > n {
            assert(t[i] == q[i - n - 1]);
        }
    }
    assert(t[0] == p[0]);
    assert(t.last() == q.last());
    assert forall|i: int| 0 <= i < n implies t[i] != ':' by {
        assert(t[i] == p[i]);
    }
    assert(t[n] == ':');
    text::lemma_position_is(t, ':', 0, n);
    assert(t.take(n) =~= p);
    assert(t.skip(n + 1) =~= q);
}

/// A run of identifier characters and `$` at the head of a text, up to a character
/// that is neither.
pub proof fn lemma_word(word: Seq<char>, rest: Seq<char>)
    requires
        forall|i: int|
            0 <= i < word.len() ==> formula::is_ident(#[trigger] word[i]) || word[i] == '$',
        rest.len() > 0 ==> !formula::is_ident(rest[0]) && rest[0] != '$',
    ensures
        formula::ident_run(word + rest, 0) == word.len(),
        (word + rest).subrange(0, word.len() as int) == word,
{
    let s = word + rest;
    assert forall|j: int| 0 <= j < word.len() implies formula::is_ident(#[trigger] s[j]) || s[j]
        == '$' by {
        assert(s[j] == word[j]);
    }
    if rest.len() > 0 {
        assert(s[word.len() as int] == rest[0]);
    }
    literals::lemma_ident_run_is(s, 0, word.len() as int);
    assert(s.subrange(0, word.len() as int) =~= word);
}

/// The same run further on in a text.
pub proof fn lemma_word_at(s: Seq<char>, at: int, word: Seq<char>)
    requires
        0 <= at,
        at + word.len() <= s.len(),
        s.subrange(at, at + word.len()) == word,
        forall|i: int|
            0 <= i < word.len() ==> formula::is_ident(#[trigger] word[i]) || word[i] == '$',
        at + word.len() < s.len() ==> !formula::is_ident(s[at + word.len()]) && s[at + word.len()]
            != '$',
    ensures
        formula::ident_run(s, at) == at + word.len(),
{
    assert forall|j: int| at <= j < at + word.len() implies formula::is_ident(#[trigger] s[j])
        || s[j] == '$' by {
        assert(s[j] == s.subrange(at, at + word.len())[j - at]);
    }
    literals::lemma_ident_run_is(s, at, at + word.len());
}

/// A cell, wherever it stands in a formula, is one reference to that cell.
#[verifier::spinoff_prover]
#[verifier::rlimit(40)]
pub proof fn a_cell_is_one_reference(
    before: Seq<char>,
    p: Seq<char>,
    behind: Seq<char>,
    a: Corner,
)
    requires
        can_precede(before),
        can_follow(behind),
        writes_cell(p, a),
    ensures
        refers_to(
            before,
            p,
            behind,
            seq![
                formula::Found {
                    start: 0,
                    local: 0,
                    end: p.len() as int,
                    parsed: cell_reference(a),
                    qualified: false,
                },
            ],
        ),
{
    let s = p + behind;
    let n = p.len() as int;
    lemma_cell(p, a);
    lemma_cell_local(p, a);
    lemma_local(p, cell_reference(a));
    lemma_word(p, behind);
    assert(s[0] == p[0]);
    if behind.len() > 0 {
        assert(s[n] == behind[0]);
    }
    assert(formula::range_end(s, n) is None);
    assert(formula::bare_reference(s, 0, n) == formula::found(s, 0, 0, n, false));
    assert(formula::reference_step(s, 0) == formula::word_step(s, 0)) by {
        reveal(formula::reference_step);
    }
    let f = formula::Found {
        start: 0,
        local: 0,
        end: n,
        parsed: cell_reference(a),
        qualified: false,
    };
    lemma_in_place(before, p, behind, seq![f]);
}

/// Two cells with a colon between them, wherever they stand in a formula and with
/// or without a `$` on any of their rows and columns, are one reference, whose span
/// is all of both and whose corners are theirs.
#[verifier::spinoff_prover]
#[verifier::rlimit(40)]
pub proof fn a_range_is_one_reference(
    before: Seq<char>,
    p: Seq<char>,
    q: Seq<char>,
    behind: Seq<char>,
    a: Corner,
    b: Corner,
)
    requires
        can_precede(before),
        can_follow(behind),
        writes_cell(p, a),
        writes_cell(q, b),
    ensures
        refers_to(
            before,
            p + seq![':'] + q,
            behind,
            seq![
                formula::Found {
                    start: 0,
                    local: 0,
                    end: (p.len() + 1 + q.len()) as int,
                    parsed: range_reference(a, b),
                    qualified: false,
                },
            ],
        ),
{
    let t = p + seq![':'] + q;
    let s = t + behind;
    let n = p.len() as int;
    let m = t.len() as int;
    lemma_cell(p, a);
    lemma_cell(q, b);
    lemma_cell_local(p, a);
    lemma_cell_local(q, b);
    lemma_range_local(p, q, a, b);
    lemma_local(t, range_reference(a, b));
    lemma_pair_text(p, q, behind);
    lemma_second_text(p, q, behind);
    assert(formula::read(s, 0, m) == Some(range_reference(a, b)));
    lemma_range_step(s, n, m, range_reference(a, b));
    let f = formula::Found {
        start: 0,
        local: 0,
        end: m,
        parsed: range_reference(a, b),
        qualified: false,
    };
    assert(t.last() == q.last());
    lemma_in_place(before, t, behind, seq![f]);
}

proof fn lemma_second_text(p: Seq<char>, q: Seq<char>, behind: Seq<char>)
    ensures
        ({
            let t = p + seq![':'] + q;
            (t + behind).subrange(p.len() as int + 1, t.len() as int) == q
        }),
{
    let t = p + seq![':'] + q;
    assert((t + behind).subrange(p.len() as int + 1, t.len() as int) =~= q);
}

#[verifier::spinoff_prover]
#[verifier::rlimit(40)]
proof fn lemma_range_step(s: Seq<char>, n: int, m: int, r: address::Reference)
    requires
        0 < n,
        n + 1 < m <= s.len(),
        text::is_letter(s[0]) || s[0] == '$',
        formula::ident_run(s, 0) == n,
        s[n] == ':',
        formula::ident_run(s, n + 1) == m,
        m < s.len() ==> s[m] != '!',
        formula::cell_token(s.subrange(0, n)) is Some,
        formula::cell_token(s.subrange(n + 1, m)) is Some,
        formula::read(s, 0, m) == Some(r),
    ensures
        formula::reference_step(s, 0) == (formula::Step {
            found: Some(
                formula::Found { start: 0, local: 0, end: m, parsed: r, qualified: false },
            ),
            next: m,
        }),
{
    assert(formula::sheet_range_bang(s, n) is None);
    assert(formula::range_end(s, n) == Some(m));
    assert(formula::bare_reference(s, 0, n) == formula::found(s, 0, 0, m, false));
    assert(formula::reference_step(s, 0) == formula::word_step(s, 0)) by {
        reveal(formula::reference_step);
    }
}

// ---------------------------------------------------------------------------
// Whole columns and rows.

/// A text writes a column on its own.
pub open spec fn writes_column(t: Seq<char>, col: u16, absolute: bool) -> bool {
    exists|letters: Seq<char>|
        names_column(letters, col) && t == #[trigger] (dollar(absolute) + letters)
}

/// A text writes a row on its own.
pub open spec fn writes_row(t: Seq<char>, row: u32, absolute: bool) -> bool {
    exists|digits: Seq<char>| names_row(digits, row) && t == #[trigger] (dollar(absolute) + digits)
}

proof fn lemma_lone_column(t: Seq<char>, col: u16, absolute: bool)
    requires
        writes_column(t, col, absolute),
    ensures
        t.len() > 0,
        address::column_only(t) == Some((col, absolute)),
        !formula::is_cell_shape(t),
        text::is_letter(t.last()),
        t[0] == '$' <==> absolute,
        text::is_letter(t[0]) || t[0] == '$',
        forall|i: int| 0 <= i < t.len() ==> text::is_letter(#[trigger] t[i]) || t[i] == '$',
        forall|i: int| dollar(absolute).len() <= i < t.len() ==> text::is_letter(#[trigger] t[i]),
{
    let letters = choose|letters: Seq<char>|
        names_column(letters, col) && t == #[trigger] (dollar(absolute) + letters);
    let a = dollar(absolute).len() as int;
    assert forall|i: int| a <= i < t.len() implies text::is_letter(#[trigger] t[i]) by {
        assert(t[i] == letters[i - a]);
    }
    text::lemma_letter_run_is(t, a, t.len() as int);
    assert(t.skip(a) =~= letters);
    if absolute {
        assert(t[0] == '$');
    } else {
        assert(text::is_letter(t[0]));
    }
    lemma_column(letters, col);
}

proof fn lemma_lone_row(t: Seq<char>, row: u32, absolute: bool)
    requires
        writes_row(t, row, absolute),
    ensures
        t.len() > 0,
        address::row_only(t) == Some((row, absolute)),
        address::column_only(t) is None,
        !formula::is_cell_shape(t),
        text::is_digit(t.last()),
        t[0] == '$' <==> absolute,
        text::is_digit(t[0]) || t[0] == '$',
        forall|i: int| 0 <= i < t.len() ==> text::is_digit(#[trigger] t[i]) || t[i] == '$',
        forall|i: int| dollar(absolute).len() <= i < t.len() ==> text::is_digit(#[trigger] t[i]),
{
    let digits = choose|digits: Seq<char>|
        names_row(digits, row) && t == #[trigger] (dollar(absolute) + digits);
    let a = dollar(absolute).len() as int;
    assert forall|i: int| a <= i < t.len() implies text::is_digit(#[trigger] t[i]) by {
        assert(t[i] == digits[i - a]);
    }
    text::lemma_digit_run_is(t, a, t.len() as int);
    text::lemma_letter_run_is(t, a, a);
    assert(t.skip(a) =~= digits);
    if absolute {
        assert(t[0] == '$');
    } else {
        assert(text::is_digit(t[0]));
    }
}

/// What a formula refers to with two columns and a colon between them: every row of
/// the columns from the left to the right one.
pub open spec fn columns_reference(c: u16, abs_c: bool, d: u16, abs_d: bool) -> address::Reference {
    address::Reference {
        sheet_name: None,
        end_sheet_name: None,
        workbook: None,
        top: 0,
        left: if c <= d {
            c
        } else {
            d
        },
        bottom: address::MAX_ROW,
        right: if c <= d {
            d
        } else {
            c
        },
        abs_top: true,
        abs_left: if c <= d {
            abs_c
        } else {
            abs_d
        },
        abs_bottom: true,
        abs_right: if c <= d {
            abs_d
        } else {
            abs_c
        },
    }
}

/// What a formula refers to with two rows and a colon between them: every column of
/// the rows from the upper to the lower one.
pub open spec fn rows_reference(r: u32, abs_r: bool, q: u32, abs_q: bool) -> address::Reference {
    address::Reference {
        sheet_name: None,
        end_sheet_name: None,
        workbook: None,
        top: if r <= q {
            r
        } else {
            q
        },
        left: 0,
        bottom: if r <= q {
            q
        } else {
            r
        },
        right: address::MAX_COL as u16,
        abs_top: if r <= q {
            abs_r
        } else {
            abs_q
        },
        abs_left: true,
        abs_bottom: if r <= q {
            abs_q
        } else {
            abs_r
        },
        abs_right: true,
    }
}

proof fn lemma_pair(p: Seq<char>, q: Seq<char>)
    requires
        p.len() > 0,
        q.len() > 0,
        forall|i: int|
            0 <= i < p.len() ==> text::is_letter(#[trigger] p[i]) || text::is_digit(p[i]) || p[i]
                == '$',
        forall|i: int|
            0 <= i < q.len() ==> text::is_letter(#[trigger] q[i]) || text::is_digit(q[i]) || q[i]
                == '$',
    ensures
        ({
            let t = p + seq![':'] + q;
            let n = p.len() as int;
            &&& t[0] == p[0]
            &&& t.last() == q.last()
            &&& text::position(t, ':', 0) == n
            &&& t.take(n) == p
            &&& t.skip(n + 1) == q
            &&& forall|i: int|
                0 <= i < t.len() ==> text::is_letter(#[trigger] t[i]) || text::is_digit(t[i])
                    || t[i] == '$' || t[i] == ':'
        }),
{
    let t = p + seq![':'] + q;
    let n = p.len() as int;
    assert forall|i: int| 0 <= i < t.len() implies text::is_letter(#[trigger] t[i])
        || text::is_digit(t[i]) || t[i] == '$' || t[i] == ':' by {
        if i < n {
            assert(t[i] == p[i]);
        } else if i > n {
            assert(t[i] == q[i - n - 1]);
        }
    }
    assert forall|i: int| 0 <= i < n implies t[i] != ':' by {
        assert(t[i] == p[i]);
    }
    text::lemma_position_is(t, ':', 0, n);
    assert(t.take(n) =~= p);
    assert(t.skip(n + 1) =~= q);
}

proof fn lemma_columns_local(
    p: Seq<char>,
    q: Seq<char>,
    c: u16,
    abs_c: bool,
    d: u16,
    abs_d: bool,
)
    requires
        writes_column(p, c, abs_c),
        writes_column(q, d, abs_d),
    ensures
        is_local(p + seq![':'] + q, columns_reference(c, abs_c, d, abs_d)),
{
    reveal(is_local);
    lemma_lone_column(p, c, abs_c);
    lemma_lone_column(q, d, abs_d);
    lemma_pair(p, q);
}

proof fn lemma_rows_local(
    p: Seq<char>,
    q: Seq<char>,
    r: u32,
    abs_r: bool,
    u: u32,
    abs_u: bool,
)
    requires
        writes_row(p, r, abs_r),
        writes_row(q, u, abs_u),
    ensures
        is_local(p + seq![':'] + q, rows_reference(r, abs_r, u, abs_u)),
{
    reveal(is_local);
    lemma_lone_row(p, r, abs_r);
    lemma_lone_row(q, u, abs_u);
    lemma_pair(p, q);
}

proof fn lemma_columns_end(p: Seq<char>, q: Seq<char>, behind: Seq<char>, d: u16, abs_d: bool)
    requires
        writes_column(q, d, abs_d),
        can_follow(behind),
    ensures
        formula::axis_end(p + seq![':'] + q + behind, p.len() as int) == Some(
            (p.len() + 1 + q.len()) as int,
        ),
{
    let s = p + seq![':'] + q + behind;
    let n = p.len() as int;
    let m = n + 1 + q.len();
    lemma_lone_column(q, d, abs_d);
    let a = n + 1 + dollar(abs_d).len();
    assert forall|i: int| a <= i < m implies text::is_letter(#[trigger] s[i]) by {
        assert(s[i] == q[i - n - 1]);
    }
    assert(s[n + 1] == q[0]);
    if behind.len() > 0 {
        assert(s[m] == behind[0]);
    }
    text::lemma_letter_run_is(s, a, m);
}

proof fn lemma_rows_end(p: Seq<char>, q: Seq<char>, behind: Seq<char>, u: u32, abs_u: bool)
    requires
        writes_row(q, u, abs_u),
        can_follow(behind),
    ensures
        formula::axis_end(p + seq![':'] + q + behind, p.len() as int) == Some(
            (p.len() + 1 + q.len()) as int,
        ),
{
    let s = p + seq![':'] + q + behind;
    let n = p.len() as int;
    let m = n + 1 + q.len();
    lemma_lone_row(q, u, abs_u);
    let a = n + 1 + dollar(abs_u).len();
    assert forall|i: int| a <= i < m implies text::is_digit(#[trigger] s[i]) by {
        assert(s[i] == q[i - n - 1]);
    }
    assert(s[n + 1] == q[0]);
    if behind.len() > 0 {
        assert(s[m] == behind[0]);
    }
    text::lemma_digit_run_is(s, a, m);
}

/// Two halves of a shorthand that is read as a reference are found as one.
#[verifier::spinoff_prover]
#[verifier::rlimit(40)]
proof fn lemma_axis_step(p: Seq<char>, q: Seq<char>, behind: Seq<char>, r: address::Reference)
    requires
        can_follow(behind),
        p.len() > 0,
        q.len() > 0,
        !formula::is_cell_shape(p),
        text::is_letter(p[0]) || p[0] == '$' || forall|i: int|
            0 <= i < p.len() ==> text::is_digit(#[trigger] p[i]),
        forall|i: int|
            0 <= i < p.len() ==> text::is_letter(#[trigger] p[i]) || text::is_digit(p[i]) || p[i]
                == '$',
        forall|i: int|
            0 <= i < q.len() ==> text::is_letter(#[trigger] q[i]) || text::is_digit(q[i]) || q[i]
                == '$',
        is_local(p + seq![':'] + q, r),
        formula::axis_end(p + seq![':'] + q + behind, p.len() as int) == Some(
            (p.len() + 1 + q.len()) as int,
        ),
    ensures
        formula::reference_step(p + seq![':'] + q + behind, 0) == (formula::Step {
            found: Some(
                formula::Found {
                    start: 0,
                    local: 0,
                    end: (p.len() + 1 + q.len()) as int,
                    parsed: r,
                    qualified: false,
                },
            ),
            next: (p.len() + 1 + q.len()) as int,
        }),
{
    let t = p + seq![':'] + q;
    let s = t + behind;
    let n = p.len() as int;
    let m = t.len() as int;
    lemma_local(t, r);
    lemma_pair_text(p, q, behind);
    assert(formula::read(s, 0, m) == Some(r));
    if text::is_letter(p[0]) || p[0] == '$' {
        lemma_axis_word(s, n, m, r);
    } else {
        assert forall|i: int| 0 <= i < n implies text::is_digit(#[trigger] s[i]) by {
            assert(s[i] == p[i]);
        }
        text::lemma_digit_run_is(s, 0, n);
        assert(formula::reference_step(s, 0) == formula::digits_step(s, 0)) by {
            reveal(formula::reference_step);
        }
    }
}

proof fn lemma_pair_text(p: Seq<char>, q: Seq<char>, behind: Seq<char>)
    requires
        can_follow(behind),
        p.len() > 0,
        q.len() > 0,
        forall|i: int|
            0 <= i < p.len() ==> text::is_letter(#[trigger] p[i]) || text::is_digit(p[i]) || p[i]
                == '$',
        forall|i: int|
            0 <= i < q.len() ==> text::is_letter(#[trigger] q[i]) || text::is_digit(q[i]) || q[i]
                == '$',
    ensures
        ({
            let t = p + seq![':'] + q;
            let s = t + behind;
            let n = p.len() as int;
            &&& s[0] == p[0]
            &&& n < s.len() && s[n] == ':'
            &&& s.subrange(0, n) == p
            &&& s.subrange(0, t.len() as int) == t
            &&& formula::ident_run(s, 0) == n
            &&& formula::ident_run(s, n + 1) == t.len()
            &&& t.len() < s.len() ==> s[t.len() as int] != '!'
        }),
{
    let t = p + seq![':'] + q;
    let s = t + behind;
    let n = p.len() as int;
    let m = t.len() as int;
    let tail = seq![':'] + q + behind;
    assert(s =~= p + tail);
    lemma_word(p, tail);
    assert(s.subrange(n + 1, m) =~= q);
    if behind.len() > 0 {
        assert(s[m] == behind[0]);
    }
    lemma_word_at(s, n + 1, q);
    assert(s.subrange(0, m) =~= t);
}

proof fn lemma_axis_word(s: Seq<char>, n: int, m: int, r: address::Reference)
    requires
        0 < n < m <= s.len(),
        text::is_letter(s[0]) || s[0] == '$',
        formula::ident_run(s, 0) == n,
        s[n] == ':',
        formula::ident_run(s, n + 1) == m,
        m < s.len() ==> s[m] != '!',
        formula::axis_end(s, n) == Some(m),
        !formula::is_cell_shape(s.subrange(0, n)),
        formula::read(s, 0, m) == Some(r),
    ensures
        formula::reference_step(s, 0) == (formula::Step {
            found: Some(
                formula::Found { start: 0, local: 0, end: m, parsed: r, qualified: false },
            ),
            next: m,
        }),
{
    assert(formula::sheet_range_bang(s, n) is None);
    assert(formula::bare_reference(s, 0, n) == formula::found(s, 0, 0, m, false));
    assert(formula::reference_step(s, 0) == formula::word_step(s, 0)) by {
        reveal(formula::reference_step);
    }
}

/// Two columns with a colon between them, wherever they stand in a formula, are one
/// reference to every row of the columns from the one to the other.
#[verifier::spinoff_prover]
#[verifier::rlimit(40)]
pub proof fn whole_columns_are_one_reference(
    before: Seq<char>,
    p: Seq<char>,
    q: Seq<char>,
    behind: Seq<char>,
    c: u16,
    abs_c: bool,
    d: u16,
    abs_d: bool,
)
    requires
        can_precede(before),
        can_follow(behind),
        writes_column(p, c, abs_c),
        writes_column(q, d, abs_d),
    ensures
        refers_to(
            before,
            p + seq![':'] + q,
            behind,
            seq![
                formula::Found {
                    start: 0,
                    local: 0,
                    end: (p.len() + 1 + q.len()) as int,
                    parsed: columns_reference(c, abs_c, d, abs_d),
                    qualified: false,
                },
            ],
        ),
{
    lemma_lone_column(p, c, abs_c);
    lemma_lone_column(q, d, abs_d);
    let t = p + seq![':'] + q;
    let r = columns_reference(c, abs_c, d, abs_d);
    lemma_columns_local(p, q, c, abs_c, d, abs_d);
    lemma_columns_end(p, q, behind, d, abs_d);
    lemma_axis_step(p, q, behind, r);
    let f = formula::Found {
        start: 0,
        local: 0,
        end: t.len() as int,
        parsed: r,
        qualified: false,
    };
    lemma_in_place(before, t, behind, seq![f]);
}

/// Two rows with a colon between them, wherever they stand in a formula, are one
/// reference to every column of the rows from the one to the other.
#[verifier::spinoff_prover]
#[verifier::rlimit(40)]
pub proof fn whole_rows_are_one_reference(
    before: Seq<char>,
    p: Seq<char>,
    q: Seq<char>,
    behind: Seq<char>,
    r: u32,
    abs_r: bool,
    u: u32,
    abs_u: bool,
)
    requires
        can_precede(before),
        can_follow(behind),
        writes_row(p, r, abs_r),
        writes_row(q, u, abs_u),
    ensures
        refers_to(
            before,
            p + seq![':'] + q,
            behind,
            seq![
                formula::Found {
                    start: 0,
                    local: 0,
                    end: (p.len() + 1 + q.len()) as int,
                    parsed: rows_reference(r, abs_r, u, abs_u),
                    qualified: false,
                },
            ],
        ),
{
    lemma_lone_row(p, r, abs_r);
    lemma_lone_row(q, u, abs_u);
    let t = p + seq![':'] + q;
    let x = rows_reference(r, abs_r, u, abs_u);
    lemma_rows_local(p, q, r, abs_r, u, abs_u);
    lemma_rows_end(p, q, behind, u, abs_u);
    lemma_axis_step(p, q, behind, x);
    let f = formula::Found {
        start: 0,
        local: 0,
        end: t.len() as int,
        parsed: x,
        qualified: false,
    };
    lemma_in_place(before, t, behind, seq![f]);
}

// ---------------------------------------------------------------------------
// References to other sheets.

/// A sheet that a formula can name: it has a name, without a bracket or a colon,
/// which no workbook allows; and one that is written without quotes does not begin
/// with a point.
pub open spec fn can_be_named(name: Seq<char>) -> bool {
    &&& name.len() > 0
    &&& forall|i: int| 0 <= i < name.len() ==> #[trigger] name[i] != '[' && name[i] != ':'
    &&& address::needs_quotes(name) || name[0] != '.'
}

/// A reference on a sheet that it names.
pub open spec fn on_sheet(r: address::Reference, name: Seq<char>) -> address::Reference {
    address::Reference { sheet_name: Some(name), ..r }
}

proof fn lemma_read_on_sheet(name: Seq<char>, t: Seq<char>, r: address::Reference)
    requires
        can_be_named(name),
        is_local(t, r),
    ensures
        address::a1(address::cited(name, t)) == Ok::<address::Reference, address::Fault>(
            on_sheet(r, name),
        ),
{
    reveal(is_local);
    let c = address::local_corners(t)->Ok_0;
    address::lemma_cited_local(name, t, c);
}

/// What the scanner makes of a sheet's name is what stands behind it.
#[verifier::spinoff_prover]
#[verifier::rlimit(40)]
proof fn lemma_name_step(name: Seq<char>, rest: Seq<char>)
    requires
        can_be_named(name),
        rest.len() > 0,
        rest[0] == '!',
    ensures
        ({
            let q = address::quoted_name(name);
            let s = q + rest;
            formula::qualified_reference(s, q.len() as int, 0) is Some
                ==> formula::reference_step(s, 0) == formula::step_to(
                formula::qualified_reference(s, q.len() as int, 0),
                0,
            )
        }),
        address::quoted_name(name).len() > 0,
{
    let q = address::quoted_name(name);
    let s = q + rest;
    let n = q.len() as int;
    assert(s[n] == '!');
    if address::needs_quotes(name) {
        let d = text::doubled(name);
        assert(s[0] == '\'');
        assert(s.subrange(1, 1 + d.len() as int) =~= d);
        assert(s[1 + d.len() as int] == '\'');
        address::lemma_closing_after_doubled(s, 1, name);
        assert(formula::quoted_end(s, 0, '\'') == n);
    } else {
        assert forall|i: int| 0 <= i < q.len() implies formula::is_ident(#[trigger] q[i])
            || q[i] == '$' by {
            assert(address::is_bare(name[i]));
        }
        lemma_word(q, rest);
        assert(address::is_bare(name[0]));
        assert(s[0] == name[0]);
    }
    reveal(formula::reference_step);
}

#[verifier::spinoff_prover]
#[verifier::rlimit(40)]
proof fn lemma_cited_cell_step(name: Seq<char>, p: Seq<char>, behind: Seq<char>, a: Corner)
    requires
        can_be_named(name),
        can_follow(behind),
        writes_cell(p, a),
    ensures
        ({
            let t = address::cited(name, p);
            formula::reference_step(t + behind, 0) == (formula::Step {
                found: Some(
                    formula::Found {
                        start: 0,
                        local: (t.len() - p.len()) as int,
                        end: t.len() as int,
                        parsed: on_sheet(cell_reference(a), name),
                        qualified: true,
                    },
                ),
                next: t.len() as int,
            })
        }),
{
    let q = address::quoted_name(name);
    let t = address::cited(name, p);
    let s = t + behind;
    let n = q.len() as int;
    let m = t.len() as int;
    lemma_cell_local(p, a);
    lemma_read_on_sheet(name, p, cell_reference(a));
    lemma_cell_chars(p, a);
    let rest = seq!['!'] + p + behind;
    assert(s =~= q + rest);
    assert(s[n] == '!');
    assert(s.subrange(n + 1, m) =~= p);
    if behind.len() > 0 {
        assert(s[m] == behind[0]);
    }
    lemma_word_at(s, n + 1, p);
    assert(s.subrange(0, m) =~= t);
    lemma_qualified_token(s, n, m, m, on_sheet(cell_reference(a), name));
    lemma_name_step(name, rest);
}

pub proof fn lemma_cell_chars(t: Seq<char>, c: Corner)
    requires
        writes_cell(t, c),
    ensures
        t.len() >= 2,
        text::is_digit(t.last()),
        forall|i: int| 0 <= i < t.len() ==> formula::is_ident(#[trigger] t[i]) || t[i] == '$',
{
    lemma_cell(t, c);
}

proof fn lemma_qualified_token(s: Seq<char>, n: int, end: int, m: int, r: address::Reference)
    requires
        0 <= n,
        n + 1 < end <= m <= s.len(),
        s[n] == '!',
        formula::ident_run(s, n + 1) == end,
        formula::cell_token(s.subrange(n + 1, end)) is Some,
        formula::range_end(s, end) == Some(m) || (m == end && formula::range_end(s, end) is None),
        formula::read(s, 0, m) == Some(r),
    ensures
        formula::qualified_reference(s, n, 0) == Some(
            formula::Found { start: 0, local: n + 1, end: m, parsed: r, qualified: true },
        ),
{
}

proof fn lemma_range_text(sheet: Seq<char>, p: Seq<char>, q: Seq<char>, behind: Seq<char>)
    requires
        can_follow(behind),
        p.len() > 0,
        q.len() > 0,
        forall|i: int| 0 <= i < p.len() ==> formula::is_ident(#[trigger] p[i]) || p[i] == '$',
        forall|i: int| 0 <= i < q.len() ==> formula::is_ident(#[trigger] q[i]) || q[i] == '$',
    ensures
        ({
            let local = p + seq![':'] + q;
            let t = sheet.push('!') + local;
            let s = t + behind;
            let n = sheet.len() as int;
            let end = n + 1 + p.len();
            &&& s == sheet + (seq!['!'] + local + behind)
            &&& s[n] == '!'
            &&& s[end] == ':'
            &&& s.subrange(n + 1, end) == p
            &&& s.subrange(end + 1, t.len() as int) == q
            &&& s.subrange(0, t.len() as int) == t
            &&& formula::ident_run(s, n + 1) == end
            &&& formula::ident_run(s, end + 1) == t.len()
        }),
{
    let local = p + seq![':'] + q;
    let t = sheet.push('!') + local;
    let s = t + behind;
    let n = sheet.len() as int;
    let end = n + 1 + p.len();
    let m = t.len() as int;
    assert(s =~= sheet + (seq!['!'] + local + behind));
    assert(s.subrange(n + 1, end) =~= p);
    assert(s.subrange(end + 1, m) =~= q);
    assert(s.subrange(0, m) =~= t);
    if behind.len() > 0 {
        assert(s[m] == behind[0]);
    }
    lemma_word_at(s, n + 1, p);
    lemma_word_at(s, end + 1, q);
}

#[verifier::spinoff_prover]
#[verifier::rlimit(40)]
proof fn lemma_cited_range_step(
    name: Seq<char>,
    p: Seq<char>,
    q: Seq<char>,
    behind: Seq<char>,
    a: Corner,
    b: Corner,
)
    requires
        can_be_named(name),
        can_follow(behind),
        writes_cell(p, a),
        writes_cell(q, b),
    ensures
        ({
            let local = p + seq![':'] + q;
            let t = address::cited(name, local);
            formula::reference_step(t + behind, 0) == (formula::Step {
                found: Some(
                    formula::Found {
                        start: 0,
                        local: (t.len() - local.len()) as int,
                        end: t.len() as int,
                        parsed: on_sheet(range_reference(a, b), name),
                        qualified: true,
                    },
                ),
                next: t.len() as int,
            })
        }),
{
    let local = p + seq![':'] + q;
    let sheet = address::quoted_name(name);
    let t = address::cited(name, local);
    let s = t + behind;
    let n = sheet.len() as int;
    let end = n + 1 + p.len();
    let m = t.len() as int;
    lemma_cell_local(p, a);
    lemma_cell_local(q, b);
    lemma_range_local(p, q, a, b);
    lemma_read_on_sheet(name, local, range_reference(a, b));
    lemma_cell_chars(p, a);
    lemma_cell_chars(q, b);
    lemma_range_text(sheet, p, q, behind);
    let rest = seq!['!'] + local + behind;
    assert(t == sheet.push('!') + local);
    assert(formula::range_end(s, end) == Some(m));
    lemma_qualified_token(s, n, end, m, on_sheet(range_reference(a, b), name));
    lemma_name_step(name, rest);
}

/// A cell of a named sheet, wherever it stands in a formula, is one reference to
/// that cell of that sheet, and its local part is the cell alone.
#[verifier::spinoff_prover]
#[verifier::rlimit(40)]
pub proof fn a_cell_of_a_sheet_is_one_reference(
    before: Seq<char>,
    name: Seq<char>,
    p: Seq<char>,
    behind: Seq<char>,
    a: Corner,
)
    requires
        can_precede(before),
        can_be_named(name),
        can_follow(behind),
        writes_cell(p, a),
    ensures
        ({
            let t = address::cited(name, p);
            refers_to(
                before,
                t,
                behind,
                seq![
                    formula::Found {
                        start: 0,
                        local: (t.len() - p.len()) as int,
                        end: t.len() as int,
                        parsed: on_sheet(cell_reference(a), name),
                        qualified: true,
                    },
                ],
            )
        }),
{
    let t = address::cited(name, p);
    lemma_cell(p, a);
    lemma_cited_cell_step(name, p, behind, a);
    let f = formula::Found {
        start: 0,
        local: (t.len() - p.len()) as int,
        end: t.len() as int,
        parsed: on_sheet(cell_reference(a), name),
        qualified: true,
    };
    lemma_in_place(before, t, behind, seq![f]);
}

/// A range of a named sheet, wherever it stands in a formula, is one reference to
/// that range of that sheet, and its local part is the range alone.
#[verifier::spinoff_prover]
#[verifier::rlimit(40)]
pub proof fn a_range_of_a_sheet_is_one_reference(
    before: Seq<char>,
    name: Seq<char>,
    p: Seq<char>,
    q: Seq<char>,
    behind: Seq<char>,
    a: Corner,
    b: Corner,
)
    requires
        can_precede(before),
        can_be_named(name),
        can_follow(behind),
        writes_cell(p, a),
        writes_cell(q, b),
    ensures
        ({
            let local = p + seq![':'] + q;
            let t = address::cited(name, local);
            refers_to(
                before,
                t,
                behind,
                seq![
                    formula::Found {
                        start: 0,
                        local: (t.len() - local.len()) as int,
                        end: t.len() as int,
                        parsed: on_sheet(range_reference(a, b), name),
                        qualified: true,
                    },
                ],
            )
        }),
{
    let local = p + seq![':'] + q;
    let t = address::cited(name, local);
    lemma_cell(q, b);
    lemma_cited_range_step(name, p, q, behind, a, b);
    let f = formula::Found {
        start: 0,
        local: (t.len() - local.len()) as int,
        end: t.len() as int,
        parsed: on_sheet(range_reference(a, b), name),
        qualified: true,
    };
    assert(t.last() == q.last());
    lemma_in_place(before, t, behind, seq![f]);
}

// ---------------------------------------------------------------------------
// Pieces that refer to nothing.

/// A word that a letter or an underscore begins.
pub open spec fn is_word(word: Seq<char>) -> bool {
    &&& word.len() > 0
    &&& text::is_letter(word[0]) || word[0] == '_'
    &&& forall|i: int| 0 <= i < word.len() ==> formula::is_ident(#[trigger] word[i])
}

/// A function's name refers to nothing, even where it reads as a cell: what stands
/// in its brackets does.
#[verifier::spinoff_prover]
#[verifier::rlimit(40)]
pub proof fn a_call_refers_only_with_its_arguments(
    before: Seq<char>,
    word: Seq<char>,
    behind: Seq<char>,
)
    requires
        can_precede(before),
        is_word(word),
        behind.len() > 0,
        behind[0] == '(',
    ensures
        refers_to(before, word, behind, Seq::empty()),
{
    let s = word + behind;
    lemma_word(word, behind);
    assert(s[0] == word[0]);
    assert(s[word.len() as int] == '(');
    assert(formula::reference_step(s, 0) == formula::word_step(s, 0)) by {
        reveal(formula::reference_step);
    }
    lemma_in_place(before, word, behind, Seq::empty());
}

/// A word that does not read as a cell refers to nothing.
#[verifier::spinoff_prover]
#[verifier::rlimit(40)]
pub proof fn a_name_is_no_reference(before: Seq<char>, word: Seq<char>, behind: Seq<char>)
    requires
        can_precede(before),
        can_follow(behind),
        is_word(word),
        formula::cell_token(word) is None,
    ensures
        refers_to(before, word, behind, Seq::empty()),
{
    let s = word + behind;
    lemma_word(word, behind);
    assert(s[0] == word[0]);
    if behind.len() > 0 {
        assert(s[word.len() as int] == behind[0]);
    }
    assert(formula::reference_step(s, 0) == formula::word_step(s, 0)) by {
        reveal(formula::reference_step);
    }
    lemma_in_place(before, word, behind, Seq::empty());
}

/// A text in quotes refers to nothing, whatever it holds.
#[verifier::spinoff_prover]
#[verifier::rlimit(40)]
pub proof fn a_quoted_text_is_no_reference(before: Seq<char>, held: Seq<char>, behind: Seq<char>)
    requires
        can_precede(before),
        forall|i: int| 0 <= i < held.len() ==> #[trigger] held[i] != '"',
        behind.len() > 0 ==> behind[0] != '"',
    ensures
        refers_to(before, seq!['"'] + held + seq!['"'], behind, Seq::empty()),
{
    let t = seq!['"'] + held + seq!['"'];
    let s = t + behind;
    let n = held.len() as int;
    assert forall|j: int| 1 <= j < n + 1 implies #[trigger] s[j] != '"' by {
        assert(s[j] == held[j - 1]);
    }
    assert(s[n + 1] == '"');
    if behind.len() > 0 {
        assert(s[n + 2] == behind[0]);
    }
    literals::lemma_over_literal(s, 1, n + 1);
    assert(formula::quoted_end(s, 0, '"') == t.len());
    assert(formula::reference_step(s, 0) == (formula::Step {
        found: None,
        next: t.len() as int,
    })) by {
        reveal(formula::reference_step);
    }
    assert(t.last() == '"');
    lemma_in_place(before, t, behind, Seq::empty());
}

} // verus!
