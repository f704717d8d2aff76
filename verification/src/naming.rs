//! What a formula names, piece by piece.
//!
//! A word in a formula names something wherever it stands. A function's name, a cell
//! and what stands in quotes do not. A name behind a sheet is that sheet's.

use crate::address;
use crate::formula;
use crate::formula::{NameStep, Named};
use crate::literals;
use crate::literals::{is_stop, tracks};
use crate::scanning;
use crate::scanning::{can_be_named, can_follow, can_precede, is_word, writes_cell, Corner};
use crate::text;
use vstd::prelude::*;

verus! {

// ---------------------------------------------------------------------------
// The scanner goes alike in texts that agree.

/// A name that stands further on.
pub open spec fn moved(n: Named, d: int) -> Named {
    Named { start: n.start + d, end: n.end + d, ..n }
}

/// Names that stand further on.
pub open spec fn all_moved(names: Seq<Named>, d: int) -> Seq<Named> {
    names.map_values(|n: Named| moved(n, d))
}

spec fn step_on(a: NameStep, b: NameStep, d: int) -> bool {
    b.next == a.next + d && b.found == (match a.found {
        Some(n) => Some(moved(n, d)),
        None => None,
    })
}

proof fn lemma_qualified_name(s: Seq<char>, t: Seq<char>, lo: int, m: int, d: int, bang: int)
    requires
        tracks(s, t, lo, m, d),
        lo <= bang <= m,
    ensures
        formula::qualified_name(t, bang + d) == (match formula::qualified_name(s, bang) {
            Some((a, b)) => Some((a + d, b + d)),
            None => None,
        }),
        formula::qualified_name(s, bang) matches Some((a, b)) ==> bang < a < b <= m,
{
    if bang < m {
        assert(s[bang] == t[bang + d]);
        literals::lemma_runs(s, t, lo, m, d, bang + 1);
        let end = formula::ident_run(s, bang + 1);
        literals::lemma_after_token(s, t, lo, m, d, bang + 1, bang + 1, end, true);
    }
}

proof fn lemma_qualifier(
    s: Seq<char>,
    t: Seq<char>,
    lo: int,
    m: int,
    d: int,
    start: int,
    bang: int,
    sheet: Seq<char>,
    otherwise: int,
)
    requires
        tracks(s, t, lo, m, d),
        lo <= start <= bang <= m,
        otherwise <= m,
    ensures
        step_on(
            formula::qualifier_step(s, start, bang, sheet, otherwise),
            formula::qualifier_step(t, start + d, bang + d, sheet, otherwise + d),
            d,
        ),
        formula::qualifier_step(s, start, bang, sheet, otherwise).next <= m,
{
    literals::lemma_qualified(s, t, lo, m, d, bang, start);
    lemma_qualified_name(s, t, lo, m, d, bang);
}

#[verifier::spinoff_prover]
#[verifier::rlimit(40)]
proof fn lemma_plain_word(s: Seq<char>, t: Seq<char>, lo: int, m: int, d: int, i: int, end: int)
    requires
        tracks(s, t, lo, m, d),
        lo <= i < end <= m,
        literals::follows_alike(s, t, i, d),
    ensures
        step_on(
            formula::plain_word_step(s, i, end),
            formula::plain_word_step(t, i + d, end + d),
            d,
        ),
        formula::plain_word_step(s, i, end).next <= m,
{
    literals::lemma_after_token(s, t, lo, m, d, i, i, end, false);
    if end < s.len() && s[end] == ':' {
        if let Some(bang) = formula::sheet_range_bang(s, end) {
            literals::lemma_qualified(s, t, lo, m, d, bang, i);
        }
        if let Some(e) = formula::axis_end(s, end) {
            literals::lemma_found(s, t, lo, m, d, i, i, e, false);
        }
    }
}

/// A name can start with a character, but for one in a foreign script. Only there
/// does it matter what stands before it.
pub open spec fn starts_name(c: char) -> bool {
    text::is_letter(c) || c == '_' || c == '\\'
}

/// What the scanner makes of a word that starts here, in any script.
spec fn word_step(s: Seq<char>, i: int, end: int) -> NameStep {
    if end < s.len() && s[end] == '!' {
        formula::qualifier_step(s, i, end, s.subrange(i, end), end + 1)
    } else if s[i] as u32 <= 0x7f {
        formula::plain_word_step(s, i, end)
    } else if end < s.len() && s[end] == '(' {
        NameStep { found: None, next: end }
    } else {
        NameStep { found: Some(Named { start: i, end, sheet: None }), next: end }
    }
}

/// Where a word that starts here ends.
spec fn word_end(s: Seq<char>, i: int) -> int {
    formula::ident_run(
        s,
        if s[i] == '\\' {
            i + 1
        } else {
            i
        },
    )
}

proof fn lemma_word_end(s: Seq<char>, t: Seq<char>, lo: int, m: int, d: int, i: int)
    requires
        tracks(s, t, lo, m, d),
        lo <= i < m,
        s[i] as u32 > 0x7f || starts_name(s[i]),
    ensures
        word_end(t, i + d) == word_end(s, i) + d,
        i < word_end(s, i) <= m,
{
    assert(s[i] == t[i + d]);
    literals::lemma_runs(s, t, lo, m, d, i);
    literals::lemma_runs(s, t, lo, m, d, i + 1);
}

proof fn lemma_word_step(s: Seq<char>, t: Seq<char>, lo: int, m: int, d: int, i: int, end: int)
    requires
        tracks(s, t, lo, m, d),
        lo <= i < end <= m,
        literals::follows_alike(s, t, i, d) || s[i] as u32 > 0x7f,
    ensures
        step_on(word_step(s, i, end), word_step(t, i + d, end + d), d),
        word_step(s, i, end).next <= m,
{
    assert(s[i] == t[i + d]);
    literals::lemma_same_part(s, t, lo, m, d, i, end);
    literals::lemma_after_token(s, t, lo, m, d, i, i, end, false);
    if end < s.len() && s[end] == '!' {
        assert(end < m);
        lemma_qualifier(s, t, lo, m, d, i, end, s.subrange(i, end), end + 1);
    } else if s[i] as u32 <= 0x7f {
        lemma_plain_word(s, t, lo, m, d, i, end);
    }
}

proof fn lemma_is_word_step(s: Seq<char>, i: int)
    requires
        0 <= i < s.len(),
        s[i] as u32 > 0x7f || starts_name(s[i]),
    ensures
        formula::name_step(s, i) == word_step(s, i, word_end(s, i)),
{
    reveal(formula::name_step);
}

/// What the scanner makes of a sheet's name in quotes.
spec fn quoted_step(s: Seq<char>, i: int) -> NameStep {
    let end = formula::quoted_end(s, i, '\'');
    formula::qualifier_step(s, i, end, formula::unquoted_name(s.subrange(i, end)), end)
}

proof fn lemma_quoted_step(s: Seq<char>, t: Seq<char>, d: int, i: int)
    requires
        tracks(s, t, 0, s.len() as int, d),
        0 <= i < s.len(),
    ensures
        step_on(quoted_step(s, i), quoted_step(t, i + d), d),
        quoted_step(s, i).next <= s.len(),
        formula::quoted_end(t, i + d, '"') == formula::quoted_end(s, i, '"') + d,
        formula::quoted_end(s, i, '"') <= s.len(),
{
    let m = s.len() as int;
    literals::lemma_closing(s, t, 0, d, '\'', i + 1);
    literals::lemma_closing(s, t, 0, d, '"', i + 1);
    let end = formula::quoted_end(s, i, '\'');
    literals::lemma_same_part(s, t, 0, m, d, i, end);
    lemma_qualifier(s, t, 0, m, d, i, end, formula::unquoted_name(s.subrange(i, end)), end);
}

proof fn lemma_step(s: Seq<char>, t: Seq<char>, m: int, d: int, i: int)
    requires
        tracks(s, t, 0, m, d),
        0 <= i < m,
        literals::follows_alike(s, t, i, d) || !starts_name(s[i]),
        m == s.len() || (s[i] != '"' && s[i] != '\'' && s[i] != '['),
    ensures
        step_on(formula::name_step(s, i), formula::name_step(t, i + d), d),
        i < formula::name_step(s, i).next <= m,
{
    formula::lemma_name_step(s, i);
    assert(s[i] == t[i + d]);
    let c = s[i];
    if c == '"' || c == '\'' {
        lemma_quoted_step(s, t, d, i);
        reveal(formula::name_step);
    } else if c == '[' {
        literals::lemma_closing(s, t, 0, d, ']', i);
        reveal(formula::name_step);
    } else if c as u32 > 0x7f || starts_name(c) {
        lemma_word_end(s, t, 0, m, d, i);
        lemma_word_step(s, t, 0, m, d, i, word_end(s, i));
        lemma_is_word_step(s, i);
        lemma_is_word_step(t, i + d);
    } else if text::is_digit(c) {
        literals::lemma_runs(s, t, 0, m, d, i);
        reveal(formula::name_step);
    } else {
        reveal(formula::name_step);
    }
}

proof fn lemma_names_behind(s: Seq<char>, t: Seq<char>, d: int, i: int)
    requires
        tracks(s, t, 0, s.len() as int, d),
        0 <= i <= s.len(),
        i < s.len() ==> literals::follows_alike(s, t, i, d) || !starts_name(s[i]),
    ensures
        formula::names_from(t, i + d) == all_moved(formula::names_from(s, i), d),
    decreases s.len() - i,
{
    if i < s.len() {
        lemma_step(s, t, s.len() as int, d, i);
        formula::lemma_name_step(s, i);
        formula::lemma_name_step(t, i + d);
        let step = formula::name_step(s, i);
        assert(s[step.next - 1] == t[step.next - 1 + d]);
        lemma_names_behind(s, t, d, step.next);
    }
    assert(formula::names_from(t, i + d) =~= all_moved(formula::names_from(s, i), d));
}

proof fn lemma_names_before(s: Seq<char>, t: Seq<char>, n: int, i: int) -> (pre: Seq<Named>)
    requires
        tracks(s, t, 0, n, 0),
        n < s.len(),
        forall|j: int| 0 <= j < n ==> #[trigger] s[j] != '"' && s[j] != '\'' && s[j] != '[',
        0 <= i <= n,
    ensures
        formula::names_from(s, i) == pre + formula::names_from(s, n),
        formula::names_from(t, i) == pre + formula::names_from(t, n),
    decreases n - i,
{
    if i < n {
        if i > 0 {
            assert(s[i - 1] == t[i - 1 + 0]);
        }
        lemma_step(s, t, n, 0, i);
        formula::lemma_name_step(s, i);
        formula::lemma_name_step(t, i);
        let step = formula::name_step(s, i);
        let rest = lemma_names_before(s, t, n, step.next);
        match step.found {
            Some(f) => {
                assert(moved(f, 0) == f);
                let pre = seq![f] + rest;
                assert(formula::names_from(s, i) =~= pre + formula::names_from(s, n));
                assert(formula::names_from(t, i) =~= pre + formula::names_from(t, n));
                pre
            },
            None => rest,
        }
    } else {
        let pre = Seq::<Named>::empty();
        assert(formula::names_from(s, n) =~= pre + formula::names_from(s, n));
        assert(formula::names_from(t, n) =~= pre + formula::names_from(t, n));
        pre
    }
}

// ---------------------------------------------------------------------------
// Pieces in their places.

/// What a formula of three pieces names: what the first does, what is found in the
/// second, and what the third does.
pub open spec fn names_it(
    before: Seq<char>,
    piece: Seq<char>,
    behind: Seq<char>,
    found: Seq<Named>,
) -> bool {
    formula::names(before + piece + behind) == formula::names(before) + all_moved(
        found,
        before.len() as int,
    ) + all_moved(formula::names(behind), (before.len() + piece.len()) as int)
}

/// A piece can stand in front of a name: every word ends with it, and it does not
/// end with the mark that a name may start with.
pub open spec fn can_lead(before: Seq<char>) -> bool {
    can_precede(before) && (before.len() > 0 ==> before.last() != '\\')
}

proof fn lemma_before(before: Seq<char>, rest: Seq<char>)
    requires
        can_lead(before),
    ensures
        formula::names(before + rest) == formula::names(before) + formula::names_from(
            before + rest,
            before.len() as int,
        ),
{
    let f = before + rest;
    let n = before.len() as int;
    if n == 0 {
        assert(formula::names(before) =~= Seq::empty());
        assert(formula::names(f) =~= formula::names(before) + formula::names_from(f, 0));
    } else {
        let m = n - 1;
        assert forall|j: int| 0 <= j < m implies #[trigger] before[j] == f[j + 0] by {}
        assert(f[m] == before[m]);
        assert(before[m] == before.last());
        assert(tracks(before, f, 0, m, 0));
        let pre = lemma_names_before(before, f, m, 0);
        lemma_stop_step(before, m);
        lemma_stop_step(f, m);
        assert(formula::names_from(before, m) =~= Seq::empty());
        assert(formula::names(before) =~= pre);
    }
}

proof fn lemma_stop_step(s: Seq<char>, i: int)
    requires
        0 <= i < s.len(),
        is_stop(s[i]) || s[i] == '$',
        s[i] != '"',
        s[i] != '\'',
        s[i] != '[',
        s[i] != '\\',
    ensures
        formula::name_step(s, i) == (NameStep { found: None, next: i + 1 }),
        formula::names_from(s, i) == formula::names_from(s, i + 1),
{
    reveal(formula::name_step);
    formula::lemma_name_step(s, i);
}

proof fn lemma_behind(before: Seq<char>, rest: Seq<char>)
    requires
        before.len() > 0 && rest.len() > 0 ==> !formula::is_ident(before.last()) || !starts_name(
            rest[0],
        ),
    ensures
        formula::names_from(before + rest, before.len() as int) == all_moved(
            formula::names(rest),
            before.len() as int,
        ),
{
    let f = before + rest;
    let n = before.len() as int;
    assert forall|j: int| 0 <= j < rest.len() implies #[trigger] rest[j] == f[j + n] by {}
    assert(tracks(rest, f, 0, rest.len() as int, n));
    if rest.len() > 0 && n > 0 {
        assert(f[n - 1] == before.last());
    }
    lemma_names_behind(rest, f, n, 0);
}

/// A piece is found in its place as it is at the head of what stands behind it.
#[verifier::spinoff_prover]
#[verifier::rlimit(40)]
proof fn lemma_in_place(
    before: Seq<char>,
    piece: Seq<char>,
    behind: Seq<char>,
    found: Seq<Named>,
)
    requires
        can_lead(before),
        piece.len() > 0,
        behind.len() > 0 ==> !formula::is_ident(piece.last()) || !starts_name(behind[0]),
        formula::names(piece + behind) == found + formula::names_from(
            piece + behind,
            piece.len() as int,
        ),
    ensures
        names_it(before, piece, behind, found),
{
    let g = piece + behind;
    let f = before + piece + behind;
    let n = before.len() as int;
    let m = piece.len() as int;
    assert(f =~= before + g);
    lemma_before(before, g);
    lemma_behind(before, g);
    lemma_behind(piece, behind);
    let rest = all_moved(formula::names(behind), m);
    assert(all_moved(found + rest, n) =~= all_moved(found, n) + all_moved(rest, n));
    assert(all_moved(rest, n) =~= all_moved(formula::names(behind), n + m));
    assert(formula::names(f) =~= formula::names(before) + all_moved(found, n) + all_moved(
        formula::names(behind),
        n + m,
    ));
}

// ---------------------------------------------------------------------------
// Words.

/// A text that does not end with a digit is no cell.
proof fn lemma_no_cell(t: Seq<char>)
    requires
        t.len() > 0,
        !text::is_digit(t.last()),
    ensures
        formula::cell_token(t) is None,
{
    if formula::is_cell_shape(t) {
        let a: int = if t[0] == '$' {
            1
        } else {
            0
        };
        text::lemma_letter_run(t, a);
        let b = text::letter_run(t, a);
        let d: int = if b < t.len() && t[b] == '$' {
            b + 1
        } else {
            b
        };
        text::lemma_digit_run(t, d);
        assert(t[t.len() - 1] == t.last());
    }
}

/// A word is one name, wherever it stands in a formula: one that no cell is written
/// like, such as any that does not end with a digit.
#[verifier::spinoff_prover]
#[verifier::rlimit(40)]
pub proof fn a_word_is_one_name(before: Seq<char>, word: Seq<char>, behind: Seq<char>)
    requires
        can_lead(before),
        can_follow(behind),
        behind.len() > 0 ==> behind[0] != '\\',
        is_word(word),
        formula::cell_token(word) is None || !text::is_digit(word.last()),
    ensures
        names_it(
            before,
            word,
            behind,
            seq![Named { start: 0, end: word.len() as int, sheet: None }],
        ),
{
    let s = word + behind;
    if !text::is_digit(word.last()) {
        lemma_no_cell(word);
    }
    scanning::lemma_word(word, behind);
    assert(s[0] == word[0]);
    if behind.len() > 0 {
        assert(s[word.len() as int] == behind[0]);
    }
    let n = Named { start: 0, end: word.len() as int, sheet: None };
    assert(formula::name_step(s, 0) == (NameStep { found: Some(n), next: word.len() as int })) by {
        reveal(formula::name_step);
    }
    formula::lemma_name_step(s, 0);
    lemma_in_place(before, word, behind, seq![n]);
}

/// A function's name names nothing of the workbook's.
#[verifier::spinoff_prover]
#[verifier::rlimit(40)]
pub proof fn a_call_is_no_name(before: Seq<char>, word: Seq<char>, behind: Seq<char>)
    requires
        can_lead(before),
        is_word(word),
        behind.len() > 0,
        behind[0] == '(',
    ensures
        names_it(before, word, behind, Seq::empty()),
{
    let s = word + behind;
    scanning::lemma_word(word, behind);
    assert(s[0] == word[0]);
    assert(s[word.len() as int] == '(');
    assert(formula::name_step(s, 0) == (NameStep { found: None, next: word.len() as int })) by {
        reveal(formula::name_step);
    }
    formula::lemma_name_step(s, 0);
    assert(formula::names(s) =~= Seq::<Named>::empty() + formula::names_from(
        s,
        word.len() as int,
    ));
    lemma_in_place(before, word, behind, Seq::empty());
}

/// A cell without the `$` in front of it, where there is one, is a cell too.
proof fn lemma_relative(t: Seq<char>, c: Corner) -> (at: int)
    requires
        writes_cell(t, c),
    ensures
        0 <= at <= 1 < t.len(),
        at == 1 ==> t[0] == '$',
        text::is_letter(t[at]),
        text::is_digit(t.last()),
        formula::cell_token(t.skip(at)) is Some,
        forall|i: int| 0 <= i < t.len() ==> formula::is_ident(#[trigger] t[i]) || t[i] == '$',
{
    scanning::lemma_cell_chars(t, c);
    let (letters, digits) = choose|letters: Seq<char>, digits: Seq<char>|
        scanning::names_column(letters, c.col) && scanning::names_row(digits, c.row) && t
            == #[trigger] (scanning::dollar(c.abs_col) + letters + scanning::dollar(c.abs_row)
            + digits);
    let bare = Corner { abs_col: false, ..c };
    let word = scanning::dollar(bare.abs_col) + letters + scanning::dollar(bare.abs_row) + digits;
    assert(writes_cell(word, bare));
    scanning::lemma_cell_local(word, bare);
    let at: int = if c.abs_col {
        1
    } else {
        0
    };
    assert(t.skip(at) =~= word);
    assert(word[0] == letters[0]);
    assert(t[at] == t.skip(at)[0]);
    at
}

#[verifier::spinoff_prover]
#[verifier::rlimit(40)]
proof fn lemma_cell_step(t: Seq<char>, behind: Seq<char>, at: int)
    requires
        0 <= at < t.len(),
        can_follow(behind),
        text::is_letter(t[at]),
        formula::cell_token(t.skip(at)) is Some,
        forall|i: int| 0 <= i < t.len() ==> formula::is_ident(#[trigger] t[i]) || t[i] == '$',
    ensures
        formula::name_step(t + behind, at) == (NameStep { found: None, next: t.len() as int }),
{
    let s = t + behind;
    let m = t.len() as int;
    let word = t.skip(at);
    assert(s.subrange(at, m) =~= word);
    assert(s[at] == t[at]);
    if behind.len() > 0 {
        assert(s[m] == behind[0]);
    }
    scanning::lemma_word_at(s, at, word);
    lemma_is_word_step(s, at);
}

/// A cell is no name, however it is written.
#[verifier::spinoff_prover]
#[verifier::rlimit(40)]
pub proof fn a_cell_is_no_name(before: Seq<char>, t: Seq<char>, behind: Seq<char>, c: Corner)
    requires
        can_lead(before),
        can_follow(behind),
        behind.len() > 0 ==> behind[0] != '\\',
        writes_cell(t, c),
    ensures
        names_it(before, t, behind, Seq::empty()),
{
    let s = t + behind;
    let m = t.len() as int;
    let at = lemma_relative(t, c);
    lemma_cell_step(t, behind, at);
    formula::lemma_name_step(s, at);
    assert(formula::names_from(s, at) == formula::names_from(s, m));
    if at == 1 {
        assert(s[0] == '$');
        lemma_stop_step(s, 0);
    }
    assert(formula::names(s) =~= Seq::<Named>::empty() + formula::names_from(s, m));
    lemma_in_place(before, t, behind, Seq::empty());
}

/// What stands in quotes names nothing.
#[verifier::spinoff_prover]
#[verifier::rlimit(40)]
pub proof fn a_quoted_text_holds_no_name(before: Seq<char>, held: Seq<char>, behind: Seq<char>)
    requires
        can_lead(before),
        forall|i: int| 0 <= i < held.len() ==> #[trigger] held[i] != '"',
        behind.len() > 0 ==> behind[0] != '"',
    ensures
        names_it(before, seq!['"'] + held + seq!['"'], behind, Seq::empty()),
{
    let t = seq!['"'] + held + seq!['"'];
    let s = t + behind;
    let n = held.len() as int;
    assert forall|j: int| 1 <= j < n + 1 implies #[trigger] s[j] != '"' by {
        assert(s[j] == held[j - 1]);
    }
    assert(s[n + 1] == '"');
    if behind.len() > 0 {
        assert(s[n + 2] == behind[0]);
    }
    literals::lemma_over_literal(s, 1, n + 1);
    assert(formula::quoted_end(s, 0, '"') == t.len());
    assert(formula::name_step(s, 0) == (NameStep { found: None, next: t.len() as int })) by {
        reveal(formula::name_step);
    }
    formula::lemma_name_step(s, 0);
    assert(t.last() == '"');
    assert(formula::names(s) =~= Seq::<Named>::empty() + formula::names_from(s, t.len() as int));
    lemma_in_place(before, t, behind, Seq::empty());
}

/// The step at a sheet's name, quoted where it has to be, is what the qualifier
/// leads to.
#[verifier::spinoff_prover]
#[verifier::rlimit(40)]
proof fn lemma_sheet_step(name: Seq<char>, rest: Seq<char>)
    requires
        can_be_named(name),
        rest.len() > 0,
        rest[0] == '!',
    ensures
        ({
            let q = address::quoted_name(name);
            let s = q + rest;
            exists|otherwise: int|
                formula::name_step(s, 0) == #[trigger] formula::qualifier_step(
                    s,
                    0,
                    q.len() as int,
                    name,
                    otherwise,
                )
        }),
        address::quoted_name(name).len() > 0,
{
    let q = address::quoted_name(name);
    let s = q + rest;
    let n = q.len() as int;
    assert(s[n] == '!');
    if address::needs_quotes(name) {
        let d = text::doubled(name);
        assert(s[0] == '\'');
        assert(s.subrange(1, 1 + d.len() as int) =~= d);
        assert(s[1 + d.len() as int] == '\'');
        address::lemma_closing_after_doubled(s, 1, name);
        assert(formula::quoted_end(s, 0, '\'') == n);
        assert(s.subrange(0, n) =~= q);
        assert(q.subrange(1, q.len() - 1) =~= d);
        assert(q[0] == '\'' && q.last() == '\'');
        text::lemma_undoubled_doubled(name);
        assert(formula::unquoted_name(q) == name);
        assert(formula::name_step(s, 0) == formula::qualifier_step(s, 0, n, name, n)) by {
            reveal(formula::name_step);
        }
    } else {
        assert forall|i: int| 0 <= i < q.len() implies formula::is_ident(#[trigger] q[i])
            || q[i] == '$' by {
            assert(address::is_bare(name[i]));
        }
        scanning::lemma_word(q, rest);
        assert(address::is_bare(name[0]));
        assert(s[0] == name[0]);
        assert(formula::name_step(s, 0) == formula::qualifier_step(s, 0, n, name, n + 1)) by {
            reveal(formula::name_step);
        }
    }
}

#[verifier::spinoff_prover]
#[verifier::rlimit(40)]
proof fn lemma_sheet_name(s: Seq<char>, n: int, m: int, word: Seq<char>)
    requires
        0 <= n,
        n + 1 + word.len() == m <= s.len(),
        s[n] == '!',
        s.subrange(n + 1, m) == word,
        is_word(word),
        formula::cell_token(word) is None,
        m < s.len() ==> is_stop(s[m]) && s[m] != '(',
    ensures
        formula::qualified_reference(s, n, 0) is None,
        formula::qualified_name(s, n) == Some((n + 1, m)),
{
    scanning::lemma_word_at(s, n + 1, word);
}

proof fn lemma_sheet_text(sheet: Seq<char>, word: Seq<char>, behind: Seq<char>)
    ensures
        ({
            let q = address::quoted_name(sheet);
            let s = address::cited(sheet, word) + behind;
            let n = q.len() as int;
            let m = n + 1 + word.len();
            &&& s == q + (seq!['!'] + word + behind)
            &&& address::cited(sheet, word).len() == m
            &&& s[n] == '!'
            &&& s.subrange(n + 1, m) == word
            &&& behind.len() > 0 ==> s[m] == behind[0]
            &&& s.len() == m + behind.len()
            &&& word.len() > 0 ==> address::cited(sheet, word).last() == word.last()
        }),
{
    let q = address::quoted_name(sheet);
    let s = address::cited(sheet, word) + behind;
    let n = q.len() as int;
    let m = n + 1 + word.len();
    assert(s =~= q + (seq!['!'] + word + behind));
    assert(s.subrange(n + 1, m) =~= word);
}

/// A name behind a sheet is one name, and it is that sheet's.
#[verifier::spinoff_prover]
#[verifier::rlimit(40)]
pub proof fn a_name_of_a_sheet_is_one_name(
    before: Seq<char>,
    sheet: Seq<char>,
    word: Seq<char>,
    behind: Seq<char>,
)
    requires
        can_lead(before),
        can_be_named(sheet),
        can_follow(behind),
        behind.len() > 0 ==> behind[0] != '\\',
        is_word(word),
        formula::cell_token(word) is None || !text::is_digit(word.last()),
    ensures
        ({
            let piece = address::cited(sheet, word);
            names_it(
                before,
                piece,
                behind,
                seq![
                    Named {
                        start: piece.len() - word.len(),
                        end: piece.len() as int,
                        sheet: Some(sheet),
                    },
                ],
            )
        }),
{
    let q = address::quoted_name(sheet);
    let piece = address::cited(sheet, word);
    let s = piece + behind;
    let n = q.len() as int;
    let m = piece.len() as int;
    if !text::is_digit(word.last()) {
        lemma_no_cell(word);
    }
    lemma_sheet_text(sheet, word, behind);
    let rest = seq!['!'] + word + behind;
    assert(rest[0] == '!');
    lemma_sheet_step(sheet, rest);
    lemma_sheet_name(s, n, m, word);
    let named = Named { start: n + 1, end: m, sheet: Some(sheet) };
    assert(formula::name_step(s, 0) == (NameStep { found: Some(named), next: m }));
    formula::lemma_name_step(s, 0);
    assert(formula::names(s) =~= seq![named] + formula::names_from(s, m));
    lemma_in_place(before, piece, behind, seq![named]);
}

} // verus!
