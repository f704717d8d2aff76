//! Finding and rewriting the cell references inside formula text.
//!
//! Two jobs, both built on one scanner:
//!
//! - **Locating** references, so a formula can be turned into graph edges.
//! - **Normalising** a formula to R1C1 against the cell it lives in, producing a
//!   *shape*. `=A1*2` in B1 and `=A2*2` in B2 both normalise to `=RC[-1]*2`, so a
//!   filled-down column of ten thousand formulas collapses to one.
//!
//! Formula text is not parsed into an expression tree. Shapes only need the
//! references rewritten and everything else left alone.
//!
//! # Telling a reference from a name
//!
//! A token is a reference exactly when it matches `$?[A-Za-z]{1,3}$?[0-9]+` and
//! addresses a cell within the sheet. That is safe because Excel forbids
//! defining a name that looks like a cell reference. Three cases need care:
//!
//! - `SUM(A1)`: a name followed by `(` is a function, not a reference.
//! - `1E5`: scientific notation, where `E5` looks like a reference. A reference
//!   is never preceded by an identifier character.
//! - `"A1"`: text inside a string literal, and inside a quoted sheet name, is
//!   never rewritten.

use std::ops::Range;

use crate::address;
use crate::address::{parse_a1_chars, CellRef, ParsedRef};
use crate::text;
use crate::text::{
    byte_offsets, chars_of, digit, find_char, find_closing_quote, letter, push_chars,
    push_decimal, push_signed_decimal, scan_digits, scan_letters, slice_bytes, string_of,
    undouble_quotes,
};
use vstd::prelude::*;

verus! {

// ---------------------------------------------------------------------------
// Tokens
// ---------------------------------------------------------------------------

/// Whether a character can appear inside an identifier or a defined name.
pub open spec fn is_ident(c: char) -> bool {
    c as u32 > 0x7f || text::is_letter(c) || text::is_digit(c) || c == '_' || c == '.'
}

fn ident(c: char) -> (r: bool)
    ensures
        r == is_ident(c),
{
    c as u32 > 0x7f || letter(c) || digit(c) || c == '_' || c == '.'
}

/// The end of the run of identifier characters and `$` that starts at `i`.
pub open spec fn ident_run(s: Seq<char>, i: int) -> int
    decreases s.len() - i,
{
    if 0 <= i < s.len() && (is_ident(s[i]) || s[i] == '$') {
        ident_run(s, i + 1)
    } else {
        i
    }
}

pub proof fn lemma_ident_run(s: Seq<char>, i: int)
    requires
        0 <= i <= s.len(),
    ensures
        i <= ident_run(s, i) <= s.len(),
        forall|j: int| i <= j < ident_run(s, i) ==> is_ident(#[trigger] s[j]) || s[j] == '$',
    decreases s.len() - i,
{
    if i < s.len() && (is_ident(s[i]) || s[i] == '$') {
        lemma_ident_run(s, i + 1);
    }
}

fn scan_ident(s: &[char], from: usize) -> (r: usize)
    requires
        from <= s@.len(),
    ensures
        r == ident_run(s@, from as int),
        from <= r <= s@.len(),
{
    let mut i: usize = from;
    while i < s.len() && (ident(s[i]) || s[i] == '$')
        invariant
            from <= i <= s@.len(),
            ident_run(s@, from as int) == ident_run(s@, i as int),
        decreases s@.len() - i,
    {
        i += 1;
    }
    i
}

/// The end of the quoted span that starts at `i`, its closing quote included.
/// An unterminated one runs to the end.
pub open spec fn quoted_end(s: Seq<char>, i: int, q: char) -> int {
    let close = text::closing_quote(s, q, i + 1);
    if close < s.len() {
        close + 1
    } else {
        s.len() as int
    }
}

fn skip_quoted(s: &[char], i: usize, q: char) -> (r: usize)
    requires
        i < s@.len(),
    ensures
        r == quoted_end(s@, i as int, q),
        i < r <= s@.len(),
{
    let n: usize = s.len();
    let close: usize = find_closing_quote(s, q, i + 1);
    if close < n {
        close + 1
    } else {
        n
    }
}

/// The shape of a cell token: `$?[A-Za-z]{1,3}$?[0-9]+` and nothing else.
pub open spec fn is_cell_shape(t: Seq<char>) -> bool {
    let a: int = if t.len() > 0 && t[0] == '$' {
        1
    } else {
        0
    };
    let b = text::letter_run(t, a);
    let d: int = if b < t.len() && t[b] == '$' {
        b + 1
    } else {
        b
    };
    1 <= b - a <= 3 && d < t.len() && text::digit_run(t, d) == t.len()
}

/// The cell that a bare token refers to, where it refers to one.
pub open spec fn cell_token(t: Seq<char>) -> Option<address::Reference> {
    if is_cell_shape(t) && address::a1(t) is Ok {
        Some(address::a1(t)->Ok_0)
    } else {
        None
    }
}

fn parse_cell_token(t: &[char]) -> (r: Option<ParsedRef>)
    ensures
        match (r, cell_token(t@)) {
            (Some(p), Some(q)) => p@ == q,
            (None, None) => true,
            _ => false,
        },
{
    let a: usize = if t.len() > 0 && t[0] == '$' {
        1
    } else {
        0
    };
    let b: usize = scan_letters(t, a);
    if b == a || b - a > 3 {
        return None;
    }
    let d: usize = if b < t.len() && t[b] == '$' {
        b + 1
    } else {
        b
    };
    if d >= t.len() || scan_digits(t, d) != t.len() {
        return None;
    }
    match parse_a1_chars(t) {
        Ok(p) => Some(p),
        Err(_) => None,
    }
}

/// Where a range ends whose first endpoint ends at `end`: a colon and a second
/// cell follow. `None` when they do not.
pub open spec fn range_end(s: Seq<char>, end: int) -> Option<int> {
    let second = ident_run(s, end + 1);
    if end < s.len() && s[end] == ':' && second > end + 1 && cell_token(
        s.subrange(end + 1, second),
    ) is Some {
        Some(second)
    } else {
        None
    }
}

fn extend_to_range(s: &[char], end: usize) -> (r: Option<usize>)
    requires
        end <= s@.len(),
    ensures
        match (r, range_end(s@, end as int)) {
            (Some(e), Some(f)) => e == f && end + 1 < e <= s@.len(),
            (None, None) => true,
            _ => false,
        },
{
    if end >= s.len() || s[end] != ':' {
        return None;
    }
    let second: usize = scan_ident(s, end + 1);
    if second == end + 1 {
        return None;
    }
    match parse_cell_token(&s[end + 1..second]) {
        Some(_) => Some(second),
        None => None,
    }
}

/// The `!` of `IDENT:IDENT!`, the sheet range of a 3-D reference whose colon is
/// at `colon`.
pub open spec fn sheet_range_bang(s: Seq<char>, colon: int) -> Option<int> {
    let end = ident_run(s, colon + 1);
    if end > colon + 1 && end < s.len() && s[end] == '!' {
        Some(end)
    } else {
        None
    }
}

fn scan_3d_sheet_range_bang(s: &[char], colon: usize) -> (r: Option<usize>)
    requires
        colon < s@.len(),
    ensures
        match (r, sheet_range_bang(s@, colon as int)) {
            (Some(e), Some(f)) => e == f && colon + 1 < e < s@.len() && s@[e as int] == '!',
            (None, None) => true,
            _ => false,
        },
{
    let n: usize = s.len();
    let end: usize = scan_ident(s, colon + 1);
    if end > colon + 1 && end < n && s[end] == '!' {
        Some(end)
    } else {
        None
    }
}

/// The end of the second half of a whole-column or whole-row shorthand (`A:A`,
/// `3:$5`): optional `$`, then letters or digits but never both.
pub open spec fn axis_end(s: Seq<char>, colon: int) -> Option<int> {
    let a: int = if colon + 1 < s.len() && s[colon + 1] == '$' {
        colon + 2
    } else {
        colon + 1
    };
    if a < s.len() && text::is_letter(s[a]) {
        let end = text::letter_run(s, a);
        if end < s.len() && text::is_digit(s[end]) {
            None
        } else {
            Some(end)
        }
    } else if a < s.len() && text::is_digit(s[a]) {
        let end = text::digit_run(s, a);
        if end < s.len() && (text::is_letter(s[end]) || s[end] == '_' || s[end] == '.') {
            None
        } else {
            Some(end)
        }
    } else {
        None
    }
}

fn scan_axis_only_after_colon(s: &[char], colon: usize) -> (r: Option<usize>)
    requires
        colon < s@.len(),
    ensures
        match (r, axis_end(s@, colon as int)) {
            (Some(e), Some(f)) => e == f && colon + 1 < e <= s@.len(),
            (None, None) => true,
            _ => false,
        },
{
    let n: usize = s.len();
    let a: usize = if colon + 1 < n && s[colon + 1] == '$' {
        colon + 2
    } else {
        colon + 1
    };
    proof {
        if a < n {
            text::lemma_letter_run(s@, a + 1);
            text::lemma_digit_run(s@, a + 1);
        }
    }
    if a < n && letter(s[a]) {
        let end: usize = scan_letters(s, a);
        if end < s.len() && digit(s[end]) {
            None
        } else {
            Some(end)
        }
    } else if a < s.len() && digit(s[a]) {
        let end: usize = scan_digits(s, a);
        if end < s.len() && (letter(s[end]) || s[end] == '_' || s[end] == '.') {
            None
        } else {
            Some(end)
        }
    } else {
        None
    }
}

// ---------------------------------------------------------------------------
// References
// ---------------------------------------------------------------------------

/// A reference found in a text, by character positions: the whole of it runs
/// from `start` to `end`, and its `A1` part from `local` to `end`.
pub struct Found {
    pub start: int,
    pub local: int,
    pub end: int,
    pub parsed: address::Reference,
    pub qualified: bool,
}

/// [`Found`], in numbers that a program can hold.
struct Hit {
    start: usize,
    local: usize,
    end: usize,
    parsed: ParsedRef,
    qualified: bool,
}

impl View for Hit {
    type V = Found;

    closed spec fn view(&self) -> Found {
        Found {
            start: self.start as int,
            local: self.local as int,
            end: self.end as int,
            parsed: self.parsed@,
            qualified: self.qualified,
        }
    }
}

/// The characters from `a` to `b` read as a reference.
pub open spec fn read(s: Seq<char>, a: int, b: int) -> Option<address::Reference> {
    match address::a1(s.subrange(a, b)) {
        Ok(p) => Some(p),
        Err(_) => None,
    }
}

fn parse_span(s: &[char], a: usize, b: usize) -> (r: Option<ParsedRef>)
    requires
        a <= b <= s@.len(),
    ensures
        match (r, read(s@, a as int, b as int)) {
            (Some(p), Some(q)) => p@ == q,
            (None, None) => true,
            _ => false,
        },
{
    match parse_a1_chars(&s[a..b]) {
        Ok(p) => Some(p),
        Err(_) => None,
    }
}

/// The reference between two places, where the text there reads as one.
pub open spec fn found(s: Seq<char>, start: int, local: int, end: int, qualified: bool) -> Option<
    Found,
> {
    match read(s, start, end) {
        Some(parsed) => Some(Found { start, local, end, parsed, qualified }),
        None => None,
    }
}

/// The reference that a sheet qualifier leads to: the qualifier starts at
/// `start` and its `!` is expected at `bang`. What follows must be a cell, a
/// range of cells, or a whole-column or whole-row shorthand.
pub open spec fn qualified_reference(s: Seq<char>, bang: int, start: int) -> Option<Found> {
    let local = bang + 1;
    let end = ident_run(s, local);
    if bang >= s.len() || s[bang] != '!' || end == local {
        None
    } else if cell_token(s.subrange(local, end)) is Some {
        let range = range_end(s, end);
        if range is Some && read(s, start, range->0) is Some {
            found(s, start, local, range->0, true)
        } else {
            found(s, start, local, end, true)
        }
    } else if end < s.len() && s[end] == ':' && axis_end(s, end) is Some {
        found(s, start, local, axis_end(s, end)->0, true)
    } else {
        None
    }
}

/// A scanner's find is the one the grammar gives.
spec fn same_hit(got: Option<Hit>, want: Option<Found>) -> bool {
    match (got, want) {
        (Some(h), Some(f)) => h@ == f,
        (None, None) => true,
        _ => false,
    }
}

fn reference_after_qualifier(s: &[char], bang: usize, start: usize) -> (r: Option<Hit>)
    requires
        start < s@.len(),
        start <= bang <= s@.len(),
    ensures
        same_hit(r, qualified_reference(s@, bang as int, start as int)),
        r matches Some(h) ==> bang < h.local < h.end <= s@.len(),
{
    if bang >= s.len() || s[bang] != '!' {
        return None;
    }
    let local: usize = bang + 1;
    let end: usize = scan_ident(s, local);
    if end == local {
        return None;
    }
    if parse_cell_token(&s[local..end]).is_some() {
        if let Some(extended) = extend_to_range(s, end) {
            if let Some(parsed) = parse_span(s, start, extended) {
                return Some(Hit { start, local, end: extended, parsed, qualified: true });
            }
        }
        return match parse_span(s, start, end) {
            Some(parsed) => Some(Hit { start, local, end, parsed, qualified: true }),
            None => None,
        };
    }
    if end < s.len() && s[end] == ':' {
        if let Some(second) = scan_axis_only_after_colon(s, end) {
            return match parse_span(s, start, second) {
                Some(parsed) => Some(Hit { start, local, end: second, parsed, qualified: true }),
                None => None,
            };
        }
    }
    None
}

/// One step of the scanner: the reference found, if any, and where to go on.
pub struct Step {
    pub found: Option<Found>,
    pub next: int,
}

/// Take the reference and go on behind it, or go on at `otherwise`.
pub open spec fn step_to(f: Option<Found>, otherwise: int) -> Step {
    match f {
        Some(g) => Step { found: f, next: g.end },
        None => Step { found: None, next: otherwise },
    }
}

/// Whether the character before `i` belongs to an identifier.
pub open spec fn follows_ident(s: Seq<char>, i: int) -> bool {
    i > 0 && is_ident(s[i - 1])
}

/// The reference that a bare word from `start` to `end` begins: a cell, a range
/// of cells, or a whole-column or whole-row shorthand. A function call is none,
/// and neither is the tail of a longer token.
pub open spec fn bare_reference(s: Seq<char>, start: int, end: int) -> Option<Found> {
    let is_call = end < s.len() && s[end] == '(';
    if is_call || follows_ident(s, start) {
        None
    } else if cell_token(s.subrange(start, end)) is Some {
        let range = range_end(s, end);
        if range is Some && read(s, start, range->0) is Some {
            found(s, start, start, range->0, false)
        } else {
            found(s, start, start, end, false)
        }
    } else if end < s.len() && s[end] == ':' && axis_end(s, end) is Some {
        found(s, start, start, axis_end(s, end)->0, false)
    } else {
        None
    }
}

fn reference_at_word(s: &[char], start: usize, end: usize) -> (r: Option<Hit>)
    requires
        start < end <= s@.len(),
    ensures
        same_hit(r, bare_reference(s@, start as int, end as int)),
        r matches Some(h) ==> start < h.end <= s@.len(),
{
    if end < s.len() && s[end] == '(' {
        return None;
    }
    if start > 0 && ident(s[start - 1]) {
        return None;
    }
    let token: &[char] = &s[start..end];
    if let Some(parsed) = parse_cell_token(token) {
        if let Some(extended) = extend_to_range(s, end) {
            if let Some(range) = parse_span(s, start, extended) {
                return Some(
                    Hit { start, local: start, end: extended, parsed: range, qualified: false },
                );
            }
        }
        return Some(Hit { start, local: start, end, parsed, qualified: false });
    }
    if end < s.len() && s[end] == ':' {
        if let Some(second) = scan_axis_only_after_colon(s, end) {
            return match parse_span(s, start, second) {
                Some(parsed) => Some(
                    Hit { start, local: start, end: second, parsed, qualified: false },
                ),
                None => None,
            };
        }
    }
    None
}

/// What the scanner makes of a word that starts at `i`. A `!` right behind it
/// makes it a qualifier, and so does `:IDENT!`, which tells a span of sheets
/// from a span of columns.
pub open spec fn word_step(s: Seq<char>, i: int) -> Step {
    let end = ident_run(s, i);
    let bang = sheet_range_bang(s, end);
    if end < s.len() && s[end] == '!' {
        step_to(qualified_reference(s, end, i), end + 1)
    } else if end < s.len() && s[end] == ':' && bang is Some {
        step_to(qualified_reference(s, bang->0, i), bang->0 + 1)
    } else {
        step_to(bare_reference(s, i, end), end)
    }
}

/// What the scanner makes of digits that start at `i`: the `3:3` shorthand, or
/// an ordinary number.
pub open spec fn digits_step(s: Seq<char>, i: int) -> Step {
    let end = text::digit_run(s, i);
    if !follows_ident(s, i) && end < s.len() && s[end] == ':' && axis_end(s, end) is Some {
        step_to(found(s, i, i, axis_end(s, end)->0, false), end)
    } else {
        Step { found: None, next: end }
    }
}

/// What the scanner makes of a `[` at `i`: an external workbook qualifier, or a
/// bracketed span to step over.
pub open spec fn bracket_step(s: Seq<char>, i: int) -> Step {
    let close = text::position(s, ']', i);
    let after = ident_run(s, close + 1);
    if close >= s.len() {
        Step { found: None, next: i + 1 }
    } else if after < s.len() && s[after] == '!' {
        step_to(qualified_reference(s, after, i), after + 1)
    } else {
        Step { found: None, next: close + 1 }
    }
}

/// One step of the reference scanner at `i`.
#[verifier::opaque]
pub open spec fn reference_step(s: Seq<char>, i: int) -> Step {
    let c = s[i];
    if c == '"' {
        Step { found: None, next: quoted_end(s, i, '"') }
    } else if c == '\'' {
        let end = quoted_end(s, i, '\'');
        step_to(qualified_reference(s, end, i), end)
    } else if c as u32 > 0x7f {
        let end = ident_run(s, i);
        if end < s.len() && s[end] == '!' {
            step_to(qualified_reference(s, end, i), end + 1)
        } else {
            Step { found: None, next: end }
        }
    } else if text::is_letter(c) || c == '$' || c == '_' {
        word_step(s, i)
    } else if text::is_digit(c) {
        digits_step(s, i)
    } else if c == '[' {
        bracket_step(s, i)
    } else {
        Step { found: None, next: i + 1 }
    }
}

spec fn same_step(hit: Option<Hit>, next: usize, want: Step) -> bool {
    same_hit(hit, want.found) && next == want.next
}

fn hit_or(hit: Option<Hit>, otherwise: usize) -> (r: (Option<Hit>, usize))
    ensures
        r.0 == hit,
        r.1 == (match hit {
            Some(h) => h.end,
            None => otherwise,
        }),
{
    match hit {
        Some(h) => {
            let end: usize = h.end;
            (Some(h), end)
        },
        None => (None, otherwise),
    }
}

fn scan_word(s: &[char], i: usize) -> (r: (Option<Hit>, usize))
    requires
        i < s@.len(),
        is_ident(s@[i as int]) || s@[i as int] == '$',
    ensures
        same_step(r.0, r.1, word_step(s@, i as int)),
        i < r.1 <= s@.len(),
{
    let end: usize = scan_ident(s, i);
    proof {
        lemma_ident_run(s@, i + 1);
    }
    if end < s.len() && s[end] == '!' {
        return hit_or(reference_after_qualifier(s, end, i), end + 1);
    }
    if end < s.len() && s[end] == ':' {
        if let Some(bang) = scan_3d_sheet_range_bang(s, end) {
            return hit_or(reference_after_qualifier(s, bang, i), bang + 1);
        }
    }
    hit_or(reference_at_word(s, i, end), end)
}

fn scan_number(s: &[char], i: usize) -> (r: (Option<Hit>, usize))
    requires
        i < s@.len(),
        text::is_digit(s@[i as int]),
    ensures
        same_step(r.0, r.1, digits_step(s@, i as int)),
        i < r.1 <= s@.len(),
{
    let end: usize = scan_digits(s, i);
    proof {
        text::lemma_digit_run(s@, i + 1);
    }
    if !(i > 0 && ident(s[i - 1])) && end < s.len() && s[end] == ':' {
        if let Some(second) = scan_axis_only_after_colon(s, end) {
            if let Some(parsed) = parse_span(s, i, second) {
                return (
                    Some(Hit { start: i, local: i, end: second, parsed, qualified: false }),
                    second,
                );
            }
        }
    }
    (None, end)
}

fn scan_bracket(s: &[char], i: usize) -> (r: (Option<Hit>, usize))
    requires
        i < s@.len(),
    ensures
        same_step(r.0, r.1, bracket_step(s@, i as int)),
        i < r.1 <= s@.len(),
{
    let close: usize = find_char(s, ']', i);
    if close >= s.len() {
        return (None, i + 1);
    }
    let after: usize = scan_ident(s, close + 1);
    if after < s.len() && s[after] == '!' {
        hit_or(reference_after_qualifier(s, after, i), after + 1)
    } else {
        (None, close + 1)
    }
}

fn scan_reference(s: &[char], i: usize) -> (r: (Option<Hit>, usize))
    requires
        i < s@.len(),
    ensures
        same_step(r.0, r.1, reference_step(s@, i as int)),
        i < r.1 <= s@.len(),
{
    reveal(reference_step);
    let c: char = s[i];
    if c == '"' {
        (None, skip_quoted(s, i, '"'))
    } else if c == '\'' {
        let end: usize = skip_quoted(s, i, '\'');
        hit_or(reference_after_qualifier(s, end, i), end)
    } else if c as u32 > 0x7f {
        let end: usize = scan_ident(s, i);
        proof {
            lemma_ident_run(s@, i + 1);
        }
        if end < s.len() && s[end] == '!' {
            hit_or(reference_after_qualifier(s, end, i), end + 1)
        } else {
            (None, end)
        }
    } else if letter(c) || c == '$' || c == '_' {
        scan_word(s, i)
    } else if digit(c) {
        scan_number(s, i)
    } else if c == '[' {
        scan_bracket(s, i)
    } else {
        (None, i + 1)
    }
}


/// What a qualified reference consists of.
pub proof fn lemma_qualified_reference(s: Seq<char>, bang: int, start: int)
    requires
        0 <= start <= bang <= s.len(),
    ensures
        qualified_reference(s, bang, start) matches Some(f) ==> f.start == start && f.local == bang
            + 1 && f.local < f.end <= s.len() && f.qualified && s[bang] == '!' && read(
            s,
            start,
            f.end,
        ) == Some(f.parsed),
{
    if bang < s.len() && s[bang] == '!' {
        let local = bang + 1;
        lemma_ident_run(s, local);
        let end = ident_run(s, local);
        if end < s.len() {
            lemma_ident_run(s, end + 1);
            lemma_axis_end(s, end);
        }
    }
}

proof fn lemma_axis_end(s: Seq<char>, colon: int)
    requires
        0 <= colon < s.len(),
    ensures
        axis_end(s, colon) matches Some(e) ==> colon + 1 < e <= s.len() && forall|j: int|
            colon < j < e ==> (#[trigger] s[j] == '$' || text::is_letter(s[j]) || text::is_digit(
                s[j],
            )),
{
    let a: int = if colon + 1 < s.len() && s[colon + 1] == '$' {
        colon + 2
    } else {
        colon + 1
    };
    if a < s.len() {
        text::lemma_letter_run(s, a);
        text::lemma_digit_run(s, a);
        text::lemma_letter_run(s, a + 1);
        text::lemma_digit_run(s, a + 1);
    }
}

/// What an unqualified reference consists of.
proof fn lemma_bare_reference(s: Seq<char>, start: int, end: int)
    requires
        0 <= start < end <= s.len(),
    ensures
        bare_reference(s, start, end) matches Some(f) ==> f.start == start && f.local == start
            && end <= f.end <= s.len() && !f.qualified && read(s, start, f.end) == Some(f.parsed),
{
    if end < s.len() {
        lemma_ident_run(s, end + 1);
        lemma_axis_end(s, end);
    }
}

/// The scanner always moves on, and what it finds starts where it stands, is
/// what it stepped over, and reads as the reference it is reported as.
pub proof fn lemma_reference_step(s: Seq<char>, i: int)
    requires
        0 <= i < s.len(),
    ensures
        i < reference_step(s, i).next <= s.len(),
        reference_step(s, i).found matches Some(f) ==> f.start == i && i <= f.local < f.end
            && f.end == reference_step(s, i).next && read(s, i, f.end) == Some(f.parsed) && (
        f.qualified || f.local == f.start),
{
    reveal(reference_step);
    let c = s[i];
    text::lemma_closing_quote(s, c, i + 1);
    lemma_ident_run(s, i + 1);
    lemma_ident_run(s, i);
    let word = ident_run(s, i);
    if c == '\'' || c == '"' {
        lemma_qualified_reference(s, quoted_end(s, i, c), i);
    } else if c as u32 > 0x7f {
        lemma_qualified_reference(s, word, i);
    } else if text::is_letter(c) || c == '$' || c == '_' {
        lemma_qualified_reference(s, word, i);
        if word < s.len() {
            lemma_ident_run(s, word + 1);
            if sheet_range_bang(s, word) is Some {
                lemma_qualified_reference(s, sheet_range_bang(s, word)->0, i);
            }
        }
        lemma_bare_reference(s, i, word);
    } else if text::is_digit(c) {
        text::lemma_digit_run(s, i + 1);
        text::lemma_digit_run(s, i);
        let end = text::digit_run(s, i);
        if end < s.len() {
            lemma_axis_end(s, end);
        }
    } else if c == '[' {
        text::lemma_position(s, ']', i);
        let close = text::position(s, ']', i);
        if close < s.len() {
            lemma_ident_run(s, close + 1);
            lemma_qualified_reference(s, ident_run(s, close + 1), i);
        }
    }
}

/// Every reference from `i` on, in order of appearance.
pub open spec fn references_from(s: Seq<char>, i: int) -> Seq<Found>
    decreases s.len() - i,
{
    if 0 <= i < s.len() {
        let step = reference_step(s, i);
        proof {
            lemma_reference_step(s, i);
        }
        match step.found {
            Some(f) => seq![f] + references_from(s, step.next),
            None => references_from(s, step.next),
        }
    } else {
        Seq::empty()
    }
}

/// Every reference of a formula, in order of appearance.
pub open spec fn references(s: Seq<char>) -> Seq<Found> {
    references_from(s, 0)
}

spec fn views(hits: Seq<Hit>) -> Seq<Found> {
    Seq::new(hits.len(), |k: int| hits[k]@)
}

fn scan(s: &[char]) -> (r: Vec<Hit>)
    ensures
        views(r@) == references(s@),
        forall|k: int|
            0 <= k < r@.len() ==> (#[trigger] r@[k]).start <= r@[k].local && r@[k].local <= r@[k].end
                && r@[k].end <= s@.len(),
{
    let mut out: Vec<Hit> = Vec::new();
    let mut i: usize = 0;
    assert(views(out@) + references_from(s@, 0) =~= references(s@));
    while i < s.len()
        invariant
            i <= s@.len(),
            views(out@) + references_from(s@, i as int) == references(s@),
            forall|k: int|
                0 <= k < out@.len() ==> (#[trigger] out@[k]).start <= out@[k].local
                    && out@[k].local <= out@[k].end && out@[k].end <= s@.len(),
        decreases s@.len() - i,
    {
        let ghost before = out@;
        let ghost rest = references_from(s@, i as int);
        proof {
            lemma_reference_step(s@, i as int);
        }
        let (hit, next) = scan_reference(s, i);
        if let Some(h) = hit {
            out.push(h);
            assert(views(out@) =~= views(before).push(h@));
        }
        i = next;
        assert(views(out@) + references_from(s@, i as int) =~= views(before) + rest);
    }
    assert(views(out@) + references_from(s@, i as int) =~= views(out@));
    out
}

/// A cell or range reference found inside formula text.
#[derive(Debug, PartialEq)]
pub struct ReferenceSpan {
    /// Byte range of the whole reference, including any sheet qualifier.
    pub span: Range<usize>,
    /// Byte range of the `A1` part alone, i.e. `span` minus any qualifier.
    /// Equal to `span` when the reference names no sheet.
    pub local: Range<usize>,
    /// The parsed reference.
    pub parsed: ParsedRef,
    /// Whether the reference named a sheet, e.g. `Sheet1!A1`.
    pub qualified: bool,
}

impl Clone for ReferenceSpan {
    fn clone(&self) -> (r: Self)
        ensures
            r.span == self.span,
            r.local == self.local,
            r.parsed@ == self.parsed@,
            r.qualified == self.qualified,
    {
        ReferenceSpan {
            span: self.span.start..self.span.end,
            local: self.local.start..self.local.end,
            parsed: self.parsed.clone(),
            qualified: self.qualified,
        }
    }
}

impl ReferenceSpan {
    /// The span is this find in the text `s`, its places counted in bytes.
    pub open spec fn is(self, s: Seq<char>, f: Found) -> bool {
        &&& self.span.start == text::byte_offset(s, f.start)
        &&& self.span.end == text::byte_offset(s, f.end)
        &&& self.local.start == text::byte_offset(s, f.local)
        &&& self.local.end == text::byte_offset(s, f.end)
        &&& self.parsed@ == f.parsed
        &&& self.qualified == f.qualified
    }

    /// The reference exactly as it was written.
    pub fn text<'a>(&self, formula: &'a str) -> (r: &'a str)
        requires
            self.span.start <= self.span.end,
            vstd::utf8::is_char_boundary(
                vstd::utf8::encode_utf8(formula@),
                self.span.start as int,
            ),
            vstd::utf8::is_char_boundary(vstd::utf8::encode_utf8(formula@), self.span.end as int),
        ensures
            vstd::utf8::encode_utf8(r@) == vstd::utf8::encode_utf8(formula@).subrange(
                self.span.start as int,
                self.span.end as int,
            ),
    {
        slice_bytes(formula, self.span.start, self.span.end)
    }
}

/// Spans that are, one by one, these finds.
pub open spec fn spans_are(spans: Seq<ReferenceSpan>, s: Seq<char>, refs: Seq<Found>) -> bool {
    spans.len() == refs.len() && forall|k: int|
        0 <= k < spans.len() ==> (#[trigger] spans[k]).is(s, refs[k])
}

fn fill_spans(formula: &str, s: &[char], hits: Vec<Hit>, out: &mut Vec<ReferenceSpan>)
    requires
        s@ == formula@,
        views(hits@) == references(s@),
        forall|k: int|
            0 <= k < hits@.len() ==> (#[trigger] hits@[k]).start <= hits@[k].local && hits@[k].local
                <= hits@[k].end && hits@[k].end <= s@.len(),
    ensures
        spans_are(final(out)@, formula@, references(formula@)),
{
    out.clear();
    let offsets: Vec<usize> = byte_offsets(formula, s);
    for h in it: hits
        invariant
            s@ == formula@,
            views(it.seq()) == references(s@),
            offsets@.len() == s@.len() + 1,
            forall|k: int| 0 <= k <= s@.len() ==> #[trigger] offsets@[k] == text::byte_offset(s@, k),
            forall|k: int|
                0 <= k < it.seq().len() ==> (#[trigger] it.seq()[k]).start <= it.seq()[k].local
                    && it.seq()[k].local <= it.seq()[k].end && it.seq()[k].end <= s@.len(),
            out@.len() == it.index(),
            forall|k: int|
                0 <= k < out@.len() ==> (#[trigger] out@[k]).is(formula@, references(formula@)[k]),
    {
        assert(references(s@)[it.index() as int] == h@);
        out.push(
            ReferenceSpan {
                span: offsets[h.start]..offsets[h.end],
                local: offsets[h.local]..offsets[h.end],
                parsed: h.parsed,
                qualified: h.qualified,
            },
        );
    }
}

/// Find every cell reference in a formula, in order of appearance.
///
/// The input is formula text without a leading `=`, as stored in a workbook.
pub fn scan_references(formula: &str) -> (r: Vec<ReferenceSpan>)
    ensures
        spans_are(r@, formula@, references(formula@)),
{
    let mut out: Vec<ReferenceSpan> = Vec::new();
    scan_references_into(formula, &mut out);
    out
}

/// [`scan_references`] into a caller-owned buffer, which is cleared first.
pub fn scan_references_into(formula: &str, out: &mut Vec<ReferenceSpan>)
    ensures
        spans_are(final(out)@, formula@, references(formula@)),
{
    let chars: Vec<char> = chars_of(formula);
    let hits: Vec<Hit> = scan(chars.as_slice());
    fill_spans(formula, chars.as_slice(), hits, out);
}


// ---------------------------------------------------------------------------
// Names
// ---------------------------------------------------------------------------

/// A defined-name reference found in formula text.
#[derive(Debug, PartialEq, Eq)]
pub struct NameSpan {
    /// Byte range of the name itself, excluding any sheet qualifier.
    pub span: Range<usize>,
    /// The sheet that qualified it, as written, for a sheet-scoped name.
    pub sheet_name: Option<String>,
}

impl Clone for NameSpan {
    fn clone(&self) -> (r: Self)
        ensures
            r.span == self.span,
            address::opt_view(r.sheet_name) == address::opt_view(self.sheet_name),
    {
        NameSpan {
            span: self.span.start..self.span.end,
            sheet_name: match &self.sheet_name {
                Some(s) => Some(s.clone()),
                None => None,
            },
        }
    }
}

/// A name found in a text, by character positions, with the sheet that
/// qualified it.
pub struct Named {
    pub start: int,
    pub end: int,
    pub sheet: Option<Seq<char>>,
}

impl NameSpan {
    /// The span is this find in the text `s`, its places counted in bytes.
    pub open spec fn is(self, s: Seq<char>, n: Named) -> bool {
        &&& self.span.start == text::byte_offset(s, n.start)
        &&& self.span.end == text::byte_offset(s, n.end)
        &&& address::opt_view(self.sheet_name) == n.sheet
    }

    /// The name exactly as it was written.
    pub fn text<'a>(&self, formula: &'a str) -> (r: &'a str)
        requires
            self.span.start <= self.span.end,
            vstd::utf8::is_char_boundary(
                vstd::utf8::encode_utf8(formula@),
                self.span.start as int,
            ),
            vstd::utf8::is_char_boundary(vstd::utf8::encode_utf8(formula@), self.span.end as int),
        ensures
            vstd::utf8::encode_utf8(r@) == vstd::utf8::encode_utf8(formula@).subrange(
                self.span.start as int,
                self.span.end as int,
            ),
    {
        slice_bytes(formula, self.span.start, self.span.end)
    }
}

/// A quoted sheet name without its quotes, doubled ones inside undoubled.
pub open spec fn unquoted_name(written: Seq<char>) -> Seq<char> {
    if written.len() >= 2 && written[0] == '\'' && written.last() == '\'' {
        text::undoubled(written.subrange(1, written.len() - 1))
    } else {
        written
    }
}

fn unquote_sheet_name(written: &[char]) -> (r: String)
    ensures
        r@ == unquoted_name(written@),
{
    if written.len() >= 2 && written[0] == '\'' && written[written.len() - 1] == '\'' {
        string_of(undouble_quotes(&written[1..written.len() - 1]).as_slice())
    } else {
        string_of(written)
    }
}

/// The name behind a sheet qualifier whose `!` is expected at `bang`. None when
/// a cell, a function call or nothing at all follows.
pub open spec fn qualified_name(s: Seq<char>, bang: int) -> Option<(int, int)> {
    let start = bang + 1;
    let end = ident_run(s, start);
    if bang < s.len() && s[bang] == '!' && end > start && !(end < s.len() && s[end] == '(')
        && cell_token(s.subrange(start, end)) is None {
        Some((start, end))
    } else {
        None
    }
}

fn scan_qualified_name(s: &[char], bang: usize) -> (r: Option<(usize, usize)>)
    requires
        bang <= s@.len(),
    ensures
        match (r, qualified_name(s@, bang as int)) {
            (Some((a, b)), Some((c, d))) => a == c && b == d && bang < a < b <= s@.len(),
            (None, None) => true,
            _ => false,
        },
{
    if bang >= s.len() || s[bang] != '!' {
        return None;
    }
    let start: usize = bang + 1;
    let end: usize = scan_ident(s, start);
    if end == start || (end < s.len() && s[end] == '(') {
        return None;
    }
    match parse_cell_token(&s[start..end]) {
        Some(_) => None,
        None => Some((start, end)),
    }
}

/// One step of the name scanner: the name found, if any, and where to go on.
pub struct NameStep {
    pub found: Option<Named>,
    pub next: int,
}

/// What a sheet qualifier leads to when names are wanted: a reference is
/// stepped over, a name is taken together with its sheet.
pub open spec fn qualifier_step(
    s: Seq<char>,
    start: int,
    bang: int,
    sheet: Seq<char>,
    otherwise: int,
) -> NameStep {
    match qualified_reference(s, bang, start) {
        Some(f) => NameStep { found: None, next: f.end },
        None => match qualified_name(s, bang) {
            Some((a, b)) => NameStep {
                found: Some(Named { start: a, end: b, sheet: Some(sheet) }),
                next: b,
            },
            None => NameStep { found: None, next: otherwise },
        },
    }
}

/// What the name scanner makes of a word from `i` to `end` that no `!` follows.
pub open spec fn plain_word_step(s: Seq<char>, i: int, end: int) -> NameStep {
    let bang = sheet_range_bang(s, end);
    let is_call = end < s.len() && s[end] == '(';
    if end < s.len() && s[end] == ':' && bang is Some {
        NameStep {
            found: None,
            next: match qualified_reference(s, bang->0, i) {
                Some(f) => f.end,
                None => bang->0 + 1,
            },
        }
    } else if is_call || follows_ident(s, i) || cell_token(s.subrange(i, end)) is Some {
        NameStep { found: None, next: end }
    } else if end < s.len() && s[end] == ':' && axis_end(s, end) is Some && read(
        s,
        i,
        axis_end(s, end)->0,
    ) is Some {
        NameStep { found: None, next: axis_end(s, end)->0 }
    } else {
        NameStep { found: Some(Named { start: i, end, sheet: None }), next: end }
    }
}

/// One step of the name scanner at `i`.
#[verifier::opaque]
pub open spec fn name_step(s: Seq<char>, i: int) -> NameStep {
    let c = s[i];
    if c == '"' {
        NameStep { found: None, next: quoted_end(s, i, '"') }
    } else if c == '\'' {
        let end = quoted_end(s, i, '\'');
        qualifier_step(s, i, end, unquoted_name(s.subrange(i, end)), end)
    } else if c == '[' {
        let close = text::position(s, ']', i);
        NameStep {
            found: None,
            next: if close < s.len() {
                close + 1
            } else {
                i + 1
            },
        }
    } else if c as u32 > 0x7f {
        let end = ident_run(s, i);
        if end < s.len() && s[end] == '!' {
            qualifier_step(s, i, end, s.subrange(i, end), end + 1)
        } else if end < s.len() && s[end] == '(' {
            NameStep { found: None, next: end }
        } else {
            NameStep { found: Some(Named { start: i, end, sheet: None }), next: end }
        }
    } else if text::is_letter(c) || c == '_' || c == '\\' {
        let end = ident_run(
            s,
            if c == '\\' {
                i + 1
            } else {
                i
            },
        );
        if end < s.len() && s[end] == '!' {
            qualifier_step(s, i, end, s.subrange(i, end), end + 1)
        } else {
            plain_word_step(s, i, end)
        }
    } else if text::is_digit(c) {
        NameStep { found: None, next: text::digit_run(s, i) }
    } else {
        NameStep { found: None, next: i + 1 }
    }
}

/// The name scanner always moves on, and what it takes is a non-empty token
/// that is no cell reference and no function call.
pub proof fn lemma_name_step(s: Seq<char>, i: int)
    requires
        0 <= i < s.len(),
    ensures
        i < name_step(s, i).next <= s.len(),
        name_step(s, i).found matches Some(n) ==> i <= n.start < n.end && n.end == name_step(
            s,
            i,
        ).next && cell_token(s.subrange(n.start, n.end)) is None && !(n.end < s.len() && s[n.end]
            == '('),
{
    reveal(name_step);
    let c = s[i];
    text::lemma_closing_quote(s, c, i + 1);
    lemma_ident_run(s, i + 1);
    lemma_ident_run(s, i);
    if c == '\'' || c == '"' {
        let end = quoted_end(s, i, c);
        lemma_qualified_reference(s, end, i);
        if end < s.len() {
            lemma_ident_run(s, end + 1);
        }
    } else if c == '[' {
        text::lemma_position(s, ']', i);
    } else if c as u32 > 0x7f || text::is_letter(c) || c == '_' || c == '\\' {
        let end = ident_run(
            s,
            if c == '\\' {
                i + 1
            } else {
                i
            },
        );
        lemma_qualified_reference(s, end, i);
        if end < s.len() {
            lemma_ident_run(s, end + 1);
            lemma_axis_end(s, end);
            if sheet_range_bang(s, end) is Some {
                lemma_qualified_reference(s, sheet_range_bang(s, end)->0, i);
            }
        }
        let t = s.subrange(i, end);
        if c as u32 > 0x7f {
            assert(t[0] == c);
            assert(text::letter_run(t, 0) == 0);
        }
    } else if text::is_digit(c) {
        text::lemma_digit_run(s, i + 1);
    }
}

/// Every name from `i` on, in order of appearance.
pub open spec fn names_from(s: Seq<char>, i: int) -> Seq<Named>
    decreases s.len() - i,
{
    if 0 <= i < s.len() {
        let step = name_step(s, i);
        proof {
            lemma_name_step(s, i);
        }
        match step.found {
            Some(n) => seq![n] + names_from(s, step.next),
            None => names_from(s, step.next),
        }
    } else {
        Seq::empty()
    }
}

/// Every token of a formula that could name something, in order of appearance.
pub open spec fn names(s: Seq<char>) -> Seq<Named> {
    names_from(s, 0)
}

struct NameHit {
    start: usize,
    end: usize,
    sheet: Option<String>,
}

impl View for NameHit {
    type V = Named;

    closed spec fn view(&self) -> Named {
        Named {
            start: self.start as int,
            end: self.end as int,
            sheet: address::opt_view(self.sheet),
        }
    }
}

spec fn same_name_step(got: (Option<NameHit>, usize), want: NameStep) -> bool {
    got.1 == want.next && match (got.0, want.found) {
        (Some(h), Some(n)) => h@ == n,
        (None, None) => true,
        _ => false,
    }
}

fn scan_qualifier(s: &[char], start: usize, bang: usize, sheet: String, otherwise: usize) -> (r: (
    Option<NameHit>,
    usize,
))
    requires
        start < s@.len(),
        start <= bang <= s@.len(),
    ensures
        same_name_step(
            r,
            qualifier_step(s@, start as int, bang as int, sheet@, otherwise as int),
        ),
{
    match reference_after_qualifier(s, bang, start) {
        Some(h) => (None, h.end),
        None => match scan_qualified_name(s, bang) {
            Some((a, b)) => (Some(NameHit { start: a, end: b, sheet: Some(sheet) }), b),
            None => (None, otherwise),
        },
    }
}

fn scan_plain_word(s: &[char], i: usize, end: usize) -> (r: (Option<NameHit>, usize))
    requires
        i < end <= s@.len(),
    ensures
        same_name_step(r, plain_word_step(s@, i as int, end as int)),
{
    if end < s.len() && s[end] == ':' {
        if let Some(bang) = scan_3d_sheet_range_bang(s, end) {
            return match reference_after_qualifier(s, bang, i) {
                Some(h) => (None, h.end),
                None => (None, bang + 1),
            };
        }
    }
    if (end < s.len() && s[end] == '(') || (i > 0 && ident(s[i - 1])) || parse_cell_token(
        &s[i..end],
    ).is_some() {
        return (None, end);
    }
    if end < s.len() && s[end] == ':' {
        if let Some(second) = scan_axis_only_after_colon(s, end) {
            if parse_span(s, i, second).is_some() {
                return (None, second);
            }
        }
    }
    (Some(NameHit { start: i, end, sheet: None }), end)
}

fn scan_name(s: &[char], i: usize) -> (r: (Option<NameHit>, usize))
    requires
        i < s@.len(),
    ensures
        same_name_step(r, name_step(s@, i as int)),
{
    reveal(name_step);
    let n: usize = s.len();
    let c: char = s[i];
    if c == '"' {
        (None, skip_quoted(s, i, '"'))
    } else if c == '\'' {
        let end: usize = skip_quoted(s, i, '\'');
        let sheet: String = unquote_sheet_name(&s[i..end]);
        scan_qualifier(s, i, end, sheet, end)
    } else if c == '[' {
        let close: usize = find_char(s, ']', i);
        if close < n {
            (None, close + 1)
        } else {
            (None, i + 1)
        }
    } else if c as u32 > 0x7f {
        let end: usize = scan_ident(s, i);
        if end < n && s[end] == '!' {
            let sheet: String = string_of(&s[i..end]);
            scan_qualifier(s, i, end, sheet, end + 1)
        } else if end < n && s[end] == '(' {
            (None, end)
        } else {
            (Some(NameHit { start: i, end, sheet: None }), end)
        }
    } else if letter(c) || c == '_' || c == '\\' {
        proof {
            lemma_ident_run(s@, i + 1);
        }
        let end: usize = scan_ident(
            s,
            if c == '\\' {
                i + 1
            } else {
                i
            },
        );
        if end < n && s[end] == '!' {
            let sheet: String = string_of(&s[i..end]);
            scan_qualifier(s, i, end, sheet, end + 1)
        } else {
            scan_plain_word(s, i, end)
        }
    } else if digit(c) {
        (None, scan_digits(s, i))
    } else {
        (None, i + 1)
    }
}

/// Spans that are, one by one, these names.
pub open spec fn names_are(spans: Seq<NameSpan>, s: Seq<char>, found: Seq<Named>) -> bool {
    spans.len() == found.len() && forall|k: int|
        0 <= k < spans.len() ==> (#[trigger] spans[k]).is(s, found[k])
}

/// Find every token in a formula that could name something.
///
/// The complement of [`scan_references`]: the identifiers that scanning throws
/// away, so a caller holding the workbook's defined names can decide which of
/// them are real. Never among them: anything that parses as a cell reference, a
/// token followed by `(`, text inside string literals and quoted sheet names,
/// and the sheet part of a qualified reference.
///
/// A structured-table reference such as `Table1[Amount]` yields `Table1`.
pub fn scan_names(formula: &str) -> (r: Vec<NameSpan>)
    ensures
        names_are(r@, formula@, names(formula@)),
{
    let mut out: Vec<NameSpan> = Vec::new();
    scan_names_into(formula, &mut out);
    out
}

/// [`scan_names`] into a caller-owned buffer, which is cleared first.
pub fn scan_names_into(formula: &str, out: &mut Vec<NameSpan>)
    ensures
        names_are(final(out)@, formula@, names(formula@)),
{
    out.clear();
    let chars: Vec<char> = chars_of(formula);
    let s: &[char] = chars.as_slice();
    let offsets: Vec<usize> = byte_offsets(formula, s);
    let ghost mut done: Seq<Named> = Seq::empty();
    let mut i: usize = 0;
    assert(done + names_from(s@, 0) =~= names(s@));
    while i < s.len()
        invariant
            s@ == formula@,
            i <= s@.len(),
            offsets@.len() == s@.len() + 1,
            forall|k: int| 0 <= k <= s@.len() ==> #[trigger] offsets@[k] == text::byte_offset(s@, k),
            done + names_from(s@, i as int) == names(s@),
            names_are(out@, s@, done),
        decreases s@.len() - i,
    {
        let ghost before = done;
        let ghost rest = names_from(s@, i as int);
        proof {
            lemma_name_step(s@, i as int);
        }
        let (hit, next) = scan_name(s, i);
        if let Some(h) = hit {
            proof {
                done = done.push(h@);
            }
            out.push(NameSpan { span: offsets[h.start]..offsets[h.end], sheet_name: h.sheet });
        }
        i = next;
        assert(done + names_from(s@, i as int) =~= before + rest);
    }
    assert(done + names_from(s@, i as int) =~= done);
}


// ---------------------------------------------------------------------------
// Redaction
// ---------------------------------------------------------------------------

/// The end of the numeric literal that starts at `i`: digits, an optional
/// `.digits`, an optional `[eE][+-]?digits` exponent.
pub open spec fn number_end(s: Seq<char>, i: int) -> int {
    let a = text::digit_run(s, i);
    let b = if a + 1 < s.len() && s[a] == '.' && text::is_digit(s[a + 1]) {
        text::digit_run(s, a + 1)
    } else {
        a
    };
    if b < s.len() && (s[b] == 'e' || s[b] == 'E') {
        let j = if b + 1 < s.len() && (s[b + 1] == '+' || s[b + 1] == '-') {
            b + 2
        } else {
            b + 1
        };
        if j < s.len() && text::is_digit(s[j]) {
            text::digit_run(s, j)
        } else {
            b
        }
    } else {
        b
    }
}

fn scan_number_literal(s: &[char], i: usize) -> (r: usize)
    requires
        i <= s@.len(),
    ensures
        r == number_end(s@, i as int),
        i <= r <= s@.len(),
{
    let n: usize = s.len();
    let a: usize = scan_digits(s, i);
    let b: usize = if a < n && s[a] == '.' && a + 1 < n && digit(s[a + 1]) {
        scan_digits(s, a + 1)
    } else {
        a
    };
    if b < n && (s[b] == 'e' || s[b] == 'E') {
        let j: usize = if b + 1 < n && (s[b + 1] == '+' || s[b + 1] == '-') {
            b + 2
        } else {
            b + 1
        };
        if j < n && digit(s[j]) {
            return scan_digits(s, j);
        }
    }
    b
}

/// Whether a numeric literal starts at `i`: a digit, or a `.` and a digit, that
/// does not continue an identifier.
pub open spec fn starts_number(s: Seq<char>, i: int) -> bool {
    !follows_ident(s, i) && (text::is_digit(s[i]) || (s[i] == '.' && i + 1 < s.len()
        && text::is_digit(s[i + 1])))
}

pub proof fn lemma_number_end(s: Seq<char>, i: int)
    requires
        0 <= i < s.len(),
        starts_number(s, i),
    ensures
        i < number_end(s, i) <= s.len(),
{
    text::lemma_digit_run(s, i);
    text::lemma_digit_run(s, i + 1);
    let a = text::digit_run(s, i);
    if a + 1 < s.len() {
        text::lemma_digit_run(s, a + 1);
        text::lemma_digit_run(s, a + 2);
    }
    let b = if a + 1 < s.len() && s[a] == '.' && text::is_digit(s[a + 1]) {
        text::digit_run(s, a + 1)
    } else {
        a
    };
    if b + 1 < s.len() {
        text::lemma_digit_run(s, b + 1);
        if b + 2 < s.len() {
            text::lemma_digit_run(s, b + 2);
        }
    }
}

/// The rest of a formula from `i` on with its literals replaced, where `refs`
/// from `k` on are the references still to come. References and quoted sheet
/// names are kept, a string literal becomes `<text>`, a number `<number>`, and
/// every other character stays.
pub open spec fn redacted_from(s: Seq<char>, refs: Seq<Found>, i: int, k: int) -> Seq<char>
    decreases refs.len() - k, s.len() - i,
{
    if i < 0 || i >= s.len() {
        Seq::empty()
    } else if 0 <= k < refs.len() && refs[k].start == i {
        s.subrange(i, refs[k].end) + redacted_from(s, refs, refs[k].end, k + 1)
    } else {
        let quoted = quoted_end(s, i, s[i]);
        proof {
            text::lemma_closing_quote(s, s[i], i + 1);
            if starts_number(s, i) {
                lemma_number_end(s, i);
            }
        }
        if s[i] == '"' {
            "<text>"@ + redacted_from(s, refs, quoted, k)
        } else if s[i] == '\'' {
            s.subrange(i, quoted) + redacted_from(s, refs, quoted, k)
        } else if starts_number(s, i) {
            "<number>"@ + redacted_from(s, refs, number_end(s, i), k)
        } else {
            seq![s[i]] + redacted_from(s, refs, i + 1, k)
        }
    }
}

/// A formula with its string and numeric literals replaced.
pub open spec fn redacted(s: Seq<char>) -> Seq<char> {
    redacted_from(s, references(s), 0, 0)
}

/// Replace the string and numeric literals in formula text with
/// `<text>`/`<number>` placeholders, keeping everything else (references,
/// function names, operators, structure) intact.
///
/// References are copied through verbatim, so a digit that is a row (`A100`) or
/// a whole-row shorthand (`3:3`) is never mistaken for a literal. A digit run
/// that continues an identifier is left alone too. A single-quoted span is
/// sheet-name quoting, not a literal.
pub fn redact_formula_literals(formula: &str) -> (r: String)
    ensures
        r@ == redacted(formula@),
{
    let chars: Vec<char> = chars_of(formula);
    let s: &[char] = chars.as_slice();
    let hits: Vec<Hit> = scan(s);
    let ghost refs = references(s@);
    let mut out: String = String::new();
    let mut i: usize = 0;
    let mut k: usize = 0;
    assert(out@ + redacted_from(s@, refs, 0, 0) =~= redacted(formula@));
    while i < s.len()
        invariant
            s@ == formula@,
            refs == references(s@),
            i <= s@.len(),
            k <= hits@.len(),
            views(hits@) == refs,
            forall|k: int|
                0 <= k < hits@.len() ==> (#[trigger] hits@[k]).start <= hits@[k].local
                    && hits@[k].local <= hits@[k].end && hits@[k].end <= s@.len(),
            out@ + redacted_from(s@, refs, i as int, k as int) == redacted(formula@),
        decreases hits@.len() - k, s@.len() - i,
    {
        let ghost before = out@;
        let ghost rest = redacted_from(s@, refs, i as int, k as int);
        assert(refs.len() == hits@.len());
        if k < hits.len() && hits[k].start == i {
            let end: usize = hits[k].end;
            assert(refs[k as int] == hits@[k as int]@);
            push_chars(&mut out, &s[i..end]);
            i = end;
            k += 1;
            assert(out@ + redacted_from(s@, refs, i as int, k as int) =~= before + rest);
            continue;
        }
        assert(k < refs.len() ==> refs[k as int] == hits@[k as int]@);
        let c: char = s[i];
        let starts: bool = !(i > 0 && ident(s[i - 1])) && (digit(c) || (c == '.' && i + 1 < s.len()
            && digit(s[i + 1])));
        assert(starts == starts_number(s@, i as int));
        if c == '"' {
            out.push_str("<text>");
            i = skip_quoted(s, i, '"');
        } else if c == '\'' {
            let end: usize = skip_quoted(s, i, '\'');
            push_chars(&mut out, &s[i..end]);
            i = end;
        } else if starts {
            proof {
                lemma_number_end(s@, i as int);
            }
            out.push_str("<number>");
            i = scan_number_literal(s, i);
        } else {
            out.push(c);
            i += 1;
        }
        assert(out@ + redacted_from(s@, refs, i as int, k as int) =~= before + rest);
    }
    assert(out@ + redacted_from(s@, refs, i as int, k as int) =~= out@);
    out
}

// ---------------------------------------------------------------------------
// Shapes
// ---------------------------------------------------------------------------

/// One coordinate as a shape writes it: `R5`, `R` or `R[-2]`.
pub open spec fn coord_text(tag: char, value: int, absolute: bool, origin: int) -> Seq<char> {
    if absolute {
        address::absolute_text(tag, value)
    } else {
        address::relative_text(tag, value - origin)
    }
}

/// The `R…C…` form of a reference seen from a cell.
pub open spec fn coords(p: address::Reference, row: u32, col: u16) -> Seq<char> {
    let first = coord_text('R', p.top as int, p.abs_top, row as int) + coord_text(
        'C',
        p.left as int,
        p.abs_left,
        col as int,
    );
    if p.one_cell() {
        first
    } else {
        first + seq![':'] + coord_text('R', p.bottom as int, p.abs_bottom, row as int)
            + coord_text('C', p.right as int, p.abs_right, col as int)
    }
}

/// The rest of a formula's shape from `last` on, where `refs` from `k` on are
/// the references still to come: everything up to the local part of a reference
/// is copied, the local part is rewritten.
pub open spec fn shape_from(
    s: Seq<char>,
    refs: Seq<Found>,
    k: int,
    last: int,
    row: u32,
    col: u16,
) -> Seq<char>
    decreases refs.len() - k,
{
    if 0 <= k < refs.len() {
        s.subrange(last, refs[k].local) + coords(refs[k].parsed, row, col) + shape_from(
            s,
            refs,
            k + 1,
            refs[k].end,
            row,
            col,
        )
    } else {
        s.skip(last)
    }
}

/// A formula's shape: its references relative to the cell that owns it,
/// everything else unchanged.
pub open spec fn shape(s: Seq<char>, row: u32, col: u16) -> Seq<char> {
    shape_from(s, references(s), 0, 0, row, col)
}

fn write_coord(out: &mut String, value: u32, absolute: bool, origin: u32, tag: char)
    ensures
        final(out)@ == old(out)@ + coord_text(tag, value as int, absolute, origin as int),
{
    out.push(tag);
    if absolute {
        push_decimal(out, value as u64 + 1);
    } else {
        let d: i64 = value as i64 - origin as i64;
        if d != 0 {
            out.push('[');
            push_signed_decimal(out, d);
            out.push(']');
        }
    }
    assert(out@ =~= old(out)@ + coord_text(tag, value as int, absolute, origin as int));
}

fn write_r1c1_coords(parsed: &ParsedRef, anchor: CellRef, out: &mut String)
    ensures
        final(out)@ == old(out)@ + coords(parsed@, anchor.row, anchor.col),
{
    write_coord(out, parsed.top, parsed.abs_top, anchor.row, 'R');
    write_coord(out, parsed.left as u32, parsed.abs_left, anchor.col as u32, 'C');
    if !parsed.is_single_cell() {
        out.push(':');
        write_coord(out, parsed.bottom, parsed.abs_bottom, anchor.row, 'R');
        write_coord(out, parsed.right as u32, parsed.abs_right, anchor.col as u32, 'C');
    }
    assert(out@ =~= old(out)@ + coords(parsed@, anchor.row, anchor.col));
}

/// Rewrite a formula's references relative to the cell that owns it.
///
/// The result is a *shape*: two formulas share one when they do the same thing
/// to correspondingly-placed cells. Everything that is not a reference is copied
/// through unchanged.
pub fn to_r1c1_shape(formula: &str, anchor: CellRef) -> (r: String)
    ensures
        r@ == shape(formula@, anchor.row, anchor.col),
{
    let mut out: String = String::new();
    let mut scratch: Vec<ReferenceSpan> = Vec::new();
    write_r1c1_shape(formula, anchor, &mut out, &mut scratch);
    out
}

/// [`to_r1c1_shape`] into caller-owned buffers. Both are cleared first;
/// `scratch` is left holding the formula's references.
pub fn write_r1c1_shape(
    formula: &str,
    anchor: CellRef,
    out: &mut String,
    scratch: &mut Vec<ReferenceSpan>,
)
    ensures
        final(out)@ == shape(formula@, anchor.row, anchor.col),
        spans_are(final(scratch)@, formula@, references(formula@)),
{
    let chars: Vec<char> = chars_of(formula);
    let s: &[char] = chars.as_slice();
    let hits: Vec<Hit> = scan(s);
    let ghost refs = references(s@);
    out.clear();
    let mut last: usize = 0;
    let mut k: usize = 0;
    proof {
        references_are_in_order(s@);
    }
    assert(refs.len() == hits@.len());
    assert(out@ + shape_from(s@, refs, 0, 0, anchor.row, anchor.col) =~= shape(
        formula@,
        anchor.row,
        anchor.col,
    ));
    while k < hits.len()
        invariant
            s@ == formula@,
            refs == references(s@),
            k <= hits@.len(),
            refs.len() == hits@.len(),
            last <= s@.len(),
            last == (if k == 0 {
                0
            } else {
                refs[k - 1].end
            }),
            in_order(s@, refs),
            views(hits@) == refs,
            out@ + shape_from(s@, refs, k as int, last as int, anchor.row, anchor.col) == shape(
                formula@,
                anchor.row,
                anchor.col,
            ),
        decreases hits@.len() - k,
    {
        let ghost before = out@;
        let ghost rest = shape_from(s@, refs, k as int, last as int, anchor.row, anchor.col);
        assert(refs[k as int] == hits@[k as int]@);
        let h: &Hit = &hits[k];
        push_chars(out, &s[last..h.local]);
        write_r1c1_coords(&h.parsed, anchor, out);
        last = h.end;
        k += 1;
        assert(out@ + shape_from(s@, refs, k as int, last as int, anchor.row, anchor.col)
            =~= before + rest);
    }
    let tail: &[char] = &s[last..s.len()];
    assert(tail@ =~= s@.skip(last as int));
    push_chars(out, tail);
    fill_spans(formula, s, hits, scratch);
}

// ---------------------------------------------------------------------------
// Laws
// ---------------------------------------------------------------------------

/// References that lie in a text, one behind the other.
pub open spec fn in_order(s: Seq<char>, refs: Seq<Found>) -> bool {
    &&& forall|k: int|
        0 <= k < refs.len() ==> 0 <= (#[trigger] refs[k]).start <= refs[k].local < refs[k].end
            <= s.len()
    &&& forall|j: int, k: int|
        #![trigger refs[j], refs[k]]
        0 <= j < k < refs.len() ==> refs[j].end <= refs[k].start
}

proof fn lemma_references_from(s: Seq<char>, i: int)
    requires
        0 <= i <= s.len(),
    ensures
        in_order(s, references_from(s, i)),
        forall|k: int|
            0 <= k < references_from(s, i).len() ==> (#[trigger] references_from(s, i)[k]).start
                >= i,
        forall|k: int|
            0 <= k < references_from(s, i).len() ==> {
                let f = #[trigger] references_from(s, i)[k];
                read(s, f.start, f.end) == Some(f.parsed) && (f.qualified || f.local == f.start)
            },
    decreases s.len() - i,
{
    if i < s.len() {
        let step = reference_step(s, i);
        lemma_reference_step(s, i);
        lemma_references_from(s, step.next);
        let rest = references_from(s, step.next);
        let all = references_from(s, i);
        if step.found is Some {
            let f = step.found->0;
            assert(all =~= seq![f] + rest);
            assert forall|k: int| 0 < k < all.len() implies #[trigger] all[k] == rest[k - 1] by {}
        }
    }
}

/// The references of a formula come in order of appearance, do not overlap, are
/// never empty, and lie within the formula.
pub proof fn references_are_in_order(s: Seq<char>)
    ensures
        in_order(s, references(s)),
{
    lemma_references_from(s, 0);
}

/// Every reference is reported as what its own text reads as.
pub proof fn references_read_as_reported(s: Seq<char>, k: int)
    requires
        0 <= k < references(s).len(),
    ensures
        address::a1(s.subrange(references(s)[k].start, references(s)[k].end)) == Ok::<
            address::Reference,
            address::Fault,
        >(references(s)[k].parsed),
        references(s)[k].qualified || references(s)[k].local == references(s)[k].start,
{
    lemma_references_from(s, 0);
    let f = references(s)[k];
    assert(read(s, f.start, f.end) == Some(f.parsed));
}

/// The byte span of every reference lies on character boundaries, and the text
/// there is the text that was found.
pub proof fn reference_spans_can_be_sliced(s: Seq<char>, span: ReferenceSpan, k: int)
    requires
        0 <= k < references(s).len(),
        span.is(s, references(s)[k]),
    ensures
        span.span.start < span.span.end,
        vstd::utf8::is_char_boundary(vstd::utf8::encode_utf8(s), span.span.start as int),
        vstd::utf8::is_char_boundary(vstd::utf8::encode_utf8(s), span.span.end as int),
        vstd::utf8::encode_utf8(s).subrange(span.span.start as int, span.span.end as int)
            == vstd::utf8::encode_utf8(
            s.subrange(references(s)[k].start, references(s)[k].end),
        ),
{
    lemma_references_from(s, 0);
    let f = references(s)[k];
    text::lemma_byte_offset_boundary(s, f.start);
    text::lemma_byte_offset_boundary(s, f.end);
    text::lemma_byte_offset_order(s, f.start, f.end);
    text::lemma_bytes_between(s, f.start, f.end);
}

/// Names that lie in a text, one behind the other.
pub open spec fn names_in_order(s: Seq<char>, found: Seq<Named>) -> bool {
    &&& forall|k: int|
        0 <= k < found.len() ==> 0 <= (#[trigger] found[k]).start < found[k].end <= s.len()
    &&& forall|j: int, k: int|
        #![trigger found[j], found[k]]
        0 <= j < k < found.len() ==> found[j].end <= found[k].start
}

proof fn lemma_names_from(s: Seq<char>, i: int)
    requires
        0 <= i <= s.len(),
    ensures
        names_in_order(s, names_from(s, i)),
        forall|k: int|
            0 <= k < names_from(s, i).len() ==> (#[trigger] names_from(s, i)[k]).start >= i,
        forall|k: int|
            0 <= k < names_from(s, i).len() ==> {
                let n = #[trigger] names_from(s, i)[k];
                cell_token(s.subrange(n.start, n.end)) is None && !(n.end < s.len() && s[n.end]
                    == '(')
            },
    decreases s.len() - i,
{
    if i < s.len() {
        let step = name_step(s, i);
        lemma_name_step(s, i);
        lemma_names_from(s, step.next);
        let rest = names_from(s, step.next);
        let all = names_from(s, i);
        if step.found is Some {
            let n = step.found->0;
            assert(all =~= seq![n] + rest);
            assert forall|k: int| 0 < k < all.len() implies #[trigger] all[k] == rest[k - 1] by {}
        }
    }
}

/// The names of a formula come in order of appearance and do not overlap; none
/// of them reads as a cell, and none of them is a function call.
pub proof fn names_are_neither_cells_nor_calls(s: Seq<char>)
    ensures
        names_in_order(s, names(s)),
        forall|k: int|
            0 <= k < names(s).len() ==> {
                let n = #[trigger] names(s)[k];
                cell_token(s.subrange(n.start, n.end)) is None && !(n.end < s.len() && s[n.end]
                    == '(')
            },
{
    lemma_names_from(s, 0);
}

/// From `i` in `s` and from `j` in `t` on, where the references from `k` and from
/// `m` on are still to come, two formulas are the same but for what their string
/// and numeric literals hold.
pub open spec fn alike_from(s: Seq<char>, i: int, k: int, t: Seq<char>, j: int, m: int) -> bool
    decreases references(s).len() - k, s.len() - i,
{
    let a = references(s);
    let b = references(t);
    if i < 0 || i >= s.len() || j < 0 || j >= t.len() {
        (i < 0 || i >= s.len()) && (j < 0 || j >= t.len())
    } else if 0 <= k < a.len() && a[k].start == i {
        &&& 0 <= m < b.len() && b[m].start == j
        &&& s.subrange(i, a[k].end) == t.subrange(j, b[m].end)
        &&& alike_from(s, a[k].end, k + 1, t, b[m].end, m + 1)
    } else if 0 <= m < b.len() && b[m].start == j {
        false
    } else {
        let p = quoted_end(s, i, s[i]);
        let q = quoted_end(t, j, t[j]);
        proof {
            text::lemma_closing_quote(s, s[i], i + 1);
            if starts_number(s, i) {
                lemma_number_end(s, i);
            }
        }
        if s[i] == '"' {
            t[j] == '"' && alike_from(s, p, k, t, q, m)
        } else if s[i] == '\'' {
            t[j] == '\'' && s.subrange(i, p) == t.subrange(j, q) && alike_from(s, p, k, t, q, m)
        } else if starts_number(s, i) {
            starts_number(t, j) && alike_from(s, number_end(s, i), k, t, number_end(t, j), m)
        } else {
            !starts_number(t, j) && s[i] == t[j] && alike_from(s, i + 1, k, t, j + 1, m)
        }
    }
}

proof fn lemma_alike_redacted(s: Seq<char>, i: int, k: int, t: Seq<char>, j: int, m: int)
    requires
        alike_from(s, i, k, t, j, m),
    ensures
        redacted_from(s, references(s), i, k) == redacted_from(t, references(t), j, m),
    decreases references(s).len() - k, s.len() - i,
{
    let a = references(s);
    let b = references(t);
    if 0 <= i < s.len() && 0 <= j < t.len() {
        text::lemma_closing_quote(s, s[i], i + 1);
        if 0 <= k < a.len() && a[k].start == i {
            lemma_alike_redacted(s, a[k].end, k + 1, t, b[m].end, m + 1);
        } else if s[i] == '"' || s[i] == '\'' {
            lemma_alike_redacted(s, quoted_end(s, i, s[i]), k, t, quoted_end(t, j, t[j]), m);
        } else if starts_number(s, i) {
            lemma_number_end(s, i);
            lemma_alike_redacted(s, number_end(s, i), k, t, number_end(t, j), m);
        } else {
            lemma_alike_redacted(s, i + 1, k, t, j + 1, m);
        }
    }
}

/// What a literal holds leaves no trace: formulas that are the same but for their
/// string and numeric literals redact to the same text.
pub proof fn literals_leave_no_trace(s: Seq<char>, t: Seq<char>)
    requires
        alike_from(s, 0, 0, t, 0, 0),
    ensures
        redacted(s) == redacted(t),
{
    lemma_alike_redacted(s, 0, 0, t, 0, 0);
}

/// A formula that holds no literal is left as it is: nothing in it opens a
/// string and no number starts in it.
pub proof fn redaction_keeps_a_formula_without_literals(s: Seq<char>)
    requires
        forall|i: int| 0 <= i < s.len() ==> #[trigger] s[i] != '"' && !starts_number(s, i),
    ensures
        redacted(s) == s,
{
    lemma_references_from(s, 0);
    lemma_redaction_copies(s, references(s), 0, 0);
    assert(s.skip(0) =~= s);
}

proof fn lemma_redaction_copies(s: Seq<char>, refs: Seq<Found>, i: int, k: int)
    requires
        0 <= i <= s.len(),
        0 <= k <= refs.len(),
        in_order(s, refs),
        forall|i: int| 0 <= i < s.len() ==> #[trigger] s[i] != '"' && !starts_number(s, i),
    ensures
        redacted_from(s, refs, i, k) == s.skip(i),
    decreases refs.len() - k, s.len() - i,
{
    if i < s.len() {
        if k < refs.len() && refs[k].start == i {
            lemma_redaction_copies(s, refs, refs[k].end, k + 1);
            assert(s.subrange(i, refs[k].end) + s.skip(refs[k].end) =~= s.skip(i));
        } else if s[i] == '\'' {
            text::lemma_closing_quote(s, '\'', i + 1);
            let end = quoted_end(s, i, '\'');
            lemma_redaction_copies(s, refs, end, k);
            assert(s.subrange(i, end) + s.skip(end) =~= s.skip(i));
        } else {
            lemma_redaction_copies(s, refs, i + 1, k);
            assert(seq![s[i]] + s.skip(i + 1) =~= s.skip(i));
        }
    }
}

/// A formula without references is its own shape, wherever it sits.
pub proof fn shape_of_a_constant_formula_is_itself(s: Seq<char>, row: u32, col: u16)
    requires
        references(s).len() == 0,
    ensures
        shape(s, row, col) == s,
{
    assert(s.skip(0) =~= s);
}

/// A reference that moves with its formula keeps its form in the shape: relative
/// parts are position-independent, absolute parts stay pinned. Left out is a
/// range that a move turns into a single cell or back, such as `A$1:A2`, which
/// is then written with one corner instead of two.
pub proof fn shape_coordinates_survive_a_move(
    p: address::Reference,
    row: u32,
    col: u16,
    rows: int,
    cols: int,
)
    requires
        0 <= row + rows <= u32::MAX,
        0 <= col + cols <= u16::MAX,
        address::moved(p, rows, cols).one_cell() == p.one_cell(),
        p.abs_top || 0 <= p.top + rows <= u32::MAX,
        p.abs_bottom || 0 <= p.bottom + rows <= u32::MAX,
        p.abs_left || 0 <= p.left + cols <= u16::MAX,
        p.abs_right || 0 <= p.right + cols <= u16::MAX,
    ensures
        coords(address::moved(p, rows, cols), (row + rows) as u32, (col + cols) as u16) == coords(
            p,
            row,
            col,
        ),
{
}


/// A find is reported as qualified exactly when it names a sheet.
spec fn says_its_sheet(f: Option<Found>) -> bool {
    f matches Some(g) ==> g.qualified == (g.parsed.sheet_name is Some)
}

proof fn lemma_qualified_sheet(s: Seq<char>, bang: int, start: int)
    requires
        0 <= start <= bang <= s.len(),
    ensures
        says_its_sheet(qualified_reference(s, bang, start)),
{
    lemma_qualified_reference(s, bang, start);
    let found = qualified_reference(s, bang, start);
    if found is Some {
        let f = found->0;
        let t = s.subrange(start, f.end);
        assert(t[bang - start] == '!');
        assert(t.contains('!'));
        address::a_sheet_is_named_where_a_bang_stands(t);
    }
}

/// A reference whose text holds neither `!` nor a quote names no sheet.
proof fn lemma_unqualified_sheet(s: Seq<char>, start: int, end: int)
    requires
        0 <= start <= end <= s.len(),
        forall|j: int| start <= j < end ==> #[trigger] s[j] != '!' && s[j] != '\'',
    ensures
        read(s, start, end) matches Some(p) ==> p.sheet_name is None,
{
    if read(s, start, end) is Some {
        let t = s.subrange(start, end);
        assert forall|j: int| 0 <= j < t.len() implies t[j] != '!' && t[j] != '\'' by {
            assert(t[j] == s[start + j]);
        }
        address::a_sheet_is_named_where_a_bang_stands(t);
    }
}

proof fn lemma_bare_sheet(s: Seq<char>, start: int, end: int)
    requires
        0 <= start < end <= s.len(),
        forall|j: int| start <= j < end ==> is_ident(#[trigger] s[j]) || s[j] == '$',
    ensures
        says_its_sheet(bare_reference(s, start, end)),
{
    lemma_bare_reference(s, start, end);
    if end < s.len() {
        lemma_ident_run(s, end + 1);
        lemma_axis_end(s, end);
    }
    if bare_reference(s, start, end) is Some {
        lemma_unqualified_sheet(s, start, bare_reference(s, start, end)->0.end);
    }
}

proof fn lemma_found_qualified(s: Seq<char>, i: int)
    requires
        0 <= i < s.len(),
    ensures
        says_its_sheet(reference_step(s, i).found),
{
    reveal(reference_step);
    let c = s[i];
    if c == '\'' {
        text::lemma_closing_quote(s, c, i + 1);
        lemma_qualified_sheet(s, quoted_end(s, i, c), i);
    } else if c as u32 > 0x7f {
        lemma_ident_run(s, i);
        lemma_qualified_sheet(s, ident_run(s, i), i);
    } else if text::is_letter(c) || c == '$' || c == '_' {
        lemma_ident_run(s, i);
        lemma_ident_run(s, i + 1);
        let word = ident_run(s, i);
        lemma_qualified_sheet(s, word, i);
        lemma_bare_sheet(s, i, word);
        if word < s.len() {
            lemma_ident_run(s, word + 1);
            if sheet_range_bang(s, word) is Some {
                lemma_qualified_sheet(s, sheet_range_bang(s, word)->0, i);
            }
        }
    } else if text::is_digit(c) {
        text::lemma_digit_run(s, i);
        let end = text::digit_run(s, i);
        if end < s.len() {
            lemma_axis_end(s, end);
            if s[end] == ':' && axis_end(s, end) is Some {
                lemma_unqualified_sheet(s, i, axis_end(s, end)->0);
            }
        }
    } else if c == '[' {
        text::lemma_position(s, ']', i);
        let close = text::position(s, ']', i);
        if close < s.len() {
            lemma_ident_run(s, close + 1);
            lemma_qualified_sheet(s, ident_run(s, close + 1), i);
        }
    }
}

/// A reference is reported as qualified exactly when it names a sheet.
pub proof fn qualified_references_name_a_sheet(s: Seq<char>, k: int)
    requires
        0 <= k < references(s).len(),
    ensures
        references(s)[k].qualified == (references(s)[k].parsed.sheet_name is Some),
{
    lemma_qualified_from(s, 0, k);
}

proof fn lemma_qualified_from(s: Seq<char>, i: int, k: int)
    requires
        0 <= i <= s.len(),
        0 <= k < references_from(s, i).len(),
    ensures
        references_from(s, i)[k].qualified == (references_from(s, i)[k].parsed.sheet_name is Some),
    decreases s.len() - i,
{
    if i < s.len() {
        lemma_reference_step(s, i);
        lemma_found_qualified(s, i);
        let step = reference_step(s, i);
        if step.found is Some {
            if k > 0 {
                lemma_qualified_from(s, step.next, k - 1);
            }
        } else {
            lemma_qualified_from(s, step.next, k);
        }
    }
}

/// The text in front of the `k`-th reference's local part, from the end of the
/// reference before it.
pub open spec fn lead(s: Seq<char>, refs: Seq<Found>, k: int) -> Seq<char> {
    s.subrange(
        if k == 0 {
            0
        } else {
            refs[k - 1].end
        },
        refs[k].local,
    )
}

/// The text behind the last reference.
pub open spec fn tail(s: Seq<char>, refs: Seq<Found>) -> Seq<char> {
    s.skip(
        if refs.len() == 0 {
            0
        } else {
            refs.last().end
        },
    )
}

/// `t` is `s` filled `rows` down and `cols` across: every reference has moved,
/// nothing else has changed.
pub open spec fn filled(s: Seq<char>, t: Seq<char>, rows: int, cols: int) -> bool {
    let a = references(s);
    let b = references(t);
    &&& a.len() == b.len()
    &&& tail(s, a) == tail(t, b)
    &&& forall|k: int|
        0 <= k < a.len() ==> lead(s, a, k) == lead(t, b, k) && (#[trigger] b[k]).parsed
            == address::moved(a[k].parsed, rows, cols)
}

/// Filling a formula down or across keeps its shape. The moves must stay within
/// the address space, and no range may turn into a single cell or back.
pub proof fn filling_keeps_the_shape(
    s: Seq<char>,
    t: Seq<char>,
    row: u32,
    col: u16,
    rows: int,
    cols: int,
)
    requires
        filled(s, t, rows, cols),
        0 <= row + rows <= u32::MAX,
        0 <= col + cols <= u16::MAX,
        forall|k: int|
            0 <= k < references(s).len() ==> {
                let p = (#[trigger] references(s)[k]).parsed;
                &&& address::moved(p, rows, cols).one_cell() == p.one_cell()
                &&& p.abs_top || 0 <= p.top + rows <= u32::MAX
                &&& p.abs_bottom || 0 <= p.bottom + rows <= u32::MAX
                &&& p.abs_left || 0 <= p.left + cols <= u16::MAX
                &&& p.abs_right || 0 <= p.right + cols <= u16::MAX
            },
    ensures
        shape(t, (row + rows) as u32, (col + cols) as u16) == shape(s, row, col),
{
    lemma_filled_from(s, t, row, col, rows, cols, 0);
}

proof fn lemma_filled_from(
    s: Seq<char>,
    t: Seq<char>,
    row: u32,
    col: u16,
    rows: int,
    cols: int,
    k: int,
)
    requires
        filled(s, t, rows, cols),
        0 <= k <= references(s).len(),
        0 <= row + rows <= u32::MAX,
        0 <= col + cols <= u16::MAX,
        forall|k: int|
            0 <= k < references(s).len() ==> {
                let p = (#[trigger] references(s)[k]).parsed;
                &&& address::moved(p, rows, cols).one_cell() == p.one_cell()
                &&& p.abs_top || 0 <= p.top + rows <= u32::MAX
                &&& p.abs_bottom || 0 <= p.bottom + rows <= u32::MAX
                &&& p.abs_left || 0 <= p.left + cols <= u16::MAX
                &&& p.abs_right || 0 <= p.right + cols <= u16::MAX
            },
    ensures
        ({
            let a = references(s);
            let b = references(t);
            let x: int = if k == 0 {
                0
            } else {
                a[k - 1].end
            };
            let y: int = if k == 0 {
                0
            } else {
                b[k - 1].end
            };
            shape_from(t, b, k, y, (row + rows) as u32, (col + cols) as u16) == shape_from(
                s,
                a,
                k,
                x,
                row,
                col,
            )
        }),
    decreases references(s).len() - k,
{
    let a = references(s);
    let b = references(t);
    if k < a.len() {
        lemma_filled_from(s, t, row, col, rows, cols, k + 1);
        assert(lead(s, a, k) == lead(t, b, k) && b[k].parsed == address::moved(
            a[k].parsed,
            rows,
            cols,
        ));
        shape_coordinates_survive_a_move(a[k].parsed, row, col, rows, cols);
    }
}

} // verus!
