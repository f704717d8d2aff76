//! What a formula's scanners see of a text from where they stand.
//!
//! The scanners look at the character before them and at what follows, up to the
//! end of the text or to a character at which every word ends. Two texts that agree
//! there are scanned alike, wherever in each of them the agreement begins. That is
//! what makes a literal's contents leave no trace in a redacted formula, and a
//! formula written out in another row keep its shape.

use crate::address;
use crate::formula;
use crate::text;
use vstd::prelude::*;

verus! {

/// A character at which every word and number ends, and behind which no reference
/// goes on.
pub open spec fn is_stop(c: char) -> bool {
    !formula::is_ident(c) && c != '$' && c != '!' && c != ':'
}

/// From `lo` on, up to a place `m` where both texts end or show the same stop, `s`
/// is the same as `t` is `d` places further on.
pub open spec fn tracks(s: Seq<char>, t: Seq<char>, lo: int, m: int, d: int) -> bool {
    &&& 0 <= lo <= m <= s.len()
    &&& 0 <= lo + d
    &&& m + d <= t.len()
    &&& m == s.len() <==> m + d == t.len()
    &&& m < s.len() ==> s[m] == t[m + d] && is_stop(s[m])
    &&& forall|j: int| lo <= j < m ==> #[trigger] s[j] == t[j + d]
}

pub proof fn lemma_runs(s: Seq<char>, t: Seq<char>, lo: int, m: int, d: int, i: int)
    requires
        tracks(s, t, lo, m, d),
        lo <= i <= m,
    ensures
        formula::ident_run(t, i + d) == formula::ident_run(s, i) + d,
        i <= formula::ident_run(s, i) <= m,
        text::letter_run(t, i + d) == text::letter_run(s, i) + d,
        i <= text::letter_run(s, i) <= m,
        text::digit_run(t, i + d) == text::digit_run(s, i) + d,
        i <= text::digit_run(s, i) <= m,
    decreases m - i,
{
    if i < m {
        assert(s[i] == t[i + d]);
        lemma_runs(s, t, lo, m, d, i + 1);
    }
}

pub proof fn lemma_closing(s: Seq<char>, t: Seq<char>, lo: int, d: int, q: char, i: int)
    requires
        tracks(s, t, lo, s.len() as int, d),
        lo <= i <= s.len(),
    ensures
        text::closing_quote(t, q, i + d) == text::closing_quote(s, q, i) + d,
        i <= text::closing_quote(s, q, i) <= s.len(),
        text::position(t, q, i + d) == text::position(s, q, i) + d,
        i <= text::position(s, q, i) <= s.len(),
    decreases s.len() - i,
{
    if i < s.len() {
        assert(s[i] == t[i + d]);
        lemma_closing(s, t, lo, d, q, i + 1);
        if i + 1 < s.len() {
            assert(s[i + 1] == t[i + 1 + d]);
            lemma_closing(s, t, lo, d, q, i + 2);
        }
    }
}

pub proof fn lemma_same_part(s: Seq<char>, t: Seq<char>, lo: int, m: int, d: int, a: int, b: int)
    requires
        tracks(s, t, lo, m, d),
        lo <= a <= b <= m,
    ensures
        s.subrange(a, b) == t.subrange(a + d, b + d),
{
    assert forall|j: int| 0 <= j < b - a implies s.subrange(a, b)[j] == t.subrange(
        a + d,
        b + d,
    )[j] by {
        assert(s[a + j] == t[a + j + d]);
    }
    assert(s.subrange(a, b) =~= t.subrange(a + d, b + d));
}

/// A place further on.
pub open spec fn place_on(i: Option<int>, d: int) -> Option<int> {
    match i {
        Some(i) => Some(i + d),
        None => None,
    }
}

/// A reference found further on.
pub open spec fn found_on(f: Option<formula::Found>, d: int) -> Option<formula::Found> {
    match f {
        Some(f) => Some(moved_on(f, d)),
        None => None,
    }
}

/// A reference that stands further on.
pub open spec fn moved_on(f: formula::Found, d: int) -> formula::Found {
    formula::Found { start: f.start + d, local: f.local + d, end: f.end + d, ..f }
}

pub proof fn lemma_ends(s: Seq<char>, t: Seq<char>, lo: int, m: int, d: int, i: int)
    requires
        tracks(s, t, lo, m, d),
        lo <= i < m,
        s[i] == ':',
    ensures
        formula::range_end(t, i + d) == place_on(formula::range_end(s, i), d),
        formula::range_end(s, i) matches Some(e) ==> i + 1 < e <= m,
        formula::sheet_range_bang(t, i + d) == place_on(formula::sheet_range_bang(s, i), d),
        formula::sheet_range_bang(s, i) matches Some(e) ==> i + 1 < e < m,
        formula::axis_end(t, i + d) == place_on(formula::axis_end(s, i), d),
        formula::axis_end(s, i) matches Some(e) ==> i < e <= m,
{
    assert(s[i] == t[i + d]);
    lemma_runs(s, t, lo, m, d, i + 1);
    let end = formula::ident_run(s, i + 1);
    lemma_same_part(s, t, lo, m, d, i + 1, end);
    if end < m {
        assert(s[end] == t[end + d]);
    }
    if i + 1 < m {
        assert(s[i + 1] == t[i + 1 + d]);
    }
    let a = if i + 1 < s.len() && s[i + 1] == '$' {
        i + 2
    } else {
        i + 1
    };
    assert(lo <= a <= m);
    lemma_runs(s, t, lo, m, d, a);
    if a < m {
        assert(s[a] == t[a + d]);
    }
    let e = text::letter_run(s, a);
    if e < m {
        assert(s[e] == t[e + d]);
    }
    let f = text::digit_run(s, a);
    if f < m {
        assert(s[f] == t[f + d]);
    }
}

pub proof fn lemma_found(
    s: Seq<char>,
    t: Seq<char>,
    lo: int,
    m: int,
    d: int,
    start: int,
    local: int,
    end: int,
    qualified: bool,
)
    requires
        tracks(s, t, lo, m, d),
        lo <= start <= end <= m,
    ensures
        formula::read(t, start + d, end + d) == formula::read(s, start, end),
        formula::found(t, start + d, local + d, end + d, qualified) == found_on(
            formula::found(s, start, local, end, qualified),
            d,
        ),
        formula::found(s, start, local, end, qualified) matches Some(f) ==> f.end == end,
{
    lemma_same_part(s, t, lo, m, d, start, end);
}

#[verifier::spinoff_prover]
#[verifier::rlimit(40)]
pub proof fn lemma_after_token(
    s: Seq<char>,
    t: Seq<char>,
    lo: int,
    m: int,
    d: int,
    start: int,
    local: int,
    end: int,
    qualified: bool,
)
    requires
        tracks(s, t, lo, m, d),
        lo <= start <= local <= end <= m,
    ensures
        formula::cell_token(t.subrange(local + d, end + d)) == formula::cell_token(
            s.subrange(local, end),
        ),
        (end < s.len() && s[end] == ':') == (end + d < t.len() && t[end + d] == ':'),
        (end < s.len() && s[end] == '(') == (end + d < t.len() && t[end + d] == '('),
        (end < s.len() && s[end] == '!') == (end + d < t.len() && t[end + d] == '!'),
        formula::range_end(t, end + d) == place_on(formula::range_end(s, end), d),
        formula::range_end(s, end) matches Some(e) ==> end < e <= m && formula::read(
            t,
            start + d,
            e + d,
        ) == formula::read(s, start, e) && formula::found(t, start + d, local + d, e + d, qualified)
            == found_on(formula::found(s, start, local, e, qualified), d),
        formula::found(t, start + d, local + d, end + d, qualified) == found_on(
            formula::found(s, start, local, end, qualified),
            d,
        ),
        end < s.len() && s[end] == ':' ==> {
            &&& formula::axis_end(t, end + d) == place_on(formula::axis_end(s, end), d)
            &&& formula::axis_end(s, end) matches Some(e) ==> end < e <= m && formula::found(
                t,
                start + d,
                local + d,
                e + d,
                qualified,
            ) == found_on(formula::found(s, start, local, e, qualified), d)
            &&& formula::sheet_range_bang(t, end + d) == place_on(
                formula::sheet_range_bang(s, end),
                d,
            )
            &&& formula::sheet_range_bang(s, end) matches Some(e) ==> end < e < m
        },
{
    lemma_same_part(s, t, lo, m, d, local, end);
    if end < m {
        assert(s[end] == t[end + d]);
    }
    lemma_found(s, t, lo, m, d, start, local, end, qualified);
    if end < s.len() && s[end] == ':' {
        assert(end < m);
        lemma_ends(s, t, lo, m, d, end);
        if let Some(e) = formula::range_end(s, end) {
            lemma_found(s, t, lo, m, d, start, local, e, qualified);
        }
        if let Some(e) = formula::axis_end(s, end) {
            lemma_found(s, t, lo, m, d, start, local, e, qualified);
        }
    }
}

#[verifier::spinoff_prover]
#[verifier::rlimit(40)]
pub proof fn lemma_qualified(s: Seq<char>, t: Seq<char>, lo: int, m: int, d: int, bang: int, start: int)
    requires
        tracks(s, t, lo, m, d),
        lo <= start <= bang <= m,
    ensures
        formula::qualified_reference(t, bang + d, start + d) == found_on(
            formula::qualified_reference(s, bang, start),
            d,
        ),
        formula::qualified_reference(s, bang, start) matches Some(f) ==> bang < f.end <= m,
{
    if bang < m {
        assert(s[bang] == t[bang + d]);
        if s[bang] == '!' {
            let local = bang + 1;
            lemma_runs(s, t, lo, m, d, local);
            let end = formula::ident_run(s, local);
            lemma_after_token(s, t, lo, m, d, start, local, end, true);
            if end == local {
            } else if formula::cell_token(s.subrange(local, end)) is Some {
                assert(formula::cell_token(t.subrange(local + d, end + d)) is Some);
                let range = formula::range_end(s, end);
                if range is Some && formula::read(s, start, range->0) is Some {
                    assert(formula::qualified_reference(s, bang, start) == formula::found(
                        s,
                        start,
                        local,
                        range->0,
                        true,
                    ));
                } else {
                    assert(formula::qualified_reference(s, bang, start) == formula::found(
                        s,
                        start,
                        local,
                        end,
                        true,
                    ));
                }
            }
        }
    }
}

/// The character before the scanner counts alike in both texts.
pub open spec fn follows_alike(s: Seq<char>, t: Seq<char>, i: int, d: int) -> bool {
    formula::follows_ident(s, i) == formula::follows_ident(t, i + d)
}

#[verifier::spinoff_prover]
#[verifier::rlimit(40)]
proof fn lemma_word(s: Seq<char>, t: Seq<char>, lo: int, m: int, d: int, i: int)
    requires
        tracks(s, t, lo, m, d),
        lo <= i < m,
        follows_alike(s, t, i, d),
    ensures
        formula::word_step(t, i + d).found == found_on(formula::word_step(s, i).found, d),
        formula::word_step(t, i + d).next == formula::word_step(s, i).next + d,
        formula::word_step(s, i).next <= m,
        formula::digits_step(t, i + d).found == found_on(formula::digits_step(s, i).found, d),
        formula::digits_step(t, i + d).next == formula::digits_step(s, i).next + d,
        formula::digits_step(s, i).next <= m,
{
    lemma_runs(s, t, lo, m, d, i);
    let end = formula::ident_run(s, i);
    lemma_after_token(s, t, lo, m, d, i, i, end, false);
    lemma_qualified(s, t, lo, m, d, end, i);
    if end < s.len() && s[end] == ':' {
        if let Some(bang) = formula::sheet_range_bang(s, end) {
            lemma_qualified(s, t, lo, m, d, bang, i);
        }
    }
    let digits = text::digit_run(s, i);
    lemma_after_token(s, t, lo, m, d, i, i, digits, false);
}

/// Two steps are the same, the second of them further on.
pub open spec fn step_on(a: formula::Step, b: formula::Step, d: int) -> bool {
    b.found == found_on(a.found, d) && b.next == a.next + d
}

proof fn lemma_quoted(s: Seq<char>, t: Seq<char>, lo: int, d: int, i: int, q: char)
    requires
        tracks(s, t, lo, s.len() as int, d),
        lo <= i < s.len(),
    ensures
        formula::quoted_end(t, i + d, q) == formula::quoted_end(s, i, q) + d,
        i < formula::quoted_end(s, i, q) <= s.len(),
        formula::qualified_reference(t, formula::quoted_end(s, i, q) + d, i + d) == found_on(
            formula::qualified_reference(s, formula::quoted_end(s, i, q), i),
            d,
        ),
        formula::qualified_reference(s, formula::quoted_end(s, i, q), i) matches Some(f) ==> f.end
            <= s.len(),
{
    lemma_closing(s, t, lo, d, q, i + 1);
    lemma_qualified(s, t, lo, s.len() as int, d, formula::quoted_end(s, i, q), i);
}

proof fn lemma_foreign(s: Seq<char>, t: Seq<char>, lo: int, m: int, d: int, i: int, start: int)
    requires
        tracks(s, t, lo, m, d),
        lo <= start <= i <= m,
    ensures
        ({
            let end = formula::ident_run(s, i);
            &&& formula::ident_run(t, i + d) == end + d
            &&& end <= m
            &&& (end < s.len() && s[end] == '!') == (end + d < t.len() && t[end + d] == '!')
            &&& (end < s.len() && s[end] == '!') ==> end < m
            &&& formula::qualified_reference(t, end + d, start + d) == found_on(
                formula::qualified_reference(s, end, start),
                d,
            )
            &&& formula::qualified_reference(s, end, start) matches Some(f) ==> f.end <= m
        }),
{
    lemma_runs(s, t, lo, m, d, i);
    let end = formula::ident_run(s, i);
    if end < m {
        assert(s[end] == t[end + d]);
    }
    lemma_qualified(s, t, lo, m, d, end, start);
}

#[verifier::spinoff_prover]
#[verifier::rlimit(40)]
proof fn lemma_bracket(s: Seq<char>, t: Seq<char>, lo: int, d: int, i: int)
    requires
        tracks(s, t, lo, s.len() as int, d),
        lo <= i < s.len(),
    ensures
        step_on(formula::bracket_step(s, i), formula::bracket_step(t, i + d), d),
        formula::bracket_step(s, i).next <= s.len(),
{
    let m = s.len() as int;
    lemma_closing(s, t, lo, d, ']', i);
    let close = text::position(s, ']', i);
    if close < m {
        lemma_foreign(s, t, lo, m, d, close + 1, i);
        let after = formula::ident_run(s, close + 1);
        let f = formula::qualified_reference(s, after, i);
        let g = formula::qualified_reference(t, after + d, i + d);
        assert(g == found_on(f, d));
        assert(step_on(formula::step_to(f, after + 1), formula::step_to(g, after + 1 + d), d));
    }
}


/// A word or a number can start with a character. Only there does it matter what
/// stands before it.
pub open spec fn starts_token(c: char) -> bool {
    text::is_letter(c) || text::is_digit(c) || c == '$' || c == '_'
}

/// One step of the reference scanner goes alike in both texts. Where the texts
/// agree only up to a stop, the step is not one that looks for the end
/// of a quoted or bracketed span.
proof fn lemma_step(s: Seq<char>, t: Seq<char>, lo: int, m: int, d: int, i: int)
    requires
        tracks(s, t, lo, m, d),
        lo <= i < m,
        follows_alike(s, t, i, d) || !starts_token(s[i]),
        m == s.len() || (s[i] != '"' && s[i] != '\'' && s[i] != '['),
    ensures
        step_on(formula::reference_step(s, i), formula::reference_step(t, i + d), d),
        i < formula::reference_step(s, i).next <= m,
{
    formula::lemma_reference_step(s, i);
    assert(s[i] == t[i + d]);
    let c = s[i];
    if c == '"' || c == '\'' {
        lemma_quoted(s, t, lo, d, i, c);
        reveal(formula::reference_step);
    } else if c as u32 > 0x7f {
        lemma_foreign(s, t, lo, m, d, i, i);
        reveal(formula::reference_step);
    } else if text::is_letter(c) || c == '$' || c == '_' || text::is_digit(c) {
        lemma_word(s, t, lo, m, d, i);
        reveal(formula::reference_step);
    } else if c == '[' {
        lemma_bracket(s, t, lo, d, i);
        reveal(formula::reference_step);
    } else {
        reveal(formula::reference_step);
    }
}

// ---------------------------------------------------------------------------
// References.

/// Behind a place where two texts agree up to their ends, they hold the same
/// references.
pub proof fn lemma_references_behind(s: Seq<char>, t: Seq<char>, lo: int, d: int, i: int)
    requires
        tracks(s, t, lo, s.len() as int, d),
        lo <= i <= s.len(),
        i < s.len() ==> follows_alike(s, t, i, d) || !starts_token(s[i]),
    ensures
        ({
            let a = formula::references_from(s, i);
            let b = formula::references_from(t, i + d);
            &&& a.len() == b.len()
            &&& forall|k: int|
                0 <= k < a.len() ==> #[trigger] b[k] == moved_on(a[k], d) && i <= a[k].start
                    < a[k].end <= s.len()
        }),
    decreases s.len() - i,
{
    if i < s.len() {
        lemma_step(s, t, lo, s.len() as int, d, i);
        formula::lemma_reference_step(s, i);
        formula::lemma_reference_step(t, i + d);
        let step = formula::reference_step(s, i);
        assert(s[step.next - 1] == t[step.next - 1 + d]);
        lemma_references_behind(s, t, lo, d, step.next);
        let a = formula::references_from(s, i);
        let b = formula::references_from(t, i + d);
        let x = formula::references_from(s, step.next);
        let y = formula::references_from(t, step.next + d);
        if let Some(f) = step.found {
            assert(a == seq![f] + x);
            assert(b == seq![moved_on(f, d)] + y);
            assert forall|k: int| 0 <= k < a.len() implies #[trigger] b[k] == moved_on(a[k], d)
                && i <= a[k].start < a[k].end <= s.len() by {
                if k > 0 {
                    assert(a[k] == x[k - 1] && b[k] == y[k - 1]);
                }
            }
        } else {
            assert(a == x && b == y);
        }
    }
}

/// In front of a stop, where nothing opens a quoted or bracketed span,
/// two texts that agree hold the same references; those behind follow.
pub proof fn lemma_references_before(s: Seq<char>, t: Seq<char>, n: int, i: int) -> (pre: Seq<
    formula::Found,
>)
    requires
        tracks(s, t, 0, n, 0),
        n < s.len(),
        forall|j: int| 0 <= j < n ==> #[trigger] s[j] != '"' && s[j] != '\'' && s[j] != '[',
        0 <= i <= n,
    ensures
        formula::references_from(s, i) == pre + formula::references_from(s, n),
        formula::references_from(t, i) == pre + formula::references_from(t, n),
        forall|k: int| 0 <= k < pre.len() ==> (#[trigger] pre[k]).start < pre[k].end <= n,
    decreases n - i,
{
    if i < n {
        if i > 0 {
            assert(s[i - 1] == t[i - 1 + 0]);
        }
        lemma_step(s, t, 0, n, 0, i);
        formula::lemma_reference_step(s, i);
        formula::lemma_reference_step(t, i);
        let step = formula::reference_step(s, i);
        let rest = lemma_references_before(s, t, n, step.next);
        match step.found {
            Some(f) => {
                assert(moved_on(f, 0) == f);
                let pre = seq![f] + rest;
                assert(formula::references_from(s, i) =~= pre + formula::references_from(s, n));
                assert(formula::references_from(t, i) =~= pre + formula::references_from(t, n));
                pre
            },
            None => rest,
        }
    } else {
        let pre = Seq::<formula::Found>::empty();
        assert(formula::references_from(s, n) =~= pre + formula::references_from(s, n));
        assert(formula::references_from(t, n) =~= pre + formula::references_from(t, n));
        pre
    }
}

// ---------------------------------------------------------------------------
// Redaction.

proof fn lemma_number(s: Seq<char>, t: Seq<char>, lo: int, m: int, d: int, i: int)
    requires
        tracks(s, t, lo, m, d),
        m < s.len() ==> s[m] == '"',
        lo <= i < m,
        follows_alike(s, t, i, d),
    ensures
        formula::starts_number(t, i + d) == formula::starts_number(s, i),
        formula::starts_number(s, i) ==> formula::number_end(t, i + d) == formula::number_end(s, i)
            + d && i < formula::number_end(s, i) <= m,
{
    assert(s[i] == t[i + d]);
    if i + 1 < m {
        assert(s[i + 1] == t[i + 1 + d]);
    }
    if formula::starts_number(s, i) {
        formula::lemma_number_end(s, i);
        lemma_runs(s, t, lo, m, d, i);
        let a = text::digit_run(s, i);
        if a < m {
            assert(s[a] == t[a + d]);
        }
        if a + 1 < m {
            assert(s[a + 1] == t[a + 1 + d]);
            lemma_runs(s, t, lo, m, d, a + 1);
        }
        let b = if a + 1 < s.len() && s[a] == '.' && text::is_digit(s[a + 1]) {
            text::digit_run(s, a + 1)
        } else {
            a
        };
        assert(b <= m);
        if b < m {
            assert(s[b] == t[b + d]);
        }
        if b + 1 < m {
            assert(s[b + 1] == t[b + 1 + d]);
            lemma_runs(s, t, lo, m, d, b + 1);
        }
        if b + 2 < m {
            assert(s[b + 2] == t[b + 2 + d]);
            lemma_runs(s, t, lo, m, d, b + 2);
        }
    }
}

/// Two lists of references answer alike from `lo` on: the same ones stand there,
/// further on in the second list, and the others stand before it in both.
pub open spec fn refs_alike(a: Seq<formula::Found>, b: Seq<formula::Found>, lo: int, d: int) -> bool {
    &&& a.len() == b.len()
    &&& forall|k: int|
        0 <= k < a.len() ==> (#[trigger] b[k] == moved_on(a[k], d) || (a[k].start < lo && b[k].start
            < lo + d))
}

#[verifier::spinoff_prover]
#[verifier::rlimit(40)]
proof fn lemma_redacted_behind(
    s: Seq<char>,
    t: Seq<char>,
    a: Seq<formula::Found>,
    b: Seq<formula::Found>,
    lo: int,
    d: int,
    i: int,
    k: int,
)
    requires
        tracks(s, t, lo, s.len() as int, d),
        refs_alike(a, b, lo, d),
        forall|k: int| 0 <= k < a.len() && lo <= (#[trigger] a[k]).start ==> a[k].start < a[k].end
            <= s.len(),
        lo < i <= s.len(),
        0 <= k,
    ensures
        formula::redacted_from(s, a, i, k) == formula::redacted_from(t, b, i + d, k),
    decreases a.len() - k, s.len() - i,
{
    if i < s.len() {
        let m = s.len() as int;
        assert(s[i] == t[i + d]);
        assert(s[i - 1] == t[i - 1 + d]);
        if k < a.len() && a[k].start == i {
            assert(b[k] == moved_on(a[k], d));
            lemma_same_part(s, t, lo, m, d, i, a[k].end);
            lemma_redacted_behind(s, t, a, b, lo, d, a[k].end, k + 1);
        } else {
            if k < a.len() {
                assert(b[k] == moved_on(a[k], d) || (a[k].start < lo && b[k].start < lo + d));
                assert(b[k].start != i + d);
            }
            if s[i] == '"' || s[i] == '\'' {
                let q = formula::quoted_end(s, i, s[i]);
                lemma_closing(s, t, lo, d, s[i], i + 1);
                lemma_same_part(s, t, lo, m, d, i, q);
                lemma_redacted_behind(s, t, a, b, lo, d, q, k);
            } else {
                lemma_number(s, t, lo, m, d, i);
                if formula::starts_number(s, i) {
                    lemma_redacted_behind(s, t, a, b, lo, d, formula::number_end(s, i), k);
                } else {
                    lemma_redacted_behind(s, t, a, b, lo, d, i + 1, k);
                }
            }
        }
    }
}

#[verifier::spinoff_prover]
#[verifier::rlimit(40)]
proof fn lemma_redacted_before(
    s: Seq<char>,
    t: Seq<char>,
    a: Seq<formula::Found>,
    b: Seq<formula::Found>,
    n: int,
    i: int,
    k: int,
)
    requires
        tracks(s, t, 0, n, 0),
        n < s.len(),
        s[n] == '"',
        forall|j: int| 0 <= j < n ==> #[trigger] s[j] != '"' && s[j] != '\'' && s[j] != '[',
        a.len() == b.len(),
        forall|k: int|
            0 <= k < a.len() ==> ((#[trigger] a[k]) == b[k] && a[k].start < a[k].end <= n) || (n
                < a[k].start && n < b[k].start),
        forall|k: int|
            0 <= k ==> #[trigger] formula::redacted_from(s, a, n, k) == formula::redacted_from(
                t,
                b,
                n,
                k,
            ),
        0 <= i <= n,
        0 <= k,
    ensures
        formula::redacted_from(s, a, i, k) == formula::redacted_from(t, b, i, k),
    decreases a.len() - k, n - i,
{
    if i < n {
        assert(s[i] == t[i + 0]);
        if i > 0 {
            assert(s[i - 1] == t[i - 1 + 0]);
        }
        if k < a.len() && a[k].start == i {
            assert(a[k] == b[k]);
            lemma_same_part(s, t, 0, n, 0, i, a[k].end);
            lemma_redacted_before(s, t, a, b, n, a[k].end, k + 1);
        } else {
            if k < a.len() {
                assert(a[k] == b[k] || n < b[k].start);
            }
            lemma_number(s, t, 0, n, 0, i);
            if formula::starts_number(s, i) {
                lemma_redacted_before(s, t, a, b, n, formula::number_end(s, i), k);
            } else {
                lemma_redacted_before(s, t, a, b, n, i + 1, k);
            }
        }
    } else {
        assert(formula::redacted_from(s, a, n, k) == formula::redacted_from(t, b, n, k));
    }
}

/// A formula with a string literal in it.
pub open spec fn around(before: Seq<char>, literal: Seq<char>, behind: Seq<char>) -> Seq<char> {
    before + seq!['"'] + literal + seq!['"'] + behind
}

pub proof fn lemma_over_literal(s: Seq<char>, from: int, to: int)
    requires
        0 <= from <= to <= s.len(),
        forall|j: int| from <= j < to ==> #[trigger] s[j] != '"',
    ensures
        text::closing_quote(s, '"', from) == text::closing_quote(s, '"', to),
    decreases to - from,
{
    if from < to {
        lemma_over_literal(s, from + 1, to);
    }
}

/// The result does not depend on what a string literal holds: two formulas that
/// differ in one quoted literal only redact to the same text.
pub proof fn redaction_hides_what_a_literal_holds(
    before: Seq<char>,
    x: Seq<char>,
    y: Seq<char>,
    behind: Seq<char>,
)
    requires
        forall|i: int| 0 <= i < x.len() ==> #[trigger] x[i] != '"',
        forall|i: int| 0 <= i < y.len() ==> #[trigger] y[i] != '"',
        forall|i: int|
            0 <= i < before.len() ==> #[trigger] before[i] != '"' && before[i] != '\''
                && before[i] != '[',
    ensures
        formula::redacted(around(before, x, behind)) == formula::redacted(
            around(before, y, behind),
        ),
{
    let s = around(before, x, behind);
    let t = around(before, y, behind);
    let n = before.len() as int;
    let d = y.len() - x.len();
    let lo = n + 1 + x.len();
    assert(s.len() + d == t.len());
    assert forall|j: int| lo <= j < s.len() implies #[trigger] s[j] == t[j + d] by {}
    assert(tracks(s, t, lo, s.len() as int, d));
    assert(tracks(s, t, 0, n, 0));
    assert forall|j: int| 0 <= j < n implies #[trigger] s[j] != '"' && s[j] != '\'' && s[j]
        != '[' by {
        assert(s[j] == before[j]);
    }
    assert forall|j: int| n + 1 <= j < lo implies #[trigger] s[j] != '"' by {
        assert(s[j] == x[j - n - 1]);
    }
    assert forall|j: int| n + 1 <= j < lo + d implies #[trigger] t[j] != '"' by {
        assert(t[j] == y[j - n - 1]);
    }
    lemma_over_literal(s, n + 1, lo);
    lemma_over_literal(t, n + 1, lo + d);
    lemma_closing(s, t, lo, d, '"', lo);
    let end = formula::quoted_end(s, n, '"');
    assert(formula::quoted_end(t, n, '"') == end + d);
    assert(lo < end <= s.len());
    if end < s.len() {
        assert(s[end - 1] == t[end - 1 + d]);
    }
    let a = formula::references(s);
    let b = formula::references(t);
    let pre = lemma_references_before(s, t, n, 0);
    let p = formula::references_from(s, n);
    let q = formula::references_from(t, n);
    reveal(formula::reference_step);
    assert(p == formula::references_from(s, end));
    assert(q == formula::references_from(t, end + d));
    lemma_references_behind(s, t, lo, d, end);
    assert forall|k: int| 0 <= k < a.len() implies ((#[trigger] a[k]) == b[k] && a[k].start
        < a[k].end <= n) || (n < a[k].start && n < b[k].start && b[k] == moved_on(a[k], d)
        && a[k].end <= s.len() && a[k].start < a[k].end) by {
        if k < pre.len() {
            assert(a[k] == pre[k] && b[k] == pre[k]);
        } else {
            assert(a[k] == p[k - pre.len()] && b[k] == q[k - pre.len()]);
        }
    }
    assert(refs_alike(a, b, lo, d));
    assert forall|k: int| 0 <= k implies #[trigger] formula::redacted_from(s, a, n, k)
        == formula::redacted_from(t, b, n, k) by {
        lemma_redacted_behind(s, t, a, b, lo, d, end, k);
        if k < a.len() {
            assert(a[k].start != n && b[k].start != n);
        }
    }
    lemma_redacted_before(s, t, a, b, n, 0, 0);
}

// ---------------------------------------------------------------------------
// Shapes.

pub proof fn lemma_ident_run_is(s: Seq<char>, i: int, end: int)
    requires
        0 <= i <= end <= s.len(),
        forall|j: int| i <= j < end ==> formula::is_ident(#[trigger] s[j]) || s[j] == '$',
        end < s.len() ==> !formula::is_ident(s[end]) && s[end] != '$',
    ensures
        formula::ident_run(s, i) == end,
    decreases end - i,
{
    if i < end {
        lemma_ident_run_is(s, i + 1, end);
    }
}

/// A text that can stand behind a cell without being read as part of it, and that
/// holds no reference itself.
pub open spec fn stands_apart(rest: Seq<char>) -> bool {
    &&& rest.len() > 0 ==> !formula::is_ident(rest[0]) && rest[0] != '$' && rest[0] != '!'
        && rest[0] != ':' && rest[0] != '('
    &&& formula::references(rest).len() == 0
}

proof fn lemma_cell_token(row: u32, col: u16, abs_row: bool, abs_col: bool)
    requires
        row <= address::MAX_ROW,
        col <= address::MAX_COL,
    ensures
        ({
            let token = address::pinned_a1(row, col, abs_row, abs_col);
            &&& token.len() > 0
            &&& formula::cell_token(token) == Some(
                address::one_cell_of(row, col, abs_row, abs_col),
            )
            &&& text::is_letter(token[0]) || token[0] == '$'
            &&& forall|i: int|
                0 <= i < token.len() ==> formula::is_ident(#[trigger] token[i]) || token[i] == '$'
        }),
{
    let token = address::pinned_a1(row, col, abs_row, abs_col);
    address::lemma_pinned_a1(row, col, abs_row, abs_col);
    address::pinned_address_round_trips(row, col, abs_row, abs_col);
    assert(formula::is_cell_shape(token));
    if !abs_col {
        assert(text::letter_run(token, 0) > 0);
    }
}

proof fn lemma_leading_step(token: Seq<char>, rest: Seq<char>)
    requires
        token.len() > 0,
        formula::cell_token(token) is Some,
        text::is_letter(token[0]) || token[0] == '$',
        forall|i: int|
            0 <= i < token.len() ==> formula::is_ident(#[trigger] token[i]) || token[i] == '$',
        rest.len() > 0 ==> !formula::is_ident(rest[0]) && rest[0] != '$' && rest[0] != '!'
            && rest[0] != ':' && rest[0] != '(',
    ensures
        formula::reference_step(token + rest, 0) == (formula::Step {
            found: Some(
                formula::Found {
                    start: 0,
                    local: 0,
                    end: token.len() as int,
                    parsed: formula::cell_token(token)->0,
                    qualified: false,
                },
            ),
            next: token.len() as int,
        }),
{
    let f = token + rest;
    let n = token.len() as int;
    assert forall|j: int| 0 <= j < n implies formula::is_ident(#[trigger] f[j]) || f[j] == '$' by {
        assert(f[j] == token[j]);
    }
    if rest.len() > 0 {
        assert(f[n] == rest[0]);
    }
    lemma_ident_run_is(f, 0, n);
    assert(f.subrange(0, n) =~= token);
    assert(f[0] == token[0]);
    assert(formula::range_end(f, n) is None);
    assert(formula::bare_reference(f, 0, n) == formula::found(f, 0, 0, n, false));
    assert(formula::reference_step(f, 0) == formula::word_step(f, 0)) by {
        reveal(formula::reference_step);
    }
}

proof fn lemma_leading_cell(row: u32, col: u16, abs_row: bool, abs_col: bool, rest: Seq<char>)
    requires
        row <= address::MAX_ROW,
        col <= address::MAX_COL,
        stands_apart(rest),
    ensures
        ({
            let token = address::pinned_a1(row, col, abs_row, abs_col);
            formula::references(token + rest) == seq![
                formula::Found {
                    start: 0,
                    local: 0,
                    end: token.len() as int,
                    parsed: address::one_cell_of(row, col, abs_row, abs_col),
                    qualified: false,
                },
            ]
        }),
{
    let token = address::pinned_a1(row, col, abs_row, abs_col);
    let f = token + rest;
    let n = token.len() as int;
    lemma_cell_token(row, col, abs_row, abs_col);
    lemma_leading_step(token, rest);
    if rest.len() > 0 {
        assert(f[n] == rest[0]);
    }
    assert(tracks(f, rest, n, f.len() as int, -n));
    lemma_references_behind(f, rest, n, -n, n);
    assert(formula::references_from(f, n) =~= Seq::empty());
    assert(formula::references(f) =~= seq![formula::reference_step(f, 0).found->0]);
}

/// A formula that begins with a reference to a cell is written out again with the
/// reference as it looks from the formula's own cell.
pub proof fn a_leading_reference_is_rewritten_in_place(
    row: u32,
    col: u16,
    abs_row: bool,
    abs_col: bool,
    rest: Seq<char>,
    at_row: u32,
    at_col: u16,
)
    requires
        row <= address::MAX_ROW,
        col <= address::MAX_COL,
        stands_apart(rest),
    ensures
        formula::shape(address::pinned_a1(row, col, abs_row, abs_col) + rest, at_row, at_col)
            == formula::coord_text('R', row as int, abs_row, at_row as int) + formula::coord_text(
            'C',
            col as int,
            abs_col,
            at_col as int,
        ) + rest,
{
    let token = address::pinned_a1(row, col, abs_row, abs_col);
    let f = token + rest;
    lemma_leading_cell(row, col, abs_row, abs_col, rest);
    let refs = formula::references(f);
    let p = address::one_cell_of(row, col, abs_row, abs_col);
    assert(f.skip(token.len() as int) =~= rest);
    assert(formula::shape_from(f, refs, 1, token.len() as int, at_row, at_col) == rest);
    assert(formula::shape(f, at_row, at_col) =~= formula::coords(p, at_row, at_col) + rest);
}

/// A column filled down has one shape: a formula that begins with the cell beside
/// it looks the same from every row.
pub proof fn a_column_filled_down_has_one_shape(
    row: u32,
    other: u32,
    col: u16,
    at: u16,
    rest: Seq<char>,
)
    requires
        row <= address::MAX_ROW,
        other <= address::MAX_ROW,
        col <= address::MAX_COL,
        stands_apart(rest),
    ensures
        formula::shape(address::cell_a1(row, col) + rest, row, at) == formula::shape(
            address::cell_a1(other, col) + rest,
            other,
            at,
        ),
        formula::shape(address::cell_a1(row, col) + rest, row, at) == address::relative_text('R', 0)
            + address::relative_text('C', col - at) + rest,
{
    assert(address::pinned_a1(row, col, false, false) =~= address::cell_a1(row, col));
    assert(address::pinned_a1(other, col, false, false) =~= address::cell_a1(other, col));
    a_leading_reference_is_rewritten_in_place(row, col, false, false, rest, row, at);
    a_leading_reference_is_rewritten_in_place(other, col, false, false, rest, other, at);
}

/// A pinned reference has one shape, whichever cell the formula is in.
pub proof fn a_pinned_reference_has_one_shape(
    row: u32,
    col: u16,
    rest: Seq<char>,
    at_row: u32,
    at_col: u16,
)
    requires
        row <= address::MAX_ROW,
        col <= address::MAX_COL,
        stands_apart(rest),
    ensures
        formula::shape(address::pinned_a1(row, col, true, true) + rest, at_row, at_col)
            == address::absolute_text('R', row as int) + address::absolute_text('C', col as int)
            + rest,
{
    a_leading_reference_is_rewritten_in_place(row, col, true, true, rest, at_row, at_col);
}

proof fn lemma_times_two()
    ensures
        stands_apart("*2"@),
{
    let t = "*2"@;
    reveal_strlit("*2");
    reveal(formula::reference_step);
    reveal_with_fuel(formula::references_from, 3);
    reveal_with_fuel(text::digit_run, 3);
    assert(t.len() == 2 && t[0] == '*' && t[1] == '2');
    assert(formula::reference_step(t, 0).next == 1);
    assert(formula::reference_step(t, 1).found is None);
    assert(formula::reference_step(t, 1).next == 2);
    assert(formula::references_from(t, 2) =~= Seq::empty());
    assert(formula::references_from(t, 1) =~= Seq::empty());
    assert(formula::references(t) =~= Seq::empty());
}

/// In every row `r`, twice the cell in the first column is `RC[-1]*2` from the
/// second.
pub proof fn doubling_the_first_column_has_one_shape(r: u32)
    requires
        r <= address::MAX_ROW,
    ensures
        formula::shape("A"@ + text::decimal((r + 1) as nat) + "*2"@, r, 1) == "RC[-1]*2"@,
{
    lemma_times_two();
    a_column_filled_down_has_one_shape(r, r, 0, 1, "*2"@);
    reveal_strlit("A");
    reveal_strlit("*2");
    reveal_strlit("RC[-1]*2");
    reveal_with_fuel(address::base26_letters, 2);
    reveal_with_fuel(text::decimal, 2);
    assert(address::base26_letters(1) =~= "A"@);
    assert(address::cell_a1(r, 0) == "A"@ + text::decimal((r + 1) as nat));
    assert(text::signed_decimal(-1) =~= seq!['-', '1']);
    assert(address::relative_text('R', 0) + address::relative_text('C', -1) + "*2"@
        =~= "RC[-1]*2"@);
}

/// From every cell, twice the pinned first cell is `R1C1*2`.
pub proof fn doubling_the_pinned_first_cell_has_one_shape(row: u32, col: u16)
    ensures
        formula::shape("$A$1*2"@, row, col) == "R1C1*2"@,
{
    lemma_times_two();
    a_pinned_reference_has_one_shape(0, 0, "*2"@, row, col);
    reveal_strlit("$A$1*2");
    reveal_strlit("*2");
    reveal_strlit("R1C1*2");
    reveal_with_fuel(address::base26_letters, 2);
    reveal_with_fuel(text::decimal, 2);
    assert(text::decimal(1) =~= seq!['1']);
    assert(address::base26_letters(1) =~= seq!['A']);
    assert(address::pinned_a1(0, 0, true, true) + "*2"@ =~= "$A$1*2"@);
    assert(address::absolute_text('R', 0) + address::absolute_text('C', 0) + "*2"@ =~= "R1C1*2"@);
}

} // verus!
