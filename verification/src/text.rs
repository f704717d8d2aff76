//! Characters and strings: the shared vocabulary of the parsers and printers.
//!
//! Every text is modelled by the sequence of its characters. The spec functions
//! here say what a piece of text *is*; the executable functions next to them
//! compute it and are proved against them.

use vstd::prelude::*;

verus! {

/// `String::push` appends one character. Only the text is spoken of, not the
/// capacity.
pub assume_specification[ String::push ](s: &mut String, c: char)
    ensures
        final(s)@ == old(s)@.push(c),
;

/// `String::push_str` appends a whole string.
pub assume_specification[ String::push_str ](s: &mut String, other: &str)
    ensures
        final(s)@ == old(s)@ + other@,
;

/// `String::clear` empties a string.
pub assume_specification[ String::clear ](s: &mut String)
    ensures
        final(s)@ == Seq::<char>::empty(),
;

// ---------------------------------------------------------------------------
// Classes of characters
// ---------------------------------------------------------------------------

/// An ASCII decimal digit.
pub open spec fn is_digit(c: char) -> bool {
    '0' <= c <= '9'
}

/// An ASCII letter of either case.
pub open spec fn is_letter(c: char) -> bool {
    'a' <= c <= 'z' || 'A' <= c <= 'Z'
}

/// The code points with Unicode's `White_Space` property.
pub open spec fn is_white_space(c: char) -> bool {
    ||| '\u{9}' <= c <= '\u{d}'
    ||| c == '\u{20}'
    ||| c == '\u{85}'
    ||| c == '\u{a0}'
    ||| c == '\u{1680}'
    ||| '\u{2000}' <= c <= '\u{200a}'
    ||| c == '\u{2028}'
    ||| c == '\u{2029}'
    ||| c == '\u{202f}'
    ||| c == '\u{205f}'
    ||| c == '\u{3000}'
}

/// Whether a non-ASCII character is a letter or a number to Unicode.
pub uninterp spec fn unicode_alphanumeric(c: char) -> bool;

/// `char::is_alphanumeric`. Which characters it accepts is Unicode's business;
/// the result is a function of the character alone and is only named here.
#[verifier::external_body]
fn std_is_alphanumeric(c: char) -> (r: bool)
    ensures
        r == unicode_alphanumeric(c),
{
    c.is_alphanumeric()
}

/// A letter or a number. The ASCII part is spelled out, and white space, which
/// Unicode never counts as either, is ruled out in so many words.
pub open spec fn is_alphanumeric(c: char) -> bool {
    if c as u32 <= 0x7f {
        is_letter(c) || is_digit(c)
    } else {
        !is_white_space(c) && unicode_alphanumeric(c)
    }
}

pub fn digit(c: char) -> (r: bool)
    ensures
        r == is_digit(c),
{
    '0' <= c && c <= '9'
}

pub fn letter(c: char) -> (r: bool)
    ensures
        r == is_letter(c),
{
    ('a' <= c && c <= 'z') || ('A' <= c && c <= 'Z')
}

pub fn white_space(c: char) -> (r: bool)
    ensures
        r == is_white_space(c),
{
    ('\u{9}' <= c && c <= '\u{d}') || c == '\u{20}' || c == '\u{85}' || c == '\u{a0}' || c
        == '\u{1680}' || ('\u{2000}' <= c && c <= '\u{200a}') || c == '\u{2028}' || c == '\u{2029}'
        || c == '\u{202f}' || c == '\u{205f}' || c == '\u{3000}'
}

pub fn alphanumeric(c: char) -> (r: bool)
    ensures
        r == is_alphanumeric(c),
{
    if c as u32 <= 0x7f {
        letter(c) || digit(c)
    } else {
        !white_space(c) && std_is_alphanumeric(c)
    }
}

/// The ASCII lower-case form of a character; every other character is itself.
pub open spec fn lower_of(c: char) -> char {
    if 'A' <= c <= 'Z' {
        (c as u32 + 32) as char
    } else {
        c
    }
}

/// The ASCII upper-case form of a character; every other character is itself.
pub open spec fn upper_of(c: char) -> char {
    if 'a' <= c <= 'z' {
        (c as u32 - 32) as char
    } else {
        c
    }
}

pub fn ascii_lower(c: char) -> (r: char)
    ensures
        r == lower_of(c),
{
    if 'A' <= c && c <= 'Z' {
        (c as u8 + 32) as char
    } else {
        c
    }
}

pub fn ascii_upper(c: char) -> (r: char)
    ensures
        r == upper_of(c),
{
    if 'a' <= c && c <= 'z' {
        (c as u8 - 32) as char
    } else {
        c
    }
}

/// Two texts that differ in ASCII case at most.
pub open spec fn same_but_for_case(a: Seq<char>, b: Seq<char>) -> bool {
    a.len() == b.len() && forall|i: int| 0 <= i < a.len() ==> lower_of(#[trigger] a[i]) == lower_of(b[i])
}

// ---------------------------------------------------------------------------
// Between strings and characters
// ---------------------------------------------------------------------------

/// The characters of a string.
pub fn chars_of(s: &str) -> (r: Vec<char>)
    ensures
        r@ == s@,
{
    let mut out: Vec<char> = Vec::new();
    for c in it: s.chars()
        invariant
            out@ == s@.take(it.index() as int),
            it.seq() == s@,
    {
        out.push(c);
    }
    out
}

/// The string of some characters.
pub fn string_of(chars: &[char]) -> (r: String)
    ensures
        r@ == chars@,
{
    let mut out: String = String::new();
    let mut i: usize = 0;
    while i < chars.len()
        invariant
            i <= chars@.len(),
            out@ == chars@.take(i as int),
        decreases chars@.len() - i,
    {
        out.push(chars[i]);
        i += 1;
    }
    out
}

/// Append characters to a string.
pub fn push_chars(out: &mut String, chars: &[char])
    ensures
        final(out)@ == old(out)@ + chars@,
{
    let mut i: usize = 0;
    while i < chars.len()
        invariant
            i <= chars@.len(),
            out@ == old(out)@ + chars@.take(i as int),
        decreases chars@.len() - i,
    {
        out.push(chars[i]);
        i += 1;
    }
    assert(chars@.take(i as int) =~= chars@);
}

/// Whether two strings hold the same characters.
pub fn same_text(a: &str, b: &str) -> (r: bool)
    ensures
        r == (a@ == b@),
{
    same_chars(chars_of(a).as_slice(), chars_of(b).as_slice())
}

pub fn same_chars(a: &[char], b: &[char]) -> (r: bool)
    ensures
        r == (a@ == b@),
{
    if a.len() != b.len() {
        return false;
    }
    let mut i: usize = 0;
    while i < a.len()
        invariant
            i <= a@.len(),
            a@.len() == b@.len(),
            a@.take(i as int) == b@.take(i as int),
        decreases a@.len() - i,
    {
        if a[i] != b[i] {
            assert(a@[i as int] != b@[i as int]);
            return false;
        }
        i += 1;
        assert(a@.take(i as int) =~= a@.take(i - 1).push(a@[i - 1]));
        assert(b@.take(i as int) =~= b@.take(i - 1).push(b@[i - 1]));
    }
    assert(a@.take(i as int) =~= a@);
    assert(b@.take(i as int) =~= b@);
    true
}

/// The order of strings: by the first character that differs, a prefix first.
pub open spec fn text_before(a: Seq<char>, b: Seq<char>) -> bool
    decreases a.len(),
{
    if b.len() == 0 {
        false
    } else if a.len() == 0 {
        true
    } else if a[0] != b[0] {
        a[0] < b[0]
    } else {
        text_before(a.drop_first(), b.drop_first())
    }
}

/// `str::eq_ignore_ascii_case`.
pub fn same_text_but_for_case(a: &str, b: &str) -> (r: bool)
    ensures
        r == same_but_for_case(a@, b@),
{
    let x: Vec<char> = chars_of(a);
    let y: Vec<char> = chars_of(b);
    if x.len() != y.len() {
        return false;
    }
    let mut i: usize = 0;
    while i < x.len()
        invariant
            i <= x@.len(),
            x@ == a@,
            y@ == b@,
            x@.len() == y@.len(),
            forall|j: int| 0 <= j < i ==> lower_of(#[trigger] x@[j]) == lower_of(y@[j]),
        decreases x@.len() - i,
    {
        if ascii_lower(x[i]) != ascii_lower(y[i]) {
            return false;
        }
        i += 1;
    }
    true
}

// ---------------------------------------------------------------------------
// Trimming
// ---------------------------------------------------------------------------

/// The text without its leading white space.
pub open spec fn trimmed_start(s: Seq<char>) -> Seq<char>
    decreases s.len(),
{
    if s.len() > 0 && is_white_space(s[0]) {
        trimmed_start(s.drop_first())
    } else {
        s
    }
}

/// The text without its trailing white space.
pub open spec fn trimmed_end(s: Seq<char>) -> Seq<char>
    decreases s.len(),
{
    if s.len() > 0 && is_white_space(s.last()) {
        trimmed_end(s.drop_last())
    } else {
        s
    }
}

/// The text without white space at either end.
pub open spec fn trimmed(s: Seq<char>) -> Seq<char> {
    trimmed_end(trimmed_start(s))
}

pub fn trim(s: &[char]) -> (r: &[char])
    ensures
        r@ == trimmed(s@),
{
    let mut i: usize = 0;
    assert(s@.skip(0) =~= s@);
    while i < s.len() && white_space(s[i])
        invariant
            i <= s@.len(),
            trimmed_start(s@) == trimmed_start(s@.skip(i as int)),
        decreases s@.len() - i,
    {
        assert(s@.skip(i as int).drop_first() =~= s@.skip(i + 1));
        i += 1;
    }
    let ghost head = s@.skip(i as int);
    assert(trimmed_start(s@) == head);
    let mut j: usize = s.len();
    assert(head.take(j - i) =~= head);
    while j > i && white_space(s[j - 1])
        invariant
            i <= j <= s@.len(),
            head == s@.skip(i as int),
            trimmed_end(head) == trimmed_end(head.take(j - i)),
        decreases j - i,
    {
        assert(head.take(j - i).drop_last() =~= head.take(j - 1 - i));
        assert(head.take(j - i).last() == s@[j - 1]);
        j -= 1;
    }
    assert(j > i ==> head.take(j - i).last() == s@[j - 1]);
    assert(s@.subrange(i as int, j as int) =~= head.take(j - i));
    &s[i..j]
}

/// A text with no white space at its two ends is its own trimmed form.
pub proof fn lemma_trim_nothing(s: Seq<char>)
    requires
        s.len() > 0,
        !is_white_space(s[0]),
        !is_white_space(s.last()),
    ensures
        trimmed(s) == s,
{
}

/// Trimming never takes away a character that is not white space.
pub proof fn lemma_trim_keeps(s: Seq<char>, c: char)
    requires
        !is_white_space(c),
    ensures
        trimmed(s).contains(c) == s.contains(c),
{
    lemma_trim_start_keeps(s, c);
    lemma_trim_end_keeps(trimmed_start(s), c);
}

proof fn lemma_trim_start_keeps(s: Seq<char>, c: char)
    requires
        !is_white_space(c),
    ensures
        trimmed_start(s).contains(c) == s.contains(c),
    decreases s.len(),
{
    if s.len() > 0 && is_white_space(s[0]) {
        let t = s.drop_first();
        lemma_trim_start_keeps(t, c);
        if s.contains(c) {
            let i = choose|i: int| 0 <= i < s.len() && s[i] == c;
            assert(t[i - 1] == c);
        }
        if t.contains(c) {
            let i = choose|i: int| 0 <= i < t.len() && t[i] == c;
            assert(s[i + 1] == c);
        }
    }
}

proof fn lemma_trim_end_keeps(s: Seq<char>, c: char)
    requires
        !is_white_space(c),
    ensures
        trimmed_end(s).contains(c) == s.contains(c),
    decreases s.len(),
{
    if s.len() > 0 && is_white_space(s.last()) {
        let t = s.drop_last();
        lemma_trim_end_keeps(t, c);
        if s.contains(c) {
            let i = choose|i: int| 0 <= i < s.len() && s[i] == c;
            assert(t[i] == c);
        }
        if t.contains(c) {
            let i = choose|i: int| 0 <= i < t.len() && t[i] == c;
            assert(s[i] == c);
        }
    }
}

// ---------------------------------------------------------------------------
// Finding characters
// ---------------------------------------------------------------------------

/// The first place at or after `i` that holds `c`; the length if there is none.
pub open spec fn position(s: Seq<char>, c: char, i: int) -> int
    decreases s.len() - i,
{
    if i >= s.len() {
        s.len() as int
    } else if s[i] == c {
        i
    } else {
        position(s, c, i + 1)
    }
}

/// The last place before `n` that holds `c`; minus one if there is none.
pub open spec fn last_position(s: Seq<char>, c: char, n: int) -> int
    decreases n,
{
    if n <= 0 {
        -1
    } else if s[n - 1] == c {
        n - 1
    } else {
        last_position(s, c, n - 1)
    }
}

pub proof fn lemma_position(s: Seq<char>, c: char, i: int)
    requires
        0 <= i <= s.len(),
    ensures
        i <= position(s, c, i) <= s.len(),
        position(s, c, i) < s.len() ==> s[position(s, c, i)] == c,
        forall|j: int| i <= j < position(s, c, i) ==> s[j] != c,
    decreases s.len() - i,
{
    if i < s.len() && s[i] != c {
        lemma_position(s, c, i + 1);
    }
}

/// A place that holds `c`, with none before it, is the first place.
pub proof fn lemma_position_is(s: Seq<char>, c: char, i: int, at: int)
    requires
        0 <= i <= at <= s.len(),
        at < s.len() ==> s[at] == c,
        forall|j: int| i <= j < at ==> s[j] != c,
    ensures
        position(s, c, i) == at,
    decreases at - i,
{
    if i < at {
        lemma_position_is(s, c, i + 1, at);
    }
}

pub proof fn lemma_last_position(s: Seq<char>, c: char, n: int)
    requires
        0 <= n <= s.len(),
    ensures
        -1 <= last_position(s, c, n) < n,
        last_position(s, c, n) >= 0 ==> s[last_position(s, c, n)] == c,
        forall|j: int| last_position(s, c, n) < j < n ==> s[j] != c,
    decreases n,
{
    if n > 0 && s[n - 1] != c {
        lemma_last_position(s, c, n - 1);
    }
}

pub proof fn lemma_last_position_is(s: Seq<char>, c: char, n: int, at: int)
    requires
        -1 <= at < n <= s.len() || (at == -1 && n == 0),
        at >= 0 ==> s[at] == c,
        forall|j: int| at < j < n ==> s[j] != c,
    ensures
        last_position(s, c, n) == at,
    decreases n,
{
    if n > 0 && n - 1 > at {
        lemma_last_position_is(s, c, n - 1, at);
    }
}

pub fn find_char(s: &[char], c: char, from: usize) -> (r: usize)
    requires
        from <= s@.len(),
    ensures
        r == position(s@, c, from as int),
        from <= r <= s@.len(),
        r < s@.len() ==> s@[r as int] == c,
{
    let mut i: usize = from;
    while i < s.len() && s[i] != c
        invariant
            from <= i <= s@.len(),
            position(s@, c, from as int) == position(s@, c, i as int),
        decreases s@.len() - i,
    {
        i += 1;
    }
    i
}

pub fn find_last_char(s: &[char], c: char) -> (r: Option<usize>)
    ensures
        r == (if last_position(s@, c, s@.len() as int) >= 0 {
            Some(last_position(s@, c, s@.len() as int) as usize)
        } else {
            None::<usize>
        }),
        r matches Some(i) ==> i < s@.len(),
{
    let mut n: usize = s.len();
    while n > 0
        invariant
            n <= s@.len(),
            last_position(s@, c, s@.len() as int) == last_position(s@, c, n as int),
        decreases n,
    {
        if s[n - 1] == c {
            return Some(n - 1);
        }
        n -= 1;
    }
    None
}

/// The end of the run of letters that starts at `i`.
pub open spec fn letter_run(s: Seq<char>, i: int) -> int
    decreases s.len() - i,
{
    if 0 <= i < s.len() && is_letter(s[i]) {
        letter_run(s, i + 1)
    } else {
        i
    }
}

/// The end of the run of digits that starts at `i`.
pub open spec fn digit_run(s: Seq<char>, i: int) -> int
    decreases s.len() - i,
{
    if 0 <= i < s.len() && is_digit(s[i]) {
        digit_run(s, i + 1)
    } else {
        i
    }
}

pub proof fn lemma_letter_run(s: Seq<char>, i: int)
    requires
        0 <= i <= s.len(),
    ensures
        i <= letter_run(s, i) <= s.len(),
        letter_run(s, i) < s.len() ==> !is_letter(s[letter_run(s, i)]),
        forall|j: int| i <= j < letter_run(s, i) ==> is_letter(#[trigger] s[j]),
    decreases s.len() - i,
{
    if i < s.len() && is_letter(s[i]) {
        lemma_letter_run(s, i + 1);
    }
}

pub proof fn lemma_letter_run_is(s: Seq<char>, i: int, end: int)
    requires
        0 <= i <= end <= s.len(),
        end < s.len() ==> !is_letter(s[end]),
        forall|j: int| i <= j < end ==> is_letter(#[trigger] s[j]),
    ensures
        letter_run(s, i) == end,
    decreases end - i,
{
    if i < end {
        lemma_letter_run_is(s, i + 1, end);
    }
}

pub proof fn lemma_digit_run(s: Seq<char>, i: int)
    requires
        0 <= i <= s.len(),
    ensures
        i <= digit_run(s, i) <= s.len(),
        digit_run(s, i) < s.len() ==> !is_digit(s[digit_run(s, i)]),
        forall|j: int| i <= j < digit_run(s, i) ==> is_digit(#[trigger] s[j]),
    decreases s.len() - i,
{
    if i < s.len() && is_digit(s[i]) {
        lemma_digit_run(s, i + 1);
    }
}

pub proof fn lemma_digit_run_is(s: Seq<char>, i: int, end: int)
    requires
        0 <= i <= end <= s.len(),
        end < s.len() ==> !is_digit(s[end]),
        forall|j: int| i <= j < end ==> is_digit(#[trigger] s[j]),
    ensures
        digit_run(s, i) == end,
    decreases end - i,
{
    if i < end {
        lemma_digit_run_is(s, i + 1, end);
    }
}

pub fn scan_letters(s: &[char], from: usize) -> (r: usize)
    requires
        from <= s@.len(),
    ensures
        r == letter_run(s@, from as int),
        from <= r <= s@.len(),
{
    let mut i: usize = from;
    while i < s.len() && letter(s[i])
        invariant
            from <= i <= s@.len(),
            letter_run(s@, from as int) == letter_run(s@, i as int),
        decreases s@.len() - i,
    {
        i += 1;
    }
    i
}

pub fn scan_digits(s: &[char], from: usize) -> (r: usize)
    requires
        from <= s@.len(),
    ensures
        r == digit_run(s@, from as int),
        from <= r <= s@.len(),
{
    let mut i: usize = from;
    while i < s.len() && digit(s[i])
        invariant
            from <= i <= s@.len(),
            digit_run(s@, from as int) == digit_run(s@, i as int),
        decreases s@.len() - i,
    {
        i += 1;
    }
    i
}

// ---------------------------------------------------------------------------
// Quotes
// ---------------------------------------------------------------------------

/// The first quote `q` at or after `i` that is not half of a doubled one; the
/// length if the quoted text never ends.
pub open spec fn closing_quote(s: Seq<char>, q: char, i: int) -> int
    decreases s.len() - i,
{
    if i >= s.len() {
        s.len() as int
    } else if s[i] == q {
        if i + 1 < s.len() && s[i + 1] == q {
            closing_quote(s, q, i + 2)
        } else {
            i
        }
    } else {
        closing_quote(s, q, i + 1)
    }
}

pub proof fn lemma_closing_quote(s: Seq<char>, q: char, i: int)
    requires
        0 <= i <= s.len(),
    ensures
        i <= closing_quote(s, q, i) <= s.len(),
        closing_quote(s, q, i) < s.len() ==> s[closing_quote(s, q, i)] == q,
    decreases s.len() - i,
{
    if i < s.len() {
        if s[i] == q {
            if i + 1 < s.len() && s[i + 1] == q {
                lemma_closing_quote(s, q, i + 2);
            }
        } else {
            lemma_closing_quote(s, q, i + 1);
        }
    }
}

pub fn find_closing_quote(s: &[char], q: char, from: usize) -> (r: usize)
    requires
        from <= s@.len(),
    ensures
        r == closing_quote(s@, q, from as int),
        from <= r <= s@.len(),
        r < s@.len() ==> s@[r as int] == q,
{
    proof {
        lemma_closing_quote(s@, q, from as int);
    }
    let mut i: usize = from;
    while i < s.len()
        invariant
            from <= i <= s@.len(),
            closing_quote(s@, q, from as int) == closing_quote(s@, q, i as int),
            from <= closing_quote(s@, q, from as int) <= s@.len(),
            closing_quote(s@, q, from as int) < s@.len() ==> s@[closing_quote(s@, q, from as int)]
                == q,
        decreases s@.len() - i,
    {
        if s[i] == q {
            if i + 1 < s.len() && s[i + 1] == q {
                i += 2;
            } else {
                return i;
            }
        } else {
            i += 1;
        }
    }
    i
}

/// The text with every single quote written twice.
pub open spec fn doubled(s: Seq<char>) -> Seq<char>
    decreases s.len(),
{
    if s.len() == 0 {
        s
    } else if s[0] == '\'' {
        seq!['\'', '\''] + doubled(s.drop_first())
    } else {
        seq![s[0]] + doubled(s.drop_first())
    }
}

/// The text with each pair of adjacent single quotes, read from the left,
/// written once.
pub open spec fn undoubled(s: Seq<char>) -> Seq<char>
    decreases s.len(),
{
    if s.len() == 0 {
        s
    } else if s.len() >= 2 && s[0] == '\'' && s[1] == '\'' {
        seq!['\''] + undoubled(s.skip(2))
    } else {
        seq![s[0]] + undoubled(s.drop_first())
    }
}

/// Doubling the quotes of a text and undoing it gives the text back.
pub proof fn lemma_undoubled_doubled(s: Seq<char>)
    ensures
        undoubled(doubled(s)) == s,
    decreases s.len(),
{
    if s.len() > 0 {
        lemma_undoubled_doubled(s.drop_first());
        let rest = doubled(s.drop_first());
        if s[0] == '\'' {
            assert(doubled(s).skip(2) =~= rest);
        } else {
            assert(doubled(s).drop_first() =~= rest);
        }
        assert(seq![s[0]] + s.drop_first() =~= s);
    }
}

pub fn double_quotes(s: &[char]) -> (r: Vec<char>)
    ensures
        r@ == doubled(s@),
{
    let mut out: Vec<char> = Vec::new();
    let mut i: usize = 0;
    assert(s@.skip(0) =~= s@);
    while i < s.len()
        invariant
            i <= s@.len(),
            out@ + doubled(s@.skip(i as int)) == doubled(s@),
        decreases s@.len() - i,
    {
        let ghost before = out@;
        let ghost rest = s@.skip(i as int);
        assert(rest.drop_first() =~= s@.skip(i + 1));
        out.push(s[i]);
        if s[i] == '\'' {
            out.push('\'');
            assert(out@ =~= before + seq!['\'', '\'']);
        } else {
            assert(out@ =~= before + seq![s@[i as int]]);
        }
        i += 1;
        assert(out@ + doubled(s@.skip(i as int)) =~= before + doubled(rest));
    }
    assert(out@ + doubled(s@.skip(i as int)) =~= out@);
    out
}

pub fn undouble_quotes(s: &[char]) -> (r: Vec<char>)
    ensures
        r@ == undoubled(s@),
{
    let mut out: Vec<char> = Vec::new();
    let mut i: usize = 0;
    assert(s@.skip(0) =~= s@);
    while i < s.len()
        invariant
            i <= s@.len(),
            out@ + undoubled(s@.skip(i as int)) == undoubled(s@),
        decreases s@.len() - i,
    {
        let ghost before = out@;
        let ghost rest = s@.skip(i as int);
        let c: char = s[i];
        if c == '\'' && i + 1 < s.len() && s[i + 1] == '\'' {
            assert(rest.skip(2) =~= s@.skip(i + 2));
            out.push(c);
            i += 2;
            assert(out@ + undoubled(s@.skip(i as int)) =~= before + undoubled(rest));
        } else {
            assert(rest.drop_first() =~= s@.skip(i + 1));
            out.push(c);
            i += 1;
            assert(out@ + undoubled(s@.skip(i as int)) =~= before + undoubled(rest));
        }
    }
    assert(out@ + undoubled(s@.skip(i as int)) =~= out@);
    out
}

// ---------------------------------------------------------------------------
// Numbers
// ---------------------------------------------------------------------------

/// The digit that stands for a number below ten.
pub open spec fn digit_char(d: nat) -> char {
    (d + 48) as char
}

/// A number in decimal.
pub open spec fn decimal(n: nat) -> Seq<char>
    decreases n,
{
    if n < 10 {
        seq![digit_char(n)]
    } else {
        decimal(n / 10).push(digit_char(n % 10))
    }
}

/// A signed number in decimal, with a minus sign when it is negative.
pub open spec fn signed_decimal(n: int) -> Seq<char> {
    if n < 0 {
        seq!['-'] + decimal((-n) as nat)
    } else {
        decimal(n as nat)
    }
}

/// The number that a run of digits denotes.
pub open spec fn number(s: Seq<char>) -> nat
    decreases s.len(),
{
    if s.len() == 0 {
        0
    } else {
        number(s.drop_last()) * 10 + (s.last() as u32 - 48) as nat
    }
}

/// Reading a number back from its decimal form gives the number, and the form
/// is all digits.
pub proof fn lemma_number_of_decimal(n: nat)
    ensures
        number(decimal(n)) == n,
        decimal(n).len() > 0,
        forall|i: int| 0 <= i < decimal(n).len() ==> is_digit(#[trigger] decimal(n)[i]),
    decreases n,
{
    if n < 10 {
        assert(decimal(n).drop_last() =~= Seq::<char>::empty());
        assert(number(Seq::<char>::empty()) == 0);
        assert(decimal(n).last() as u32 == n + 48);
    } else {
        lemma_number_of_decimal(n / 10);
        assert(decimal(n).drop_last() =~= decimal(n / 10));
        assert(decimal(n).last() as u32 == n % 10 + 48);
    }
}

/// More digits never denote less.
pub proof fn lemma_number_grows(s: Seq<char>, n: int)
    requires
        0 <= n <= s.len(),
        forall|i: int| 0 <= i < s.len() ==> is_digit(#[trigger] s[i]),
    ensures
        number(s.take(n)) <= number(s),
    decreases s.len() - n,
{
    if n < s.len() {
        lemma_number_grows(s, n + 1);
        let t = s.take(n + 1);
        assert(t.drop_last() =~= s.take(n));
        assert(is_digit(t.last()));
    } else {
        assert(s.take(n) =~= s);
    }
}

pub fn push_decimal(out: &mut String, n: u64)
    ensures
        final(out)@ == old(out)@ + decimal(n as nat),
    decreases n,
{
    if n >= 10 {
        push_decimal(out, n / 10);
    }
    let d: u8 = (n % 10) as u8;
    out.push((d + 48) as char);
    assert(out@ =~= old(out)@ + decimal(n as nat));
}

pub fn push_signed_decimal(out: &mut String, n: i64)
    ensures
        final(out)@ == old(out)@ + signed_decimal(n as int),
{
    if n < 0 {
        out.push('-');
        let m: u64 = if n == i64::MIN {
            9223372036854775808
        } else {
            (-n) as u64
        };
        push_decimal(out, m);
        assert(out@ =~= old(out)@ + signed_decimal(n as int));
    } else {
        push_decimal(out, n as u64);
    }
}

/// The number that a run of digits denotes, where a `u64` can hold it.
pub fn read_number(s: &[char]) -> (r: Option<u64>)
    requires
        forall|i: int| 0 <= i < s@.len() ==> is_digit(#[trigger] s@[i]),
    ensures
        r == (if number(s@) <= u64::MAX {
            Some(number(s@) as u64)
        } else {
            None::<u64>
        }),
{
    let mut n: u64 = 0;
    let mut i: usize = 0;
    assert(s@.take(0) =~= Seq::<char>::empty());
    while i < s.len()
        invariant
            i <= s@.len(),
            n == number(s@.take(i as int)),
            forall|i: int| 0 <= i < s@.len() ==> is_digit(#[trigger] s@[i]),
        decreases s@.len() - i,
    {
        let d: u64 = (s[i] as u32 - 48) as u64;
        assert(s@.take(i + 1).drop_last() =~= s@.take(i as int));
        assert(number(s@.take(i + 1)) == n * 10 + d);
        proof {
            lemma_number_grows(s@, i + 1);
        }
        if n > 1844674407370955161 || (n == 1844674407370955161 && d > 5) {
            return None;
        }
        n = n * 10 + d;
        i += 1;
    }
    assert(s@.take(i as int) =~= s@);
    Some(n)
}


// ---------------------------------------------------------------------------
// Places in a string, in bytes
// ---------------------------------------------------------------------------

/// Where the `k`-th character of a text starts, counted in UTF-8 bytes.
pub open spec fn byte_offset(s: Seq<char>, k: int) -> int {
    vstd::utf8::encode_utf8(s.take(k)).len() as int
}

/// How many bytes a character takes in UTF-8.
pub open spec fn utf8_width(c: char) -> int {
    if c as u32 <= 0x7f {
        1
    } else if c as u32 <= 0x7ff {
        2
    } else if c as u32 <= 0xffff {
        3
    } else {
        4
    }
}

pub fn utf8_len(c: char) -> (r: usize)
    ensures
        r == utf8_width(c),
{
    if c as u32 <= 0x7f {
        1
    } else if c as u32 <= 0x7ff {
        2
    } else if c as u32 <= 0xffff {
        3
    } else {
        4
    }
}

/// The encoding of two texts in a row is their encodings in a row.
pub proof fn lemma_encode_concat(a: Seq<char>, b: Seq<char>)
    ensures
        vstd::utf8::encode_utf8(a + b) == vstd::utf8::encode_utf8(a) + vstd::utf8::encode_utf8(b),
    decreases a.len(),
{
    if a.len() == 0 {
        assert(a + b =~= b);
    } else {
        assert((a + b).drop_first() =~= a.drop_first() + b);
        lemma_encode_concat(a.drop_first(), b);
        assert(vstd::utf8::encode_utf8(a + b) =~= vstd::utf8::encode_utf8(a)
            + vstd::utf8::encode_utf8(b));
    }
}

/// The encoding of one character is as long as its width.
proof fn lemma_encode_one(c: char)
    ensures
        vstd::utf8::encode_utf8(seq![c]).len() == utf8_width(c),
{
    let one = seq![c];
    vstd::utf8::char_is_scalar(c);
    assert(one.drop_first() =~= Seq::<char>::empty());
    assert(vstd::utf8::encode_utf8(one.drop_first()) =~= Seq::<u8>::empty());
    assert(vstd::utf8::encode_utf8(one) == vstd::utf8::encode_scalar(one[0] as u32)
        + vstd::utf8::encode_utf8(one.drop_first()));
}

/// Offsets grow by the width of each character, and end at the byte length.
pub proof fn lemma_byte_offset_step(s: Seq<char>, k: int)
    requires
        0 <= k < s.len(),
    ensures
        byte_offset(s, k + 1) == byte_offset(s, k) + utf8_width(s[k]),
{
    assert(s.take(k + 1) =~= s.take(k) + seq![s[k]]);
    lemma_encode_concat(s.take(k), seq![s[k]]);
    lemma_encode_one(s[k]);
}

pub proof fn lemma_byte_offset_order(s: Seq<char>, j: int, k: int)
    requires
        0 <= j <= k <= s.len(),
    ensures
        0 <= byte_offset(s, j) <= byte_offset(s, k) <= vstd::utf8::encode_utf8(s).len(),
        j < k ==> byte_offset(s, j) < byte_offset(s, k),
        byte_offset(s, 0) == 0,
        byte_offset(s, s.len() as int) == vstd::utf8::encode_utf8(s).len(),
    decreases s.len() - j,
{
    assert(s.take(s.len() as int) =~= s);
    assert(s.take(0) =~= Seq::<char>::empty());
    if j < k {
        lemma_byte_offset_step(s, j);
        lemma_byte_offset_order(s, j + 1, k);
    } else if k < s.len() {
        lemma_byte_offset_step(s, k);
        lemma_byte_offset_order(s, k + 1, k + 1);
    }
}

/// Every character starts on a character boundary of the encoding.
pub proof fn lemma_byte_offset_boundary(s: Seq<char>, k: int)
    requires
        0 <= k <= s.len(),
    ensures
        vstd::utf8::is_char_boundary(vstd::utf8::encode_utf8(s), byte_offset(s, k)),
    decreases s.len(),
{
    let bytes = vstd::utf8::encode_utf8(s);
    vstd::utf8::encode_utf8_valid_utf8(s);
    assert(s.take(0) =~= Seq::<char>::empty());
    if k > 0 {
        let rest = s.drop_first();
        lemma_byte_offset_boundary(rest, k - 1);
        vstd::utf8::encode_utf8_first_scalar(s);
        assert(vstd::utf8::pop_first_scalar(bytes) =~= vstd::utf8::encode_utf8(rest));
        assert(s.take(k) =~= seq![s[0]] + rest.take(k - 1));
        lemma_encode_concat(seq![s[0]], rest.take(k - 1));
        lemma_encode_one(s[0]);
        assert(vstd::utf8::encode_scalar(s[0] as u32).len() == utf8_width(s[0])) by {
            vstd::utf8::char_is_scalar(s[0]);
        }
        lemma_byte_offset_order(s, k, k);
        lemma_byte_offset_order(s, 0, k);
    }
}

/// The bytes between two characters are the encoding of what lies between.
pub proof fn lemma_bytes_between(s: Seq<char>, a: int, b: int)
    requires
        0 <= a <= b <= s.len(),
    ensures
        vstd::utf8::encode_utf8(s).subrange(byte_offset(s, a), byte_offset(s, b))
            == vstd::utf8::encode_utf8(s.subrange(a, b)),
{
    let bytes = vstd::utf8::encode_utf8(s);
    assert(s =~= s.take(a) + s.subrange(a, b) + s.skip(b));
    lemma_encode_concat(s.take(a) + s.subrange(a, b), s.skip(b));
    lemma_encode_concat(s.take(a), s.subrange(a, b));
    assert(s.take(b) =~= s.take(a) + s.subrange(a, b));
    lemma_byte_offset_order(s, a, b);
    assert(bytes.subrange(byte_offset(s, a), byte_offset(s, b)) =~= vstd::utf8::encode_utf8(
        s.subrange(a, b),
    ));
}

/// A later boundary is still one once the text before an earlier one is gone.
proof fn lemma_boundary_in_tail(bytes: Seq<u8>, a: int, b: int)
    requires
        vstd::utf8::valid_utf8(bytes),
        0 <= a <= b,
        vstd::utf8::is_char_boundary(bytes, a),
        vstd::utf8::is_char_boundary(bytes, b),
    ensures
        b <= bytes.len(),
        vstd::utf8::is_char_boundary(bytes.subrange(a, bytes.len() as int), b - a),
    decreases a,
{
    if a == 0 {
        assert(bytes.subrange(0, bytes.len() as int) =~= bytes);
    } else {
        let n = vstd::utf8::length_of_first_scalar(bytes);
        let rest = vstd::utf8::pop_first_scalar(bytes);
        reveal_with_fuel(vstd::utf8::is_char_boundary, 2);
        lemma_boundary_in_tail(rest, a - n, b - n);
        assert(rest.subrange(a - n, rest.len() as int) =~= bytes.subrange(a, bytes.len() as int));
    }
}

/// The part of a string between two byte positions.
pub fn slice_bytes<'a>(s: &'a str, start: usize, end: usize) -> (r: &'a str)
    requires
        start <= end,
        vstd::utf8::is_char_boundary(vstd::utf8::encode_utf8(s@), start as int),
        vstd::utf8::is_char_boundary(vstd::utf8::encode_utf8(s@), end as int),
    ensures
        vstd::utf8::encode_utf8(r@) == vstd::utf8::encode_utf8(s@).subrange(start as int, end as int),
{
    proof {
        vstd::utf8::encode_utf8_valid_utf8(s@);
        lemma_boundary_in_tail(vstd::utf8::encode_utf8(s@), start as int, end as int);
    }
    let (_, tail): (&str, &str) = s.split_at(start);
    let (middle, _): (&str, &str) = tail.split_at(end - start);
    assert(vstd::utf8::encode_utf8(middle@) =~= vstd::utf8::encode_utf8(s@).subrange(
        start as int,
        end as int,
    ));
    middle
}

/// Where each character of a string starts, in bytes, and where the last ends.
pub fn byte_offsets(s: &str, chars: &[char]) -> (r: Vec<usize>)
    requires
        chars@ == s@,
    ensures
        r@.len() == s@.len() + 1,
        forall|k: int| 0 <= k <= s@.len() ==> #[trigger] r@[k] == byte_offset(s@, k),
{
    let total: usize = s.as_bytes().len();
    let mut out: Vec<usize> = Vec::new();
    let mut at: usize = 0;
    let mut i: usize = 0;
    proof {
        lemma_byte_offset_order(s@, 0, 0);
    }
    out.push(0);
    while i < chars.len()
        invariant
            chars@ == s@,
            i <= s@.len(),
            total == vstd::utf8::encode_utf8(s@).len(),
            at == byte_offset(s@, i as int),
            out@.len() == i + 1,
            forall|k: int| 0 <= k <= i ==> #[trigger] out@[k] == byte_offset(s@, k),
        decreases s@.len() - i,
    {
        let c: u32 = chars[i] as u32;
        proof {
            lemma_byte_offset_step(s@, i as int);
            lemma_byte_offset_order(s@, i + 1, i + 1);
        }
        let w: usize = if c <= 0x7f {
            1
        } else if c <= 0x7ff {
            2
        } else if c <= 0xffff {
            3
        } else {
            4
        };
        at += w;
        out.push(at);
        i += 1;
    }
    out
}


// ---------------------------------------------------------------------------
// Debug text
// ---------------------------------------------------------------------------

/// How Rust's `Debug` writes a string: in double quotes, with escapes.
pub uninterp spec fn debug_text(s: Seq<char>) -> Seq<char>;

/// `format!("{:?}")` of a string. Which characters it escapes, and how, is
/// std's business; the result is a function of the text alone and is only named
/// here.
#[verifier::external_body]
pub(crate) fn debug_str(s: &str) -> (r: String)
    ensures
        r@ == debug_text(s@),
{
    format!("{s:?}")
}

} // verus!
