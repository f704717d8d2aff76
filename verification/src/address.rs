//! Cell and range addressing.
//!
//! Everything is anchored to a cell address. Two notations matter:
//!
//! - **A1** (`Sheet1!$B$7`) is what users, formulas and citations speak.
//! - **R1C1** (`R[-1]C2`) is what formula *shapes* are normalised to, so that a
//!   column of structurally identical formulas collapses into one.
//!
//! Rows and columns are 0-based inside and 1-based in text; the conversion
//! happens where text is parsed or printed and nowhere else.

use crate::text;
use crate::text::{
    alphanumeric, chars_of, debug_str, digit, double_quotes, find_char, find_closing_quote, find_last_char,
    letter, push_chars, push_decimal, push_signed_decimal, read_number, same_text, scan_digits,
    scan_letters, string_of, trim, undouble_quotes,
};
use vstd::prelude::*;

verus! {

/// Maximum row index (0-based) of a worksheet: 1,048,576 rows.
pub const MAX_ROW: u32 = 1_048_575;

/// Maximum column index (0-based) of a worksheet: 16,384 columns (XFD).
pub const MAX_COL: u32 = 16_383;

/// Index of a sheet within its workbook, in workbook (tab) order.
#[derive(Debug, Clone, Copy, PartialEq, Eq, PartialOrd, Ord, Hash, Structural)]
pub struct SheetId(pub u16);

impl Default for SheetId {
    fn default() -> (r: SheetId)
        ensures
            r == SheetId(0),
    {
        SheetId(0)
    }
}

impl SheetId {
    /// The form used where a sheet has no name: `#3`.
    pub open spec fn shown(self) -> Seq<char> {
        seq!['#'] + text::decimal(self.0 as nat)
    }

    pub fn to_text(&self) -> (r: String)
        ensures
            r@ == self.shown(),
    {
        let mut out: String = String::new();
        out.push('#');
        push_decimal(&mut out, self.0 as u64);
        assert(out@ =~= self.shown());
        out
    }
}

/// Why an address could not be read.
#[derive(Debug, PartialEq, Eq)]
pub enum AddressError {
    Empty,
    Malformed(String),
    ColumnOutOfRange(String),
    RowOutOfRange(u64),
    UnterminatedSheetName(String),
}

/// What an [`AddressError`] says, with its text as a sequence of characters.
pub enum Fault {
    Empty,
    Malformed(Seq<char>),
    ColumnOutOfRange(Seq<char>),
    RowOutOfRange(u64),
    UnterminatedSheetName(Seq<char>),
}

impl View for AddressError {
    type V = Fault;

    open spec fn view(&self) -> Fault {
        match self {
            AddressError::Empty => Fault::Empty,
            AddressError::Malformed(s) => Fault::Malformed(s@),
            AddressError::ColumnOutOfRange(s) => Fault::ColumnOutOfRange(s@),
            AddressError::RowOutOfRange(n) => Fault::RowOutOfRange(*n),
            AddressError::UnterminatedSheetName(s) => Fault::UnterminatedSheetName(s@),
        }
    }
}

impl Clone for AddressError {
    fn clone(&self) -> (r: Self)
        ensures
            r@ == self@,
    {
        match self {
            AddressError::Empty => AddressError::Empty,
            AddressError::Malformed(s) => AddressError::Malformed(s.clone()),
            AddressError::ColumnOutOfRange(s) => AddressError::ColumnOutOfRange(s.clone()),
            AddressError::RowOutOfRange(n) => AddressError::RowOutOfRange(*n),
            AddressError::UnterminatedSheetName(s) => AddressError::UnterminatedSheetName(
                s.clone(),
            ),
        }
    }
}

impl Fault {
    /// The error as a sentence.
    pub open spec fn sentence(self) -> Seq<char> {
        match self {
            Fault::Empty => "empty address"@,
            Fault::Malformed(s) => "malformed address: "@ + s,
            Fault::ColumnOutOfRange(s) => "column "@ + text::debug_text(s)
                + " is out of range (max XFD)"@,
            Fault::RowOutOfRange(n) => "row "@ + text::decimal(n as nat)
                + " is out of range (max 1048576)"@,
            Fault::UnterminatedSheetName(s) => "unterminated quoted sheet name in "@
                + text::debug_text(s),
        }
    }
}

impl AddressError {
    pub fn message(&self) -> (r: String)
        ensures
            r@ == self@.sentence(),
    {
        let mut out: String = String::new();
        match self {
            AddressError::Empty => {
                out.push_str("empty address");
            },
            AddressError::Malformed(s) => {
                out.push_str("malformed address: ");
                out.push_str(s.as_str());
            },
            AddressError::ColumnOutOfRange(s) => {
                out.push_str("column ");
                out.push_str(debug_str(s.as_str()).as_str());
                out.push_str(" is out of range (max XFD)");
            },
            AddressError::RowOutOfRange(n) => {
                out.push_str("row ");
                push_decimal(&mut out, *n);
                out.push_str(" is out of range (max 1048576)");
            },
            AddressError::UnterminatedSheetName(s) => {
                out.push_str("unterminated quoted sheet name in ");
                out.push_str(debug_str(s.as_str()).as_str());
            },
        }
        assert(out@ =~= self@.sentence());
        out
    }
}

/// An outcome of a parser is the one the grammar gives.
pub open spec fn agrees<T>(got: Result<T, AddressError>, want: Result<T, Fault>) -> bool {
    match (got, want) {
        (Ok(a), Ok(b)) => a == b,
        (Err(e), Err(f)) => e@ == f,
        _ => false,
    }
}

// ---------------------------------------------------------------------------
// Columns
// ---------------------------------------------------------------------------

/// A letter's place in the alphabet, from one, whatever its case.
pub open spec fn letter_value(c: char) -> nat {
    if 'A' <= c <= 'Z' {
        (c as u32 - 64) as nat
    } else {
        (c as u32 - 96) as nat
    }
}

/// The number that letters denote in bijective base 26: `A` is 1, `AA` is 27.
pub open spec fn base26(letters: Seq<char>) -> nat
    decreases letters.len(),
{
    if letters.len() == 0 {
        0
    } else {
        base26(letters.drop_last()) * 26 + letter_value(letters.last())
    }
}

/// The letters that denote a number in bijective base 26.
pub open spec fn base26_letters(n: nat) -> Seq<char>
    decreases n,
{
    if n == 0 {
        Seq::empty()
    } else {
        base26_letters(((n - 1) / 26) as nat).push(((n - 1) % 26 + 65) as char)
    }
}

pub open spec fn all_letters(s: Seq<char>) -> bool {
    forall|i: int| 0 <= i < s.len() ==> text::is_letter(#[trigger] s[i])
}

/// The column that letters name: one to three letters of either case, none past
/// `XFD`.
pub open spec fn column(letters: Seq<char>) -> Result<u16, Fault> {
    if 1 <= letters.len() <= 3 && all_letters(letters) && base26(letters) <= MAX_COL + 1 {
        Ok((base26(letters) - 1) as u16)
    } else {
        Err(Fault::ColumnOutOfRange(letters))
    }
}

/// Convert column letters to a 0-based index. `A` -> 0, `Z` -> 25, `AA` -> 26.
pub fn letters_to_col(letters: &str) -> (r: Result<u16, AddressError>)
    ensures
        agrees(r, column(letters@)),
{
    let chars: Vec<char> = chars_of(letters);
    read_column(chars.as_slice())
}

fn read_column(letters: &[char]) -> (r: Result<u16, AddressError>)
    ensures
        agrees(r, column(letters@)),
{
    if letters.len() == 0 || letters.len() > 3 {
        return Err(AddressError::ColumnOutOfRange(string_of(letters)));
    }
    let mut n: u32 = 0;
    let mut i: usize = 0;
    assert(letters@.take(0) =~= Seq::<char>::empty());
    while i < letters.len()
        invariant
            i <= letters@.len() <= 3,
            n == base26(letters@.take(i as int)),
            i == 0 ==> n == 0,
            i == 1 ==> 1 <= n <= 26,
            i == 2 ==> 27 <= n <= 702,
            i == 3 ==> 703 <= n <= 18278,
            forall|j: int| 0 <= j < i ==> text::is_letter(#[trigger] letters@[j]),
        decreases letters@.len() - i,
    {
        let c: char = letters[i];
        if !letter(c) {
            assert(!text::is_letter(letters@[i as int]));
            return Err(AddressError::ColumnOutOfRange(string_of(letters)));
        }
        let d: u32 = if 'A' <= c && c <= 'Z' {
            c as u32 - 64
        } else {
            c as u32 - 96
        };
        assert(letters@.take(i + 1).drop_last() =~= letters@.take(i as int));
        n = n * 26 + d;
        i += 1;
    }
    assert(letters@.take(i as int) =~= letters@);
    if n - 1 > MAX_COL {
        return Err(AddressError::ColumnOutOfRange(string_of(letters)));
    }
    Ok((n - 1) as u16)
}

/// Convert a 0-based column index to letters. 0 -> `A`, 26 -> `AA`.
///
/// A column of a worksheet needs at most three letters, but any index has its
/// letters.
pub fn col_to_letters(col: u32) -> (r: String)
    ensures
        r@ == base26_letters((col + 1) as nat),
{
    let mut out: String = String::new();
    push_letters(&mut out, col as u64 + 1);
    out
}

fn push_letters(out: &mut String, n: u64)
    ensures
        final(out)@ == old(out)@ + base26_letters(n as nat),
    decreases n,
{
    if n > 0 {
        push_letters(out, (n - 1) / 26);
        let d: u8 = ((n - 1) % 26) as u8;
        out.push((d + 65) as char);
    }
    assert(out@ =~= old(out)@ + base26_letters(n as nat));
}

/// The letters of a number denote that number.
pub proof fn lemma_base26_of_letters(n: nat)
    ensures
        base26(base26_letters(n)) == n,
        forall|i: int| 0 <= i < base26_letters(n).len() ==> 'A' <= #[trigger] base26_letters(n)[i] <= 'Z',
        n > 0 ==> base26_letters(n).len() > 0,
    decreases n,
{
    if n > 0 {
        let m = ((n - 1) / 26) as nat;
        lemma_base26_of_letters(m);
        assert(base26_letters(n).drop_last() =~= base26_letters(m));
        let last = base26_letters(n).last();
        assert(last as u32 == (n - 1) % 26 + 65);
    }
}

/// A column of a worksheet is written in at most three letters.
pub proof fn lemma_three_letters(n: nat)
    requires
        n <= 18278,
    ensures
        base26_letters(n).len() <= 3,
{
    reveal_with_fuel(base26_letters, 4);
    assert(n > 0 ==> (n - 1) / 26 <= 702);
}

/// Column letters round-trip: the letters of every column of a worksheet are
/// read back as that column.
pub proof fn column_letters_round_trip(col: u16)
    requires
        col <= MAX_COL,
    ensures
        column(base26_letters((col + 1) as nat)) == Ok::<u16, Fault>(col),
{
    lemma_base26_of_letters((col + 1) as nat);
    lemma_three_letters((col + 1) as nat);
}


// ---------------------------------------------------------------------------
// The local part of an address
// ---------------------------------------------------------------------------

/// A 1-based row number that lies on a worksheet.
pub open spec fn is_row_number(n: nat) -> bool {
    1 <= n <= MAX_ROW + 1
}

/// The `[$]COL[$]ROW` core of an address, white space around it ignored:
/// column, row, and whether each is absolute.
pub open spec fn local_parts(s: Seq<char>) -> Result<(u16, u32, bool, bool), Fault> {
    let t = text::trimmed(s);
    if t.len() == 0 {
        Err(Fault::Empty)
    } else {
        let abs_col = t[0] == '$';
        let a: int = if abs_col {
            1
        } else {
            0
        };
        let b = text::letter_run(t, a);
        let abs_row = b < t.len() && t[b] == '$';
        let d: int = if abs_row {
            b + 1
        } else {
            b
        };
        if b == a || d >= t.len() || text::digit_run(t, d) != t.len() {
            Err(Fault::Malformed(t))
        } else {
            match column(t.subrange(a, b)) {
                Err(f) => Err(f),
                Ok(col) => {
                    let n = text::number(t.skip(d));
                    if n > u64::MAX {
                        Err(Fault::Malformed(t))
                    } else if !is_row_number(n) {
                        Err(Fault::RowOutOfRange(n as u64))
                    } else {
                        Ok((col, (n - 1) as u32, abs_col, abs_row))
                    }
                },
            }
        }
    }
}

fn parse_local_parts(s: &[char]) -> (r: Result<(u16, u32, bool, bool), AddressError>)
    ensures
        agrees(r, local_parts(s@)),
{
    let t: &[char] = trim(s);
    if t.len() == 0 {
        return Err(AddressError::Empty);
    }
    let abs_col: bool = t[0] == '$';
    let a: usize = if abs_col {
        1
    } else {
        0
    };
    let b: usize = scan_letters(t, a);
    if b == a {
        return Err(AddressError::Malformed(string_of(t)));
    }
    let abs_row: bool = b < t.len() && t[b] == '$';
    let d: usize = if abs_row {
        b + 1
    } else {
        b
    };
    if d >= t.len() || scan_digits(t, d) != t.len() {
        return Err(AddressError::Malformed(string_of(t)));
    }
    let col: u16 = match read_column(&t[a..b]) {
        Ok(col) => col,
        Err(e) => {
            return Err(e);
        },
    };
    let digits: &[char] = &t[d..t.len()];
    proof {
        text::lemma_digit_run(t@, d as int);
        assert(digits@ =~= t@.skip(d as int));
    }
    match read_number(digits) {
        None => Err(AddressError::Malformed(string_of(t))),
        Some(n) => {
            if n == 0 || n > MAX_ROW as u64 + 1 {
                Err(AddressError::RowOutOfRange(n))
            } else {
                Ok((col, (n - 1) as u32, abs_col, abs_row))
            }
        },
    }
}

/// A bare column, `[$]COL` and nothing else: the column and whether it is
/// absolute.
pub open spec fn column_only(s: Seq<char>) -> Option<(u16, bool)> {
    let abs = s.len() > 0 && s[0] == '$';
    let a: int = if abs {
        1
    } else {
        0
    };
    if text::letter_run(s, a) == a || text::letter_run(s, a) != s.len() {
        None
    } else {
        match column(s.skip(a)) {
            Ok(col) => Some((col, abs)),
            Err(_) => None,
        }
    }
}

fn parse_column_only(s: &[char]) -> (r: Option<(u16, bool)>)
    ensures
        r == column_only(s@),
{
    let abs: bool = s.len() > 0 && s[0] == '$';
    let a: usize = if abs {
        1
    } else {
        0
    };
    let i: usize = scan_letters(s, a);
    if i == a || i != s.len() {
        return None;
    }
    let letters: &[char] = &s[a..i];
    assert(letters@ =~= s@.skip(a as int));
    match read_column(letters) {
        Ok(col) => Some((col, abs)),
        Err(_) => None,
    }
}

/// A bare row, `[$]ROW` and nothing else: the row and whether it is absolute.
pub open spec fn row_only(s: Seq<char>) -> Option<(u32, bool)> {
    let abs = s.len() > 0 && s[0] == '$';
    let a: int = if abs {
        1
    } else {
        0
    };
    let n = text::number(s.skip(a));
    if text::digit_run(s, a) == a || text::digit_run(s, a) != s.len() || !is_row_number(n) {
        None
    } else {
        Some(((n - 1) as u32, abs))
    }
}

fn parse_row_only(s: &[char]) -> (r: Option<(u32, bool)>)
    ensures
        r == row_only(s@),
{
    let abs: bool = s.len() > 0 && s[0] == '$';
    let a: usize = if abs {
        1
    } else {
        0
    };
    let i: usize = scan_digits(s, a);
    if i == a || i != s.len() {
        return None;
    }
    let digits: &[char] = &s[a..i];
    proof {
        text::lemma_digit_run(s@, a as int);
        assert(digits@ =~= s@.skip(a as int));
    }
    match read_number(digits) {
        None => None,
        Some(n) => {
            if n == 0 || n > MAX_ROW as u64 + 1 {
                None
            } else {
                Some(((n - 1) as u32, abs))
            }
        },
    }
}

/// The two corners of a reference as they were written, each with its own
/// `$` flags: left, top, absolute left, absolute top, right, bottom, absolute
/// right, absolute bottom.
pub type Corners = (u16, u32, bool, bool, u16, u32, bool, bool);

/// `A:C`, every row of these columns. The rows count as absolute: they do not
/// depend on where a formula sits.
pub open spec fn whole_columns(a: Seq<char>, b: Seq<char>) -> Option<Corners> {
    match (column_only(a), column_only(b)) {
        (Some((c1, ac1)), Some((c2, ac2))) => Some((c1, 0, ac1, true, c2, MAX_ROW, ac2, true)),
        _ => None,
    }
}

fn parse_whole_columns(a: &[char], b: &[char]) -> (r: Option<Corners>)
    ensures
        r == whole_columns(a@, b@),
{
    match (parse_column_only(a), parse_column_only(b)) {
        (Some((c1, ac1)), Some((c2, ac2))) => Some((c1, 0, ac1, true, c2, MAX_ROW, ac2, true)),
        _ => None,
    }
}

/// `3:5`, every column of these rows.
pub open spec fn whole_rows(a: Seq<char>, b: Seq<char>) -> Option<Corners> {
    match (row_only(a), row_only(b)) {
        (Some((r1, ar1)), Some((r2, ar2))) => Some(
            (0, r1, true, ar1, MAX_COL as u16, r2, true, ar2),
        ),
        _ => None,
    }
}

fn parse_whole_rows(a: &[char], b: &[char]) -> (r: Option<Corners>)
    ensures
        r == whole_rows(a@, b@),
{
    match (parse_row_only(a), parse_row_only(b)) {
        (Some((r1, ar1)), Some((r2, ar2))) => Some(
            (0, r1, true, ar1, MAX_COL as u16, r2, true, ar2),
        ),
        _ => None,
    }
}

/// The corners of a local reference: a cell, a range of two cells, or the whole
/// column and whole row shorthands.
pub open spec fn local_corners(s: Seq<char>) -> Result<Corners, Fault> {
    let colon = text::position(s, ':', 0);
    if colon < s.len() {
        let a = s.take(colon);
        let b = s.skip(colon + 1);
        if whole_columns(a, b) is Some {
            Ok(whole_columns(a, b)->0)
        } else if whole_rows(a, b) is Some {
            Ok(whole_rows(a, b)->0)
        } else {
            match (local_parts(a), local_parts(b)) {
                (Ok((c1, r1, ac1, ar1)), Ok((c2, r2, ac2, ar2))) => Ok(
                    (c1, r1, ac1, ar1, c2, r2, ac2, ar2),
                ),
                (Err(f), _) => Err(f),
                (_, Err(f)) => Err(f),
            }
        }
    } else {
        match local_parts(s) {
            Ok((c, r, ac, ar)) => Ok((c, r, ac, ar, c, r, ac, ar)),
            Err(f) => Err(f),
        }
    }
}

fn parse_local_corners(s: &[char]) -> (r: Result<Corners, AddressError>)
    ensures
        agrees(r, local_corners(s@)),
{
    let colon: usize = find_char(s, ':', 0);
    if colon < s.len() {
        let a: &[char] = &s[0..colon];
        let b: &[char] = &s[colon + 1..s.len()];
        assert(a@ =~= s@.take(colon as int));
        assert(b@ =~= s@.skip(colon + 1));
        if let Some(corners) = parse_whole_columns(a, b) {
            return Ok(corners);
        }
        if let Some(corners) = parse_whole_rows(a, b) {
            return Ok(corners);
        }
        let (c1, r1, ac1, ar1) = match parse_local_parts(a) {
            Ok(parts) => parts,
            Err(e) => {
                return Err(e);
            },
        };
        match parse_local_parts(b) {
            Ok((c2, r2, ac2, ar2)) => Ok((c1, r1, ac1, ar1, c2, r2, ac2, ar2)),
            Err(e) => Err(e),
        }
    } else {
        match parse_local_parts(s) {
            Ok((c, r, ac, ar)) => Ok((c, r, ac, ar, c, r, ac, ar)),
            Err(e) => Err(e),
        }
    }
}

// ---------------------------------------------------------------------------
// Sheet qualifiers
// ---------------------------------------------------------------------------

/// A reference split at the `!` that ends its sheet qualifier, where it has one.
/// A quoted name may itself hold a `!`, so quotes are honoured.
pub open spec fn split_qualifier(s: Seq<char>) -> Result<(Option<Seq<char>>, Seq<char>), Fault> {
    if s.len() == 0 || s[0] != '\'' {
        let bang = text::last_position(s, '!', s.len() as int);
        if bang >= 0 {
            Ok((Some(s.take(bang)), s.skip(bang + 1)))
        } else {
            Ok((None, s))
        }
    } else {
        let close = text::closing_quote(s, '\'', 1);
        if close >= s.len() {
            Err(Fault::UnterminatedSheetName(s))
        } else if close + 1 >= s.len() || s[close + 1] != '!' {
            Err(Fault::Malformed(s))
        } else {
            Ok((Some(s.take(close + 1)), s.skip(close + 2)))
        }
    }
}

fn split_sheet_prefix<'a>(s: &'a [char]) -> (r: Result<(Option<&'a [char]>, &'a [char]), AddressError>)
    ensures
        match (r, split_qualifier(s@)) {
            (Ok((Some(p), l)), Ok((Some(q), m))) => p@ == q && l@ == m,
            (Ok((None, l)), Ok((None, m))) => l@ == m,
            (Err(e), Err(f)) => e@ == f,
            _ => false,
        },
{
    if s.len() == 0 || s[0] != '\'' {
        proof {
            text::lemma_last_position(s@, '!', s@.len() as int);
        }
        match find_last_char(s, '!') {
            Some(bang) => {
                let prefix: &[char] = &s[0..bang];
                let local: &[char] = &s[bang + 1..s.len()];
                assert(prefix@ =~= s@.take(bang as int));
                assert(local@ =~= s@.skip(bang + 1));
                Ok((Some(prefix), local))
            },
            None => Ok((None, s)),
        }
    } else {
        let close: usize = find_closing_quote(s, '\'', 1);
        if close >= s.len() {
            Err(AddressError::UnterminatedSheetName(string_of(s)))
        } else if close + 1 >= s.len() || s[close + 1] != '!' {
            Err(AddressError::Malformed(string_of(s)))
        } else {
            let prefix: &[char] = &s[0..close + 1];
            let local: &[char] = &s[close + 2..s.len()];
            assert(prefix@ =~= s@.take(close + 1));
            assert(local@ =~= s@.skip(close + 2));
            Ok((Some(prefix), local))
        }
    }
}

/// What a sheet qualifier names: a workbook, a sheet, and the last sheet of a
/// 3-D span. Each is absent where nothing named it.
pub struct Qualifier {
    pub workbook: Option<Seq<char>>,
    pub sheet: Option<Seq<char>>,
    pub end_sheet: Option<Seq<char>>,
}

/// The text of a qualifier once its surrounding quotes are off.
pub open spec fn unquoted(prefix: Seq<char>) -> Seq<char> {
    let p = text::trimmed(prefix);
    if p.len() >= 2 && p[0] == '\'' && p.last() == '\'' {
        text::undoubled(p.subrange(1, p.len() - 1))
    } else {
        p
    }
}

/// The workbook and sheets that the text before a `!` names. Whatever stands
/// before a `[book]` is a directory; a sheet that is left blank is malformed.
pub open spec fn qualifier(prefix: Seq<char>) -> Result<Qualifier, Fault> {
    let p = unquoted(prefix);
    let open = text::position(p, '[', 0);
    let close = text::position(p, ']', open);
    if open < p.len() && close >= p.len() {
        Err(Fault::Malformed(prefix))
    } else {
        let workbook = if open < p.len() {
            Some(p.subrange(open + 1, close))
        } else {
            None
        };
        let sheets = if open < p.len() {
            p.skip(close + 1)
        } else {
            p
        };
        let colon = text::position(sheets, ':', 0);
        if sheets.len() == 0 {
            Err(Fault::Malformed(prefix))
        } else if colon < sheets.len() {
            Ok(
                Qualifier {
                    workbook,
                    sheet: Some(sheets.take(colon)),
                    end_sheet: Some(sheets.skip(colon + 1)),
                },
            )
        } else {
            Ok(Qualifier { workbook, sheet: Some(sheets), end_sheet: None })
        }
    }
}

/// The characters of an optional string.
pub open spec fn opt_view(s: Option<String>) -> Option<Seq<char>> {
    match s {
        Some(t) => Some(t@),
        None => None,
    }
}

/// A decomposed sheet prefix: workbook, sheet, and (for 3-D references) end
/// sheet.
pub type SheetPrefix = (Option<String>, Option<String>, Option<String>);

fn parse_sheet_prefix(prefix: &[char]) -> (r: Result<SheetPrefix, AddressError>)
    ensures
        match (r, qualifier(prefix@)) {
            (Ok((workbook, sheet, end_sheet)), Ok(q)) => opt_view(workbook) == q.workbook
                && opt_view(sheet) == q.sheet && opt_view(end_sheet) == q.end_sheet,
            (Err(e), Err(f)) => e@ == f,
            _ => false,
        },
{
    let t: &[char] = trim(prefix);
    let undone: Vec<char> = if t.len() >= 2 && t[0] == '\'' && t[t.len() - 1] == '\'' {
        let inner: &[char] = &t[1..t.len() - 1];
        assert(inner@ =~= t@.subrange(1, t@.len() - 1));
        undouble_quotes(inner)
    } else {
        let mut same: Vec<char> = Vec::new();
        same.extend_from_slice(t);
        assert(same@ =~= t@);
        same
    };
    let p: &[char] = undone.as_slice();
    assert(p@ == unquoted(prefix@));
    let open: usize = find_char(p, '[', 0);
    let close: usize = find_char(p, ']', open);
    if open < p.len() && close >= p.len() {
        return Err(AddressError::Malformed(string_of(prefix)));
    }
    let workbook: Option<String> = if open < p.len() {
        assert(open != close);
        Some(string_of(&p[open + 1..close]))
    } else {
        None
    };
    let sheets: &[char] = if open < p.len() {
        &p[close + 1..p.len()]
    } else {
        p
    };
    assert(open < p@.len() ==> sheets@ =~= p@.skip(close + 1));
    if sheets.len() == 0 {
        return Err(AddressError::Malformed(string_of(prefix)));
    }
    let colon: usize = find_char(sheets, ':', 0);
    if colon < sheets.len() {
        let a: &[char] = &sheets[0..colon];
        let b: &[char] = &sheets[colon + 1..sheets.len()];
        assert(a@ =~= sheets@.take(colon as int));
        assert(b@ =~= sheets@.skip(colon + 1));
        Ok((workbook, Some(string_of(a)), Some(string_of(b))))
    } else {
        Ok((workbook, Some(string_of(sheets)), None))
    }
}


// ---------------------------------------------------------------------------
// References
// ---------------------------------------------------------------------------

/// A reference as it appeared in a formula, before sheet resolution.
///
/// Formula text names sheets by string, and the sheet may not exist or may live
/// in another workbook. Resolution to a [`RangeRef`] therefore happens
/// separately, against the workbook's sheet table.
#[derive(Debug, PartialEq, Eq)]
pub struct ParsedRef {
    /// `None` means "the sheet the formula lives on".
    pub sheet_name: Option<String>,
    /// Present for 3-D references spanning sheets, e.g. `Jan:Dec!A1`.
    pub end_sheet_name: Option<String>,
    /// Present for external-workbook references, e.g. `[1]Sheet1!A1`.
    pub workbook: Option<String>,
    pub top: u32,
    pub left: u16,
    pub bottom: u32,
    pub right: u16,
    pub abs_top: bool,
    pub abs_left: bool,
    pub abs_bottom: bool,
    pub abs_right: bool,
}

/// What a [`ParsedRef`] says, with its names as sequences of characters.
pub struct Reference {
    pub sheet_name: Option<Seq<char>>,
    pub end_sheet_name: Option<Seq<char>>,
    pub workbook: Option<Seq<char>>,
    pub top: u32,
    pub left: u16,
    pub bottom: u32,
    pub right: u16,
    pub abs_top: bool,
    pub abs_left: bool,
    pub abs_bottom: bool,
    pub abs_right: bool,
}

impl View for ParsedRef {
    type V = Reference;

    open spec fn view(&self) -> Reference {
        Reference {
            sheet_name: opt_view(self.sheet_name),
            end_sheet_name: opt_view(self.end_sheet_name),
            workbook: opt_view(self.workbook),
            top: self.top,
            left: self.left,
            bottom: self.bottom,
            right: self.right,
            abs_top: self.abs_top,
            abs_left: self.abs_left,
            abs_bottom: self.abs_bottom,
            abs_right: self.abs_right,
        }
    }
}

impl Clone for ParsedRef {
    fn clone(&self) -> (r: Self)
        ensures
            r@ == self@,
    {
        ParsedRef {
            sheet_name: clone_name(&self.sheet_name),
            end_sheet_name: clone_name(&self.end_sheet_name),
            workbook: clone_name(&self.workbook),
            top: self.top,
            left: self.left,
            bottom: self.bottom,
            right: self.right,
            abs_top: self.abs_top,
            abs_left: self.abs_left,
            abs_bottom: self.abs_bottom,
            abs_right: self.abs_right,
        }
    }
}

/// The reference with these names and corners. The corners are put in order,
/// and each `$` stays with the coordinate it was written on.
pub open spec fn reference_of(q: Qualifier, c: Corners) -> Reference {
    let rows = if c.1 <= c.5 {
        (c.1, c.3, c.5, c.7)
    } else {
        (c.5, c.7, c.1, c.3)
    };
    let cols = if c.0 <= c.4 {
        (c.0, c.2, c.4, c.6)
    } else {
        (c.4, c.6, c.0, c.2)
    };
    Reference {
        sheet_name: q.sheet,
        end_sheet_name: q.end_sheet,
        workbook: q.workbook,
        top: rows.0,
        left: cols.0,
        bottom: rows.2,
        right: cols.2,
        abs_top: rows.1,
        abs_left: cols.1,
        abs_bottom: rows.3,
        abs_right: cols.3,
    }
}

/// The A1 grammar: an optional qualifier, then a local reference, white space
/// around the whole ignored.
pub open spec fn a1(s: Seq<char>) -> Result<Reference, Fault> {
    let t = text::trimmed(s);
    if t.len() == 0 {
        Err(Fault::Empty)
    } else {
        match split_qualifier(t) {
            Err(f) => Err(f),
            Ok((prefix, local)) => {
                let q = match prefix {
                    Some(p) => qualifier(p),
                    None => Ok(Qualifier { workbook: None, sheet: None, end_sheet: None }),
                };
                match (q, local_corners(local)) {
                    (Err(f), _) => Err(f),
                    (_, Err(f)) => Err(f),
                    (Ok(q), Ok(c)) => Ok(reference_of(q, c)),
                }
            },
        }
    }
}

/// An outcome of [`parse_a1`] is the one the grammar gives.
pub open spec fn agrees_a1(got: Result<ParsedRef, AddressError>, want: Result<Reference, Fault>) -> bool {
    match (got, want) {
        (Ok(p), Ok(q)) => p@ == q,
        (Err(e), Err(f)) => e@ == f,
        _ => false,
    }
}

/// Parse a full A1 reference, optionally sheet- and workbook-qualified.
///
/// Handles `A1`, `$A$1`, `A1:B2`, `A:C`, `3:5`, `Sheet1!A1`, `'Q3 Sales'!A1:B2`,
/// `[1]Sheet1!A1` and 3-D `Jan:Dec!A1`.
pub fn parse_a1(s: &str) -> (r: Result<ParsedRef, AddressError>)
    ensures
        agrees_a1(r, a1(s@)),
{
    let chars: Vec<char> = chars_of(s);
    parse_a1_chars(chars.as_slice())
}

/// [`parse_a1`] on characters.
pub fn parse_a1_chars(s: &[char]) -> (r: Result<ParsedRef, AddressError>)
    ensures
        agrees_a1(r, a1(s@)),
{
    let t: &[char] = trim(s);
    if t.len() == 0 {
        return Err(AddressError::Empty);
    }
    let (prefix, local) = match split_sheet_prefix(t) {
        Ok(split) => split,
        Err(e) => {
            return Err(e);
        },
    };
    let (workbook, sheet_name, end_sheet_name) = match prefix {
        Some(p) => match parse_sheet_prefix(p) {
            Ok(names) => names,
            Err(e) => {
                return Err(e);
            },
        },
        None => (None, None, None),
    };
    let (left, top, abs_left, abs_top, right, bottom, abs_right, abs_bottom) =
        match parse_local_corners(local) {
        Ok(corners) => corners,
        Err(e) => {
            return Err(e);
        },
    };
    let (top, bottom, abs_top, abs_bottom): (u32, u32, bool, bool) = if top <= bottom {
        (top, bottom, abs_top, abs_bottom)
    } else {
        (bottom, top, abs_bottom, abs_top)
    };
    let (left, right, abs_left, abs_right): (u16, u16, bool, bool) = if left <= right {
        (left, right, abs_left, abs_right)
    } else {
        (right, left, abs_right, abs_left)
    };
    Ok(
        ParsedRef {
            sheet_name,
            end_sheet_name,
            workbook,
            top,
            left,
            bottom,
            right,
            abs_top,
            abs_left,
            abs_bottom,
            abs_right,
        },
    )
}

/// A cell address within a known sheet.
#[derive(Debug, Clone, Copy, PartialEq, Eq, PartialOrd, Ord, Hash, Structural)]
pub struct CellRef {
    pub sheet: SheetId,
    pub row: u32,
    pub col: u16,
}

/// A cell's address without its sheet: `B7`.
pub open spec fn cell_a1(row: u32, col: u16) -> Seq<char> {
    base26_letters((col + 1) as nat) + text::decimal((row + 1) as nat)
}

impl CellRef {
    /// Whether a worksheet has this cell.
    pub open spec fn on_sheet(self) -> bool {
        self.row <= MAX_ROW && self.col <= MAX_COL
    }

    pub fn new(sheet: SheetId, row: u32, col: u16) -> (r: Self)
        ensures
            r == (CellRef { sheet, row, col }),
    {
        Self { sheet, row, col }
    }

    /// Render just the local part, e.g. `B7`. Use [`CellRef::to_a1_with_sheet`]
    /// when the address is going into a citation, which must be unambiguous.
    pub fn to_a1(&self) -> (r: String)
        ensures
            r@ == cell_a1(self.row, self.col),
    {
        let mut out: String = col_to_letters(self.col as u32);
        push_decimal(&mut out, self.row as u64 + 1);
        out
    }

    /// Render a fully-qualified citation, e.g. `'Q3 Sales'!B7`.
    pub fn to_a1_with_sheet(&self, sheet_name: &str) -> (r: String)
        ensures
            r@ == cited(sheet_name@, cell_a1(self.row, self.col)),
    {
        let mut out: String = quote_sheet_name(sheet_name);
        out.push('!');
        out.push_str(self.to_a1().as_str());
        out
    }

    /// Parse a sheet-local address such as `B7` or `$B$7`.
    pub fn parse_local(s: &str, sheet: SheetId) -> (r: Result<Self, AddressError>)
        ensures
            agrees(
                r,
                match local_parts(s@) {
                    Ok((col, row, _, _)) => Ok(CellRef { sheet, row, col }),
                    Err(f) => Err(f),
                },
            ),
    {
        let chars: Vec<char> = chars_of(s);
        match parse_local_parts(chars.as_slice()) {
            Ok((col, row, _, _)) => Ok(Self::new(sheet, row, col)),
            Err(e) => Err(e),
        }
    }

    /// Offset this reference, returning `None` if it leaves the sheet.
    pub fn offset(&self, d_row: i64, d_col: i64) -> (r: Option<Self>)
        ensures
            r == (if 0 <= self.row + d_row <= MAX_ROW && 0 <= self.col + d_col <= MAX_COL {
                Some(
                    CellRef {
                        sheet: self.sheet,
                        row: (self.row + d_row) as u32,
                        col: (self.col + d_col) as u16,
                    },
                )
            } else {
                None::<CellRef>
            }),
    {
        let row: i64 = match (self.row as i64).checked_add(d_row) {
            Some(row) => row,
            None => {
                return None;
            },
        };
        let col: i64 = match (self.col as i64).checked_add(d_col) {
            Some(col) => col,
            None => {
                return None;
            },
        };
        if row < 0 || col < 0 || row > MAX_ROW as i64 || col > MAX_COL as i64 {
            return None;
        }
        Some(Self::new(self.sheet, row as u32, col as u16))
    }
}

/// An inclusive rectangular range within a single sheet.
///
/// The constructor normalises corners, so `C3:A1` and `A1:C3` are the same range.
#[derive(Debug, Clone, Copy, PartialEq, Eq, PartialOrd, Ord, Hash, Structural)]
pub struct RangeRef {
    pub sheet: SheetId,
    pub top: u32,
    pub left: u16,
    pub bottom: u32,
    pub right: u16,
}

impl RangeRef {
    /// The corners are in order.
    pub open spec fn normalised(self) -> bool {
        self.top <= self.bottom && self.left <= self.right
    }

    /// The range between two corners, in whatever order they come.
    pub open spec fn between(sheet: SheetId, top: u32, left: u16, bottom: u32, right: u16) -> RangeRef {
        RangeRef {
            sheet,
            top: if top <= bottom {
                top
            } else {
                bottom
            },
            left: if left <= right {
                left
            } else {
                right
            },
            bottom: if top <= bottom {
                bottom
            } else {
                top
            },
            right: if left <= right {
                right
            } else {
                left
            },
        }
    }

    /// Whether a cell lies in the range.
    pub open spec fn holds(self, cell: CellRef) -> bool {
        cell.sheet == self.sheet && self.top <= cell.row <= self.bottom && self.left <= cell.col
            <= self.right
    }

    /// The number of rows; one for a range whose corners are inverted.
    pub open spec fn height(self) -> nat {
        if self.top <= self.bottom {
            (self.bottom - self.top + 1) as nat
        } else {
            1
        }
    }

    /// The number of columns; one for a range whose corners are inverted.
    pub open spec fn width(self) -> nat {
        if self.left <= self.right {
            (self.right - self.left + 1) as nat
        } else {
            1
        }
    }

    /// The rectangle two ranges have in common, empty where its corners come
    /// out inverted.
    pub open spec fn meet(self, other: RangeRef) -> RangeRef {
        RangeRef {
            sheet: self.sheet,
            top: if self.top >= other.top {
                self.top
            } else {
                other.top
            },
            left: if self.left >= other.left {
                self.left
            } else {
                other.left
            },
            bottom: if self.bottom <= other.bottom {
                self.bottom
            } else {
                other.bottom
            },
            right: if self.right <= other.right {
                self.right
            } else {
                other.right
            },
        }
    }

    /// Whether two ranges lie on one sheet and share a row and a column.
    pub open spec fn overlaps(self, other: RangeRef) -> bool {
        self.sheet == other.sheet && self.top <= other.bottom && other.top <= self.bottom
            && self.left <= other.right && other.left <= self.right
    }

    /// The smallest rectangle around two ranges.
    pub open spec fn hull(self, other: RangeRef) -> RangeRef {
        RangeRef {
            sheet: self.sheet,
            top: if self.top <= other.top {
                self.top
            } else {
                other.top
            },
            left: if self.left <= other.left {
                self.left
            } else {
                other.left
            },
            bottom: if self.bottom >= other.bottom {
                self.bottom
            } else {
                other.bottom
            },
            right: if self.right >= other.right {
                self.right
            } else {
                other.right
            },
        }
    }

    /// The cells of the range in row-major order.
    pub open spec fn cells(self) -> Seq<CellRef> {
        if self.normalised() {
            Seq::new(
                self.height() * self.width(),
                |k: int|
                    CellRef {
                        sheet: self.sheet,
                        row: (self.top + k / self.width() as int) as u32,
                        col: (self.left + k % self.width() as int) as u16,
                    },
            )
        } else {
            Seq::empty()
        }
    }

    /// The range's address without its sheet: `A1:C3`, or `B7` for one cell.
    pub open spec fn local_a1(self) -> Seq<char> {
        if self.top == self.bottom && self.left == self.right {
            cell_a1(self.top, self.left)
        } else {
            cell_a1(self.top, self.left) + seq![':'] + cell_a1(self.bottom, self.right)
        }
    }

    pub fn new(sheet: SheetId, top: u32, left: u16, bottom: u32, right: u16) -> (r: Self)
        ensures
            r == RangeRef::between(sheet, top, left, bottom, right),
            r.normalised(),
    {
        Self {
            sheet,
            top: if top <= bottom {
                top
            } else {
                bottom
            },
            left: if left <= right {
                left
            } else {
                right
            },
            bottom: if top <= bottom {
                bottom
            } else {
                top
            },
            right: if left <= right {
                right
            } else {
                left
            },
        }
    }

    pub fn single(cell: CellRef) -> (r: Self)
        ensures
            r == (RangeRef {
                sheet: cell.sheet,
                top: cell.row,
                left: cell.col,
                bottom: cell.row,
                right: cell.col,
            }),
    {
        Self {
            sheet: cell.sheet,
            top: cell.row,
            left: cell.col,
            bottom: cell.row,
            right: cell.col,
        }
    }

    /// Height, widened to `u64` because a range spanning every addressable row
    /// is one taller than `u32` can hold.
    pub fn rows(&self) -> (r: u64)
        ensures
            r == self.height(),
            1 <= r <= 0x1_0000_0000,
    {
        if self.top <= self.bottom {
            (self.bottom - self.top) as u64 + 1
        } else {
            1
        }
    }

    /// Width, widened to `u32` for the reason [`RangeRef::rows`] is widened.
    pub fn cols(&self) -> (r: u32)
        ensures
            r == self.width(),
            1 <= r <= 0x1_0000,
    {
        if self.left <= self.right {
            (self.right - self.left) as u32 + 1
        } else {
            1
        }
    }

    /// Cell count. At most `2^32 * 2^16`, so it fits in a `u64`.
    pub fn cell_count(&self) -> (r: u64)
        ensures
            r == self.height() * self.width(),
    {
        let rows: u64 = self.rows();
        let cols: u64 = self.cols() as u64;
        assert(rows * cols <= 0x1_0000_0000 * 0x1_0000) by (nonlinear_arith)
            requires
                0 <= rows <= 0x1_0000_0000,
                0 <= cols <= 0x1_0000,
        ;
        rows * cols
    }

    pub fn contains(&self, cell: CellRef) -> (r: bool)
        ensures
            r == self.holds(cell),
    {
        cell.sheet == self.sheet && cell.row >= self.top && cell.row <= self.bottom && cell.col
            >= self.left && cell.col <= self.right
    }

    pub fn intersects(&self, other: &RangeRef) -> (r: bool)
        ensures
            r == self.overlaps(*other),
    {
        self.sheet == other.sheet && self.top <= other.bottom && other.top <= self.bottom
            && self.left <= other.right && other.left <= self.right
    }

    /// The overlap of two ranges, or `None` when they share no cell.
    pub fn intersection(&self, other: &RangeRef) -> (r: Option<RangeRef>)
        ensures
            r == (if self.sheet == other.sheet && self.meet(*other).normalised() {
                Some(self.meet(*other))
            } else {
                None::<RangeRef>
            }),
    {
        if self.sheet != other.sheet {
            return None;
        }
        let top: u32 = if self.top >= other.top {
            self.top
        } else {
            other.top
        };
        let left: u16 = if self.left >= other.left {
            self.left
        } else {
            other.left
        };
        let bottom: u32 = if self.bottom <= other.bottom {
            self.bottom
        } else {
            other.bottom
        };
        let right: u16 = if self.right <= other.right {
            self.right
        } else {
            other.right
        };
        if top <= bottom && left <= right {
            Some(RangeRef::new(self.sheet, top, left, bottom, right))
        } else {
            None
        }
    }

    /// Smallest range covering both operands. A union across sheets takes the
    /// sheet of `self`.
    pub fn union(&self, other: &RangeRef) -> (r: RangeRef)
        ensures
            r == self.hull(*other),
    {
        RangeRef {
            sheet: self.sheet,
            top: if self.top <= other.top {
                self.top
            } else {
                other.top
            },
            left: if self.left <= other.left {
                self.left
            } else {
                other.left
            },
            bottom: if self.bottom >= other.bottom {
                self.bottom
            } else {
                other.bottom
            },
            right: if self.right >= other.right {
                self.right
            } else {
                other.right
            },
        }
    }

    pub fn top_left(&self) -> (r: CellRef)
        ensures
            r == (CellRef { sheet: self.sheet, row: self.top, col: self.left }),
    {
        CellRef::new(self.sheet, self.top, self.left)
    }

    pub fn bottom_right(&self) -> (r: CellRef)
        ensures
            r == (CellRef { sheet: self.sheet, row: self.bottom, col: self.right }),
    {
        CellRef::new(self.sheet, self.bottom, self.right)
    }

    /// Every cell in row-major order.
    pub fn iter_cells(&self) -> (r: Vec<CellRef>)
        ensures
            r@ == self.cells(),
    {
        let mut out: Vec<CellRef> = Vec::new();
        if self.top > self.bottom || self.left > self.right {
            return out;
        }
        let ghost w = self.width() as int;
        let mut row: u64 = self.top as u64;
        while row <= self.bottom as u64
            invariant
                self.normalised(),
                w == self.width(),
                self.top <= row <= self.bottom + 1,
                out@.len() == (row - self.top) * w,
                forall|k: int|
                    0 <= k < out@.len() ==> #[trigger] out@[k] == (CellRef {
                        sheet: self.sheet,
                        row: (self.top + k / w) as u32,
                        col: (self.left + k % w) as u16,
                    }),
            decreases self.bottom + 1 - row,
        {
            let ghost start = out@.len() as int;
            let mut col: u32 = self.left as u32;
            while col <= self.right as u32
                invariant
                    self.normalised(),
                    w == self.width(),
                    self.top <= row <= self.bottom,
                    self.left <= col <= self.right + 1,
                    start == (row - self.top) * w,
                    out@.len() == start + (col - self.left),
                    forall|k: int|
                        0 <= k < out@.len() ==> #[trigger] out@[k] == (CellRef {
                            sheet: self.sheet,
                            row: (self.top + k / w) as u32,
                            col: (self.left + k % w) as u16,
                        }),
                decreases self.right + 1 - col,
            {
                proof {
                    let k = out@.len() as int;
                    let q = row - self.top;
                    let m = col - self.left;
                    vstd::arithmetic::div_mod::lemma_fundamental_div_mod_converse(k, w, q, m);
                }
                out.push(CellRef::new(self.sheet, row as u32, col as u16));
                col += 1;
            }
            row += 1;
            proof {
                assert((row - 1 - self.top) * w + w == (row - self.top) * w) by (nonlinear_arith);
            }
        }
        assert(out@ =~= self.cells());
        out
    }

    pub fn to_a1(&self) -> (r: String)
        ensures
            r@ == self.local_a1(),
    {
        let mut out: String = self.top_left().to_a1();
        if self.top == self.bottom && self.left == self.right {
            out
        } else {
            out.push(':');
            out.push_str(self.bottom_right().to_a1().as_str());
            assert(out@ =~= self.local_a1());
            out
        }
    }

    pub fn to_a1_with_sheet(&self, sheet_name: &str) -> (r: String)
        ensures
            r@ == cited(sheet_name@, self.local_a1()),
    {
        let mut out: String = quote_sheet_name(sheet_name);
        out.push('!');
        out.push_str(self.to_a1().as_str());
        out
    }

    /// The grammar of [`RangeRef::parse_local`].
    pub open spec fn parsed_local(s: Seq<char>, sheet: SheetId) -> Result<RangeRef, Fault> {
        let t = text::trimmed(s);
        let colon = text::position(t, ':', 0);
        if colon < t.len() {
            match (local_parts(t.take(colon)), local_parts(t.skip(colon + 1))) {
                (Ok((c1, r1, _, _)), Ok((c2, r2, _, _))) => Ok(
                    RangeRef::between(sheet, r1, c1, r2, c2),
                ),
                (Err(f), _) => Err(f),
                (_, Err(f)) => Err(f),
            }
        } else {
            match local_parts(t) {
                Ok((c, r, _, _)) => Ok(RangeRef::between(sheet, r, c, r, c)),
                Err(f) => Err(f),
            }
        }
    }

    /// Parse a sheet-local range such as `A1:C3`, `$A$1:$C$3` or a bare `B7`.
    pub fn parse_local(s: &str, sheet: SheetId) -> (r: Result<Self, AddressError>)
        ensures
            agrees(r, RangeRef::parsed_local(s@, sheet)),
    {
        let chars: Vec<char> = chars_of(s);
        let t: &[char] = trim(chars.as_slice());
        let colon: usize = find_char(t, ':', 0);
        if colon < t.len() {
            let a: &[char] = &t[0..colon];
            let b: &[char] = &t[colon + 1..t.len()];
            assert(a@ =~= t@.take(colon as int));
            assert(b@ =~= t@.skip(colon + 1));
            let (c1, r1, _, _) = match parse_local_parts(a) {
                Ok(parts) => parts,
                Err(e) => {
                    return Err(e);
                },
            };
            match parse_local_parts(b) {
                Ok((c2, r2, _, _)) => Ok(Self::new(sheet, r1, c1, r2, c2)),
                Err(e) => Err(e),
            }
        } else {
            match parse_local_parts(t) {
                Ok((c, r, _, _)) => Ok(Self::new(sheet, r, c, r, c)),
                Err(e) => Err(e),
            }
        }
    }
}

// ---------------------------------------------------------------------------
// Quoting and citing
// ---------------------------------------------------------------------------

/// Whether a sheet name must be quoted in a reference: it is empty, starts with
/// a digit, holds something other than letters, numbers, `_` and `.`, or reads
/// as a cell address.
pub open spec fn needs_quotes(name: Seq<char>) -> bool {
    ||| name.len() == 0
    ||| text::is_digit(name[0])
    ||| exists|i: int| 0 <= i < name.len() && !is_bare(#[trigger] name[i])
    ||| local_parts(name) is Ok
}

/// A character that an unquoted sheet name may hold.
pub open spec fn is_bare(c: char) -> bool {
    text::is_alphanumeric(c) || c == '_' || c == '.'
}

/// A sheet name as a reference spells it.
pub open spec fn quoted_name(name: Seq<char>) -> Seq<char> {
    if needs_quotes(name) {
        seq!['\''] + text::doubled(name) + seq!['\'']
    } else {
        name
    }
}

/// A local address qualified by its sheet.
pub open spec fn cited(name: Seq<char>, local: Seq<char>) -> Seq<char> {
    quoted_name(name).push('!') + local
}

/// Quote a sheet name for inclusion in an A1 reference, where it needs it.
/// Embedded quotes double.
pub fn quote_sheet_name(name: &str) -> (r: String)
    ensures
        r@ == quoted_name(name@),
{
    let chars: Vec<char> = chars_of(name);
    let s: &[char] = chars.as_slice();
    let mut needs: bool = s.len() == 0 || digit(s[0]) || parse_local_parts(s).is_ok();
    let mut i: usize = 0;
    while i < s.len() && !needs
        invariant
            i <= s@.len(),
            s@ == name@,
            needs ==> needs_quotes(s@),
            !needs ==> s@.len() > 0 && !text::is_digit(s@[0]) && local_parts(s@) is Err,
            !needs ==> forall|j: int| 0 <= j < i ==> is_bare(#[trigger] s@[j]),
        decreases s@.len() - i,
    {
        let c: char = s[i];
        if !(alphanumeric(c) || c == '_' || c == '.') {
            assert(!is_bare(s@[i as int]));
            needs = true;
        }
        i += 1;
    }
    if needs {
        let mut out: String = String::new();
        out.push('\'');
        push_chars(&mut out, double_quotes(s).as_slice());
        out.push('\'');
        assert(out@ =~= quoted_name(name@));
        out
    } else {
        string_of(s)
    }
}


// ---------------------------------------------------------------------------
// Sheets that a reference names
// ---------------------------------------------------------------------------

impl ParsedRef {
    /// Bind to a concrete sheet, yielding an addressable range.
    pub fn resolve(&self, sheet: SheetId) -> (r: RangeRef)
        ensures
            r == RangeRef::between(sheet, self.top, self.left, self.bottom, self.right),
            r.normalised(),
    {
        RangeRef::new(sheet, self.top, self.left, self.bottom, self.right)
    }

    pub fn is_single_cell(&self) -> (r: bool)
        ensures
            r == self@.one_cell(),
    {
        self.top == self.bottom && self.left == self.right
    }

    /// Whether this reference spans every row of the sheet: the `A:A`
    /// shorthand, or an explicit reference that amounts to the same thing.
    pub fn is_whole_column(&self) -> (r: bool)
        ensures
            r == (self.top == 0 && self.bottom == MAX_ROW),
    {
        self.top == 0 && self.bottom == MAX_ROW
    }

    /// Whether this reference spans every column of the sheet: `3:3`, or its
    /// explicit equivalent `A3:XFD3`.
    pub fn is_whole_row(&self) -> (r: bool)
        ensures
            r == (self.left == 0 && self.right == MAX_COL),
    {
        self.left == 0 && self.right == MAX_COL as u16
    }

    /// Every sheet this reference names.
    ///
    /// One sheet for an ordinary reference; every sheet between the two named
    /// ones, inclusive, for a 3-D reference (`Jan:Dec!A1`). `from` is the sheet
    /// the formula lives on, which is what an unqualified reference names.
    ///
    /// `lookup` maps a sheet name to its id. `Err` names the sheet, start or
    /// end, that `lookup` did not know; the start is asked about first.
    pub fn spanned_sheets<F: Fn(&str) -> Option<SheetId>>(
        &self,
        from: SheetId,
        lookup: F,
    ) -> (r: Result<SheetSpan, &str>)
        requires
            forall|name: &str| call_requires(lookup, (name,)),
        ensures
            match r {
                Ok(span) => exists|a: SheetId, b: SheetId|
                    names_sheet(lookup, self.sheet_name, from, a) && names_sheet(
                        lookup,
                        self.end_sheet_name,
                        a,
                        b,
                    ) && #[trigger] SheetSpan::spec_between(a, b) == span,
                Err(name) => {
                    ||| lacks_sheet(lookup, self.sheet_name, name)
                    ||| (exists|a: SheetId| names_sheet(lookup, self.sheet_name, from, a))
                        && lacks_sheet(lookup, self.end_sheet_name, name)
                },
            },
    {
        let start: SheetId = match &self.sheet_name {
            None => from,
            Some(name) => {
                let name: &str = name.as_str();
                match lookup(name) {
                    Some(id) => id,
                    None => {
                        return Err(name);
                    },
                }
            },
        };
        assert(names_sheet(lookup, self.sheet_name, from, start));
        match &self.end_sheet_name {
            None => {
                let span: SheetSpan = SheetSpan::one(start);
                assert(SheetSpan::spec_between(start, start) == span);
                Ok(span)
            },
            Some(name) => {
                let name: &str = name.as_str();
                match lookup(name) {
                    Some(id) => {
                        let span: SheetSpan = SheetSpan::between(start, id);
                        assert(SheetSpan::spec_between(start, id) == span);
                        Ok(span)
                    },
                    None => Err(name),
                }
            },
        }
    }
}

/// `id` is what `lookup` says of the name, or `default` where there is no name.
pub open spec fn names_sheet<F: Fn(&str) -> Option<SheetId>>(
    lookup: F,
    name: Option<String>,
    default: SheetId,
    id: SheetId,
) -> bool {
    match name {
        None => id == default,
        Some(n) => exists|s: &str|
            s@ == n@ && #[trigger] call_ensures(lookup, (s,), Some(id)),
    }
}

/// The name is there, `lookup` does not know it, and `s` is its text.
pub open spec fn lacks_sheet<F: Fn(&str) -> Option<SheetId>>(
    lookup: F,
    name: Option<String>,
    s: &str,
) -> bool {
    name is Some && s@ == name->0@ && call_ensures(lookup, (s,), None)
}

impl Reference {
    /// The reference is to one cell.
    pub open spec fn one_cell(self) -> bool {
        self.top == self.bottom && self.left == self.right
    }
}

/// The sheets one reference names, as a span of workbook (tab) order.
///
/// Two bounds rather than a list: a [`SheetId`] *is* tab order, so the sheets
/// between the two a 3-D reference names are contiguous whichever end was
/// written first.
#[derive(Debug, Clone, Copy, PartialEq, Eq, Structural)]
pub struct SheetSpan {
    first: SheetId,
    last: SheetId,
}

impl SheetSpan {
    pub closed spec fn spec_first(self) -> SheetId {
        self.first
    }

    pub closed spec fn spec_last(self) -> SheetId {
        self.last
    }

    #[verifier::type_invariant]
    closed spec fn ordered(self) -> bool {
        self.first.0 <= self.last.0
    }

    /// The span between two sheets, inclusive, in either order.
    pub closed spec fn spec_between(a: SheetId, b: SheetId) -> SheetSpan {
        if a.0 <= b.0 {
            SheetSpan { first: a, last: b }
        } else {
            SheetSpan { first: b, last: a }
        }
    }

    /// What an ordinary reference names: one sheet.
    pub fn one(sheet: SheetId) -> (r: Self)
        ensures
            r == SheetSpan::spec_between(sheet, sheet),
            r.spec_first() == sheet,
            r.spec_last() == sheet,
    {
        Self { first: sheet, last: sheet }
    }

    /// Both ends of a 3-D reference, inclusive, written in either order.
    pub fn between(a: SheetId, b: SheetId) -> (r: Self)
        ensures
            r == SheetSpan::spec_between(a, b),
            r.spec_first() == (if a.0 <= b.0 {
                a
            } else {
                b
            }),
            r.spec_last() == (if a.0 <= b.0 {
                b
            } else {
                a
            }),
    {
        if a.0 <= b.0 {
            Self { first: a, last: b }
        } else {
            Self { first: b, last: a }
        }
    }

    /// The first sheet in tab order, the only one unless this is 3-D.
    pub fn first(&self) -> (r: SheetId)
        ensures
            r == self.spec_first(),
    {
        self.first
    }

    /// The last sheet in tab order.
    pub fn last(&self) -> (r: SheetId)
        ensures
            r == self.spec_last(),
    {
        self.last
    }

    /// Whether more than one sheet is named.
    pub fn is_multi_sheet(&self) -> (r: bool)
        ensures
            r == (self.spec_first() != self.spec_last()),
    {
        self.first != self.last
    }

    /// How many sheets are named. Never zero.
    pub fn count(&self) -> (r: usize)
        ensures
            r == self.spec_last().0 - self.spec_first().0 + 1,
            r >= 1,
    {
        proof {
            use_type_invariant(self);
        }
        (self.last.0 - self.first.0) as usize + 1
    }

    /// Every sheet named, in tab order.
    pub fn iter(&self) -> (r: Vec<SheetId>)
        ensures
            r@.len() == self.spec_last().0 - self.spec_first().0 + 1,
            forall|k: int|
                0 <= k < r@.len() ==> (#[trigger] r@[k]) == SheetId(
                    (self.spec_first().0 + k) as u16,
                ),
    {
        proof {
            use_type_invariant(self);
        }
        let mut out: Vec<SheetId> = Vec::new();
        let mut i: u32 = self.first.0 as u32;
        while i <= self.last.0 as u32
            invariant
                self.first.0 <= i <= self.last.0 + 1,
                out@.len() == i - self.first.0,
                forall|k: int|
                    0 <= k < out@.len() ==> (#[trigger] out@[k]) == SheetId(
                        (self.first.0 + k) as u16,
                    ),
            decreases self.last.0 + 1 - i,
        {
            out.push(SheetId(i as u16));
            i += 1;
        }
        out
    }
}

/// A 3-D span is the same whichever of its two ends was written first.
pub proof fn span_ignores_the_order_of_its_ends(a: SheetId, b: SheetId)
    ensures
        SheetSpan::spec_between(a, b) == SheetSpan::spec_between(b, a),
{
}

// ---------------------------------------------------------------------------
// R1C1
// ---------------------------------------------------------------------------

/// One coordinate of an R1C1 reference: absolute index or relative offset.
#[derive(Debug, Clone, Copy, PartialEq, Eq, Hash, Structural)]
pub enum R1C1Coord {
    /// A fixed 0-based index, written `R5` / `C3` (rendered 1-based).
    Absolute(u32),
    /// An offset from the formula's own position, written `R[-1]` / `C[2]`.
    Relative(i32),
}

/// An absolute coordinate: `R5`.
pub open spec fn absolute_text(tag: char, index: int) -> Seq<char> {
    seq![tag] + text::decimal((index + 1) as nat)
}

/// A relative coordinate: `R[-1]`, or just `R` for the formula's own.
pub open spec fn relative_text(tag: char, d: int) -> Seq<char> {
    if d == 0 {
        seq![tag]
    } else {
        seq![tag, '['] + text::signed_decimal(d) + seq![']']
    }
}

impl R1C1Coord {
    pub open spec fn shown(self, tag: char) -> Seq<char> {
        match self {
            R1C1Coord::Absolute(i) => absolute_text(tag, i as int),
            R1C1Coord::Relative(d) => relative_text(tag, d as int),
        }
    }

    pub fn render(&self, tag: char) -> (r: String)
        ensures
            r@ == self.shown(tag),
    {
        let mut out: String = String::new();
        out.push(tag);
        match self {
            R1C1Coord::Absolute(i) => {
                push_decimal(&mut out, *i as u64 + 1);
            },
            R1C1Coord::Relative(d) => {
                if *d != 0 {
                    out.push('[');
                    push_signed_decimal(&mut out, *d as i64);
                    out.push(']');
                }
            },
        }
        assert(out@ =~= self.shown(tag));
        out
    }
}

/// A row or column index as a 32-bit offset can carry it: indices past
/// `i32::MAX`, which no worksheet has, wrap.
pub open spec fn wrapped(v: u32) -> int {
    if v <= i32::MAX {
        v as int
    } else {
        v - 0x1_0000_0000
    }
}

fn wrap(v: u32) -> (r: i32)
    ensures
        r == wrapped(v),
{
    if v <= 0x7fff_ffff {
        v as i32
    } else {
        (v as i64 - 0x1_0000_0000) as i32
    }
}

/// The R1C1 form of one coordinate, seen from `origin`.
pub open spec fn coord(v: u32, abs: bool, origin: u32) -> R1C1Coord {
    if abs {
        R1C1Coord::Absolute(v)
    } else {
        R1C1Coord::Relative((wrapped(v) - wrapped(origin)) as i32)
    }
}

/// The offset between two indices fits in 32 bits, as it does wherever both
/// are rows of a worksheet.
pub open spec fn offset_fits(v: u32, origin: u32) -> bool {
    i32::MIN <= wrapped(v) - wrapped(origin) <= i32::MAX
}

fn coord_of(v: u32, abs: bool, origin: u32) -> (r: R1C1Coord)
    requires
        abs || offset_fits(v, origin),
    ensures
        r == coord(v, abs, origin),
{
    if abs {
        R1C1Coord::Absolute(v)
    } else {
        R1C1Coord::Relative(wrap(v) - wrap(origin))
    }
}

/// A reference expressed relative to an anchor cell.
///
/// This is the canonical form used to decide whether two formulas share a
/// *shape*: `=A1*2` in B1 and `=A2*2` in B2 both normalise to `=RC[-1]*2`.
#[derive(Debug, PartialEq, Eq, Hash)]
pub struct R1C1Ref {
    pub sheet_name: Option<String>,
    /// Last sheet of a 3-D reference such as `Jan:Dec!A1`.
    pub end_sheet_name: Option<String>,
    pub workbook: Option<String>,
    pub top: R1C1Coord,
    pub left: R1C1Coord,
    pub bottom: R1C1Coord,
    pub right: R1C1Coord,
}

/// What an [`R1C1Ref`] says, with its names as sequences of characters.
pub struct RelativeReference {
    pub sheet_name: Option<Seq<char>>,
    pub end_sheet_name: Option<Seq<char>>,
    pub workbook: Option<Seq<char>>,
    pub top: R1C1Coord,
    pub left: R1C1Coord,
    pub bottom: R1C1Coord,
    pub right: R1C1Coord,
}

impl View for R1C1Ref {
    type V = RelativeReference;

    open spec fn view(&self) -> RelativeReference {
        RelativeReference {
            sheet_name: opt_view(self.sheet_name),
            end_sheet_name: opt_view(self.end_sheet_name),
            workbook: opt_view(self.workbook),
            top: self.top,
            left: self.left,
            bottom: self.bottom,
            right: self.right,
        }
    }
}

impl Reference {
    /// The reference seen from an anchor cell: what is absolute stays, what is
    /// relative becomes an offset.
    pub open spec fn seen_from(self, row: u32, col: u16) -> RelativeReference {
        RelativeReference {
            sheet_name: self.sheet_name,
            end_sheet_name: self.end_sheet_name,
            workbook: self.workbook,
            top: coord(self.top, self.abs_top, row),
            left: coord(self.left as u32, self.abs_left, col as u32),
            bottom: coord(self.bottom, self.abs_bottom, row),
            right: coord(self.right as u32, self.abs_right, col as u32),
        }
    }
}

impl RelativeReference {
    /// Both corners are the same cell.
    pub open spec fn one_cell(self) -> bool {
        self.top == self.bottom && self.left == self.right
    }

    /// The sheet part of the R1C1 text, up to and including its `!`.
    pub open spec fn sheet_text(self) -> Seq<char> {
        match self.sheet_name {
            None => Seq::empty(),
            Some(sheet) => match self.end_sheet_name {
                Some(end) => if quoted_name(sheet) == sheet && quoted_name(end) == end {
                    sheet.push(':') + end.push('!')
                } else {
                    seq!['\''] + text::doubled(sheet) + seq![':'] + text::doubled(end) + seq![
                        '\'',
                        '!',
                    ]
                },
                None => quoted_name(sheet).push('!'),
            },
        }
    }

    /// The workbook part of the R1C1 text.
    pub open spec fn workbook_text(self) -> Seq<char> {
        match self.workbook {
            Some(wb) => seq!['['] + wb + seq![']'],
            None => Seq::empty(),
        }
    }

    /// The `R…C…` part of the R1C1 text.
    pub open spec fn coords_text(self) -> Seq<char> {
        let first = self.top.shown('R') + self.left.shown('C');
        if self.one_cell() {
            first
        } else {
            first + seq![':'] + self.bottom.shown('R') + self.right.shown('C')
        }
    }

    /// The whole R1C1 text.
    pub open spec fn shown(self) -> Seq<char> {
        self.workbook_text() + self.sheet_text() + self.coords_text()
    }
}

fn clone_name(s: &Option<String>) -> (r: Option<String>)
    ensures
        opt_view(r) == opt_view(*s),
{
    match s {
        Some(t) => Some(t.clone()),
        None => None,
    }
}

impl Clone for R1C1Ref {
    fn clone(&self) -> (r: Self)
        ensures
            r@ == self@,
    {
        R1C1Ref {
            sheet_name: clone_name(&self.sheet_name),
            end_sheet_name: clone_name(&self.end_sheet_name),
            workbook: clone_name(&self.workbook),
            top: self.top,
            left: self.left,
            bottom: self.bottom,
            right: self.right,
        }
    }
}

impl R1C1Ref {
    /// Normalise a parsed A1 reference against the cell whose formula contains it.
    ///
    /// Absolute components (`$A$1`) stay absolute; relative ones become offsets.
    pub fn from_parsed(parsed: &ParsedRef, anchor: CellRef) -> (r: Self)
        requires
            parsed.abs_top || offset_fits(parsed.top, anchor.row),
            parsed.abs_bottom || offset_fits(parsed.bottom, anchor.row),
        ensures
            r@ == parsed@.seen_from(anchor.row, anchor.col),
    {
        Self {
            sheet_name: clone_name(&parsed.sheet_name),
            end_sheet_name: clone_name(&parsed.end_sheet_name),
            workbook: clone_name(&parsed.workbook),
            top: coord_of(parsed.top, parsed.abs_top, anchor.row),
            left: coord_of(parsed.left as u32, parsed.abs_left, anchor.col as u32),
            bottom: coord_of(parsed.bottom, parsed.abs_bottom, anchor.row),
            right: coord_of(parsed.right as u32, parsed.abs_right, anchor.col as u32),
        }
    }

    pub fn is_single_cell(&self) -> (r: bool)
        ensures
            r == self@.one_cell(),
    {
        self.top == self.bottom && self.left == self.right
    }

    pub fn to_r1c1(&self) -> (r: String)
        ensures
            r@ == self@.shown(),
    {
        let mut out: String = String::new();
        if let Some(wb) = &self.workbook {
            out.push('[');
            out.push_str(wb.as_str());
            out.push(']');
        }
        assert(out@ =~= self@.workbook_text());
        if let Some(sheet) = &self.sheet_name {
            match &self.end_sheet_name {
                Some(end_sheet) => {
                    let start: String = quote_sheet_name(sheet.as_str());
                    let end: String = quote_sheet_name(end_sheet.as_str());
                    if same_text(start.as_str(), sheet.as_str()) && same_text(
                        end.as_str(),
                        end_sheet.as_str(),
                    ) {
                        out.push_str(sheet.as_str());
                        out.push(':');
                        out.push_str(end_sheet.as_str());
                    } else {
                        out.push('\'');
                        push_chars(
                            &mut out,
                            double_quotes(chars_of(sheet.as_str()).as_slice()).as_slice(),
                        );
                        out.push(':');
                        push_chars(
                            &mut out,
                            double_quotes(chars_of(end_sheet.as_str()).as_slice()).as_slice(),
                        );
                        out.push('\'');
                    }
                },
                None => out.push_str(quote_sheet_name(sheet.as_str()).as_str()),
            }
            out.push('!');
        }
        assert(out@ =~= self@.workbook_text() + self@.sheet_text());
        out.push_str(self.top.render('R').as_str());
        out.push_str(self.left.render('C').as_str());
        if !self.is_single_cell() {
            out.push(':');
            out.push_str(self.bottom.render('R').as_str());
            out.push_str(self.right.render('C').as_str());
        }
        assert(out@ =~= self@.shown());
        out
    }
}


// ---------------------------------------------------------------------------
// Laws
// ---------------------------------------------------------------------------

impl RangeRef {
    /// A range of a worksheet, corners in order.
    pub open spec fn on_sheet(self) -> bool {
        self.normalised() && self.bottom <= MAX_ROW && self.right <= MAX_COL
    }
}

/// A range is the same whichever of its corners was written first.
pub proof fn range_ignores_the_order_of_its_corners(
    sheet: SheetId,
    top: u32,
    left: u16,
    bottom: u32,
    right: u16,
)
    ensures
        RangeRef::between(sheet, top, left, bottom, right) == RangeRef::between(
            sheet,
            bottom,
            right,
            top,
            left,
        ),
        RangeRef::between(sheet, top, left, bottom, right) == RangeRef::between(
            sheet,
            bottom,
            left,
            top,
            right,
        ),
        RangeRef::between(sheet, top, left, bottom, right).normalised(),
{
}

/// Two ranges intersect exactly when some cell lies in both, and their
/// intersection holds exactly the cells that do.
pub proof fn intersection_is_the_common_cells(a: RangeRef, b: RangeRef)
    requires
        a.normalised(),
        b.normalised(),
    ensures
        a.overlaps(b) == b.overlaps(a),
        a.overlaps(b) == (a.sheet == b.sheet && a.meet(b).normalised()),
        a.overlaps(b) == exists|c: CellRef| a.holds(c) && #[trigger] b.holds(c),
        a.sheet == b.sheet ==> forall|c: CellRef| #[trigger]
            a.meet(b).holds(c) == (a.holds(c) && b.holds(c)),
{
    if a.overlaps(b) {
        let m = a.meet(b);
        let c = CellRef { sheet: a.sheet, row: m.top, col: m.left };
        assert(a.holds(c) && b.holds(c));
    }
}

/// The union of two ranges of one sheet holds every cell of both, and any range
/// that does holds the union.
pub proof fn union_is_the_smallest_cover(a: RangeRef, b: RangeRef, other: RangeRef)
    requires
        a.normalised(),
        b.normalised(),
        a.sheet == b.sheet,
    ensures
        a.hull(b).normalised(),
        a.hull(b) == b.hull(a),
        forall|c: CellRef| a.holds(c) || b.holds(c) ==> #[trigger] a.hull(b).holds(c),
        (forall|c: CellRef| a.holds(c) || b.holds(c) ==> #[trigger] other.holds(c)) ==> forall|
            c: CellRef,
        | #[trigger] a.hull(b).holds(c) ==> other.holds(c),
{
    if forall|c: CellRef| a.holds(c) || b.holds(c) ==> #[trigger] other.holds(c) {
        assert(other.holds(CellRef { sheet: a.sheet, row: a.top, col: a.left }));
        assert(other.holds(CellRef { sheet: a.sheet, row: a.bottom, col: a.right }));
        assert(other.holds(CellRef { sheet: a.sheet, row: b.top, col: b.left }));
        assert(other.holds(CellRef { sheet: a.sheet, row: b.bottom, col: b.right }));
    }
}

/// Listing a range's cells lists exactly the cells it holds, each once, by row
/// and then by column.
pub proof fn cells_are_the_range_row_by_row(r: RangeRef)
    requires
        r.normalised(),
    ensures
        r.cells().len() == r.height() * r.width(),
        forall|k: int| 0 <= k < r.cells().len() ==> r.holds(#[trigger] r.cells()[k]),
        forall|c: CellRef| r.holds(c) ==> #[trigger] r.cells().contains(c),
        forall|j: int, k: int|
            #![trigger r.cells()[j], r.cells()[k]]
            0 <= j < k < r.cells().len() ==> r.cells()[j].row < r.cells()[k].row || (
            r.cells()[j].row == r.cells()[k].row && r.cells()[j].col < r.cells()[k].col),
{
    let w = r.width() as int;
    let h = r.height() as int;
    assert forall|k: int| 0 <= k < r.cells().len() implies r.holds(#[trigger] r.cells()[k]) by {
        lemma_grid_place(k, w, h);
    }
    assert forall|c: CellRef| r.holds(c) implies #[trigger] r.cells().contains(c) by {
        let q = c.row - r.top;
        let m = c.col - r.left;
        let k = q * w + m;
        lemma_grid_index(q, m, w, h);
        assert(r.cells()[k] == c);
    }
    assert forall|j: int, k: int|
        #![trigger r.cells()[j], r.cells()[k]]
        0 <= j < k < r.cells().len() implies r.cells()[j].row < r.cells()[k].row || (
    r.cells()[j].row == r.cells()[k].row && r.cells()[j].col < r.cells()[k].col) by {
        lemma_grid_order(j, k, w);
        lemma_grid_place(j, w, h);
        lemma_grid_place(k, w, h);
    }
}

proof fn lemma_grid_place(k: int, w: int, h: int)
    by (nonlinear_arith)
    requires
        0 <= k < h * w,
        w > 0,
        h > 0,
    ensures
        0 <= k / w < h,
        0 <= k % w < w,
        k == (k / w) * w + k % w,
{
}

proof fn lemma_grid_order(j: int, k: int, w: int)
    by (nonlinear_arith)
    requires
        0 <= j < k,
        w > 0,
    ensures
        j / w < k / w || (j / w == k / w && j % w < k % w),
{
}

proof fn lemma_grid_index(q: int, m: int, w: int, h: int)
    requires
        0 <= q < h,
        0 <= m < w,
    ensures
        0 <= q * w + m < h * w,
        (q * w + m) / w == q,
        (q * w + m) % w == m,
{
    vstd::arithmetic::div_mod::lemma_fundamental_div_mod_converse(q * w + m, w, q, m);
    assert(0 <= q * w + m < h * w) by (nonlinear_arith)
        requires
            0 <= q < h,
            0 <= m < w,
    ;
}

/// What the printed form of a cell is made of: capital letters, then digits.
proof fn lemma_cell_a1(row: u32, col: u16)
    ensures
        ({
            let letters = base26_letters((col + 1) as nat);
            let t = cell_a1(row, col);
            &&& 0 < letters.len() < t.len()
            &&& forall|i: int| 0 <= i < letters.len() ==> 'A' <= #[trigger] t[i] <= 'Z'
            &&& forall|i: int| letters.len() <= i < t.len() ==> text::is_digit(#[trigger] t[i])
            &&& text::letter_run(t, 0) == letters.len()
            &&& text::digit_run(t, letters.len() as int) == t.len()
            &&& t.take(letters.len() as int) == letters
            &&& t.skip(letters.len() as int) == text::decimal((row + 1) as nat)
        }),
{
    let letters = base26_letters((col + 1) as nat);
    let digits = text::decimal((row + 1) as nat);
    let t = cell_a1(row, col);
    lemma_base26_of_letters((col + 1) as nat);
    text::lemma_number_of_decimal((row + 1) as nat);
    assert forall|i: int| 0 <= i < letters.len() implies 'A' <= #[trigger] t[i] <= 'Z' by {
        assert(t[i] == letters[i]);
    }
    assert forall|i: int| letters.len() <= i < t.len() implies text::is_digit(#[trigger] t[i]) by {
        assert(t[i] == digits[i - letters.len()]);
    }
    text::lemma_letter_run_is(t, 0, letters.len() as int);
    text::lemma_digit_run_is(t, letters.len() as int, t.len() as int);
    assert(t.take(letters.len() as int) =~= letters);
    assert(t.skip(letters.len() as int) =~= digits);
}

/// Cell addresses round-trip: the address of every cell of a worksheet is read
/// back as that cell, with nothing absolute.
pub proof fn cell_address_round_trips(row: u32, col: u16)
    requires
        row <= MAX_ROW,
        col <= MAX_COL,
    ensures
        local_parts(cell_a1(row, col)) == Ok::<(u16, u32, bool, bool), Fault>(
            (col, row, false, false),
        ),
{
    let t = cell_a1(row, col);
    let letters = base26_letters((col + 1) as nat);
    lemma_cell_a1(row, col);
    text::lemma_trim_nothing(t);
    column_letters_round_trip(col);
    text::lemma_number_of_decimal((row + 1) as nat);
    assert(t.subrange(0, letters.len() as int) =~= letters);
}

/// A cell's address with `$` in front of what is absolute of it.
pub open spec fn pinned_a1(row: u32, col: u16, abs_row: bool, abs_col: bool) -> Seq<char> {
    (if abs_col {
        seq!['$']
    } else {
        Seq::empty()
    }) + base26_letters((col + 1) as nat) + (if abs_row {
        seq!['$']
    } else {
        Seq::empty()
    }) + text::decimal((row + 1) as nat)
}

/// A reference to one cell of the sheet that the formula is on.
pub open spec fn one_cell_of(row: u32, col: u16, abs_row: bool, abs_col: bool) -> Reference {
    Reference {
        sheet_name: None,
        end_sheet_name: None,
        workbook: None,
        top: row,
        left: col,
        bottom: row,
        right: col,
        abs_top: abs_row,
        abs_left: abs_col,
        abs_bottom: abs_row,
        abs_right: abs_col,
    }
}

/// What a cell's address with its `$` is made of, and where its parts are.
pub proof fn lemma_pinned_a1(row: u32, col: u16, abs_row: bool, abs_col: bool)
    requires
        row <= MAX_ROW,
        col <= MAX_COL,
    ensures
        ({
            let letters = base26_letters((col + 1) as nat);
            let t = pinned_a1(row, col, abs_row, abs_col);
            let a: int = if abs_col {
                1
            } else {
                0
            };
            let b = a + letters.len();
            let d: int = if abs_row {
                b + 1
            } else {
                b
            };
            &&& 1 <= letters.len() <= 3
            &&& d < t.len()
            &&& (t[0] == '$') == abs_col
            &&& (t[b] == '$') == abs_row
            &&& text::letter_run(t, a) == b
            &&& text::digit_run(t, d) == t.len()
            &&& t.subrange(a, b) == letters
            &&& t.skip(d) == text::decimal((row + 1) as nat)
            &&& text::is_digit(t.last())
            &&& forall|i: int|
                0 <= i < t.len() ==> text::is_letter(#[trigger] t[i]) || text::is_digit(t[i])
                    || t[i] == '$'
        }),
{
    let letters = base26_letters((col + 1) as nat);
    let digits = text::decimal((row + 1) as nat);
    let t = pinned_a1(row, col, abs_row, abs_col);
    let a: int = if abs_col {
        1
    } else {
        0
    };
    let b = a + letters.len();
    let d: int = if abs_row {
        b + 1
    } else {
        b
    };
    lemma_base26_of_letters((col + 1) as nat);
    lemma_three_letters((col + 1) as nat);
    text::lemma_number_of_decimal((row + 1) as nat);
    assert(t.len() == d + digits.len());
    assert forall|i: int| a <= i < b implies text::is_letter(#[trigger] t[i]) by {
        assert(t[i] == letters[i - a]);
    }
    assert forall|i: int| d <= i < t.len() implies text::is_digit(#[trigger] t[i]) by {
        assert(t[i] == digits[i - d]);
    }
    text::lemma_letter_run_is(t, a, b);
    text::lemma_digit_run_is(t, d, t.len() as int);
    assert(t.subrange(a, b) =~= letters);
    assert(t.skip(d) =~= digits);
}

/// A cell's address with its `$` is read back as that cell, and what was pinned
/// is absolute.
pub proof fn pinned_address_round_trips(row: u32, col: u16, abs_row: bool, abs_col: bool)
    requires
        row <= MAX_ROW,
        col <= MAX_COL,
    ensures
        a1(pinned_a1(row, col, abs_row, abs_col)) == Ok::<Reference, Fault>(
            one_cell_of(row, col, abs_row, abs_col),
        ),
{
    let t = pinned_a1(row, col, abs_row, abs_col);
    lemma_pinned_a1(row, col, abs_row, abs_col);
    text::lemma_trim_nothing(t);
    column_letters_round_trip(col);
    text::lemma_number_of_decimal((row + 1) as nat);
    text::lemma_last_position_is(t, '!', t.len() as int, -1);
    text::lemma_position_is(t, ':', 0, t.len() as int);
}

/// The printed form of a range, read as the local part of a reference.
proof fn lemma_range_corners(r: RangeRef)
    requires
        r.on_sheet(),
    ensures
        local_corners(r.local_a1()) == Ok::<Corners, Fault>(
            (r.left, r.top, false, false, r.right, r.bottom, false, false),
        ),
        RangeRef::parsed_local(r.local_a1(), r.sheet) == Ok::<RangeRef, Fault>(r),
        r.local_a1().len() > 0,
        text::is_digit(r.local_a1().last()),
        text::is_letter(r.local_a1()[0]),
        forall|i: int|
            0 <= i < r.local_a1().len() ==> {
                let c = #[trigger] r.local_a1()[i];
                text::is_letter(c) || text::is_digit(c) || c == ':'
            },
{
    let t = r.local_a1();
    let first = cell_a1(r.top, r.left);
    let second = cell_a1(r.bottom, r.right);
    lemma_cell_a1(r.top, r.left);
    lemma_cell_a1(r.bottom, r.right);
    cell_address_round_trips(r.top, r.left);
    cell_address_round_trips(r.bottom, r.right);
    if r.top == r.bottom && r.left == r.right {
        text::lemma_trim_nothing(t);
        text::lemma_position_is(t, ':', 0, t.len() as int);
    } else {
        let n = first.len() as int;
        assert forall|i: int| 0 <= i < n implies t[i] == first[i] by {}
        assert(t[n] == ':');
        assert forall|i: int| n < i < t.len() implies #[trigger] t[i] == second[i - n - 1] by {}
        text::lemma_trim_nothing(t);
        text::lemma_position_is(t, ':', 0, n);
        assert(t.take(n) =~= first);
        assert(t.skip(n + 1) =~= second);
        assert(text::digit_run(first, 0) == 0);
    }
}

/// Range addresses round-trip: the address of every range of a worksheet is
/// read back as that range.
pub proof fn range_address_round_trips(r: RangeRef)
    requires
        r.on_sheet(),
    ensures
        RangeRef::parsed_local(r.local_a1(), r.sheet) == Ok::<RangeRef, Fault>(r),
{
    lemma_range_corners(r);
}

/// The quote that closes a quoted name is the one after its doubled text.
pub proof fn lemma_closing_after_doubled(s: Seq<char>, i: int, name: Seq<char>)
    requires
        0 <= i,
        i + text::doubled(name).len() < s.len(),
        s.subrange(i, i + text::doubled(name).len()) == text::doubled(name),
        s[i + text::doubled(name).len()] == '\'',
        i + text::doubled(name).len() + 1 < s.len() ==> s[i + text::doubled(name).len() + 1]
            != '\'',
    ensures
        text::closing_quote(s, '\'', i) == i + text::doubled(name).len(),
    decreases name.len(),
{
    let d = text::doubled(name);
    if name.len() > 0 {
        let rest = name.drop_first();
        let e = text::doubled(rest);
        let step: int = if name[0] == '\'' {
            2
        } else {
            1
        };
        assert(d.len() == step + e.len());
        assert(d.skip(step) =~= e);
        assert(s.subrange(i + step, i + step + e.len()) =~= s.subrange(i, i + d.len()).skip(step));
        assert(s[i] == s.subrange(i, i + d.len())[0]);
        if step == 2 {
            assert(s[i + 1] == s.subrange(i, i + d.len())[1]);
        }
        lemma_closing_after_doubled(s, i + step, rest);
    }
}

/// Citations round-trip: a range of a worksheet cited with its sheet is read
/// back as that range of that sheet. A sheet name that is empty or holds `[` or
/// `:`, which no workbook allows, is left out: the brackets would be read as a
/// workbook and the colon as a span of sheets.
pub proof fn citation_round_trips(name: Seq<char>, r: RangeRef)
    requires
        r.on_sheet(),
        name.len() > 0,
        forall|i: int| 0 <= i < name.len() ==> #[trigger] name[i] != '[' && name[i] != ':',
    ensures
        a1(cited(name, r.local_a1())) == Ok::<Reference, Fault>(
            Reference {
                sheet_name: Some(name),
                end_sheet_name: None,
                workbook: None,
                top: r.top,
                left: r.left,
                bottom: r.bottom,
                right: r.right,
                abs_top: false,
                abs_left: false,
                abs_bottom: false,
                abs_right: false,
            },
        ),
{
    let local = r.local_a1();
    let q = quoted_name(name);
    let t = cited(name, local);
    lemma_range_corners(r);
    assert(t.last() == local.last());
    let n = q.len() as int;
    assert(t[n] == '!');
    assert(t.take(n) =~= q);
    assert(t.skip(n + 1) =~= local);
    text::lemma_position_is(name, '[', 0, name.len() as int);
    text::lemma_position_is(name, ':', 0, name.len() as int);
    if needs_quotes(name) {
        let d = text::doubled(name);
        assert(t[0] == '\'');
        text::lemma_trim_nothing(t);
        assert(t.subrange(1, 1 + d.len() as int) =~= d);
        assert(t[1 + d.len() as int] == '\'');
        lemma_closing_after_doubled(t, 1, name);
        assert(t.take(n) =~= q);
        text::lemma_trim_nothing(q);
        assert(q.subrange(1, q.len() - 1) =~= d);
        text::lemma_undoubled_doubled(name);
        assert(unquoted(q) == name);
    } else {
        assert(is_bare(name[0]));
        assert(is_bare(name[name.len() - 1]));
        assert(t[0] == name[0]);
        text::lemma_trim_nothing(t);
        text::lemma_trim_nothing(name);
        assert forall|j: int| n < j < t.len() implies t[j] != '!' by {
            assert(t[j] == local[j - n - 1]);
        }
        text::lemma_last_position_is(t, '!', t.len() as int, n);
        assert(unquoted(name) == name);
    }
}

/// A local reference cited with its sheet is read as that reference on that sheet.
pub proof fn lemma_cited_local(name: Seq<char>, local: Seq<char>, c: Corners)
    requires
        local.len() > 0,
        !text::is_white_space(local.last()),
        forall|i: int| 0 <= i < local.len() ==> #[trigger] local[i] != '!',
        local_corners(local) == Ok::<Corners, Fault>(c),
        name.len() > 0,
        forall|i: int| 0 <= i < name.len() ==> #[trigger] name[i] != '[' && name[i] != ':',
    ensures
        a1(cited(name, local)) == Ok::<Reference, Fault>(
            reference_of(Qualifier { workbook: None, sheet: Some(name), end_sheet: None }, c),
        ),
{
    let q = quoted_name(name);
    let t = cited(name, local);
    assert(t.last() == local.last());
    let n = q.len() as int;
    assert(t[n] == '!');
    assert(t.take(n) =~= q);
    assert(t.skip(n + 1) =~= local);
    text::lemma_position_is(name, '[', 0, name.len() as int);
    text::lemma_position_is(name, ':', 0, name.len() as int);
    if needs_quotes(name) {
        let d = text::doubled(name);
        assert(t[0] == '\'');
        text::lemma_trim_nothing(t);
        assert(t.subrange(1, 1 + d.len() as int) =~= d);
        assert(t[1 + d.len() as int] == '\'');
        lemma_closing_after_doubled(t, 1, name);
        text::lemma_trim_nothing(q);
        assert(q.subrange(1, q.len() - 1) =~= d);
        text::lemma_undoubled_doubled(name);
        assert(unquoted(q) == name);
    } else {
        assert(is_bare(name[0]));
        assert(is_bare(name[name.len() - 1]));
        assert(t[0] == name[0]);
        text::lemma_trim_nothing(t);
        text::lemma_trim_nothing(name);
        assert forall|j: int| n < j < t.len() implies t[j] != '!' by {
            assert(t[j] == local[j - n - 1]);
        }
        text::lemma_last_position_is(t, '!', t.len() as int, n);
        assert(unquoted(name) == name);
    }
}

/// A reference moved together with its anchor: what is relative moves, what is
/// absolute stays.
pub open spec fn moved(p: Reference, rows: int, cols: int) -> Reference {
    Reference {
        top: if p.abs_top {
            p.top
        } else {
            (p.top + rows) as u32
        },
        bottom: if p.abs_bottom {
            p.bottom
        } else {
            (p.bottom + rows) as u32
        },
        left: if p.abs_left {
            p.left
        } else {
            (p.left + cols) as u16
        },
        right: if p.abs_right {
            p.right
        } else {
            (p.right + cols) as u16
        },
        ..p
    }
}

/// Relative references are position-independent and absolute ones stay pinned:
/// a reference that moves with its formula, anywhere on a worksheet, looks the
/// same from where the formula sits.
pub proof fn relative_form_survives_a_move(p: Reference, row: u32, col: u16, rows: int, cols: int)
    requires
        p.top <= MAX_ROW,
        p.bottom <= MAX_ROW,
        p.left <= MAX_COL,
        p.right <= MAX_COL,
        row <= MAX_ROW,
        col <= MAX_COL,
        0 <= row + rows <= MAX_ROW,
        0 <= col + cols <= MAX_COL,
        p.abs_top || 0 <= p.top + rows <= MAX_ROW,
        p.abs_bottom || 0 <= p.bottom + rows <= MAX_ROW,
        p.abs_left || 0 <= p.left + cols <= MAX_COL,
        p.abs_right || 0 <= p.right + cols <= MAX_COL,
    ensures
        moved(p, rows, cols).seen_from((row + rows) as u32, (col + cols) as u16) == p.seen_from(
            row,
            col,
        ),
{
}


/// A reference names a sheet exactly when a `!` stands in its text or its text
/// starts with a quote.
pub proof fn a_sheet_is_named_where_a_bang_stands(s: Seq<char>)
    requires
        a1(s) is Ok,
    ensures
        s.contains('!') ==> a1(s)->Ok_0.sheet_name is Some,
        !s.contains('!') && !s.contains('\'') ==> a1(s)->Ok_0.sheet_name is None,
{
    let t = text::trimmed(s);
    text::lemma_trim_keeps(s, '!');
    text::lemma_trim_keeps(s, '\'');
    text::lemma_last_position(t, '!', t.len() as int);
}

} // verus!
