//! Cell values, types, and the presentation metadata that region detection needs.

use crate::text;
use crate::text::{ascii_upper, chars_of, same_text, trim};
use vstd::prelude::*;

verus! {

/// An Excel error value.
///
/// A distinct type rather than a string so that "the sheet contains an error"
/// and "we failed to compute" never get confused with each other.
#[derive(Debug, Clone, Copy, PartialEq, Eq, Hash, Structural)]
pub enum ErrorKind {
    Null,
    Div0,
    Value,
    Ref,
    Name,
    Num,
    NA,
    GettingData,
    Spill,
    Calc,
}

/// A text with every ASCII letter in upper case.
pub open spec fn upper(s: Seq<char>) -> Seq<char> {
    Seq::new(s.len(), |i: int| text::upper_of(s[i]))
}

fn to_upper(s: &[char]) -> (r: String)
    ensures
        r@ == upper(s@),
{
    let mut out: String = String::new();
    let mut i: usize = 0;
    while i < s.len()
        invariant
            i <= s@.len(),
            out@ == upper(s@).take(i as int),
        decreases s@.len() - i,
    {
        out.push(ascii_upper(s[i]));
        i += 1;
        assert(out@ =~= upper(s@).take(i as int));
    }
    assert(upper(s@).take(i as int) =~= upper(s@));
    out
}

impl ErrorKind {
    /// The error as a sheet shows it.
    pub open spec fn shown(self) -> Seq<char> {
        match self {
            ErrorKind::Null => "#NULL!"@,
            ErrorKind::Div0 => "#DIV/0!"@,
            ErrorKind::Value => "#VALUE!"@,
            ErrorKind::Ref => "#REF!"@,
            ErrorKind::Name => "#NAME?"@,
            ErrorKind::Num => "#NUM!"@,
            ErrorKind::NA => "#N/A"@,
            ErrorKind::GettingData => "#GETTING_DATA"@,
            ErrorKind::Spill => "#SPILL!"@,
            ErrorKind::Calc => "#CALC!"@,
        }
    }

    pub fn as_str(&self) -> (r: &'static str)
        ensures
            r@ == self.shown(),
    {
        match self {
            ErrorKind::Null => "#NULL!",
            ErrorKind::Div0 => "#DIV/0!",
            ErrorKind::Value => "#VALUE!",
            ErrorKind::Ref => "#REF!",
            ErrorKind::Name => "#NAME?",
            ErrorKind::Num => "#NUM!",
            ErrorKind::NA => "#N/A",
            ErrorKind::GettingData => "#GETTING_DATA",
            ErrorKind::Spill => "#SPILL!",
            ErrorKind::Calc => "#CALC!",
        }
    }

    /// The error that a text shows, in any case and with white space around it.
    pub fn parse(s: &str) -> (r: Option<Self>)
        ensures
            match r {
                Some(e) => upper(text::trimmed(s@)) == e.shown(),
                None => forall|e: ErrorKind| upper(text::trimmed(s@)) != #[trigger] e.shown(),
            },
    {
        let chars: Vec<char> = chars_of(s);
        let key: String = to_upper(trim(chars.as_slice()));
        let k: &str = key.as_str();
        if same_text(k, "#NULL!") {
            Some(ErrorKind::Null)
        } else if same_text(k, "#DIV/0!") {
            Some(ErrorKind::Div0)
        } else if same_text(k, "#VALUE!") {
            Some(ErrorKind::Value)
        } else if same_text(k, "#REF!") {
            Some(ErrorKind::Ref)
        } else if same_text(k, "#NAME?") {
            Some(ErrorKind::Name)
        } else if same_text(k, "#NUM!") {
            Some(ErrorKind::Num)
        } else if same_text(k, "#N/A") {
            Some(ErrorKind::NA)
        } else if same_text(k, "#GETTING_DATA") {
            Some(ErrorKind::GettingData)
        } else if same_text(k, "#SPILL!") {
            Some(ErrorKind::Spill)
        } else if same_text(k, "#CALC!") {
            Some(ErrorKind::Calc)
        } else {
            None
        }
    }
}

proof fn lemma_error_texts()
    ensures
        forall|a: ErrorKind, b: ErrorKind| a.shown() == b.shown() ==> a == b,
        forall|e: ErrorKind| upper(text::trimmed(e.shown())) == #[trigger] e.shown(),
{
    reveal_strlit("#NULL!");
    reveal_strlit("#DIV/0!");
    reveal_strlit("#VALUE!");
    reveal_strlit("#REF!");
    reveal_strlit("#NAME?");
    reveal_strlit("#NUM!");
    reveal_strlit("#N/A");
    reveal_strlit("#GETTING_DATA");
    reveal_strlit("#SPILL!");
    reveal_strlit("#CALC!");
    assert forall|a: ErrorKind, b: ErrorKind| a.shown() == b.shown() implies a == b by {
        let s = a.shown();
        let t = b.shown();
        assert(s.len() == t.len());
        assert(s[1] == t[1] && s[2] == t[2] && s[3] == t[3]);
    }
    assert forall|e: ErrorKind| upper(text::trimmed(e.shown())) == #[trigger] e.shown() by {
        text::lemma_trim_nothing(e.shown());
        assert(upper(e.shown()) =~= e.shown());
    }
}

/// Error kinds round-trip: what an error shows is read back as that error and
/// as no other.
pub proof fn error_kinds_round_trip(e: ErrorKind, other: ErrorKind)
    ensures
        upper(text::trimmed(e.shown())) == e.shown(),
        upper(text::trimmed(e.shown())) == other.shown() ==> other == e,
{
    lemma_error_texts();
}

/// A number that a cell holds: the bits of its double-precision value, and that
/// value written in decimal. The library carries numbers and compares their
/// kinds; it does not calculate with them.
#[derive(Debug, PartialEq, Eq, Hash)]
pub struct Number {
    pub bits: u64,
    pub text: String,
}

impl Clone for Number {
    fn clone(&self) -> (r: Self)
        ensures
            r == *self,
    {
        Number { bits: self.bits, text: self.text.clone() }
    }
}

/// The bits of the double-precision number one.
pub const ONE_BITS: u64 = 0x3ff0_0000_0000_0000;

impl Number {
    /// The number as a sheet shows it: its decimal text, with no sign on zero.
    pub open spec fn shown(self) -> Seq<char> {
        if self.text@ == "-0"@ {
            "0"@
        } else {
            self.text@
        }
    }

    pub fn to_display(&self) -> (r: String)
        ensures
            r@ == self.shown(),
    {
        if same_text(self.text.as_str(), "-0") {
            "0".to_owned()
        } else {
            self.text.clone()
        }
    }
}

/// The value stored in a cell.
///
/// Dates are *not* a separate variant: Excel stores them as numbers and marks
/// them via the number format, so date-ness is a property of [`CellFormat`].
#[derive(Debug, PartialEq, Eq)]
pub enum CellValue {
    Empty,
    Number(Number),
    Text(String),
    Bool(bool),
    Error(ErrorKind),
}

impl Clone for CellValue {
    fn clone(&self) -> (r: Self)
        ensures
            r == *self,
    {
        match self {
            CellValue::Empty => CellValue::Empty,
            CellValue::Number(n) => CellValue::Number(n.clone()),
            CellValue::Text(s) => CellValue::Text(s.clone()),
            CellValue::Bool(b) => CellValue::Bool(*b),
            CellValue::Error(e) => CellValue::Error(*e),
        }
    }
}

impl CellValue {
    /// Nothing is there to see: no value, or a text without characters.
    pub open spec fn blank(self) -> bool {
        match self {
            CellValue::Empty => true,
            CellValue::Text(s) => s@.len() == 0,
            _ => false,
        }
    }

    pub open spec fn spec_kind(self) -> ValueKind {
        match self {
            CellValue::Empty => ValueKind::Empty,
            CellValue::Number(_) => ValueKind::Number,
            CellValue::Text(_) => ValueKind::Text,
            CellValue::Bool(_) => ValueKind::Bool,
            CellValue::Error(_) => ValueKind::Error,
        }
    }

    /// The value as indexes and tables print it.
    pub open spec fn shown(self) -> Seq<char> {
        match self {
            CellValue::Empty => Seq::empty(),
            CellValue::Number(n) => n.shown(),
            CellValue::Text(s) => s@,
            CellValue::Bool(b) => if b {
                "TRUE"@
            } else {
                "FALSE"@
            },
            CellValue::Error(e) => e.shown(),
        }
    }

    pub fn is_empty(&self) -> (r: bool)
        ensures
            r == self.blank(),
    {
        match self {
            CellValue::Empty => true,
            CellValue::Text(s) => s.as_str().is_empty(),
            _ => false,
        }
    }

    pub fn kind(&self) -> (r: ValueKind)
        ensures
            r == self.spec_kind(),
    {
        match self {
            CellValue::Empty => ValueKind::Empty,
            CellValue::Number(_) => ValueKind::Number,
            CellValue::Text(_) => ValueKind::Text,
            CellValue::Bool(_) => ValueKind::Bool,
            CellValue::Error(_) => ValueKind::Error,
        }
    }

    /// The number a value counts as: itself, or one and zero for a truth value.
    pub fn as_number(&self) -> (r: Option<Number>)
        ensures
            match self {
                CellValue::Number(n) => r == Some(*n),
                CellValue::Bool(b) => r matches Some(n) && n.bits == (if *b {
                    ONE_BITS
                } else {
                    0
                }) && n.text@ == (if *b {
                    "1"@
                } else {
                    "0"@
                }),
                _ => r is None,
            },
    {
        match self {
            CellValue::Number(n) => Some(n.clone()),
            CellValue::Bool(b) => if *b {
                Some(Number { bits: ONE_BITS, text: "1".to_owned() })
            } else {
                Some(Number { bits: 0, text: "0".to_owned() })
            },
            _ => None,
        }
    }

    pub fn as_text(&self) -> (r: Option<&str>)
        ensures
            match self {
                CellValue::Text(s) => r matches Some(t) && t@ == s@,
                _ => r is None,
            },
    {
        match self {
            CellValue::Text(s) => Some(s.as_str()),
            _ => None,
        }
    }

    /// Plain rendering for indexing and table output. Empty cells render as `""`.
    pub fn to_display(&self) -> (r: String)
        ensures
            r@ == self.shown(),
    {
        match self {
            CellValue::Empty => String::new(),
            CellValue::Number(n) => n.to_display(),
            CellValue::Text(s) => s.clone(),
            CellValue::Bool(b) => if *b {
                "TRUE".to_owned()
            } else {
                "FALSE".to_owned()
            },
            CellValue::Error(e) => e.as_str().to_owned(),
        }
    }
}

/// Coarse value classification, used by region detection to spot the boundary
/// between a text header row and a numeric body.
#[derive(Debug, Clone, Copy, PartialEq, Eq, Hash, PartialOrd, Ord, Structural)]
pub enum ValueKind {
    Empty,
    Number,
    Text,
    Bool,
    Error,
}

impl ValueKind {
    pub open spec fn shown(self) -> Seq<char> {
        match self {
            ValueKind::Empty => "empty"@,
            ValueKind::Number => "number"@,
            ValueKind::Text => "text"@,
            ValueKind::Bool => "bool"@,
            ValueKind::Error => "error"@,
        }
    }

    pub fn is_blank(&self) -> (r: bool)
        ensures
            r == (*self is Empty),
    {
        matches!(self, ValueKind::Empty)
    }

    /// The kind as a word, for naming a cell without disclosing what is in it.
    pub fn as_str(&self) -> (r: &'static str)
        ensures
            r@ == self.shown(),
    {
        match self {
            ValueKind::Empty => "empty",
            ValueKind::Number => "number",
            ValueKind::Text => "text",
            ValueKind::Bool => "bool",
            ValueKind::Error => "error",
        }
    }
}

/// Presentation attributes that carry structural signal.
///
/// Only the attributes that help delimit regions are kept.
#[derive(Debug, Clone, Copy, PartialEq, Eq, Hash, Structural)]
pub struct CellFormat {
    pub bold: bool,
    pub italic: bool,
    /// Any fill other than "none", a strong header signal.
    pub has_fill: bool,
    /// A border on the underlying edge, which often terminates a table.
    pub border_bottom: bool,
    pub border_top: bool,
    pub border_left: bool,
    pub border_right: bool,
    /// The number format implies a date/time rather than a plain number.
    pub is_date: bool,
    /// The number format is a percentage or currency, useful for column typing.
    pub is_percent: bool,
    pub is_currency: bool,
    /// Indentation level, which encodes hierarchy in many financial models.
    pub indent: u8,
}

impl Default for CellFormat {
    fn default() -> (r: CellFormat)
        ensures
            r == CellFormat::plain(),
    {
        CellFormat {
            bold: false,
            italic: false,
            has_fill: false,
            border_bottom: false,
            border_top: false,
            border_left: false,
            border_right: false,
            is_date: false,
            is_percent: false,
            is_currency: false,
            indent: 0,
        }
    }
}

impl CellFormat {
    /// No formatting at all.
    pub open spec fn plain() -> CellFormat {
        CellFormat {
            bold: false,
            italic: false,
            has_fill: false,
            border_bottom: false,
            border_top: false,
            border_left: false,
            border_right: false,
            is_date: false,
            is_percent: false,
            is_currency: false,
            indent: 0,
        }
    }

    /// Bold, filled or underlined.
    pub open spec fn header_like(self) -> bool {
        self.bold || self.has_fill || self.border_bottom
    }

    /// Whether this formatting looks like a header rather than a data cell.
    pub fn looks_like_header(&self) -> (r: bool)
        ensures
            r == self.header_like(),
    {
        self.bold || self.has_fill || self.border_bottom
    }
}

/// A single populated cell as read from the workbook.
///
/// Cells that are empty *and* unformatted are never materialised; a sheet is a
/// sparse collection.
#[derive(Debug, PartialEq, Eq)]
pub struct Cell {
    pub value: CellValue,
    /// The formula in A1 form, without the leading `=`. `None` for literals.
    pub formula: Option<String>,
    pub format: CellFormat,
}

impl Clone for Cell {
    fn clone(&self) -> (r: Self)
        ensures
            r == *self,
    {
        Cell {
            value: self.value.clone(),
            formula: match &self.formula {
                Some(s) => Some(s.clone()),
                None => None,
            },
            format: self.format,
        }
    }
}

impl Cell {
    /// The cell contributes nothing: no value and no formula.
    pub open spec fn vacant(self) -> bool {
        self.value.blank() && self.formula is None
    }

    pub fn literal(value: CellValue) -> (r: Self)
        ensures
            r == (Cell { value, formula: None, format: CellFormat::plain() }),
    {
        Self { value, formula: None, format: CellFormat::default() }
    }

    pub fn is_formula(&self) -> (r: bool)
        ensures
            r == (self.formula is Some),
    {
        self.formula.is_some()
    }

    /// Whether the cell contributes nothing at all and can be treated as absent.
    pub fn is_vacant(&self) -> (r: bool)
        ensures
            r == self.vacant(),
    {
        self.value.is_empty() && self.formula.is_none()
    }
}

} // verus!
