//! Reading a tool's arguments.
//!
//! An absent or `null` argument is the default; a present one of the wrong type
//! is refused rather than silently treated as absent. A caller that sent
//! `"limit": "3"` got a type wrong, and finding out from a wrong answer instead
//! of an error is worse.

use crate::cell::{CellValue, Number};
use crate::json;
use crate::json::Json;
use crate::text;
use crate::text::{debug_str, push_decimal, same_text};
use vstd::prelude::*;

verus! {

/// An argument that is there: neither absent nor null.
pub open spec fn given(args: json::Tree, key: Seq<char>) -> Option<json::Tree> {
    match args.at(key) {
        Some(json::Tree::Null) => None,
        other => other,
    }
}

/// What a wrong type is answered with.
pub open spec fn not_a(key: Seq<char>, expected: Seq<char>, got: json::Tree) -> Seq<char> {
    key + " must be "@ + expected + ", got "@ + got.kind_name()
}

/// A text that has to be there.
pub open spec fn wanted_text(args: json::Tree, key: Seq<char>) -> Result<Seq<char>, Seq<char>> {
    match args.text_at(key) {
        Some(s) => Ok(s),
        None => Err(key + " is required, as a string"@),
    }
}

/// A text that may be left out.
pub open spec fn optional_text(args: json::Tree, key: Seq<char>) -> Result<
    Option<Seq<char>>,
    Seq<char>,
> {
    match given(args, key) {
        None => Ok(None),
        Some(json::Tree::Text(s)) => Ok(Some(s)),
        Some(other) => Err(not_a(key, "a string"@, other)),
    }
}

/// A count that may be left out.
pub open spec fn optional_count(args: json::Tree, key: Seq<char>, default: usize) -> Result<
    usize,
    Seq<char>,
> {
    match given(args, key) {
        None => Ok(default),
        Some(json::Tree::Number(n)) => match n.whole {
            Some(w) => Ok(w as usize),
            None => Err(key + " must be a non-negative integer, got "@ + n.text),
        },
        Some(other) => Err(not_a(key, "an integer"@, other)),
    }
}

/// A count within bounds that may be left out.
pub open spec fn bounded_count(
    args: json::Tree,
    key: Seq<char>,
    default: usize,
    min: usize,
    max: usize,
) -> Result<usize, Seq<char>> {
    match optional_count(args, key, default) {
        Err(e) => Err(e),
        Ok(n) => if min <= n <= max {
            Ok(n)
        } else {
            Err(
                key + " must be between "@ + text::decimal(min as nat) + " and "@ + text::decimal(
                    max as nat,
                ) + ", got "@ + text::decimal(n as nat),
            )
        },
    }
}

/// A flag that is off where it is left out.
pub open spec fn optional_flag(args: json::Tree, key: Seq<char>) -> Result<bool, Seq<char>> {
    match given(args, key) {
        None => Ok(false),
        Some(json::Tree::Bool(b)) => Ok(b),
        Some(other) => Err(not_a(key, "a boolean"@, other)),
    }
}

/// A list that is empty where it is left out.
pub open spec fn optional_list(args: json::Tree, key: Seq<char>) -> Result<
    Seq<json::Tree>,
    Seq<char>,
> {
    match given(args, key) {
        None => Ok(Seq::empty()),
        Some(json::Tree::List(v)) => Ok(v),
        Some(other) => Err(not_a(key, "an array"@, other)),
    }
}

fn wrong_type(key: &str, expected: &str, got: &Json) -> (r: String)
    ensures
        r@ == not_a(key@, expected@, json::tree(*got)),
{
    let mut out: String = key.to_owned();
    out.push_str(" must be ");
    out.push_str(expected);
    out.push_str(", got ");
    out.push_str(got.kind_of());
    out
}

/// Read a text that the tool cannot do without.
pub fn want_str(args: &Json, key: &str) -> (r: Result<String, String>)
    ensures
        match (r, wanted_text(json::tree(*args), key@)) {
            (Ok(s), Ok(t)) => s@ == t,
            (Err(e), Err(m)) => e@ == m,
            _ => false,
        },
{
    match args.get_text(key) {
        Some(s) => Ok(s.to_owned()),
        None => {
            let mut out: String = key.to_owned();
            out.push_str(" is required, as a string");
            Err(out)
        },
    }
}

/// Read a text that may be left out.
pub fn opt_str(args: &Json, key: &str) -> (r: Result<Option<String>, String>)
    ensures
        match (r, optional_text(json::tree(*args), key@)) {
            (Ok(Some(s)), Ok(Some(t))) => s@ == t,
            (Ok(None), Ok(None)) => true,
            (Err(e), Err(m)) => e@ == m,
            _ => false,
        },
{
    match args.get(key) {
        None => Ok(None),
        Some(Json::Null) => Ok(None),
        Some(Json::Text(s)) => Ok(Some(s.clone())),
        Some(other) => Err(wrong_type(key, "a string", other)),
    }
}

/// Read a count that may be left out.
pub fn opt_usize(args: &Json, key: &str, default: usize) -> (r: Result<usize, String>)
    ensures
        match (r, optional_count(json::tree(*args), key@, default)) {
            (Ok(n), Ok(m)) => n == m,
            (Err(e), Err(m)) => e@ == m,
            _ => false,
        },
{
    match args.get(key) {
        None => Ok(default),
        Some(Json::Null) => Ok(default),
        Some(Json::Number(n)) => match n.whole {
            Some(w) => Ok(w as usize),
            None => {
                let mut out: String = key.to_owned();
                out.push_str(" must be a non-negative integer, got ");
                out.push_str(n.text.as_str());
                Err(out)
            },
        },
        Some(other) => Err(wrong_type(key, "an integer", other)),
    }
}

/// Read a count within bounds that may be left out.
pub fn opt_bounded(args: &Json, key: &str, default: usize, min: usize, max: usize) -> (r: Result<
    usize,
    String,
>)
    ensures
        match (r, bounded_count(json::tree(*args), key@, default, min, max)) {
            (Ok(n), Ok(m)) => n == m,
            (Err(e), Err(m)) => e@ == m,
            _ => false,
        },
{
    let value: usize = match opt_usize(args, key, default) {
        Ok(n) => n,
        Err(e) => return Err(e),
    };
    if value < min || value > max {
        let mut out: String = key.to_owned();
        out.push_str(" must be between ");
        push_decimal(&mut out, min as u64);
        out.push_str(" and ");
        push_decimal(&mut out, max as u64);
        out.push_str(", got ");
        push_decimal(&mut out, value as u64);
        return Err(out);
    }
    Ok(value)
}

/// Read a flag that is off where it is left out.
pub fn opt_bool(args: &Json, key: &str) -> (r: Result<bool, String>)
    ensures
        match (r, optional_flag(json::tree(*args), key@)) {
            (Ok(b), Ok(c)) => b == c,
            (Err(e), Err(m)) => e@ == m,
            _ => false,
        },
{
    match args.get(key) {
        None => Ok(false),
        Some(Json::Null) => Ok(false),
        Some(Json::Bool(b)) => Ok(*b),
        Some(other) => Err(wrong_type(key, "a boolean", other)),
    }
}

/// A list argument. Silently reading a wrong-typed one as absent would be worse
/// here than anywhere else: conditions sent as one object instead of a list of
/// them would all be dropped, and the whole table totalled as the answer to a
/// filtered question.
pub fn opt_array<'a>(args: &'a Json, key: &str) -> (r: Result<&'a [Json], String>)
    ensures
        match (r, optional_list(json::tree(*args), key@)) {
            (Ok(v), Ok(t)) => v@.len() == t.len() && forall|i: int|
                0 <= i < t.len() ==> json::tree(#[trigger] v@[i]) == t[i],
            (Err(e), Err(m)) => e@ == m,
            _ => false,
        },
{
    match args.get(key) {
        None => Ok(no_values()),
        Some(Json::Null) => Ok(no_values()),
        Some(Json::List(items)) => {
            proof {
                json::lemma_trees(*items, items@.len());
            }
            Ok(items.as_slice())
        },
        Some(other) => Err(wrong_type(key, "an array", other)),
    }
}

fn no_values<'a>() -> (r: &'a [Json])
    ensures
        r@.len() == 0,
{
    &[]
}

// ---------------------------------------------------------------------------
// Values and queries.

/// A cell value is what a JSON value says: a number, a text, a truth value or
/// nothing.
pub open spec fn holds(v: CellValue, t: json::Tree) -> bool {
    match (v, t) {
        (CellValue::Number(n), json::Tree::Number(m)) => m.bits == Some(n.bits) && m.shown == Some(
            n.text@,
        ),
        (CellValue::Text(s), json::Tree::Text(u)) => s@ == u,
        (CellValue::Bool(a), json::Tree::Bool(b)) => a == b,
        (CellValue::Empty, json::Tree::Null) => true,
        _ => false,
    }
}

/// Why a cell cannot hold a JSON value.
pub open spec fn unholdable(t: json::Tree) -> Option<Seq<char>> {
    match t {
        json::Tree::Number(n) => if n.bits is Some {
            None
        } else {
            Some(n.text + " is not a number a cell can hold"@)
        },
        json::Tree::List(_) => Some(
            "a cell holds a number, a string, a boolean or nothing — not "@ + json::written(
                json::made_of(t),
            ),
        ),
        json::Tree::Record(_) => Some(
            "a cell holds a number, a string, a boolean or nothing — not "@ + json::written(
                json::made_of(t),
            ),
        ),
        _ => None,
    }
}

/// A JSON value as a cell would hold it. Anything a cell could not hold is
/// refused rather than coerced into something the workbook would not have held.
pub fn cell_value(value: &Json) -> (r: Result<CellValue, String>)
    ensures
        match r {
            Ok(v) => unholdable(json::tree(*value)) is None && holds(v, json::tree(*value)),
            Err(e) => unholdable(json::tree(*value)) == Some(e@),
        },
{
    match value {
        Json::Number(n) => match &n.float {
            Some(f) => Ok(CellValue::Number(f.clone())),
            None => {
                let mut out: String = n.text.clone();
                out.push_str(" is not a number a cell can hold");
                Err(out)
            },
        },
        Json::Text(s) => Ok(CellValue::Text(s.clone())),
        Json::Bool(b) => Ok(CellValue::Bool(*b)),
        Json::Null => Ok(CellValue::Empty),
        other => {
            let mut out: String =
                "a cell holds a number, a string, a boolean or nothing — not ".to_owned();
            other.write(&mut out);
            Err(out)
        },
    }
}

/// What a condition tests of a cell.
#[derive(Debug, PartialEq, Eq)]
pub enum Test {
    Is(CellValue),
    IsNot(CellValue),
    Contains(String),
    OneOf(Vec<CellValue>),
    Above(Number),
    AtLeast(Number),
    Below(Number),
    AtMost(Number),
    Blank,
    NotBlank,
    Failed,
}

/// One condition on a row.
#[derive(Debug, PartialEq, Eq)]
pub struct Filter {
    pub column: String,
    pub test: Test,
}

/// What is computed over the rows of a group.
#[derive(Debug, PartialEq, Eq)]
pub enum Aggregate {
    Count,
    CountValues(String),
    CountDistinct(String),
    Sum(String),
    Mean(String),
    Min(String),
    Max(String),
}

/// The value of the first item from `i` on that a cell cannot hold.
pub open spec fn unholdable_item(items: Seq<json::Tree>, i: nat) -> Option<Seq<char>>
    decreases items.len() - i,
{
    if i >= items.len() {
        None
    } else if unholdable(items[i as int]) is Some {
        unholdable(items[i as int])
    } else {
        unholdable_item(items, i + 1)
    }
}

/// A number is what a JSON value says.
pub open spec fn counts(n: Number, t: Option<json::Tree>) -> bool {
    t matches Some(json::Tree::Number(m)) && m.bits == Some(n.bits) && m.shown == Some(n.text@)
}

pub open spec fn is_number(t: Option<json::Tree>) -> bool {
    t matches Some(json::Tree::Number(m)) && m.bits is Some
}

/// What keeps a test from being one.
pub open spec fn test_fault(name: Seq<char>, arg: Option<json::Tree>) -> Option<Seq<char>> {
    if name == "is"@ || name == "is_not"@ {
        match arg {
            None => Some("`"@ + name + "` needs a `value`"@),
            Some(v) => unholdable(v),
        }
    } else if name == "contains"@ {
        if arg matches Some(json::Tree::Text(_)) {
            None
        } else {
            Some("`contains` needs text in `value`"@)
        }
    } else if name == "one_of"@ {
        match arg {
            Some(json::Tree::List(v)) => unholdable_item(v, 0),
            _ => Some("`one_of` needs a list in `value`"@),
        }
    } else if name == "above"@ || name == "at_least"@ || name == "below"@ || name == "at_most"@ {
        if is_number(arg) {
            None
        } else {
            Some("`"@ + name + "` needs a number in `value`"@)
        }
    } else if name == "blank"@ || name == "not_blank"@ || name == "failed"@ {
        None
    } else {
        Some("no test called "@ + text::debug_text(name))
    }
}

/// A test is the one of a name, with its argument.
pub open spec fn is_test(t: Test, name: Seq<char>, arg: Option<json::Tree>) -> bool {
    match t {
        Test::Is(v) => name == "is"@ && (arg matches Some(a) && holds(v, a)),
        Test::IsNot(v) => name == "is_not"@ && (arg matches Some(a) && holds(v, a)),
        Test::Contains(s) => name == "contains"@ && arg == Some(json::Tree::Text(s@)),
        Test::OneOf(v) => name == "one_of"@ && (arg matches Some(json::Tree::List(a)) && a.len()
            == v@.len() && forall|i: int| 0 <= i < a.len() ==> holds(#[trigger] v@[i], a[i])),
        Test::Above(n) => name == "above"@ && counts(n, arg),
        Test::AtLeast(n) => name == "at_least"@ && counts(n, arg),
        Test::Below(n) => name == "below"@ && counts(n, arg),
        Test::AtMost(n) => name == "at_most"@ && counts(n, arg),
        Test::Blank => name == "blank"@,
        Test::NotBlank => name == "not_blank"@,
        Test::Failed => name == "failed"@,
    }
}

/// What keeps a JSON value from being a condition.
pub open spec fn filter_fault(t: json::Tree) -> Option<Seq<char>> {
    match (t.text_at("column"@), t.text_at("test"@)) {
        (None, _) => Some("each condition needs a `column`"@),
        (_, None) => Some("each condition needs a `test`"@),
        (Some(_), Some(name)) => test_fault(name, t.at("value"@)),
    }
}

/// A condition is what a JSON value says.
pub open spec fn is_filter(f: Filter, t: json::Tree) -> bool {
    t.text_at("column"@) == Some(f.column@) && (t.text_at("test"@) matches Some(name) && is_test(
        f.test,
        name,
        t.at("value"@),
    ))
}

fn needs(name: &str, what: &str) -> (r: String)
    ensures
        r@ == "`"@ + name@ + what@,
{
    let mut out: String = "`".to_owned();
    out.push_str(name);
    out.push_str(what);
    out
}

fn number_of(name: &str, arg: Option<&Json>) -> (r: Result<Number, String>)
    ensures
        ({
            let a = match arg {
                Some(j) => Some(json::tree(*j)),
                None => None,
            };
            match r {
                Ok(n) => is_number(a) && counts(n, a),
                Err(e) => !is_number(a) && e@ == "`"@ + name@ + "` needs a number in `value`"@,
            }
        }),
{
    match arg {
        Some(Json::Number(n)) => match &n.float {
            Some(f) => Ok(f.clone()),
            None => Err(needs(name, "` needs a number in `value`")),
        },
        _ => Err(needs(name, "` needs a number in `value`")),
    }
}

fn cell_of(name: &str, arg: Option<&Json>) -> (r: Result<CellValue, String>)
    ensures
        match (arg, r) {
            (None, Err(e)) => e@ == "`"@ + name@ + "` needs a `value`"@,
            (Some(j), Ok(v)) => unholdable(json::tree(*j)) is None && holds(v, json::tree(*j)),
            (Some(j), Err(e)) => unholdable(json::tree(*j)) == Some(e@),
            _ => false,
        },
{
    match arg {
        Some(j) => cell_value(j),
        None => Err(needs(name, "` needs a `value`")),
    }
}

fn cells_of(items: &Vec<Json>) -> (r: Result<Vec<CellValue>, String>)
    ensures
        ({
            let t = json::trees(*items, items@.len());
            match r {
                Ok(v) => unholdable_item(t, 0) is None && v@.len() == t.len() && forall|i: int|
                    0 <= i < t.len() ==> holds(#[trigger] v@[i], t[i]),
                Err(e) => unholdable_item(t, 0) == Some(e@),
            }
        }),
{
    let ghost t = json::trees(*items, items@.len());
    proof {
        json::lemma_trees(*items, items@.len());
    }
    let mut out: Vec<CellValue> = Vec::new();
    let mut i: usize = 0;
    while i < items.len()
        invariant
            t == json::trees(*items, items@.len()),
            t.len() == items@.len(),
            forall|k: int| 0 <= k < t.len() ==> (#[trigger] t[k]) == json::tree(items@[k]),
            i <= items@.len(),
            out@.len() == i,
            forall|k: int| 0 <= k < i ==> holds(#[trigger] out@[k], t[k]),
            unholdable_item(t, 0) == unholdable_item(t, i as nat),
        decreases items@.len() - i,
    {
        assert(t[i as int] == json::tree(items@[i as int]));
        match cell_value(&items[i]) {
            Ok(v) => out.push(v),
            Err(e) => return Err(e),
        }
        i += 1;
    }
    Ok(out)
}

fn read_test(name: &str, arg: Option<&Json>) -> (r: Result<Test, String>)
    ensures
        ({
            let a = match arg {
                Some(j) => Some(json::tree(*j)),
                None => None,
            };
            match r {
                Ok(t) => test_fault(name@, a) is None && is_test(t, name@, a),
                Err(e) => test_fault(name@, a) == Some(e@),
            }
        }),
{
    if same_text(name, "is") {
        match cell_of(name, arg) {
            Ok(v) => Ok(Test::Is(v)),
            Err(e) => Err(e),
        }
    } else if same_text(name, "is_not") {
        match cell_of(name, arg) {
            Ok(v) => Ok(Test::IsNot(v)),
            Err(e) => Err(e),
        }
    } else if same_text(name, "contains") {
        proof {
            lemma_test_names();
        }
        match arg {
            Some(Json::Text(s)) => Ok(Test::Contains(s.clone())),
            _ => Err("`contains` needs text in `value`".to_owned()),
        }
    } else if same_text(name, "one_of") {
        proof {
            lemma_test_names();
        }
        match arg {
            Some(Json::List(items)) => {
                proof {
                    json::lemma_trees(*items, items@.len());
                }
                match cells_of(items) {
                    Ok(v) => Ok(Test::OneOf(v)),
                    Err(e) => Err(e),
                }
            },
            _ => Err("`one_of` needs a list in `value`".to_owned()),
        }
    } else if same_text(name, "above") {
        match number_of(name, arg) {
            Ok(n) => Ok(Test::Above(n)),
            Err(e) => Err(e),
        }
    } else if same_text(name, "at_least") {
        match number_of(name, arg) {
            Ok(n) => Ok(Test::AtLeast(n)),
            Err(e) => Err(e),
        }
    } else if same_text(name, "below") {
        match number_of(name, arg) {
            Ok(n) => Ok(Test::Below(n)),
            Err(e) => Err(e),
        }
    } else if same_text(name, "at_most") {
        match number_of(name, arg) {
            Ok(n) => Ok(Test::AtMost(n)),
            Err(e) => Err(e),
        }
    } else if same_text(name, "blank") {
        Ok(Test::Blank)
    } else if same_text(name, "not_blank") {
        Ok(Test::NotBlank)
    } else if same_text(name, "failed") {
        Ok(Test::Failed)
    } else {
        let mut out: String = "no test called ".to_owned();
        out.push_str(debug_str(name).as_str());
        Err(out)
    }
}

/// Read one condition.
pub fn read_filter(value: &Json) -> (r: Result<Filter, String>)
    ensures
        match r {
            Ok(f) => filter_fault(json::tree(*value)) is None && is_filter(f, json::tree(*value)),
            Err(e) => filter_fault(json::tree(*value)) == Some(e@),
        },
{
    let column: String = match value.get_text("column") {
        Some(s) => s.to_owned(),
        None => return Err("each condition needs a `column`".to_owned()),
    };
    let name: &str = match value.get_text("test") {
        Some(s) => s,
        None => return Err("each condition needs a `test`".to_owned()),
    };
    match read_test(name, value.get("value")) {
        Ok(test) => Ok(Filter { column, test }),
        Err(e) => Err(e),
    }
}

/// An aggregate over a column is named so.
pub open spec fn takes_a_column(name: Seq<char>) -> bool {
    name == "count_values"@ || name == "count_distinct"@ || name == "sum"@ || name == "mean"@
        || name == "min"@ || name == "max"@
}

/// What keeps a JSON value from being an aggregate.
pub open spec fn aggregate_fault(t: json::Tree) -> Option<Seq<char>> {
    match t.text_at("of"@) {
        None => Some("each aggregate needs an `of`"@),
        Some(name) => if name == "count"@ {
            None
        } else if takes_a_column(name) {
            if t.text_at("column"@) is Some {
                None
            } else {
                Some("`"@ + name + "` needs a `column`"@)
            }
        } else {
            Some("no aggregate called "@ + text::debug_text(name))
        },
    }
}

/// An aggregate is what a JSON value says.
pub open spec fn is_aggregate(a: Aggregate, t: json::Tree) -> bool {
    let of = t.text_at("of"@);
    let column = t.text_at("column"@);
    match a {
        Aggregate::Count => of == Some("count"@),
        Aggregate::CountValues(c) => of == Some("count_values"@) && column == Some(c@),
        Aggregate::CountDistinct(c) => of == Some("count_distinct"@) && column == Some(c@),
        Aggregate::Sum(c) => of == Some("sum"@) && column == Some(c@),
        Aggregate::Mean(c) => of == Some("mean"@) && column == Some(c@),
        Aggregate::Min(c) => of == Some("min"@) && column == Some(c@),
        Aggregate::Max(c) => of == Some("max"@) && column == Some(c@),
    }
}

/// Read one aggregate.
pub fn read_aggregate(value: &Json) -> (r: Result<Aggregate, String>)
    ensures
        match r {
            Ok(a) => aggregate_fault(json::tree(*value)) is None && is_aggregate(
                a,
                json::tree(*value),
            ),
            Err(e) => aggregate_fault(json::tree(*value)) == Some(e@),
        },
{
    let of: &str = match value.get_text("of") {
        Some(s) => s,
        None => return Err("each aggregate needs an `of`".to_owned()),
    };
    if same_text(of, "count") {
        return Ok(Aggregate::Count);
    }
    let known: bool = same_text(of, "count_values") || same_text(of, "count_distinct")
        || same_text(of, "sum") || same_text(of, "mean") || same_text(of, "min") || same_text(
        of,
        "max",
    );
    if !known {
        let mut out: String = "no aggregate called ".to_owned();
        out.push_str(debug_str(of).as_str());
        return Err(out);
    }
    let column: String = match value.get_text("column") {
        Some(s) => s.to_owned(),
        None => return Err(needs(of, "` needs a `column`")),
    };
    Ok(
        if same_text(of, "count_values") {
            Aggregate::CountValues(column)
        } else if same_text(of, "count_distinct") {
            Aggregate::CountDistinct(column)
        } else if same_text(of, "sum") {
            Aggregate::Sum(column)
        } else if same_text(of, "mean") {
            Aggregate::Mean(column)
        } else if same_text(of, "min") {
            Aggregate::Min(column)
        } else {
            Aggregate::Max(column)
        },
    )
}

/// The names of the tests that take a text or a list differ from the rest.
proof fn lemma_test_names()
    ensures
        "contains"@ != "is"@,
        "contains"@ != "is_not"@,
        "one_of"@ != "is"@,
        "one_of"@ != "is_not"@,
        "one_of"@ != "contains"@,
{
    reveal_strlit("contains");
    reveal_strlit("is");
    reveal_strlit("is_not");
    reveal_strlit("one_of");
    assert("contains"@[0] == 'c' && "is"@[0] == 'i' && "is_not"@[0] == 'i' && "one_of"@[0] == 'o');
}

/// What a table is asked.
#[derive(Debug, PartialEq, Eq)]
pub struct Query {
    pub limit: usize,
    pub filters: Vec<Filter>,
    pub group_by: Vec<String>,
    pub aggregates: Vec<Aggregate>,
}

/// The first thing wrong with a condition from `i` on.
pub open spec fn filters_fault(items: Seq<json::Tree>, i: nat) -> Option<Seq<char>>
    decreases items.len() - i,
{
    if i >= items.len() {
        None
    } else if filter_fault(items[i as int]) is Some {
        filter_fault(items[i as int])
    } else {
        filters_fault(items, i + 1)
    }
}

/// A header to group by is not a text.
pub open spec fn groups_fault(items: Seq<json::Tree>) -> Option<Seq<char>> {
    if forall|i: int| 0 <= i < items.len() ==> (#[trigger] items[i]) is Text {
        None
    } else {
        Some("group_by takes column headers as strings"@)
    }
}

/// The first thing wrong with an aggregate from `i` on.
pub open spec fn aggregates_fault(items: Seq<json::Tree>, i: nat) -> Option<Seq<char>>
    decreases items.len() - i,
{
    if i >= items.len() {
        None
    } else if aggregate_fault(items[i as int]) is Some {
        aggregate_fault(items[i as int])
    } else {
        aggregates_fault(items, i + 1)
    }
}

/// The first thing wrong with a query: its limit, its conditions, its headers,
/// its aggregates.
pub open spec fn query_fault(args: json::Tree) -> Option<Seq<char>> {
    let filters = optional_list(args, "where"@);
    let groups = optional_list(args, "group_by"@);
    let aggregates = optional_list(args, "aggregate"@);
    if let Err(e) = bounded_count(args, "limit"@, 20, 1, 200) {
        Some(e)
    } else if let Err(e) = filters {
        Some(e)
    } else if filters_fault(filters->Ok_0, 0) is Some {
        filters_fault(filters->Ok_0, 0)
    } else if let Err(e) = groups {
        Some(e)
    } else if groups_fault(groups->Ok_0) is Some {
        groups_fault(groups->Ok_0)
    } else if let Err(e) = aggregates {
        Some(e)
    } else {
        aggregates_fault(aggregates->Ok_0, 0)
    }
}

/// A query is what the arguments say.
pub open spec fn is_query(q: Query, args: json::Tree) -> bool {
    &&& bounded_count(args, "limit"@, 20, 1, 200) == Ok::<usize, Seq<char>>(q.limit)
    &&& optional_list(args, "where"@) matches Ok(t) && t.len() == q.filters@.len() && (forall|i: int|
        0 <= i < t.len() ==> is_filter(#[trigger] q.filters@[i], t[i]))
    &&& optional_list(args, "group_by"@) matches Ok(t) && t.len() == q.group_by@.len() && (forall|
        i: int,
    |
        0 <= i < t.len() ==> t[i] == json::Tree::Text((#[trigger] q.group_by@[i])@))
    &&& optional_list(args, "aggregate"@) matches Ok(t) && t.len() == q.aggregates@.len() && (
    forall|i: int| 0 <= i < t.len() ==> is_aggregate(#[trigger] q.aggregates@[i], t[i]))
}

fn read_filters(items: &[Json], Ghost(t): Ghost<Seq<json::Tree>>) -> (r: Result<
    Vec<Filter>,
    String,
>)
    requires
        items@.len() == t.len(),
        forall|i: int| 0 <= i < t.len() ==> json::tree(#[trigger] items@[i]) == t[i],
    ensures
        match r {
            Ok(v) => filters_fault(t, 0) is None && v@.len() == t.len() && forall|i: int|
                0 <= i < t.len() ==> is_filter(#[trigger] v@[i], t[i]),
            Err(e) => filters_fault(t, 0) == Some(e@),
        },
{
    let mut out: Vec<Filter> = Vec::new();
    let mut i: usize = 0;
    while i < items.len()
        invariant
            items@.len() == t.len(),
            forall|i: int| 0 <= i < t.len() ==> json::tree(#[trigger] items@[i]) == t[i],
            i <= t.len(),
            out@.len() == i,
            forall|k: int| 0 <= k < i ==> is_filter(#[trigger] out@[k], t[k]),
            filters_fault(t, 0) == filters_fault(t, i as nat),
        decreases t.len() - i,
    {
        match read_filter(&items[i]) {
            Ok(f) => out.push(f),
            Err(e) => return Err(e),
        }
        i += 1;
    }
    Ok(out)
}

fn read_headers(items: &[Json], Ghost(t): Ghost<Seq<json::Tree>>) -> (r: Result<
    Vec<String>,
    String,
>)
    requires
        items@.len() == t.len(),
        forall|i: int| 0 <= i < t.len() ==> json::tree(#[trigger] items@[i]) == t[i],
    ensures
        match r {
            Ok(v) => groups_fault(t) is None && v@.len() == t.len() && forall|i: int|
                0 <= i < t.len() ==> t[i] == json::Tree::Text((#[trigger] v@[i])@),
            Err(e) => groups_fault(t) == Some(e@),
        },
{
    let mut out: Vec<String> = Vec::new();
    let mut i: usize = 0;
    while i < items.len()
        invariant
            items@.len() == t.len(),
            forall|i: int| 0 <= i < t.len() ==> json::tree(#[trigger] items@[i]) == t[i],
            i <= t.len(),
            out@.len() == i,
            forall|k: int| 0 <= k < i ==> t[k] == json::Tree::Text((#[trigger] out@[k])@),
        decreases t.len() - i,
    {
        match &items[i] {
            Json::Text(s) => out.push(s.clone()),
            _ => {
                assert(!(t[i as int] is Text));
                return Err("group_by takes column headers as strings".to_owned());
            },
        }
        i += 1;
    }
    assert forall|k: int| 0 <= k < t.len() implies (#[trigger] t[k]) is Text by {
        assert(t[k] == json::Tree::Text(out@[k]@));
    }
    Ok(out)
}

fn read_aggregates(items: &[Json], Ghost(t): Ghost<Seq<json::Tree>>) -> (r: Result<
    Vec<Aggregate>,
    String,
>)
    requires
        items@.len() == t.len(),
        forall|i: int| 0 <= i < t.len() ==> json::tree(#[trigger] items@[i]) == t[i],
    ensures
        match r {
            Ok(v) => aggregates_fault(t, 0) is None && v@.len() == t.len() && forall|i: int|
                0 <= i < t.len() ==> is_aggregate(#[trigger] v@[i], t[i]),
            Err(e) => aggregates_fault(t, 0) == Some(e@),
        },
{
    let mut out: Vec<Aggregate> = Vec::new();
    let mut i: usize = 0;
    while i < items.len()
        invariant
            items@.len() == t.len(),
            forall|i: int| 0 <= i < t.len() ==> json::tree(#[trigger] items@[i]) == t[i],
            i <= t.len(),
            out@.len() == i,
            forall|k: int| 0 <= k < i ==> is_aggregate(#[trigger] out@[k], t[k]),
            aggregates_fault(t, 0) == aggregates_fault(t, i as nat),
        decreases t.len() - i,
    {
        match read_aggregate(&items[i]) {
            Ok(a) => out.push(a),
            Err(e) => return Err(e),
        }
        i += 1;
    }
    Ok(out)
}

/// Read what a table is asked.
pub fn read_query(args: &Json) -> (r: Result<Query, String>)
    ensures
        match r {
            Ok(q) => query_fault(json::tree(*args)) is None && is_query(q, json::tree(*args)),
            Err(e) => query_fault(json::tree(*args)) == Some(e@),
        },
{
    let ghost t = json::tree(*args);
    let limit: usize = match opt_bounded(args, "limit", 20, 1, 200) {
        Ok(n) => n,
        Err(e) => return Err(e),
    };
    let filters: Vec<Filter> = match opt_array(args, "where") {
        Ok(items) => match read_filters(items, Ghost(optional_list(t, "where"@)->Ok_0)) {
            Ok(v) => v,
            Err(e) => return Err(e),
        },
        Err(e) => return Err(e),
    };
    let group_by: Vec<String> = match opt_array(args, "group_by") {
        Ok(items) => match read_headers(items, Ghost(optional_list(t, "group_by"@)->Ok_0)) {
            Ok(v) => v,
            Err(e) => return Err(e),
        },
        Err(e) => return Err(e),
    };
    let aggregates: Vec<Aggregate> = match opt_array(args, "aggregate") {
        Ok(items) => match read_aggregates(items, Ghost(optional_list(t, "aggregate"@)->Ok_0)) {
            Ok(v) => v,
            Err(e) => return Err(e),
        },
        Err(e) => return Err(e),
    };
    Ok(Query { limit, filters, group_by, aggregates })
}

} // verus!
