//! The tools this server offers, and the arguments each one takes.
//!
//! The surface follows the shape of the pipeline underneath it, because that is
//! also the shape of how a question gets answered: find the part of the workbook
//! that matches, read the context around it, then go down to cells when the
//! answer needs a number.

use crate::json;
use crate::json::{Json, JsonNumber, Member};
use crate::server;
use crate::text;
use crate::text::push_decimal;
use vstd::prelude::*;

verus! {

/// A tool's declaration.
pub struct Tool {
    pub name: &'static str,
    pub description: &'static str,
    pub schema: Json,
}

/// What a [`Tool`] says.
#[verifier::ext_equal]
pub struct Declaration {
    pub name: Seq<char>,
    pub description: Seq<char>,
    pub arguments: json::Tree,
}

pub open spec fn declarations(tools: Seq<Tool>) -> Seq<Declaration> {
    tools.map_values(
        |t: Tool|
            Declaration {
                name: t.name@,
                description: t.description@,
                arguments: json::tree(t.schema),
            },
    )
}

// ---------------------------------------------------------------------------
// Writing a schema.

pub open spec fn entry(key: Seq<char>, value: json::Tree) -> json::Entry {
    json::Entry { key, value }
}

/// A whole number.
pub open spec fn whole(n: u64) -> json::Tree {
    json::Tree::Number(
        json::Numeral { whole: Some(n), bits: None, shown: None, text: text::decimal(n as nat) },
    )
}

/// Members with one more behind them, where there is something to say.
pub open spec fn said(m: Seq<json::Entry>, key: Seq<char>, value: Option<json::Tree>) -> Seq<
    json::Entry,
> {
    match value {
        Some(v) => m.push(entry(key, v)),
        None => m,
    }
}

pub open spec fn some_text(s: Option<Seq<char>>) -> Option<json::Tree> {
    match s {
        Some(s) => Some(json::Tree::Text(s)),
        None => None,
    }
}

pub open spec fn some_whole(n: Option<u64>) -> Option<json::Tree> {
    match n {
        Some(n) => Some(whole(n)),
        None => None,
    }
}

/// An argument: its kind, its bounds, and what it is for.
pub open spec fn property(
    kind: Option<Seq<char>>,
    minimum: Option<u64>,
    maximum: Option<u64>,
    description: Option<Seq<char>>,
) -> json::Tree {
    let m = said(Seq::empty(), "type"@, some_text(kind));
    let m = said(m, "minimum"@, some_whole(minimum));
    let m = said(m, "maximum"@, some_whole(maximum));
    json::Tree::Record(said(m, "description"@, some_text(description)))
}

/// An argument that is a text.
pub open spec fn worded(description: Seq<char>) -> json::Tree {
    property(Some("string"@), None, None, Some(description))
}

/// An argument that is a whole number.
pub open spec fn counted(minimum: Option<u64>, maximum: Option<u64>, description: Seq<char>) -> json::Tree {
    property(Some("integer"@), minimum, maximum, Some(description))
}

/// An argument that can be anything.
pub open spec fn anything(description: Seq<char>) -> json::Tree {
    property(None, None, None, Some(description))
}

pub open spec fn texts(s: Seq<Seq<char>>) -> Seq<json::Tree> {
    s.map_values(|t: Seq<char>| json::Tree::Text(t))
}

/// An argument that is one of some texts.
pub open spec fn choice(choices: Seq<Seq<char>>) -> json::Tree {
    json::Tree::Record(
        seq![
            entry("type"@, json::Tree::Text("string"@)),
            entry("enum"@, json::Tree::List(texts(choices))),
        ],
    )
}

/// An argument that is a list.
pub open spec fn array(description: Seq<char>, items: json::Tree) -> json::Tree {
    json::Tree::Record(
        seq![
            entry("type"@, json::Tree::Text("array"@)),
            entry("description"@, json::Tree::Text(description)),
            entry("items"@, items),
        ],
    )
}

/// An object that has these members and no others. What it requires is said where
/// it requires anything.
pub open spec fn closed(properties: Seq<json::Entry>, required: Seq<Seq<char>>) -> json::Tree {
    closed_by(json::Tree::Record(properties), texts(required))
}

pub open spec fn closed_by(properties: json::Tree, required: Seq<json::Tree>) -> json::Tree {
    let first = seq![
        entry("type"@, json::Tree::Text("object"@)),
        entry("properties"@, properties),
        entry("additionalProperties"@, json::Tree::Bool(false)),
    ];
    if required.len() == 0 {
        json::Tree::Record(first)
    } else {
        json::Tree::Record(first.push(entry("required"@, json::Tree::List(required))))
    }
}

pub(crate) fn push_member(out: &mut Vec<Member>, key: &str, value: Json)
    ensures
        json::entries(*final(out), final(out)@.len()) == json::entries(
            *old(out),
            old(out)@.len(),
        ).push(entry(key@, json::tree(value))),
{
    let ghost before = *out;
    out.push(Member { key: key.to_owned(), value });
    proof {
        json::lemma_entries(before, before@.len());
        json::lemma_entries(*out, out@.len());
        assert(json::entries(*out, out@.len()) =~= json::entries(before, before@.len()).push(
            entry(key@, json::tree(value)),
        ));
    }
}

fn push_text(out: &mut Vec<Json>, s: &str)
    ensures
        json::trees(*final(out), final(out)@.len()) == json::trees(*old(out), old(out)@.len()).push(
            json::Tree::Text(s@),
        ),
{
    let ghost before = *out;
    out.push(Json::Text(s.to_owned()));
    proof {
        json::lemma_trees(before, before@.len());
        json::lemma_trees(*out, out@.len());
        assert(json::trees(*out, out@.len()) =~= json::trees(before, before@.len()).push(
            json::Tree::Text(s@),
        ));
    }
}

fn make_whole(n: u64) -> (r: Json)
    ensures
        json::tree(r) == whole(n),
{
    let mut text: String = String::new();
    push_decimal(&mut text, n);
    assert(Seq::<char>::empty() + text::decimal(n as nat) =~= text::decimal(n as nat));
    Json::Number(JsonNumber { whole: Some(n), float: None, text })
}

fn make_property(
    kind: Option<&str>,
    minimum: Option<u64>,
    maximum: Option<u64>,
    description: Option<&str>,
) -> (r: Json)
    ensures
        json::tree(r) == property(
            match kind {
                Some(k) => Some(k@),
                None => None,
            },
            minimum,
            maximum,
            match description {
                Some(d) => Some(d@),
                None => None,
            },
        ),
{
    let mut m: Vec<Member> = Vec::new();
    if let Some(k) = kind {
        push_member(&mut m, "type", Json::Text(k.to_owned()));
    }
    if let Some(n) = minimum {
        push_member(&mut m, "minimum", make_whole(n));
    }
    if let Some(n) = maximum {
        push_member(&mut m, "maximum", make_whole(n));
    }
    if let Some(d) = description {
        push_member(&mut m, "description", Json::Text(d.to_owned()));
    }
    Json::Record(m)
}

fn make_worded(description: &str) -> (r: Json)
    ensures
        json::tree(r) == worded(description@),
{
    make_property(Some("string"), None, None, Some(description))
}

fn make_counted(minimum: Option<u64>, maximum: Option<u64>, description: &str) -> (r: Json)
    ensures
        json::tree(r) == counted(minimum, maximum, description@),
{
    make_property(Some("integer"), minimum, maximum, Some(description))
}

fn make_anything(description: &str) -> (r: Json)
    ensures
        json::tree(r) == anything(description@),
{
    make_property(None, None, None, Some(description))
}

fn make_choice(choices: Vec<Json>) -> (r: Json)
    ensures
        json::tree(r) == json::Tree::Record(
            seq![
                entry("type"@, json::Tree::Text("string"@)),
                entry("enum"@, json::Tree::List(json::trees(choices, choices@.len()))),
            ],
        ),
{
    let mut m: Vec<Member> = Vec::new();
    push_member(&mut m, "type", Json::Text("string".to_owned()));
    push_member(&mut m, "enum", Json::List(choices));
    assert(json::entries(m, m@.len()) =~= seq![
        entry("type"@, json::Tree::Text("string"@)),
        entry("enum"@, json::Tree::List(json::trees(choices, choices@.len()))),
    ]);
    Json::Record(m)
}

fn make_array(description: &str, items: Json) -> (r: Json)
    ensures
        json::tree(r) == array(description@, json::tree(items)),
{
    let mut m: Vec<Member> = Vec::new();
    push_member(&mut m, "type", Json::Text("array".to_owned()));
    push_member(&mut m, "description", Json::Text(description.to_owned()));
    push_member(&mut m, "items", items);
    assert(json::entries(m, m@.len()) =~= seq![
        entry("type"@, json::Tree::Text("array"@)),
        entry("description"@, json::Tree::Text(description@)),
        entry("items"@, json::tree(items)),
    ]);
    Json::Record(m)
}

fn make_closed(properties: Vec<Member>, required: Vec<Json>) -> (r: Json)
    ensures
        json::tree(r) == closed_by(
            json::Tree::Record(json::entries(properties, properties@.len())),
            json::trees(required, required@.len()),
        ),
{
    let ghost wanted = json::trees(required, required@.len());
    proof {
        json::lemma_trees(required, required@.len());
    }
    let mut m: Vec<Member> = Vec::new();
    push_member(&mut m, "type", Json::Text("object".to_owned()));
    push_member(&mut m, "properties", Json::Record(properties));
    push_member(&mut m, "additionalProperties", Json::Bool(false));
    let ghost first = seq![
        entry("type"@, json::Tree::Text("object"@)),
        entry("properties"@, json::Tree::Record(json::entries(properties, properties@.len()))),
        entry("additionalProperties"@, json::Tree::Bool(false)),
    ];
    assert(json::entries(m, m@.len()) =~= first);
    if required.len() > 0 {
        push_member(&mut m, "required", Json::List(required));
        assert(json::entries(m, m@.len()) =~= first.push(
            entry("required"@, json::Tree::List(wanted)),
        ));
    }
    Json::Record(m)
}

// ---------------------------------------------------------------------------
// The tools.

/// The arguments of a tool that works on the cells of a range.
pub open spec fn range_properties(citation: Seq<char>) -> Seq<json::Entry> {
    seq![
        entry("citation"@, worded(citation)),
        entry(
            "workbook"@,
            worded(
                "Which workbook (content hash, path or file name). Optional when the corpus holds one."@,
            ),
        ),
        entry("limit"@, counted(Some(1), Some(500), "Most rows to return, default 40."@)),
    ]
}

/// The arguments of a tool that works on the cells of a range.
pub open spec fn range_arguments(citation: Seq<char>) -> json::Tree {
    closed(range_properties(citation), seq!["citation"@])
}

fn cell_schema(citation: &str) -> (r: Json)
    ensures
        json::tree(r) == range_arguments(citation@),
{
    let mut properties: Vec<Member> = Vec::new();
    push_member(&mut properties, "citation", make_worded(citation));
    push_member(
        &mut properties,
        "workbook",
        make_worded(
            "Which workbook (content hash, path or file name). Optional when the corpus holds one.",
        ),
    );
    push_member(
        &mut properties,
        "limit",
        make_counted(Some(1), Some(500), "Most rows to return, default 40."),
    );
    let mut required: Vec<Json> = Vec::new();
    push_text(&mut required, "citation");
    proof {
        assert(json::entries(properties, properties@.len()) =~= range_properties(citation@));
        assert(json::trees(required, required@.len()) =~= texts(seq!["citation"@]));
    }
    make_closed(properties, required)
}

/// The arguments of `workbooks`.
pub open spec fn workbooks_arguments() -> json::Tree {
    closed(Seq::empty(), Seq::empty())
}

fn workbooks_schema() -> (r: Json)
    ensures
        json::tree(r) == workbooks_arguments(),
{
    let properties: Vec<Member> = Vec::new();
    let required: Vec<Json> = Vec::new();
    proof {
        assert(json::entries(properties, properties@.len()) =~= Seq::empty());
        assert(json::trees(required, required@.len()) =~= texts(Seq::empty()));
    }
    make_closed(properties, required)
}

pub open spec fn search_properties() -> Seq<json::Entry> {
    seq![
        entry("query"@, worded("What to look for, in words."@)),
        entry("limit"@, counted(Some(1), Some(100), "How many hits, default 8."@)),
        entry(
            "workbook"@,
            worded("Restrict to one workbook (content hash, path or file name)."@),
        ),
        entry("sheet"@, worded("Restrict to one sheet, by exact name."@)),
        entry(
            "lexical_only"@,
            property(
                Some("boolean"@),
                None,
                None,
                Some("Skip the embedding model and match by word alone."@),
            ),
        ),
    ]
}

/// The arguments of `search`.
pub open spec fn search_arguments() -> json::Tree {
    closed(search_properties(), seq!["query"@])
}

fn search_schema() -> (r: Json)
    ensures
        json::tree(r) == search_arguments(),
{
    let mut properties: Vec<Member> = Vec::new();
    push_member(&mut properties, "query", make_worded("What to look for, in words."));
    push_member(
        &mut properties,
        "limit",
        make_counted(Some(1), Some(100), "How many hits, default 8."),
    );
    push_member(
        &mut properties,
        "workbook",
        make_worded("Restrict to one workbook (content hash, path or file name)."),
    );
    push_member(&mut properties, "sheet", make_worded("Restrict to one sheet, by exact name."));
    push_member(
        &mut properties,
        "lexical_only",
        make_property(
            Some("boolean"),
            None,
            None,
            Some("Skip the embedding model and match by word alone."),
        ),
    );
    let mut required: Vec<Json> = Vec::new();
    push_text(&mut required, "query");
    proof {
        assert(json::entries(properties, properties@.len()) =~= search_properties());
        assert(json::trees(required, required@.len()) =~= texts(seq!["query"@]));
    }
    make_closed(properties, required)
}

pub open spec fn context_properties() -> Seq<json::Entry> {
    seq![
        entry("query"@, worded("The question, in words."@)),
        entry(
            "workbook"@,
            worded("Restrict to one workbook (content hash, path or file name)."@),
        ),
        entry("sheet"@, worded("Restrict to one sheet, by exact name."@)),
        entry("seeds"@, counted(Some(1), Some(50), "How many hits to expand from, default 5."@)),
        entry("hops"@, counted(None, None, "Dependency hops from a seed, default 2."@)),
        entry("budget"@, counted(Some(1), None, "Most nodes per workbook, default 40."@)),
        entry(
            "children"@,
            counted(None, None, "Contained children to show per node, default 0."@),
        ),
        entry("max_chars"@, counted(Some(200), None, "Ceiling on the passage, default 8000."@)),
        entry("lexical_only"@, property(Some("boolean"@), None, None, None)),
    ]
}

/// The arguments of `context`.
pub open spec fn context_arguments() -> json::Tree {
    closed(context_properties(), seq!["query"@])
}

fn context_schema() -> (r: Json)
    ensures
        json::tree(r) == context_arguments(),
{
    let mut properties: Vec<Member> = Vec::new();
    push_member(&mut properties, "query", make_worded("The question, in words."));
    push_member(
        &mut properties,
        "workbook",
        make_worded("Restrict to one workbook (content hash, path or file name)."),
    );
    push_member(&mut properties, "sheet", make_worded("Restrict to one sheet, by exact name."));
    push_member(
        &mut properties,
        "seeds",
        make_counted(Some(1), Some(50), "How many hits to expand from, default 5."),
    );
    push_member(
        &mut properties,
        "hops",
        make_counted(None, None, "Dependency hops from a seed, default 2."),
    );
    push_member(
        &mut properties,
        "budget",
        make_counted(Some(1), None, "Most nodes per workbook, default 40."),
    );
    push_member(
        &mut properties,
        "children",
        make_counted(None, None, "Contained children to show per node, default 0."),
    );
    push_member(
        &mut properties,
        "max_chars",
        make_counted(Some(200), None, "Ceiling on the passage, default 8000."),
    );
    push_member(
        &mut properties,
        "lexical_only",
        make_property(Some("boolean"), None, None, None),
    );
    let mut required: Vec<Json> = Vec::new();
    push_text(&mut required, "query");
    proof {
        assert(json::entries(properties, properties@.len()) =~= context_properties());
        assert(json::trees(required, required@.len()) =~= texts(seq!["query"@]));
    }
    make_closed(properties, required)
}

pub open spec fn find_value_properties() -> Seq<json::Entry> {
    seq![
        entry(
            "value"@,
            anything(
                "The value to find, as a JSON number, string or boolean. A number and the string of its digits are different values; the answer says how many cells hold the other one."@,
            ),
        ),
        entry(
            "workbook"@,
            worded(
                "Which workbook (content hash, path or file name). Optional when the corpus holds one."@,
            ),
        ),
        entry("limit"@, counted(Some(1), Some(500), "Most cells to return, default 40."@)),
    ]
}

/// The arguments of `find_value`.
pub open spec fn find_value_arguments() -> json::Tree {
    closed(find_value_properties(), seq!["value"@])
}

fn find_value_schema() -> (r: Json)
    ensures
        json::tree(r) == find_value_arguments(),
{
    let mut properties: Vec<Member> = Vec::new();
    push_member(
        &mut properties,
        "value",
        make_anything(
            "The value to find, as a JSON number, string or boolean. A number and the string of its digits are different values; the answer says how many cells hold the other one.",
        ),
    );
    push_member(
        &mut properties,
        "workbook",
        make_worded(
            "Which workbook (content hash, path or file name). Optional when the corpus holds one.",
        ),
    );
    push_member(
        &mut properties,
        "limit",
        make_counted(Some(1), Some(500), "Most cells to return, default 40."),
    );
    let mut required: Vec<Json> = Vec::new();
    push_text(&mut required, "value");
    proof {
        assert(json::entries(properties, properties@.len()) =~= find_value_properties());
        assert(json::trees(required, required@.len()) =~= texts(seq!["value"@]));
    }
    make_closed(properties, required)
}

pub open spec fn tables_properties() -> Seq<json::Entry> {
    seq![
        entry("workbook"@, worded("Path or hash. Optional when the corpus holds one."@)),
        entry("sheet"@, worded("Restrict to one sheet, by exact name."@)),
        entry("limit"@, counted(Some(1), Some(500), "Tables to list. Default 40."@)),
    ]
}

/// The arguments of `tables`.
pub open spec fn tables_arguments() -> json::Tree {
    closed(tables_properties(), Seq::empty())
}

fn tables_schema() -> (r: Json)
    ensures
        json::tree(r) == tables_arguments(),
{
    let mut properties: Vec<Member> = Vec::new();
    push_member(
        &mut properties,
        "workbook",
        make_worded("Path or hash. Optional when the corpus holds one."),
    );
    push_member(&mut properties, "sheet", make_worded("Restrict to one sheet, by exact name."));
    push_member(
        &mut properties,
        "limit",
        make_counted(Some(1), Some(500), "Tables to list. Default 40."),
    );
    let required: Vec<Json> = Vec::new();
    proof {
        assert(json::entries(properties, properties@.len()) =~= tables_properties());
        assert(json::trees(required, required@.len()) =~= texts(Seq::empty()));
    }
    make_closed(properties, required)
}

/// What `test` may be.
pub open spec fn test_names() -> Seq<Seq<char>> {
    seq![
        "is"@,
        "is_not"@,
        "contains"@,
        "one_of"@,
        "above"@,
        "at_least"@,
        "below"@,
        "at_most"@,
        "blank"@,
        "not_blank"@,
        "failed"@,
    ]
}

fn test_choice() -> (r: Json)
    ensures
        json::tree(r) == choice(test_names()),
{
    let mut names: Vec<Json> = Vec::new();
    push_text(&mut names, "is");
    push_text(&mut names, "is_not");
    push_text(&mut names, "contains");
    push_text(&mut names, "one_of");
    push_text(&mut names, "above");
    push_text(&mut names, "at_least");
    push_text(&mut names, "below");
    push_text(&mut names, "at_most");
    push_text(&mut names, "blank");
    push_text(&mut names, "not_blank");
    push_text(&mut names, "failed");
    assert(json::trees(names, names@.len()) =~= texts(test_names()));
    make_choice(names)
}

pub open spec fn where_members() -> Seq<json::Entry> {
    seq![
        entry("column"@, worded("Header, as `tables` gives it."@)),
        entry("test"@, choice(test_names())),
        entry(
            "value"@,
            anything(
                "The value to test against. A list for `one_of`; omitted for `blank`, `not_blank` and `failed`."@,
            ),
        ),
    ]
}

/// An item of `where`.
pub open spec fn where_item() -> json::Tree {
    closed(where_members(), seq!["column"@, "test"@])
}

fn make_where_item() -> (r: Json)
    ensures
        json::tree(r) == where_item(),
{
    let mut properties: Vec<Member> = Vec::new();
    push_member(&mut properties, "column", make_worded("Header, as `tables` gives it."));
    push_member(&mut properties, "test", test_choice());
    push_member(
        &mut properties,
        "value",
        make_anything(
            "The value to test against. A list for `one_of`; omitted for `blank`, `not_blank` and `failed`.",
        ),
    );
    let mut required: Vec<Json> = Vec::new();
    push_text(&mut required, "column");
    push_text(&mut required, "test");
    proof {
        assert(json::entries(properties, properties@.len()) =~= where_members());
        assert(json::trees(required, required@.len()) =~= texts(seq!["column"@, "test"@]));
    }
    make_closed(properties, required)
}

/// What `of` may be.
pub open spec fn of_names() -> Seq<Seq<char>> {
    seq![
        "count"@,
        "count_values"@,
        "count_distinct"@,
        "sum"@,
        "mean"@,
        "min"@,
        "max"@,
    ]
}

fn of_choice() -> (r: Json)
    ensures
        json::tree(r) == choice(of_names()),
{
    let mut names: Vec<Json> = Vec::new();
    push_text(&mut names, "count");
    push_text(&mut names, "count_values");
    push_text(&mut names, "count_distinct");
    push_text(&mut names, "sum");
    push_text(&mut names, "mean");
    push_text(&mut names, "min");
    push_text(&mut names, "max");
    assert(json::trees(names, names@.len()) =~= texts(of_names()));
    make_choice(names)
}

pub open spec fn aggregate_members() -> Seq<json::Entry> {
    seq![
        entry("of"@, choice(of_names())),
        entry("column"@, property(Some("string"@), None, None, None)),
    ]
}

/// An item of `aggregate`.
pub open spec fn aggregate_item() -> json::Tree {
    closed(aggregate_members(), seq!["of"@])
}

fn make_aggregate_item() -> (r: Json)
    ensures
        json::tree(r) == aggregate_item(),
{
    let mut properties: Vec<Member> = Vec::new();
    push_member(&mut properties, "of", of_choice());
    push_member(&mut properties, "column", make_property(Some("string"), None, None, None));
    let mut required: Vec<Json> = Vec::new();
    push_text(&mut required, "of");
    proof {
        assert(json::entries(properties, properties@.len()) =~= aggregate_members());
        assert(json::trees(required, required@.len()) =~= texts(seq!["of"@]));
    }
    make_closed(properties, required)
}

pub open spec fn query_table_properties() -> Seq<json::Entry> {
    seq![
        entry(
            "table"@,
            worded("The table's range, from `tables`, e.g. \"'Work Doc'!A1:BM115004\"."@),
        ),
        entry("workbook"@, worded("Path or hash. Optional when the corpus holds one."@)),
        entry("where"@, array("Conditions a row must all pass."@, where_item())),
        entry(
            "group_by"@,
            array("Column headers to group by."@, property(Some("string"@), None, None, None)),
        ),
        entry(
            "aggregate"@,
            array("What to compute. `count` takes no column."@, aggregate_item()),
        ),
        entry("limit"@, counted(Some(1), Some(200), "Groups returned. Default 20."@)),
    ]
}

/// The arguments of `query_table`.
pub open spec fn query_table_arguments() -> json::Tree {
    closed(query_table_properties(), seq!["table"@, "aggregate"@])
}

fn query_table_schema() -> (r: Json)
    ensures
        json::tree(r) == query_table_arguments(),
{
    let mut properties: Vec<Member> = Vec::new();
    push_member(
        &mut properties,
        "table",
        make_worded("The table's range, from `tables`, e.g. \"'Work Doc'!A1:BM115004\"."),
    );
    push_member(
        &mut properties,
        "workbook",
        make_worded("Path or hash. Optional when the corpus holds one."),
    );
    push_member(
        &mut properties,
        "where",
        make_array("Conditions a row must all pass.", make_where_item()),
    );
    push_member(
        &mut properties,
        "group_by",
        make_array(
            "Column headers to group by.",
            make_property(Some("string"), None, None, None),
        ),
    );
    push_member(
        &mut properties,
        "aggregate",
        make_array("What to compute. `count` takes no column.", make_aggregate_item()),
    );
    push_member(
        &mut properties,
        "limit",
        make_counted(Some(1), Some(200), "Groups returned. Default 20."),
    );
    let mut required: Vec<Json> = Vec::new();
    push_text(&mut required, "table");
    push_text(&mut required, "aggregate");
    proof {
        assert(json::entries(properties, properties@.len()) =~= query_table_properties());
        assert(json::trees(required, required@.len()) =~= texts(seq!["table"@, "aggregate"@]));
    }
    make_closed(properties, required)
}

pub open spec fn schema_properties() -> Seq<json::Entry> {
    seq![
        entry("workbook"@, worded("Path or hash. Optional when the corpus holds one."@)),
        entry("sheet"@, worded("Only relations whose formulas live on this sheet."@)),
        entry(
            "limit"@,
            counted(Some(1), Some(200), "Relations returned, heaviest first. Default 25."@),
        ),
    ]
}

/// The arguments of `schema`.
pub open spec fn schema_arguments() -> json::Tree {
    closed(schema_properties(), Seq::empty())
}

fn schema_schema() -> (r: Json)
    ensures
        json::tree(r) == schema_arguments(),
{
    let mut properties: Vec<Member> = Vec::new();
    push_member(
        &mut properties,
        "workbook",
        make_worded("Path or hash. Optional when the corpus holds one."),
    );
    push_member(
        &mut properties,
        "sheet",
        make_worded("Only relations whose formulas live on this sheet."),
    );
    push_member(
        &mut properties,
        "limit",
        make_counted(Some(1), Some(200), "Relations returned, heaviest first. Default 25."),
    );
    let required: Vec<Json> = Vec::new();
    proof {
        assert(json::entries(properties, properties@.len()) =~= schema_properties());
        assert(json::trees(required, required@.len()) =~= texts(Seq::empty()));
    }
    make_closed(properties, required)
}

pub open spec fn changes_members() -> Seq<json::Entry> {
    seq![
        entry("citation"@, worded("One cell, e.g. \"RATES!B4\"."@)),
        entry("value"@, anything("What to put there: a number, a string, or a boolean."@)),
    ]
}

/// An item of `changes`.
pub open spec fn changes_item() -> json::Tree {
    closed(changes_members(), seq!["citation"@, "value"@])
}

fn make_changes_item() -> (r: Json)
    ensures
        json::tree(r) == changes_item(),
{
    let mut properties: Vec<Member> = Vec::new();
    push_member(&mut properties, "citation", make_worded("One cell, e.g. \"RATES!B4\"."));
    push_member(
        &mut properties,
        "value",
        make_anything("What to put there: a number, a string, or a boolean."),
    );
    let mut required: Vec<Json> = Vec::new();
    push_text(&mut required, "citation");
    push_text(&mut required, "value");
    proof {
        assert(json::entries(properties, properties@.len()) =~= changes_members());
        assert(json::trees(required, required@.len()) =~= texts(seq!["citation"@, "value"@]));
    }
    make_closed(properties, required)
}

pub open spec fn what_if_properties() -> Seq<json::Entry> {
    seq![
        entry("changes"@, array("The substitutions to make."@, changes_item())),
        entry(
            "workbook"@,
            worded(
                "Which workbook (content hash, path or file name). Optional when the corpus holds one."@,
            ),
        ),
        entry(
            "levels"@,
            counted(
                Some(1),
                Some(32),
                "Levels of the dependency chain to follow, default 8. Each is a full scan."@,
            ),
        ),
        entry("limit"@, counted(Some(1), Some(500), "Most moved cells to list, default 40."@)),
    ]
}

/// The arguments of `what_if`.
pub open spec fn what_if_arguments() -> json::Tree {
    closed(what_if_properties(), seq!["changes"@])
}

fn what_if_schema() -> (r: Json)
    ensures
        json::tree(r) == what_if_arguments(),
{
    let mut properties: Vec<Member> = Vec::new();
    push_member(
        &mut properties,
        "changes",
        make_array("The substitutions to make.", make_changes_item()),
    );
    push_member(
        &mut properties,
        "workbook",
        make_worded(
            "Which workbook (content hash, path or file name). Optional when the corpus holds one.",
        ),
    );
    push_member(
        &mut properties,
        "levels",
        make_counted(
            Some(1),
            Some(32),
            "Levels of the dependency chain to follow, default 8. Each is a full scan.",
        ),
    );
    push_member(
        &mut properties,
        "limit",
        make_counted(Some(1), Some(500), "Most moved cells to list, default 40."),
    );
    let mut required: Vec<Json> = Vec::new();
    push_text(&mut required, "changes");
    proof {
        assert(json::entries(properties, properties@.len()) =~= what_if_properties());
        assert(json::trees(required, required@.len()) =~= texts(seq!["changes"@]));
    }
    make_closed(properties, required)
}

/// What `tools/list` reports, tool by tool.
pub open spec fn toolbox() -> Seq<Declaration> {
    seq![
        Declaration {
            name: "workbooks"@,
            description: "List the workbooks in this corpus: where each came from, how big it is, and the content hash that names it in every other tool."@,
            arguments: workbooks_arguments(),
        },
        Declaration {
            name: "search"@,
            description: "Find the parts of a workbook that match a question, by word and by meaning. Returns ranked nodes — sheets, tables, columns — with a citation for each. A hit is a door, not an answer: follow it with `context`."@,
            arguments: search_arguments(),
        },
        Declaration {
            name: "context"@,
            description: "Answer a question about a workbook with a cited passage: searches, walks the graph out to what explains the hits, and renders it. Every node is numbered and every relation names the node it came from, so the passage can be checked. Contains no cell values — it says where to look."@,
            arguments: context_arguments(),
        },
        Declaration {
            name: "read_cells"@,
            description: "Read the cells of a range: their formulas, and their values unless this server was started with values redacted. Opening a workbook takes seconds the first time and is then held open."@,
            arguments: range_arguments("The range to read, e.g. \"'Q3 Sales'!B2:D40\"."@),
        },
        Declaration {
            name: "precedents"@,
            description: "The cells a formula reads, resolved but not followed. Cheap: the answer is in the formula's own text."@,
            arguments: range_arguments("The cell or range whose formulas to read, e.g. \"Sheet1!D7\"."@),
        },
        Declaration {
            name: "dependents"@,
            description: "The cells whose formulas read a range. Expensive: nothing records who reads a cell, so every formula in the workbook is scanned — seconds on a large file, not milliseconds."@,
            arguments: range_arguments("The range to find readers of."@),
        },
        Declaration {
            name: "find_value"@,
            description: "Find the cells holding a value, by scanning every one of them. Use this when `search` comes back blind on a figure that is plainly in the workbook: the index carries a column's values only where there were few enough to keep, so a number from a large numeric column is in no index and cannot be. Expensive, for the same reason `dependents` is — nothing records where a value lives. Exhaustive, so a nil answer means the value is genuinely not there."@,
            arguments: find_value_arguments(),
        },
        Declaration {
            name: "recompute"@,
            description: "Recompute a formula from the stored values of the cells it reads, and say whether that agrees with the value the workbook has. Reports the inputs it used, so the verdict can be checked. What it cannot model it refuses by name rather than guessing."@,
            arguments: range_arguments("The cell or range to recompute, e.g. \"Sheet1!D7\"."@),
        },
        Declaration {
            name: "tables"@,
            description: "The tables of a workbook, or of one sheet: each one's range, its title,                       and its columns with the type of each. Start here before `query_table` — a                       query names columns by header, and this is what the headers are."@,
            arguments: tables_arguments(),
        },
        Declaration {
            name: "query_table"@,
            description: "Filter, group and total the rows of one table — the question a workbook                       only answers if somebody already wrote a cell for it. Names columns by                       header, from `tables`. Every answer carries the range it was computed                       over, because a table's boundaries are inferred and a totals row swept                       into the body would double every sum. Refuses rather than guesses: a                       header naming two columns, or a total over a column that is not numbers."@,
            arguments: query_table_arguments(),
        },
        Declaration {
            name: "schema"@,
            description: "The relations the workbook states in its own lookup formulas: which                       column keys into which table, and what comes back. A spreadsheet has no                       schema and declares one anyway, once per row. Use it to follow a value                       from one table to another. An approximate lookup is reported as a                       *banding* — a set of thresholds, not a key — because joining it on                       equality would be wrong."@,
            arguments: schema_arguments(),
        },
        Declaration {
            name: "what_if"@,
            description: "Change one or more cells and report every cell that moves because of it. Nothing is written: the workbook is read-only and the substitution lives in memory. Expensive in the same way `dependents` is — a full scan of the workbook's formulas per level of the chain — and it says what it could not answer rather than reporting those cells as unchanged."@,
            arguments: what_if_arguments(),
        },
    ]
}

/// The tools this server offers.
pub fn tools() -> (r: Vec<Tool>)
    ensures
        declarations(r@) == toolbox(),
{
    let mut out: Vec<Tool> = Vec::new();
    out.push(
        Tool {
            name: "workbooks",
            description: "List the workbooks in this corpus: where each came from, how big it is, and the content hash that names it in every other tool.",
            schema: workbooks_schema(),
        },
    );
    out.push(
        Tool {
            name: "search",
            description: "Find the parts of a workbook that match a question, by word and by meaning. Returns ranked nodes — sheets, tables, columns — with a citation for each. A hit is a door, not an answer: follow it with `context`.",
            schema: search_schema(),
        },
    );
    out.push(
        Tool {
            name: "context",
            description: "Answer a question about a workbook with a cited passage: searches, walks the graph out to what explains the hits, and renders it. Every node is numbered and every relation names the node it came from, so the passage can be checked. Contains no cell values — it says where to look.",
            schema: context_schema(),
        },
    );
    out.push(
        Tool {
            name: "read_cells",
            description: "Read the cells of a range: their formulas, and their values unless this server was started with values redacted. Opening a workbook takes seconds the first time and is then held open.",
            schema: cell_schema("The range to read, e.g. \"'Q3 Sales'!B2:D40\"."),
        },
    );
    out.push(
        Tool {
            name: "precedents",
            description: "The cells a formula reads, resolved but not followed. Cheap: the answer is in the formula's own text.",
            schema: cell_schema("The cell or range whose formulas to read, e.g. \"Sheet1!D7\"."),
        },
    );
    out.push(
        Tool {
            name: "dependents",
            description: "The cells whose formulas read a range. Expensive: nothing records who reads a cell, so every formula in the workbook is scanned — seconds on a large file, not milliseconds.",
            schema: cell_schema("The range to find readers of."),
        },
    );
    out.push(
        Tool {
            name: "find_value",
            description: "Find the cells holding a value, by scanning every one of them. Use this when `search` comes back blind on a figure that is plainly in the workbook: the index carries a column's values only where there were few enough to keep, so a number from a large numeric column is in no index and cannot be. Expensive, for the same reason `dependents` is — nothing records where a value lives. Exhaustive, so a nil answer means the value is genuinely not there.",
            schema: find_value_schema(),
        },
    );
    out.push(
        Tool {
            name: "recompute",
            description: "Recompute a formula from the stored values of the cells it reads, and say whether that agrees with the value the workbook has. Reports the inputs it used, so the verdict can be checked. What it cannot model it refuses by name rather than guessing.",
            schema: cell_schema("The cell or range to recompute, e.g. \"Sheet1!D7\"."),
        },
    );
    out.push(
        Tool {
            name: "tables",
            description: "The tables of a workbook, or of one sheet: each one's range, its title,                       and its columns with the type of each. Start here before `query_table` — a                       query names columns by header, and this is what the headers are.",
            schema: tables_schema(),
        },
    );
    out.push(
        Tool {
            name: "query_table",
            description: "Filter, group and total the rows of one table — the question a workbook                       only answers if somebody already wrote a cell for it. Names columns by                       header, from `tables`. Every answer carries the range it was computed                       over, because a table's boundaries are inferred and a totals row swept                       into the body would double every sum. Refuses rather than guesses: a                       header naming two columns, or a total over a column that is not numbers.",
            schema: query_table_schema(),
        },
    );
    out.push(
        Tool {
            name: "schema",
            description: "The relations the workbook states in its own lookup formulas: which                       column keys into which table, and what comes back. A spreadsheet has no                       schema and declares one anyway, once per row. Use it to follow a value                       from one table to another. An approximate lookup is reported as a                       *banding* — a set of thresholds, not a key — because joining it on                       equality would be wrong.",
            schema: schema_schema(),
        },
    );
    out.push(
        Tool {
            name: "what_if",
            description: "Change one or more cells and report every cell that moves because of it. Nothing is written: the workbook is read-only and the substitution lives in memory. Expensive in the same way `dependents` is — a full scan of the workbook's formulas per level of the chain — and it says what it could not answer rather than reporting those cells as unchanged.",
            schema: what_if_schema(),
        },
    );
    assert(declarations(out@) =~= toolbox());
    out
}

/// Each tool's arguments are an object that refuses members it does not know,
/// and everything that it requires, where it requires anything, is something it
/// declares.
pub open spec fn is_declared(arguments: json::Tree) -> bool {
    &&& arguments.text_at("type"@) == Some("object"@)
    &&& arguments.at("additionalProperties"@) == Some(json::Tree::Bool(false))
    &&& arguments.at("required"@) is Some ==> arguments.list_at("required"@) is Some
    &&& arguments.record_at("properties"@) matches Some(p) && (arguments.list_at(
        "required"@,
    ) matches Some(r) ==> forall|i: int|
        0 <= i < r.len() ==> names_property(#[trigger] r[i], p))
}

/// A value is the name of a declared property.
pub open spec fn names_property(v: json::Tree, properties: Seq<json::Entry>) -> bool {
    v.as_text() matches Some(key) && server::has_key(properties, key)
}

proof fn lemma_closed(properties: Seq<json::Entry>, required: Seq<Seq<char>>)
    requires
        forall|i: int|
            0 <= i < required.len() ==> exists|k: int|
                0 <= k < properties.len() && (#[trigger] properties[k]).key == #[trigger] required[i],
    ensures
        is_declared(closed(properties, required)),
{
    reveal_strlit("type");
    reveal_strlit("properties");
    reveal_strlit("required");
    reveal_strlit("additionalProperties");
    assert("type"@[0] == 't' && "properties"@[0] == 'p' && "required"@[0] == 'r'
        && "additionalProperties"@[0] == 'a');
    let m = closed(properties, required)->Record_0;
    reveal_with_fuel(json::key_place, 5);
    assert(m.drop_first()[0] == m[1]);
    assert(m.drop_first().drop_first()[0] == m[2]);
    if required.len() > 0 {
        assert(m.drop_first().drop_first().drop_first()[0] == m[3]);
    }
    assert(json::key_place(m, "type"@) == 0);
    assert(json::key_place(m, "properties"@) == 1);
    assert(json::key_place(m, "additionalProperties"@) == 2);
    assert(json::key_place(m, "required"@) == 3);
    let r = texts(required);
    assert forall|i: int| 0 <= i < r.len() implies names_property(#[trigger] r[i], properties) by {
        let key = required[i];
        let k = choose|k: int| 0 <= k < properties.len() && (#[trigger] properties[k]).key == key;
        json::lemma_key_place(properties, key);
    }
}

/// Every tool refuses arguments that it does not know, and declares every
/// argument that it requires.
pub proof fn every_tool_declares_what_it_requires(i: int)
    requires
        0 <= i < toolbox().len(),
    ensures
        is_declared(toolbox()[i].arguments),
{
    lemma_closed(Seq::empty(), Seq::empty());
    let p = search_properties();
    assert(p[0].key == "query"@);
    lemma_closed(p, seq!["query"@]);
    let p = context_properties();
    assert(p[0].key == "query"@);
    lemma_closed(p, seq!["query"@]);
    assert forall|citation: Seq<char>| #[trigger]
        is_declared(range_arguments(citation)) by {
        let p = range_properties(citation);
        assert(p[0].key == "citation"@);
        lemma_closed(p, seq!["citation"@]);
    }
    let p = find_value_properties();
    assert(p[0].key == "value"@);
    lemma_closed(p, seq!["value"@]);
    lemma_closed(tables_properties(), Seq::empty());
    let p = query_table_properties();
    assert(p[0].key == "table"@ && p[4].key == "aggregate"@);
    lemma_closed(p, seq!["table"@, "aggregate"@]);
    lemma_closed(schema_properties(), Seq::empty());
    let p = what_if_properties();
    assert(p[0].key == "changes"@);
    lemma_closed(p, seq!["changes"@]);
}

/// Arguments with a member that a tool does not declare are refused.
pub proof fn unknown_arguments_are_refused(
    arguments: json::Tree,
    given: Seq<json::Entry>,
    k: int,
    path: Seq<char>,
)
    requires
        is_declared(arguments),
        0 <= k < given.len(),
        arguments.record_at("properties"@) matches Some(p) && !server::has_key(p, given[k].key),
    ensures
        server::complaint(json::Tree::Record(given), arguments, path) is Some,
{
    lemma_unknown_key(given, arguments.record_at("properties"@), 0, k as nat);
}

proof fn lemma_unknown_key(
    given: Seq<json::Entry>,
    properties: Option<Seq<json::Entry>>,
    i: nat,
    k: nat,
)
    requires
        i <= k < given.len(),
        properties matches Some(p) && !server::has_key(p, given[k as int].key),
    ensures
        server::unknown_key(given, properties, i) is Some,
    decreases k - i,
{
    if i < k {
        lemma_unknown_key(given, properties, i + 1, k);
    }
}

} // verus!
