use excelgrag::address::{CellRef, RangeRef, SheetId};
use excelgrag::args::{
    cell_value, opt_array, opt_bool, opt_bounded, opt_str, opt_usize, read_aggregate, read_filter,
    read_query, want_str, Aggregate, Test,
};
use excelgrag::cell::{Cell, CellValue, Number};
use excelgrag::context::{render, Rendered};
use excelgrag::expand::{
    expand, group_hits, Hit, Retrieved, StoredGraph, WorkbookContext,
};
use excelgrag::graph::{Edge, EdgeKind, Node, NodeKind, WorkbookGraph};
use excelgrag::json::{read, Json};
use excelgrag::search::{find_in, AfterProbes, AfterWords, Fusion, Search};
use excelgrag::state::CorpusEntry;
use excelgrag::tools::{
    context, dependents, find_value, listed_tables, note_of, nothing_matched, populated_in,
    precedents, query_table, read_cells, read_changes, read_context, read_expansion, read_probe,
    read_rendering, read_search, read_what_if, recompute_tool, resolve_range, schema, search, show,
    show_formula, table_at, tables, what_if_tool, Applied, Blocked, CellFact, Dependent, Impact,
    ImpactReport, Input, Lookup, Moved, Outcome, Preceding, QueryAnswer, QueryGroup, ReadRef, Recomputed,
    Recomputing, ScanReport, Schema, Unanswered,
};
use excelgrag::workbook::{Sheet, Workbook, WorkbookFormat};

fn json(text: &str) -> Json {
    read(text).expect("valid JSON")
}

fn bare(n: f64) -> Number {
    Number { bits: n.to_bits(), text: format!("{n}") }
}

fn num(n: f64) -> CellValue {
    CellValue::Number(bare(n))
}

fn text(s: &str) -> CellValue {
    CellValue::Text(s.to_string())
}

fn grid(id: u16, name: &str, rows: &[&str]) -> Sheet {
    let mut sheet = Sheet::new(SheetId(id), name);
    for (r, line) in rows.iter().enumerate() {
        for (c, tok) in line.split_whitespace().enumerate() {
            let value = match tok.parse::<f64>() {
                Ok(n) => num(n),
                Err(_) => text(tok),
            };
            sheet.set(r as u32, c as u16, Cell::literal(value));
        }
    }
    sheet
}

fn one_sheet_workbook(hash: &str, path: &str, sheet_name: &str) -> Workbook {
    let mut wb = Workbook::default();
    wb.path = path.into();
    wb.format = Some(WorkbookFormat::Xlsx);
    wb.content_hash = hash.into();
    wb.sheets =
        vec![grid(0, sheet_name, &["Region Revenue", "North 10", "South 20", "East 30"])];
    wb
}

fn book() -> Workbook {
    let mut wb = one_sheet_workbook("hash", "book.xlsx", "Sales");
    wb.sheets[0].set(
        4,
        1,
        Cell {
            value: num(60.0),
            formula: Some("SUM(B2:B4)".to_string()),
            format: Default::default(),
        },
    );
    wb
}

fn fact(a1: &str, formula: Option<&str>, value: CellValue) -> CellFact {
    CellFact { a1: a1.to_string(), formula: formula.map(str::to_string), value }
}

// ---- two workbooks, each with a column called Revenue -------------------------

fn two_workbooks() -> Vec<Workbook> {
    vec![
        one_sheet_workbook("hash-alpha", "alpha.xlsx", "Alpha Sales"),
        one_sheet_workbook("hash-beta", "beta.xlsx", "Beta Sales"),
    ]
}

fn entries(corpus: &[Workbook]) -> Vec<CorpusEntry> {
    corpus
        .iter()
        .map(|w| CorpusEntry {
            hash: w.content_hash.clone(),
            path: w.path.clone(),
            file_name: Some(w.path.clone()),
            sheets: 1,
            cells: 8,
            nodes: 4,
            edges: 3,
        })
        .collect()
}

fn stored(w: &Workbook) -> StoredGraph {
    let contains = Edge { kind: EdgeKind::Contains, weight: 1 };
    let sheet = Some(SheetId(0));
    let table = RangeRef::new(SheetId(0), 0, 0, 3, 1);
    let column = RangeRef::new(SheetId(0), 1, 1, 3, 1);
    let mut graph = WorkbookGraph::new();
    let root = graph.add_node(Node {
        kind: NodeKind::Workbook,
        label: w.path.clone(),
        range: None,
        sheet: None,
        cell_count: 8,
    });
    let page = graph.add_node(Node {
        kind: NodeKind::Sheet,
        label: w.sheets[0].name.clone(),
        range: None,
        sheet,
        cell_count: 8,
    });
    let region = graph.add_node(Node {
        kind: NodeKind::Region,
        label: table.to_a1(),
        range: Some(table),
        sheet,
        cell_count: 8,
    });
    let revenue = graph.add_node(Node {
        kind: NodeKind::Column,
        label: "Revenue".to_string(),
        range: Some(column),
        sheet,
        cell_count: 3,
    });
    graph.add_edge(root, page, contains);
    graph.add_edge(page, region, contains);
    graph.add_edge(region, revenue, contains);
    StoredGraph { content_hash: w.content_hash.clone(), path: w.path.clone(), graph }
}

/// The columns called by a word, in the workbooks a question lets through.
fn hits_for(corpus: &[Workbook], word: &str, only: Option<&str>) -> Vec<Hit> {
    corpus
        .iter()
        .filter(|w| only.map_or(true, |hash| hash == w.content_hash))
        .filter(|_| word.eq_ignore_ascii_case("revenue"))
        .map(|w| Hit {
            score: 1.0f32.to_bits(),
            workbook: w.content_hash.clone(),
            path: w.path.clone(),
            node: 3,
            kind: NodeKind::Column,
            sheet: Some(w.sheets[0].name.clone()),
            label: "Revenue".to_string(),
            a1: Some(format!("'{}'!B2:B4", w.sheets[0].name)),
        })
        .collect()
}

fn find(corpus: &[Workbook], query: &str, wanted: usize, only: Option<&str>) -> Search {
    let probing = find_in(query);
    let probes =
        probing.words.iter().map(|w| Some(hits_for(corpus, &w.word, only))).collect();
    match probing.probed(&probes, false, wanted, &Fusion::lexical()) {
        AfterProbes::Done(s) => s,
        AfterProbes::Ask(by_word) => match by_word.ranked(Ok(hits_for(corpus, query, only))) {
            Ok(AfterWords::Done(s)) => s,
            _ => panic!("words alone end the search"),
        },
    }
}

fn context_of(corpus: &[Workbook], args: &str) -> Result<String, String> {
    let args = json(args);
    let question = read_context(&args, &entries(corpus))?;
    let found = find(corpus, &question.query, question.wanted, question.workbook.as_deref());
    if found.is_empty() {
        return Ok(nothing_matched(&question.query, &found));
    }
    let groups = group_hits(&found.hits);
    let graphs = groups
        .iter()
        .map(|g| corpus.iter().find(|w| w.content_hash == g.workbook).map(stored))
        .collect();
    let retrieved = expand(&groups, &graphs, &read_expansion(&args)?);
    let rendered = render(&retrieved, &read_rendering(&args)?);
    Ok(context(&question.query, &found, &retrieved, &rendered))
}

#[test]
fn context_can_be_scoped_to_one_workbook() {
    let corpus = two_workbooks();

    let unscoped =
        context_of(&corpus, r#"{"query": "revenue", "lexical_only": true}"#).expect("answered");
    assert!(unscoped.contains("alpha.xlsx") || unscoped.contains("Alpha"));
    assert!(unscoped.contains("beta.xlsx") || unscoped.contains("Beta"));

    let scoped = context_of(
        &corpus,
        r#"{"query": "revenue", "workbook": "hash-alpha", "lexical_only": true}"#,
    )
    .expect("answered");
    assert!(scoped.contains("Alpha") || scoped.contains("alpha.xlsx"), "{scoped}");
    assert!(
        !scoped.contains("Beta") && !scoped.contains("beta.xlsx"),
        "a workbook filter must not let the other workbook's nodes into the passage: {scoped}"
    );
    assert!(scoped.ends_with("\n---\n4 node(s) from 1 seed(s), 2 citation(s)\n"), "{scoped}");
}

#[test]
fn a_tool_call_surfaces_the_type_error_rather_than_a_wrong_answer() {
    let err = read_search(&json(r#"{"query": "revenue", "limit": "3"}"#), &entries(&two_workbooks()))
        .expect_err("a string limit must be refused");
    assert!(err.contains("limit"), "{err}");
}

#[test]
fn a_search_shows_what_it_was_found_on_before_its_hits() {
    let found = find(&two_workbooks(), "revenue", 8, Some("hash-beta"));
    assert_eq!(
        search("revenue", &found, &vec!["1.00".to_string()]),
        "Matched: the top result matches \"revenue\" of 1\n\n1 hit(s) for \"revenue\"\n  1.00  \
         column   Revenue\n          'Beta Sales'!B2:B4\n\nFollow one with `context` for what \
         explains it, or `read_cells` for the cells.\n"
    );
    let nothing = find(&two_workbooks(), "zebra", 8, None);
    assert_eq!(search("zebra", &nothing, &Vec::new()), "\"zebra\" — nothing matched.");
}

#[test]
fn a_miss_says_what_came_of_looking() {
    let figure = find(&two_workbooks(), "1612", 8, None);
    assert_eq!(
        search("1612", &figure, &Vec::new()),
        "\"1612\" — nothing matched; \"1612\" is a number, and a column's values are indexed only \
         where its profile kept them — scan the cells (`find_value`, `eg where`) before concluding \
         it is absent."
    );
    let frame = find(&two_workbooks(), "show me all", 8, None);
    let said = "every word in the question is a frame word — ask with the terms you want found.\n\n\
                \"show me all\" — the question carried no content word to search on.";
    assert_eq!(search("show me all", &frame, &Vec::new()), said);
    assert_eq!(nothing_matched("show me all", &frame), said);
    assert_eq!(
        context_of(&two_workbooks(), r#"{"query": "zebra"}"#).unwrap(),
        "\"zebra\" — nothing matched."
    );
    let none = (Retrieved::default(), Rendered::default());
    assert_eq!(context("show me all", &frame, &none.0, &none.1), said);
}

#[test]
fn what_is_missing_from_a_passage_is_said_below_it() {
    let found = find(&two_workbooks(), "revenue", 8, None);
    let retrieved = Retrieved {
        workbooks: vec![WorkbookContext {
            content_hash: "0123456789abcdef".into(),
            path: "p".into(),
            nodes: Vec::new(),
            truncated: false,
            stale_seeds: vec![4, 9],
        }],
        missing_workbooks: vec!["fedcba9876543210".into()],
    };
    let rendered = Rendered { omitted: 2, ..Rendered::default() };
    let out = context("revenue", &found, &retrieved, &rendered);
    assert!(out.ends_with(
        "\n---\n0 node(s) from 2 seed(s), 0 citation(s), 2 omitted to fit\nfedcba987654: matched \
         in the index but is not in the corpus — reindex\n0123456789ab: 2 seed(s) the index \
         ranked no longer exist in the stored graph — reindex to refresh it\n"
    ), "{out}");
}

// ---- arguments ------------------------------------------------------------------

#[test]
fn a_string_where_an_integer_belongs_is_refused_not_defaulted() {
    let err = opt_usize(&json(r#"{"limit": "3"}"#), "limit", 8).unwrap_err();
    assert!(err.contains("limit") && err.contains("integer"), "{err}");
}

#[test]
fn a_negative_number_for_an_integer_argument_is_refused() {
    let err = opt_usize(&json(r#"{"limit": -3}"#), "limit", 8).unwrap_err();
    assert!(err.contains("limit"), "{err}");
}

#[test]
fn a_fractional_number_for_an_integer_argument_is_refused() {
    let err = opt_usize(&json(r#"{"limit": 3.5}"#), "limit", 8).unwrap_err();
    assert!(err.contains("limit"), "{err}");
}

#[test]
fn a_number_where_a_boolean_belongs_is_refused_not_defaulted() {
    let err = opt_bool(&json(r#"{"lexical_only": 1}"#), "lexical_only").unwrap_err();
    assert!(err.contains("lexical_only") && err.contains("boolean"), "{err}");
}

#[test]
fn a_number_where_a_string_belongs_is_refused_not_defaulted() {
    let err = opt_str(&json(r#"{"sheet": 3}"#), "sheet").unwrap_err();
    assert!(err.contains("sheet") && err.contains("string"), "{err}");
}

#[test]
fn a_wrong_typed_list_argument_is_refused_rather_than_dropped() {
    let one = json(r#"{"where": {"column": "Type"}}"#);
    let err = opt_array(&one, "where").unwrap_err();
    assert!(err.contains("where") && err.contains("array"), "{err}");
    assert!(opt_array(&json(r#"{"aggregate": "sum"}"#), "aggregate").is_err());
    assert_eq!(opt_array(&json("{}"), "where"), Ok(&[][..]));
    assert_eq!(opt_array(&json(r#"{"where": null}"#), "where"), Ok(&[][..]));
}

#[test]
fn an_absent_or_null_argument_still_takes_its_default() {
    assert_eq!(opt_usize(&json("{}"), "limit", 8), Ok(8));
    assert_eq!(opt_usize(&json(r#"{"limit": null}"#), "limit", 8), Ok(8));
    assert_eq!(opt_bool(&json("{}"), "lexical_only"), Ok(false));
    assert_eq!(opt_str(&json("{}"), "sheet"), Ok(None));
    assert_eq!(opt_str(&json(r#"{"sheet": null}"#), "sheet"), Ok(None));
}

#[test]
fn a_bounded_argument_keeps_to_its_bounds() {
    let args = json(r#"{"limit": 501, "table": "x"}"#);
    assert_eq!(
        opt_bounded(&args, "limit", 40, 1, 500),
        Err("limit must be between 1 and 500, got 501".to_string())
    );
    assert_eq!(opt_bounded(&args, "other", 40, 1, 500), Ok(40));
    assert_eq!(want_str(&args, "table"), Ok("x".to_string()));
    assert_eq!(want_str(&args, "citation"), Err("citation is required, as a string".to_string()));
}

#[test]
fn a_cell_value_is_what_a_cell_could_hold() {
    assert_eq!(cell_value(&json("2.5")), Ok(num(2.5)));
    assert_eq!(cell_value(&json("\"a\"")), Ok(text("a")));
    assert_eq!(cell_value(&json("true")), Ok(CellValue::Bool(true)));
    assert_eq!(cell_value(&json("null")), Ok(CellValue::Empty));
    assert_eq!(
        cell_value(&json(r#"[1, {"k": "v"}]"#)),
        Err("a cell holds a number, a string, a boolean or nothing — not [1,{\"k\":\"v\"}]"
            .to_string())
    );
}

#[test]
fn conditions_and_aggregates_are_read_or_refused_by_name() {
    let filter = |s: &str| read_filter(&json(s));
    assert_eq!(filter(r#"{"column": "A", "test": "above", "value": 3}"#).unwrap().test, Test::Above(bare(3.0)));
    assert_eq!(
        filter(r#"{"column": "A", "test": "one_of", "value": ["x", 1]}"#).unwrap().test,
        Test::OneOf(vec![text("x"), num(1.0)])
    );
    assert_eq!(filter(r#"{"column": "A", "test": "blank"}"#).unwrap().test, Test::Blank);
    assert_eq!(filter(r#"{"test": "is"}"#).unwrap_err(), "each condition needs a `column`");
    assert_eq!(filter(r#"{"column": "A"}"#).unwrap_err(), "each condition needs a `test`");
    assert_eq!(
        filter(r#"{"column": "A", "test": "is"}"#).unwrap_err(),
        "`is` needs a `value`"
    );
    assert_eq!(
        filter(r#"{"column": "A", "test": "below", "value": "3"}"#).unwrap_err(),
        "`below` needs a number in `value`"
    );
    assert_eq!(
        filter(r#"{"column": "A", "test": "contains", "value": 3}"#).unwrap_err(),
        "`contains` needs text in `value`"
    );
    assert_eq!(
        filter(r#"{"column": "A", "test": "one_of", "value": 3}"#).unwrap_err(),
        "`one_of` needs a list in `value`"
    );
    assert_eq!(
        filter(r#"{"column": "A", "test": "like", "value": 3}"#).unwrap_err(),
        "no test called \"like\""
    );
    let aggregate = |s: &str| read_aggregate(&json(s));
    assert_eq!(aggregate(r#"{"of": "count"}"#), Ok(Aggregate::Count));
    assert_eq!(aggregate(r#"{"of": "sum", "column": "A"}"#), Ok(Aggregate::Sum("A".into())));
    assert_eq!(aggregate(r#"{"of": "sum"}"#).unwrap_err(), "`sum` needs a `column`");
    assert_eq!(aggregate(r#"{}"#).unwrap_err(), "each aggregate needs an `of`");
    assert_eq!(aggregate(r#"{"of": "mode"}"#).unwrap_err(), "no aggregate called \"mode\"");

    let query = read_query(&json(
        r#"{"where": [{"column": "A", "test": "failed"}], "group_by": ["B"],
            "aggregate": [{"of": "count"}]}"#,
    ))
    .unwrap();
    assert_eq!(query.limit, 20);
    assert_eq!(query.filters.len(), 1);
    assert_eq!(query.group_by, vec!["B".to_string()]);
    assert_eq!(query.aggregates, vec![Aggregate::Count]);
    assert_eq!(
        read_query(&json(r#"{"group_by": [1]}"#)).unwrap_err(),
        "group_by takes column headers as strings"
    );
}

// ---- cells -----------------------------------------------------------------------

#[test]
fn formula_redaction_drops_literals_the_way_read_cells_and_recompute_print_them() {
    let formula = "IF(A2=\"Smith, John\",B2*0.15,0)";
    assert_eq!(show_formula(formula, false), formula);
    assert_eq!(show_formula(formula, true), "IF(A2=<text>,B2*<number>,<number>)");
    assert_eq!(
        show_formula("VLOOKUP(A1,Rates!A1:B9,2,FALSE)", true),
        "VLOOKUP(A1,Rates!A1:B9,<number>,FALSE)"
    );
}

#[test]
fn a_value_shows_as_itself_or_as_its_kind() {
    assert_eq!(show(&text("a\"b\n\u{e9}"), false), "\"a\\\"b\\n\u{e9}\"");
    assert_eq!(show(&num(2.5), false), "2.5");
    assert_eq!(show(&text("secret"), true), "<text>");
    assert_eq!(show(&num(2.5), true), "<number>");
    assert_eq!(note_of("b.xlsx", Some("1.5")), "(opened b.xlsx in 1.5s)\n");
    assert_eq!(note_of("b.xlsx", None), "");
}

#[test]
fn a_citation_names_a_sheet_of_the_workbook() {
    let w = book();
    assert_eq!(resolve_range(&w, "sales!B2"), Ok(RangeRef::new(SheetId(0), 1, 1, 1, 1)));
    assert_eq!(
        resolve_range(&w, "B2").unwrap_err(),
        "\"B2\" names no sheet. A citation needs one, e.g. \"Sheet1!B2\"."
    );
    assert_eq!(
        resolve_range(&w, "Other!B2").unwrap_err(),
        "no sheet called \"Other\". This workbook has: Sales"
    );
    assert!(resolve_range(&w, "Sales!").unwrap_err().starts_with("\"Sales!\" is not an A1 range: "));
    let column = resolve_range(&w, "Sales!B:B").unwrap();
    let cells: Vec<u32> = populated_in(&w, column).iter().map(|(at, _)| at.row).collect();
    assert_eq!(cells, [0, 1, 2, 3, 4]);
}

#[test]
fn read_cells_prints_each_cell_and_redacts_both_its_halves() {
    let w = book();
    let range = resolve_range(&w, "Sales!B4:B5").unwrap();
    let cells = vec![
        fact("Sales!B4", None, num(30.0)),
        fact("Sales!B5", Some("B4*2"), num(60.0)),
    ];
    assert_eq!(
        read_cells(&w, range, "note\n", &cells, true, false),
        "note\nSales!B4:B5 — 2 populated cell(s), capped\n  Sales!B4                  30\n  \
         Sales!B5                 =B4*2  60\n"
    );
    assert_eq!(
        read_cells(&w, range, "", &cells, false, true),
        "Sales!B4:B5 — 2 populated cell(s)\n  Sales!B4                  <number>\n  \
         Sales!B5                 =B4*<number>  <number>\n"
    );
    assert_eq!(
        read_cells(&w, range, "", &Vec::new(), false, false),
        "Sales!B4:B5 — 0 populated cell(s)\n  nothing populated in that range\n"
    );
}

#[test]
fn references_are_listed_in_both_directions() {
    let w = book();
    let range = resolve_range(&w, "Sales!B5").unwrap();
    let at = CellRef { sheet: SheetId(0), row: 4, col: 1 };
    let reads = || ReadRef { at, text: "B2:B4".into(), target: "Sales!B2:B4".into() };
    assert_eq!(
        precedents(&w, range, "", &vec![reads(), reads()], 1),
        "Sales!B5 reads\n  Sales!B5                 B2:B4 → Sales!B2:B4\n  … more, raise limit\n"
    );
    assert_eq!(
        precedents(&w, range, "", &Vec::new(), 1),
        "Sales!B5 reads\n  nothing — no formulas in that range\n"
    );
    let report = ScanReport { matches: 2, scanned: 9, capped: true, other_kind: 0 };
    let refs = vec![Dependent { from: at, text: "B2:B4".into() }];
    assert_eq!(
        dependents(&w, range, "", &refs, &report),
        "Sales!B5 is read by 2 formula(s), of 9 scanned\n  Sales!B5                 B2:B4\n  \
         … more, raise limit\n"
    );
    assert!(dependents(&w, range, "", &Vec::new(), &report)
        .ends_with("  nothing in this workbook reads it\n"));
}

#[test]
fn every_range_that_is_listed_can_be_queried() {
    let mut w = book();
    w.sheets.push(grid(
        1,
        "Q3 Plan",
        &["Quarter", ". .", "Line Net Tax", "a 1 2", "b 3 4", ". . .", ". . . . K V", ". . . . x 1"],
    ));
    for table in listed_tables(&w, None) {
        let printed = w.cite_range(table.body);
        assert_eq!(table_at(&w, &printed).unwrap(), table, "{printed}");
    }
}

#[test]
fn precedents_are_asked_for_until_there_are_too_many() {
    let mut w = book();
    for row in 5..9 {
        w.sheets[0].set(
            row,
            1,
            Cell {
                value: num(1.0),
                formula: Some(format!("B{row}+1")),
                format: Default::default(),
            },
        );
    }
    let range = resolve_range(&w, "Sales!B:B").unwrap();
    let mut asking = Preceding::of(&w, range, 3);
    assert_eq!(asking.cells.len(), 5, "the cells without a formula are not asked");
    let mut asked = Vec::new();
    while let Some(at) = asking.ask() {
        asked.push(at.row);
        let read = |t: &str| ReadRef { at, text: t.into(), target: format!("Sales!{t}") };
        asking.told(vec![read("B1"), read("B2")]);
    }
    assert_eq!(asked, [4, 5]);
    assert_eq!(asking.reads.len(), 4);
    assert!(precedents(&w, range, "", &asking.reads, 3).ends_with("B1 → Sales!B1\n  … more, raise limit\n"));
}

#[test]
fn a_value_that_is_not_there_is_said_to_be_absent() {
    assert_eq!(read_probe(&json(r#"{"value": 1612}"#)), Ok(num(1612.0)));
    assert_eq!(read_probe(&json("{}")).unwrap_err(), "value is required — the value to find");
    assert_eq!(
        read_probe(&json(r#"{"value": null}"#)).unwrap_err(),
        "value names nothing to look for; an empty cell is not a value"
    );
    let report = ScanReport { matches: 0, scanned: 9, capped: false, other_kind: 1 };
    let out = find_value("", &num(1612.0), &Vec::new(), &report, false);
    assert!(out.starts_with("0 cell(s) hold 1612, of 9 scanned\n  1 more cell(s) show the same"));
    assert!(out.ends_with("the value is not in this workbook\n"));
    let some = ScanReport { matches: 3, scanned: 9, capped: true, other_kind: 0 };
    assert_eq!(
        find_value("", &text("x"), &vec![fact("Sales!A1", None, text("x"))], &some, true),
        "3 cell(s) hold <text>, of 9 scanned\n  Sales!A1                  <text>\n  … more, raise \
         limit\n"
    );
}

#[test]
fn recomputing_stops_asking_at_its_limit() {
    let mut w = book();
    for row in 5..8 {
        w.sheets[0].set(
            row,
            1,
            Cell {
                value: num(1.0),
                formula: Some(format!("B{row}+1")),
                format: Default::default(),
            },
        );
    }
    let range = resolve_range(&w, "Sales!B1:B9").unwrap();
    let mut doing = Recomputing::of(&w, range, 2);
    assert_eq!(doing.cells.len(), 4);
    let mut asked = 0;
    while let Some(at) = doing.ask() {
        asked += 1;
        let result = if asked == 1 {
            None
        } else {
            Some(Recomputed {
                a1: w.cite(at),
                formula: "B5+1".into(),
                outcome: if asked == 2 {
                    Outcome::Agrees(num(1.0))
                } else {
                    Outcome::Differs { computed: num(2.0), stored: num(1.0) }
                },
                inputs: vec![
                    Input { a1: "Sales!B5".into(), text: "B5".into(), value: Some(num(60.0)), cells: 1 },
                    Input { a1: "Sales!B2:B4".into(), text: "B2:B4".into(), value: None, cells: 3 },
                ],
            })
        };
        doing.told(result);
    }
    assert_eq!(asked, 3, "one was no formula after all, two were recomputed");
    assert!(doing.has_more());
    assert_eq!(
        recompute_tool(&w, range, "", &doing, &None, false),
        "Sales!B6\n  =B5+1\n  agrees with the stored value 1\n    Sales!B5                 B5      \
         \u{20}    60\n    Sales!B2:B4              B2:B4        3 cells\nSales!B7\n  =B5+1\n  \
         DIFFERS — computed 2, stored 1\n    Sales!B5                 B5           60\n    \
         Sales!B2:B4              B2:B4        3 cells\n… more, raise limit\n"
    );
    let none = Recomputing::of(&w, resolve_range(&w, "Sales!B2").unwrap(), 5);
    let corner = Some(fact("Sales!B2", None, num(10.0)));
    assert_eq!(
        recompute_tool(&w, range, "", &none, &corner, true),
        "Sales!B2 holds no formula — <number> is a literal, and there is nothing to recompute.\n"
    );
    assert_eq!(
        recompute_tool(&w, range, "", &none, &None, true),
        "Sales!B1:B9 is empty — nothing to recompute.\n"
    );
}

// ---- what if ---------------------------------------------------------------------

#[test]
fn a_change_names_one_cell_and_a_value() {
    let w = book();
    let args = json(r#"{"changes": [{"citation": "Sales!B2", "value": 11}]}"#);
    let limits = read_what_if(&args).unwrap();
    assert_eq!((limits.levels, limits.limit), (8, 40));
    let changes = read_changes(&w, &args).unwrap();
    assert_eq!(changes.len(), 1);
    assert_eq!(changes[0].at, CellRef { sheet: SheetId(0), row: 1, col: 1 });
    assert_eq!(changes[0].value, num(11.0));
    assert_eq!(
        read_changes(&w, &json(r#"{"changes": [{"citation": "Sales!B2:B3", "value": 1}]}"#))
            .unwrap_err(),
        "\"Sales!B2:B3\" is 2 cells. A change names one."
    );
    assert_eq!(
        read_changes(&w, &json(r#"{"changes": [{"citation": "Sales!B2"}]}"#)).unwrap_err(),
        "\"Sales!B2\" has no value to put in it"
    );
    assert_eq!(
        read_what_if(&json("{}")).unwrap_err(),
        "changes is required, as an array of {citation, value}"
    );
    assert_eq!(
        read_what_if(&json(r#"{"changes": []}"#)).unwrap_err(),
        "changes is empty — name at least one cell to change"
    );
    assert!(read_what_if(&json(r#"{"changes": [1], "levels": 33}"#)).is_err());
}

#[test]
fn the_reach_of_a_change_is_told_with_what_has_no_answer() {
    let report = ImpactReport {
        affected: 4,
        levels: 2,
        moved: 2,
        unchanged: 0,
        blocked: 2,
        stopped: Some("the level limit".into()),
        moved_not_listed: 1,
    };
    let impact = Impact {
        changes: vec![Applied {
            a1: "Sales!B2".into(),
            before: num(10.0),
            after: num(11.0),
            replaced_formula: Some("A1*2".into()),
        }],
        report,
        moved: vec![Moved {
            a1: "Sales!B5".into(),
            formula: "SUM(B2:B4)".into(),
            before: num(60.0),
            after: num(61.0),
            level: 1,
            was_stale: true,
        }],
        unanswered: vec![
            Unanswered { a1: "Sales!C1".into(), reason: Blocked::Cycle },
            Unanswered { a1: "Sales!C2".into(), reason: Blocked::Upstream("Sales!C1".into()) },
        ],
    };
    assert_eq!(
        what_if_tool("", &impact, false),
        "Sales!B2                 10 → 11\n  replacing =A1*2\n\n4 cell(s) downstream over 2 \
         level(s): 2 moved, 0 unchanged, 2 with no answer\nthe walk stopped at the level limit — \
         the change reaches further than this\n\nmoved (1 of 2)\n  Sales!B5                 \
         =SUM(B2:B4)\n    60 → 61   (level 1)  — this cell already disagreed with its stored \
         value\n  … 1 more, raise limit\n\nno answer (2 of 2) — the change reaches these and this \
         cannot say where it leaves them\n  Sales!C1                 circular reference\n  \
         Sales!C2                 reads Sales!C1, which has no answer\n"
    );
}

// ---- tables ----------------------------------------------------------------------

#[test]
fn the_tables_of_a_workbook_are_listed_and_found_by_range() {
    let w = one_sheet_workbook("h", "book.xlsx", "Sales");
    let found = listed_tables(&w, None);
    assert_eq!(found.len(), 1);
    assert!(listed_tables(&w, Some("Other")).is_empty());
    assert_eq!(
        tables(&w, "book.xlsx", Some("0.5"), &found, 40),
        format!(
            "book.xlsx opened in 0.5s\n\nSales!{}\n  3 row(s), {} column(s)\n{}\nQuery one with \
             `query_table`, naming its range and its column headers.\n",
            found[0].body.to_a1(),
            found[0].columns.len(),
            found[0]
                .columns
                .iter()
                .map(|c| format!(
                    "    {:<38} {:<7} {} populated\n",
                    c.header,
                    c.kind.as_str(),
                    c.populated
                ))
                .collect::<String>()
        )
    );
    assert_eq!(tables(&w, "b", None, &Vec::new(), 40), "no tables found\n");
    assert!(tables(&w, "b", None, &found, 0).contains("… 1 more table(s) not listed\n"));
    assert_eq!(table_at(&w, "Sales!A1:B4").unwrap().body, found[0].body);
    assert_ne!(found[0].body.to_a1(), "A1:B4", "the listing leaves the header out");
    assert_eq!(table_at(&w, &w.cite_range(found[0].body)).unwrap(), found[0]);
    assert_eq!(
        table_at(&w, "Sales!A1:B3").unwrap_err(),
        "Sales!A1:B3 is not a table of this workbook — `tables` lists the ranges that are"
    );
}

#[test]
fn an_answer_names_the_range_it_was_computed_over() {
    let w = book();
    let answer = QueryAnswer {
        over: RangeRef::new(SheetId(0), 1, 0, 3, 1),
        rows_scanned: 3,
        rows_matched: 2,
        rows_with_errors: 1,
        errors_in_aggregates: 1,
        groups: vec![
            QueryGroup {
                key: vec![text("North"), num(1.0)],
                rows: 2,
                values: vec![Some(bare(30.0)), None, None],
                counts: vec![None, Some(2), None],
            },
        ],
        groups_not_listed: 3,
    };
    let labels = vec!["sum(Revenue)".to_string(), "count".to_string(), "max(Revenue)".to_string()];
    assert_eq!(
        query_table(&w, "book.xlsx", None, &answer, &labels, false),
        "over Sales!A2:B4\n3 row(s) scanned, 2 matched\n1 row(s) dropped: the column a filter \
         tested held an error value\n1 error cell(s) left out of the totals — check the column \
         before trusting them\n\n  \"North\" / 1  (2 rows)  sum(Revenue) 30, count 2, \
         max(Revenue) —\n  … 3 more group(s), raise `limit`\n"
    );
    assert!(query_table(&w, "b", None, &answer, &labels, true)
        .contains("  <text> / <number>  (2 rows)  sum(Revenue) <number>, count 2, max(Revenue) —\n"));
}

#[test]
fn a_schema_lists_the_relations_its_lookups_state() {
    let w = book();
    let range = |a, b| RangeRef::new(SheetId(0), 1, a, 3, b);
    let found = || Schema {
        lookups: vec![Lookup {
            kind: "VLOOKUP".into(),
            from: range(2, 2),
            key: Some(range(0, 0)),
            table: range(0, 1),
            column: Some(2),
            result: Some(range(1, 1)),
            cells: 3,
            approximate: true,
        }],
        with_lookups: 1,
        unrecognised: 1,
        unresolvable: 2,
    };
    assert_eq!(
        schema(&w, "b", None, &found(), None, 25),
        "1 relation(s) stated by 1 lookup formula group(s) (1 shape(s) not read, 2 pointing \
         outside this workbook)\n\nVLOOKUP Sales!C2:C4\n  key Sales!A2:A4 → Sales!A2:B4 column \
         2\n  returns Sales!B2:B4\n  3 formula cell(s)  [approximate — a banding over thresholds, \
         not a key to join on]\n"
    );
    assert!(schema(&w, "b", None, &found(), Some("Other"), 25).ends_with("no lookup relations here\n"));
    assert!(schema(&w, "b", None, &found(), None, 0).ends_with("\n… 1 more relation(s)\n"));
}
