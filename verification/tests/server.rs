use excelgrag::json::{read, Json, Member};
use excelgrag::rpc::{self, code, Dispatch, Request, Response};
use excelgrag::search::{find_in, AfterProbes, AfterWords, Fusion};
use excelgrag::server::{tool_answered, validate_schema, Reply, Server, PROTOCOL_VERSION};
use excelgrag::state::{resolve, resolve_workbook_path, Candidate, CorpusEntry, Model, State};
use excelgrag::toolbox::tools;
use excelgrag::tools::{read_search, search, workbooks};
use excelgrag::args::{opt_str, want_str};
use excelgrag::workbook::Workbook;

fn json(text: &str) -> Json {
    read(text).expect("valid JSON")
}

fn server() -> Server {
    Server::new("0.1.0".to_string())
}

/// Run a tool over a corpus that holds nothing.
fn run(name: &str, args: &Json) -> Result<String, String> {
    let entries: Vec<CorpusEntry> = Vec::new();
    match name {
        "workbooks" => Ok(workbooks(&entries)),
        "search" => {
            let question = read_search(args, &entries)?;
            let fusion = if question.lexical_only { Fusion::lexical() } else { Fusion::default() };
            let probing = find_in(&question.query);
            let probes = probing.words.iter().map(|_| Some(Vec::new())).collect();
            let found = match probing.probed(&probes, false, question.wanted, &fusion) {
                AfterProbes::Done(s) => s,
                AfterProbes::Ask(by_word) => {
                    match by_word.ranked(Ok(Vec::new())).map_err(|e| e.message())? {
                        AfterWords::Done(s) => s,
                        AfterWords::Ask(_) => panic!("there is no meaning to ask for"),
                    }
                }
            };
            Ok(search(&question.query, &found, &Vec::new()))
        }
        _ => {
            let _citation = want_str(args, "citation")?;
            let named = opt_str(args, "workbook")?;
            let (_, path) = resolve(&entries, named.as_deref())?;
            panic!("an empty corpus has no {path}")
        }
    }
}

fn handle(server: &Server, request: &Request) -> Option<Response> {
    match server.handle(request) {
        Reply::Silence => None,
        Reply::Answer(response) => Some(response),
        Reply::Call { id, name, arguments } => Some(tool_answered(id, run(&name, &arguments))),
    }
}

fn dispatch_line(server: &Server, line: &str) -> Option<Response> {
    match rpc::dispatch_line(line) {
        Dispatch::Silence => None,
        Dispatch::Answer(response) => Some(response),
        Dispatch::Handle(request) => handle(server, &request),
    }
}

fn request(method: &str, params: &str) -> Request {
    rpc::read_request(&json(&format!(
        "{{\"id\": 1, \"method\": \"{method}\", \"params\": {params}}}"
    )))
    .expect("a well-formed request")
}

/// The value at a path of keys and places.
fn at<'a>(value: &'a Json, path: &[&str]) -> &'a Json {
    let mut value = value;
    for step in path {
        value = match value {
            Json::List(items) => &items[step.parse::<usize>().expect("a place")],
            other => other.get(step).unwrap_or_else(|| panic!("no {step}")),
        };
    }
    value
}

fn text_at<'a>(value: &'a Json, path: &[&str]) -> &'a str {
    match at(value, path) {
        Json::Text(s) => s,
        other => panic!("{other:?} is no text"),
    }
}

fn call(server: &Server, tool: &str, args: &str) -> (String, bool) {
    let response = handle(
        server,
        &request("tools/call", &format!("{{\"name\": \"{tool}\", \"arguments\": {args}}}")),
    )
    .expect("a call is not a notification");
    let result = response.result.expect("a result, not an error");
    let text = text_at(&result, &["content", "0", "text"]).to_string();
    (text, *at(&result, &["isError"]) == Json::Bool(true))
}

fn agreed(server: &Server, asked: &str) -> String {
    let response =
        handle(server, &request("initialize", &format!("{{\"protocolVersion\": \"{asked}\"}}")))
            .expect("initialize is answered");
    text_at(&response.result.expect("a result"), &["protocolVersion"]).to_string()
}

// ---- lines ------------------------------------------------------------------

#[test]
fn unparseable_json_is_parse_error_with_null_id() {
    let response = dispatch_line(&server(), "not json at all").expect("answered");
    assert_eq!(response.id, Json::Null);
    assert_eq!(response.error.expect("an error").code, code::PARSE_ERROR);
}

#[test]
fn valid_json_that_is_not_a_valid_request_keeps_its_id() {
    let response = dispatch_line(&server(), r#"{"jsonrpc":"2.0","id":7,"method":123}"#)
        .expect("answered");
    assert_eq!(response.id, json("7"));
    assert_eq!(response.error.expect("an error").code, code::INVALID_REQUEST);
}

#[test]
fn a_malformed_notification_gets_no_response() {
    let response = dispatch_line(&server(), r#"{"jsonrpc":"2.0","method":123}"#);
    assert!(response.is_none());
}

#[test]
fn a_well_formed_request_still_dispatches() {
    let response = dispatch_line(&server(), r#"{"jsonrpc":"2.0","id":1,"method":"ping"}"#)
        .expect("answered");
    assert_eq!(response.id, json("1"));
    assert!(response.result.is_some());
}

#[test]
fn an_explicit_null_id_is_owed_an_answer() {
    let response =
        dispatch_line(&server(), r#"{"id":null,"method":"ping"}"#).expect("answered");
    assert_eq!(response.id, Json::Null);
    assert_eq!(response.jsonrpc, "2.0");
    assert_eq!(response.result, Some(Json::Record(Vec::new())));
    let response =
        dispatch_line(&server(), r#"{"id":null,"method":5}"#).expect("answered");
    assert_eq!(response.error.expect("an error").code, code::INVALID_REQUEST);
}

#[test]
fn a_batch_is_answered_with_silence() {
    assert!(dispatch_line(&server(), r#"[{"id":1,"method":"ping"}]"#).is_none());
}

#[test]
fn a_blank_line_is_passed_over() {
    for line in ["", "  \t", "\u{3000}"] {
        assert!(matches!(rpc::serve_line(line), Dispatch::Silence));
    }
    match rpc::serve_line(" nonsense ") {
        Dispatch::Answer(r) => assert_eq!(r.error.expect("an error").code, code::PARSE_ERROR),
        _ => panic!("a line that is not JSON is answered"),
    }
}

#[test]
fn a_request_may_be_a_list_of_its_parts() {
    let response = dispatch_line(&server(), r#"[7, "ping", {}]"#).expect("answered");
    assert_eq!(response.id, json("7"));
    assert!(response.result.is_some());
    let response = dispatch_line(&server(), r#"["a", "tools/run"]"#).expect("answered");
    assert_eq!(response.id, json("\"a\""));
    assert_eq!(response.error.expect("an error").code, code::METHOD_NOT_FOUND);
    assert!(dispatch_line(&server(), r#"[null, "ping"]"#).is_none());
    let fault = |line: &str| rpc::read_request(&json(line)).unwrap_err();
    assert_eq!(fault("[]"), "invalid length 1, expected struct Request with 3 elements");
    assert_eq!(fault("[1]"), "invalid length 1, expected struct Request with 3 elements");
    assert_eq!(fault("[1, 2]"), "invalid type: integer `2`, expected a string");
    assert_eq!(
        fault(r#"[1, "ping", {}, 4]"#),
        "invalid length 4, expected fewer elements in array"
    );
    assert_eq!(fault("3"), "invalid type: integer `3`, expected struct Request");
    assert!(dispatch_line(&server(), "[1, 2]").is_none());
}

#[test]
fn the_codes_are_those_of_the_protocol() {
    assert_eq!(
        [
            code::PARSE_ERROR,
            code::INVALID_REQUEST,
            code::METHOD_NOT_FOUND,
            code::INVALID_PARAMS
        ],
        [-32700, -32600, -32601, -32602]
    );
}

#[test]
fn json_is_read_and_written() {
    let value = json(r#"{"b": [1, -2.5, "a\"b\n"], "a": null, "c": true}"#);
    let mut out = String::new();
    value.write(&mut out);
    assert_eq!(out, r#"{"a":null,"b":[1,-2.5,"a\"b\n"],"c":true}"#);
    assert_eq!(value.get_text("a"), None);
    assert_eq!(json(r#"{"n": 12}"#).get_whole("n"), Some(12));
    assert_eq!(json(r#"{"n": -12}"#).get_whole("n"), None);
    assert!(json("[1, {\"a\": 2}]").same(&json("[1,{\"a\":2}]")));
    assert!(!json("[1, 2]").same(&json("[1, 2.0]")));
    assert!(read("{").is_err());
    let member = |key: &str, value: &str| Member { key: key.to_string(), value: json(value) };
    let built = Json::Record(vec![member("b", "1"), member("a", "[2.50]"), member("b", "3")]);
    let mut out = String::new();
    built.write(&mut out);
    assert_eq!(out, r#"{"a":[2.5],"b":3}"#);
    for text in [
        "0",
        "18446744073709551615",
        "-7",
        "-9223372036854775808",
        "-0.0",
        "1e300",
        "5e-324",
        "0.30000000000000004",
        "3.1415926535897931",
        "9007199254740993.5",
        "123456789012345678901234567890",
    ] {
        let Json::Number(n) = json(text) else { panic!("{text} is a number") };
        let read = n.text.clone();
        let mut out = String::new();
        Json::Number(n).write(&mut out);
        assert_eq!(out, read, "{text} is written as it was read");
    }
}

// ---- methods ----------------------------------------------------------------

#[test]
fn initialize_agrees_on_a_version_and_offers_tools() {
    let response = handle(
        &server(),
        &request("initialize", &format!("{{\"protocolVersion\": \"{PROTOCOL_VERSION}\"}}")),
    )
    .expect("initialize is answered");
    let result = response.result.expect("a result");
    assert_eq!(text_at(&result, &["protocolVersion"]), PROTOCOL_VERSION);
    assert!(matches!(at(&result, &["capabilities", "tools"]), Json::Record(_)));
    assert_eq!(text_at(&result, &["serverInfo", "name"]), "excelgrag");
    assert_eq!(text_at(&result, &["serverInfo", "version"]), "0.1.0");
    assert!(!text_at(&result, &["instructions"]).is_empty());
}

#[test]
fn an_older_client_is_answered_in_its_own_version() {
    assert_eq!(agreed(&server(), "2024-11-05"), "2024-11-05");
    assert_eq!(agreed(&server(), "2099-01-01"), PROTOCOL_VERSION);
}

#[test]
fn only_whitelisted_versions_are_echoed() {
    assert_eq!(agreed(&server(), "2025-03-26"), PROTOCOL_VERSION);
    assert_eq!(agreed(&server(), "1.0"), PROTOCOL_VERSION);
}

#[test]
fn every_tool_declares_a_schema_that_matches_itself() {
    let response = handle(&server(), &request("tools/list", "{}")).expect("answered");
    let listed = response.result.expect("a result");
    let Json::List(shown) = at(&listed, &["tools"]) else { panic!("an array of tools") };
    assert_eq!(shown.len(), tools().len());
    for tool in shown {
        let name = text_at(tool, &["name"]);
        assert!(
            text_at(tool, &["description"]).len() > 40,
            "{name} needs a description a model can choose on"
        );
        let schema = at(tool, &["inputSchema"]);
        assert_eq!(text_at(schema, &["type"]), "object", "{name}");
        assert_eq!(
            *at(schema, &["additionalProperties"]),
            Json::Bool(false),
            "{name} should refuse arguments it does not know"
        );
        if let Some(Json::List(required)) = schema.get("required") {
            for key in required {
                let Json::Text(key) = key else { panic!("a property name") };
                assert!(
                    at(schema, &["properties"]).get(key).is_some(),
                    "{name} requires {key}, which it does not declare"
                );
            }
        }
    }
}

#[test]
fn the_tools_are_these_in_this_order() {
    let names: Vec<&str> = tools().iter().map(|t| t.name).collect();
    assert_eq!(
        names,
        [
            "workbooks",
            "search",
            "context",
            "read_cells",
            "precedents",
            "dependents",
            "find_value",
            "recompute",
            "tables",
            "query_table",
            "schema",
            "what_if"
        ]
    );
}

#[test]
fn descriptions_are_shown_as_they_are_spaced() {
    let gap = " ".repeat(22);
    for (name, part) in [
        ("tables", format!("its title, {gap}and its columns")),
        ("query_table", format!("a workbook {gap}only answers")),
        ("schema", format!("formulas: which {gap}column keys")),
    ] {
        let tool = tools().into_iter().find(|t| t.name == name).unwrap();
        assert!(tool.description.contains(&part), "{}", tool.description);
    }
}

#[test]
fn only_a_tool_that_requires_something_says_so() {
    for tool in tools() {
        let none = ["workbooks", "tables", "schema"].contains(&tool.name);
        assert_eq!(tool.schema.get("required").is_none(), none, "{}", tool.name);
    }
}

#[test]
fn an_unexpected_method_is_described() {
    let fault = |method: &str| {
        rpc::read_request(&json(&format!("{{\"method\": {method}}}"))).unwrap_err()
    };
    for (method, said) in [
        ("null", "null"),
        ("true", "boolean `true`"),
        ("7", "integer `7`"),
        ("-7", "integer `-7`"),
        ("1.5", "floating point `1.5`"),
        ("1e21", "floating point `1000000000000000000000.0`"),
        ("1e-7", "floating point `0.0000001`"),
        ("[1]", "sequence"),
        ("{}", "map"),
    ] {
        assert_eq!(fault(method), format!("invalid type: {said}, expected a string"));
    }
    assert_eq!(rpc::read_request(&json("{}")).unwrap_err(), "missing field `method`");
}

#[test]
fn a_notification_is_answered_with_silence() {
    let notification = rpc::read_request(&json(r#"{"method": "notifications/initialized"}"#))
        .expect("a notification");
    assert!(notification.is_notification());
    assert!(handle(&server(), &notification).is_none());
}

#[test]
fn an_unknown_method_is_a_protocol_error() {
    let response = handle(&server(), &request("tools/run", "{}")).expect("answered");
    let error = response.error.expect("an error");
    assert_eq!(error.code, code::METHOD_NOT_FOUND);
    assert_eq!(
        error.message,
        "this server implements initialize, tools/list, tools/call and ping, not \"tools/run\""
    );
}

#[test]
fn an_unknown_tool_is_a_protocol_error_but_a_failing_tool_is_not() {
    let unknown =
        handle(&server(), &request("tools/call", r#"{"name": "evaluate"}"#)).expect("answered");
    assert_eq!(unknown.error.expect("an error").code, code::INVALID_PARAMS);

    let (text, is_error) = call(&server(), "read_cells", r#"{"citation": "Sheet1!A1"}"#);
    assert!(is_error, "an empty corpus cannot answer, and says so in the result");
    assert!(text.contains("index a workbook"), "{text}");
}

#[test]
fn a_tool_that_needs_no_workbook_answers_an_empty_corpus() {
    let (text, is_error) = call(&server(), "workbooks", "{}");
    assert!(!is_error);
    assert!(text.contains("empty"), "{text}");
}

#[test]
fn a_missing_argument_is_reported_to_the_caller() {
    let (text, is_error) = call(&server(), "search", "{}");
    assert!(is_error);
    assert!(text.contains("query is required"), "{text}");
}

#[test]
fn searching_an_empty_corpus_finds_nothing_rather_than_failing() {
    let (text, is_error) = call(&server(), "search", r#"{"query": "bad debt"}"#);
    assert!(!is_error, "{text}");
    assert!(text.contains("nothing matched"), "{text}");
}

#[test]
fn tool_arguments_enforce_the_schema_the_server_advertises() {
    assert!(call(&server(), "workbooks", r#"{"surprise": true}"#).1);
    assert!(
        call(
            &server(),
            "query_table",
            r#"{"table": "Sheet1!A1:B2", "aggregate": [{"of": "count", "typo": true}]}"#
        )
        .1
    );
}

#[test]
fn zero_and_overlarge_limits_are_rejected_not_coerced() {
    for limit in [0, 101] {
        let args = format!("{{\"query\": \"revenue\", \"limit\": {limit}}}");
        assert!(call(&server(), "search", &args).1);
    }
}

#[test]
fn each_complaint_names_the_place_it_is_about() {
    let complaint = |value: &str, schema: &str| {
        validate_schema(&json(value), &json(schema), "arguments").unwrap_err()
    };
    assert_eq!(complaint("3", r#"{"type": "string"}"#), "arguments must be string");
    assert_eq!(
        complaint("\"c\"", r#"{"enum": ["a", "b"]}"#),
        "arguments is not one of the allowed values"
    );
    assert_eq!(complaint("0", r#"{"minimum": 1}"#), "arguments is below the minimum");
    assert_eq!(complaint("9", r#"{"maximum": 8}"#), "arguments is above the maximum");
    assert_eq!(
        complaint(r#"{"x": 1}"#, r#"{"properties": {}, "additionalProperties": false}"#),
        "arguments contains unknown property \"x\""
    );
    assert_eq!(complaint("{}", r#"{"required": ["k"]}"#), "arguments.k is required");
    assert_eq!(
        complaint(
            r#"{"k": [1, "a"]}"#,
            r#"{"properties": {"k": {"items": {"type": "integer"}}}}"#
        ),
        "arguments.k[1] must be integer"
    );
    assert_eq!(
        validate_schema(&json("[1, 2]"), &json(r#"{"items": {"type": "number"}}"#), "x"),
        Ok(())
    );
}

// ---- the corpus ---------------------------------------------------------------

fn entry(hash: &str, path: &str) -> CorpusEntry {
    CorpusEntry {
        hash: hash.to_string(),
        path: path.to_string(),
        file_name: path.rsplit('/').next().map(str::to_string),
        sheets: 1,
        cells: 8,
        nodes: 4,
        edges: 3,
    }
}

#[test]
fn a_workbook_is_named_by_hash_path_or_file_name() {
    let corpus = vec![entry("abc123", "/a/one.xlsx"), entry("abd456", "/b/two.xlsx")];
    let two = Ok(("abd456".to_string(), "/b/two.xlsx".to_string()));
    assert_eq!(resolve(&corpus, Some("abd")), two);
    assert_eq!(resolve(&corpus, Some("/b/two.xlsx")), two);
    assert_eq!(resolve(&corpus, Some("two.xlsx")), two);
    assert_eq!(
        resolve(&corpus, Some("ab")),
        Err("\"ab\" matches 2 workbooks; be more specific".to_string())
    );
    assert_eq!(
        resolve(&corpus, Some("x")),
        Err("no workbook in this corpus matches \"x\"".to_string())
    );
    assert!(resolve(&corpus, None).unwrap_err().contains("holds 2 workbooks"));
    assert_eq!(
        resolve(&vec![entry("abc123", "/a/one.xlsx")], None),
        Ok(("abc123".to_string(), "/a/one.xlsx".to_string()))
    );
    assert!(resolve(&Vec::new(), None).unwrap_err().contains("index a workbook first"));
    assert_eq!(
        workbooks(&vec![entry("abcdef0123456789", "/a/one.xlsx")]),
        "1 workbook(s)\nabcdef012345  /a/one.xlsx\n    1 sheets, 8 cells, 4 nodes, 3 edges\n"
    );
}

#[test]
fn a_hash_is_cut_by_its_bytes() {
    let shown = |hash: &str| {
        let out = workbooks(&vec![entry(hash, "p")]);
        out.lines().nth(1).unwrap().strip_suffix("  p").unwrap().to_string()
    };
    assert_eq!(shown("0123456789abcdef"), "0123456789ab");
    assert_eq!(shown("short"), "short");
    assert_eq!(shown("\u{e9}\u{e9}\u{e9}\u{e9}\u{e9}\u{e9}zz"), "\u{e9}".repeat(6));
    assert_eq!(shown("0123456789a\u{e9}"), "0123456789a");
}

#[test]
fn an_entry_knows_the_file_name_of_its_path() {
    let of = |path: &str| {
        CorpusEntry::of("h".to_string(), path.to_string(), 1, 2, 3, 4).file_name
    };
    assert_eq!(of("/a/b/one.xlsx").as_deref(), Some("one.xlsx"));
    assert_eq!(of("one.xlsx").as_deref(), Some("one.xlsx"));
    assert_eq!(of("/a/.."), None);
    let e = CorpusEntry::of("h".to_string(), "/a/one.xlsx".to_string(), 1, 2, 3, 4);
    assert_eq!((e.sheets, e.cells, e.nodes, e.edges), (1, 2, 3, 4));
    assert_eq!(resolve(&vec![e], Some("one.xlsx")).unwrap().1, "/a/one.xlsx");
}

fn candidate(path: &str, exists: bool) -> Candidate {
    Candidate { path: path.to_string(), exists }
}

#[test]
fn a_relative_path_resolves_beside_the_corpus_directory() {
    let places = vec![candidate("/root/corpus/book.xlsx", false), candidate("/root/book.xlsx", true)];
    let resolved = resolve_workbook_path("book.xlsx", false, false, &places).unwrap();
    assert_eq!(resolved, "/root/book.xlsx");
}

#[test]
fn a_relative_path_resolves_inside_the_corpus_directory_too() {
    let places = vec![candidate("/root/corpus/book.xlsx", true), candidate("/root/book.xlsx", true)];
    let resolved = resolve_workbook_path("book.xlsx", false, false, &places).unwrap();
    assert_eq!(resolved, "/root/corpus/book.xlsx");
    assert_eq!(resolve_workbook_path("book.xlsx", true, false, &places).unwrap(), "book.xlsx");
}

#[test]
fn an_absolute_path_that_is_actually_gone_says_so_without_a_fallback() {
    let places = vec![candidate("/nowhere/book.xlsx", true)];
    let err = resolve_workbook_path("/nowhere/book.xlsx", false, true, &places).unwrap_err();
    assert!(err.contains("there is no file there now"), "{err}");
    assert!(!err.contains("resolves from neither"), "{err}");
}

#[test]
fn a_relative_path_that_resolves_nowhere_names_the_ambiguity() {
    let places = vec![candidate("/root/corpus/x.xlsx", false), candidate("/root/x.xlsx", false)];
    let err = resolve_workbook_path("x.xlsx", false, false, &places).unwrap_err();
    assert!(
        err.contains("resolves from neither"),
        "must distinguish this from a plainly-gone absolute path: {err}"
    );
    assert!(err.contains("re-index"), "{err}");
}

#[test]
fn a_model_is_tried_once() {
    let mut state = State::open("corpus".to_string(), Vec::new(), true);
    assert!(state.redact_values);
    assert!(state.wants_model());
    assert!(!state.semantic(Some(5)));
    state.model_tried(false);
    assert!(!state.wants_model());
    state.model_tried(true);
    assert_eq!(state.model, Model::Failed);
    assert!(!state.semantic(Some(5)));

    let mut state = State::open("corpus".to_string(), Vec::new(), false);
    state.model_tried(true);
    assert!(state.semantic(Some(5)));
    assert!(!state.semantic(Some(0)));
    assert!(!state.semantic(None));
}

#[test]
fn a_workbook_is_kept_under_its_stored_path() {
    let mut state = State::open(
        "corpus".to_string(),
        vec![entry("abc123", "/a/one.xlsx"), entry("abd456", "/b/two.xlsx")],
        false,
    );
    assert!(state.workbook("/a/one.xlsx").is_none());
    let named = |name: &str| {
        let mut w = Workbook::default();
        w.content_hash = name.to_string();
        w
    };
    state.keep("/a/one.xlsx", named("abc123"));
    state.keep("/b/two.xlsx", named("abd456"));
    assert_eq!(state.workbook("/a/one.xlsx").unwrap().content_hash, "abc123");
    assert_eq!(state.workbook("/b/two.xlsx").unwrap().content_hash, "abd456");
    assert!(state.workbook("one.xlsx").is_none());
    assert_eq!(state.resolve(Some("one.xlsx")).unwrap().1, "/a/one.xlsx");
}
