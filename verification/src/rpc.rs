//! JSON-RPC 2.0, a line at a time.
//!
//! The transport is newline-delimited JSON: one object per line, no framing
//! header.

use crate::json;
use crate::json::{Json, JsonNumber};
use crate::text;
use crate::text::{chars_of, debug_str, find_char, push_decimal, scan_digits, trim};
use vstd::prelude::*;

pub mod code;

verus! {

/// One request from the client. `id` is absent for a notification, which is a
/// message the client does not expect an answer to.
#[derive(Debug, PartialEq, Eq)]
pub struct Request {
    pub id: Option<Json>,
    pub method: String,
    pub params: Json,
}

impl Request {
    pub fn is_notification(&self) -> (r: bool)
        ensures
            r == (self.id is None),
    {
        self.id.is_none()
    }
}

#[derive(Debug, PartialEq, Eq)]
pub struct Response {
    pub jsonrpc: &'static str,
    pub id: Json,
    pub result: Option<Json>,
    pub error: Option<RpcError>,
}

#[derive(Debug, PartialEq, Eq)]
pub struct RpcError {
    pub code: i32,
    pub message: String,
}

/// What a [`Response`] says.
#[verifier::ext_equal]
pub enum Answer {
    Result { id: json::Tree, result: json::Tree },
    Failure { id: json::Tree, code: i32, message: Seq<char> },
}

impl Response {
    /// The response says an answer.
    pub open spec fn says(self, a: Answer) -> bool {
        &&& self.jsonrpc@ == "2.0"@
        &&& match a {
            Answer::Result { id, result } => json::tree(self.id) == id && self.error is None && (
            self.result matches Some(r) && json::tree(r) == result),
            Answer::Failure { id, code, message } => json::tree(self.id) == id && self.result is None
                && (self.error matches Some(e) && e.code == code && e.message@ == message),
        }
    }

    pub fn ok(id: Json, result: Json) -> (r: Self)
        ensures
            r.says(Answer::Result { id: json::tree(id), result: json::tree(result) }),
    {
        Response { jsonrpc: "2.0", id, result: Some(result), error: None }
    }

    pub fn err(id: Json, code: i32, message: String) -> (r: Self)
        ensures
            r.says(Answer::Failure { id: json::tree(id), code, message: message@ }),
    {
        Response { jsonrpc: "2.0", id, result: None, error: Some(RpcError { code, message }) }
    }

    /// A response to a request whose id could not be read: the id is null rather
    /// than left out.
    pub fn anonymous_err(code: i32, message: String) -> (r: Self)
        ensures
            r.says(Answer::Failure { id: json::Tree::Null, code, message: message@ }),
    {
        Response::err(Json::Null, code, message)
    }
}

// ---------------------------------------------------------------------------
// Reading a request.

/// A number without a fraction or an exponent.
pub open spec fn is_integer(n: json::Numeral) -> bool {
    let digits = if n.text.len() > 0 && n.text[0] == '-' {
        1int
    } else {
        0
    };
    text::digit_run(n.text, digits) == n.text.len()
}

/// A number that is no integer, in full and with a decimal point.
pub open spec fn with_point(n: json::Numeral) -> Seq<char> {
    match n.shown {
        Some(t) => if t.contains('.') {
            t
        } else {
            t + ".0"@
        },
        None => n.text,
    }
}

/// How an unexpected value is described.
pub open spec fn described(t: json::Tree) -> Seq<char> {
    match t {
        json::Tree::Null => "null"@,
        json::Tree::Bool(b) => if b {
            "boolean `true`"@
        } else {
            "boolean `false`"@
        },
        json::Tree::Number(n) => if is_integer(n) {
            "integer `"@ + n.text + "`"@
        } else {
            "floating point `"@ + with_point(n) + "`"@
        },
        json::Tree::Text(s) => "string "@ + text::debug_text(s),
        json::Tree::List(_) => "sequence"@,
        json::Tree::Record(_) => "map"@,
    }
}

/// What is not expected, and what is.
pub open spec fn mistyped(t: json::Tree, expected: Seq<char>) -> Seq<char> {
    "invalid type: "@ + described(t) + ", expected "@ + expected
}

/// What keeps a value from being a request. Besides an object, a list of an id, a
/// method and parameters is one, the last of them optional; a batch is not, for a
/// message in it is no method.
pub open spec fn request_fault(t: json::Tree) -> Option<Seq<char>> {
    match t {
        json::Tree::Record(_) => match t.at("method"@) {
            None => Some("missing field `method`"@),
            Some(json::Tree::Text(_)) => None,
            Some(other) => Some(mistyped(other, "a string"@)),
        },
        json::Tree::List(v) => if v.len() < 2 {
            Some("invalid length 1, expected struct Request with 3 elements"@)
        } else if !(v[1] is Text) {
            Some(mistyped(v[1], "a string"@))
        } else if v.len() > 3 {
            Some(
                "invalid length "@ + text::decimal(v.len())
                    + ", expected fewer elements in array"@,
            )
        } else {
            None
        },
        _ => Some(mistyped(t, "struct Request"@)),
    }
}

/// The id that a message was sent under. In an object an explicit null counts as
/// one; in a list it stands for none.
pub open spec fn sent_id(t: json::Tree) -> Option<json::Tree> {
    match t {
        json::Tree::List(v) => if v.len() > 0 && !(v[0] is Null) {
            Some(v[0])
        } else {
            None
        },
        _ => t.at("id"@),
    }
}

/// The method of a message, where it names one.
pub open spec fn sent_method(t: json::Tree) -> Option<Seq<char>> {
    match t {
        json::Tree::List(v) => if v.len() > 1 {
            v[1].as_text()
        } else {
            None
        },
        _ => t.text_at("method"@),
    }
}

/// The parameters of a message.
pub open spec fn sent_params(t: json::Tree) -> json::Tree {
    match t {
        json::Tree::List(v) => if v.len() > 2 {
            v[2]
        } else {
            json::Tree::Null
        },
        _ => match t.at("params"@) {
            Some(p) => p,
            None => json::Tree::Null,
        },
    }
}

/// A request has the id, the method and the parameters of a value.
pub open spec fn is_request(r: Request, t: json::Tree) -> bool {
    &&& match r.id {
        Some(id) => sent_id(t) == Some(json::tree(id)),
        None => sent_id(t) is None,
    }
    &&& sent_method(t) == Some(r.method@)
    &&& json::tree(r.params) == sent_params(t)
}

fn looks_whole(text: &str) -> (r: bool)
    ensures
        r == is_integer(json::Numeral { whole: None, bits: None, shown: None, text: text@ }),
{
    let chars: Vec<char> = chars_of(text);
    let from: usize = if chars.len() > 0 && chars[0] == '-' {
        1
    } else {
        0
    };
    scan_digits(chars.as_slice(), from) == chars.len()
}

fn float_text(n: &JsonNumber) -> (r: String)
    ensures
        r@ == with_point(n.says()),
{
    match &n.float {
        Some(f) => {
            let chars: Vec<char> = chars_of(f.text.as_str());
            let at: usize = find_char(chars.as_slice(), '.', 0);
            proof {
                text::lemma_position(chars@, '.', 0);
            }
            let mut out: String = f.text.clone();
            if at >= chars.len() {
                out.push_str(".0");
            }
            out
        },
        None => n.text.clone(),
    }
}

fn describe_value(value: &Json) -> (r: String)
    ensures
        r@ == described(json::tree(*value)),
{
    match value {
        Json::Null => "null".to_owned(),
        Json::Bool(b) => if *b {
            "boolean `true`".to_owned()
        } else {
            "boolean `false`".to_owned()
        },
        Json::Number(n) => {
            if looks_whole(n.text.as_str()) {
                let mut out: String = "integer `".to_owned();
                out.push_str(n.text.as_str());
                out.push_str("`");
                out
            } else {
                let mut out: String = "floating point `".to_owned();
                out.push_str(float_text(n).as_str());
                out.push_str("`");
                out
            }
        },
        Json::Text(s) => {
            let mut out: String = "string ".to_owned();
            out.push_str(debug_str(s.as_str()).as_str());
            out
        },
        Json::List(_) => "sequence".to_owned(),
        Json::Record(_) => "map".to_owned(),
    }
}

fn mistyped_text(value: &Json, expected: &str) -> (r: String)
    ensures
        r@ == mistyped(json::tree(*value), expected@),
{
    let mut out: String = "invalid type: ".to_owned();
    out.push_str(describe_value(value).as_str());
    out.push_str(", expected ");
    out.push_str(expected);
    out
}

/// Read a request off a list of its parts.
fn read_parts(value: &Json, parts: &Vec<Json>) -> (r: Result<Request, String>)
    requires
        *value == Json::List(*parts),
    ensures
        match r {
            Ok(request) => request_fault(json::tree(*value)) is None && is_request(
                request,
                json::tree(*value),
            ),
            Err(e) => request_fault(json::tree(*value)) == Some(e@),
        },
{
    let count: usize = parts.len();
    proof {
        json::lemma_trees(*parts, parts@.len());
    }
    if count < 2 {
        return Err("invalid length 1, expected struct Request with 3 elements".to_owned());
    }
    let method: String = match &parts[1] {
        Json::Text(s) => s.clone(),
        other => return Err(mistyped_text(other, "a string")),
    };
    if count > 3 {
        let mut out: String = "invalid length ".to_owned();
        push_decimal(&mut out, count as u64);
        out.push_str(", expected fewer elements in array");
        return Err(out);
    }
    let id: Option<Json> = match &parts[0] {
        Json::Null => None,
        other => Some(other.clone()),
    };
    let params: Json = if count > 2 {
        parts[2].clone()
    } else {
        Json::Null
    };
    Ok(Request { id, method, params })
}

/// Read a request off a JSON value.
pub fn read_request(value: &Json) -> (r: Result<Request, String>)
    ensures
        match r {
            Ok(request) => request_fault(json::tree(*value)) is None && is_request(
                request,
                json::tree(*value),
            ),
            Err(e) => request_fault(json::tree(*value)) == Some(e@),
        },
{
    match value {
        Json::Record(_) => {},
        Json::List(parts) => return read_parts(value, parts),
        _ => return Err(mistyped_text(value, "struct Request")),
    }
    let method: String = match value.get("method") {
        None => return Err("missing field `method`".to_owned()),
        Some(Json::Text(s)) => s.clone(),
        Some(other) => return Err(mistyped_text(other, "a string")),
    };
    let id: Option<Json> = match value.get("id") {
        Some(id) => Some(id.clone()),
        None => None,
    };
    let params: Json = match value.get("params") {
        Some(p) => p.clone(),
        None => Json::Null,
    };
    Ok(Request { id, method, params })
}

// ---------------------------------------------------------------------------
// A line of input.

/// What becomes of a line.
pub enum Dispatch {
    /// No reply is owed.
    Silence,
    Answer(Response),
    /// The server is to handle it.
    Handle(Request),
}

/// What becomes of a line that reads as JSON, or does not.
///
/// Whether a message is owed a reply is read off the presence of its `id`, an
/// explicit null included, before anything else can go wrong with it: a client
/// that waits for an answer gets one under the id it sent, and one that does not
/// wait gets none even for a malformed message. A list that is no request has no
/// member that could be its id.
pub open spec fn dispatches(d: Dispatch, read: Result<json::Tree, Seq<char>>) -> bool {
    match read {
        Err(e) => d matches Dispatch::Answer(r) && r.says(
            Answer::Failure {
                id: json::Tree::Null,
                code: code::PARSE_ERROR,
                message: "could not read that line as JSON: "@ + e,
            },
        ),
        Ok(t) => match (request_fault(t), t.at("id"@)) {
            (None, _) => d matches Dispatch::Handle(r) && is_request(r, t),
            (Some(e), Some(id)) => d matches Dispatch::Answer(r) && r.says(
                Answer::Failure {
                    id,
                    code: code::INVALID_REQUEST,
                    message: "not a valid JSON-RPC request: "@ + e,
                },
            ),
            (Some(e), None) => d is Silence,
        },
    }
}

/// Decide what becomes of a line that reads as JSON, or does not.
pub fn dispatch(read: Result<Json, String>) -> (r: Dispatch)
    ensures
        dispatches(
            r,
            match read {
                Ok(j) => Ok(json::tree(j)),
                Err(e) => Err(e@),
            },
        ),
{
    let value: Json = match read {
        Ok(v) => v,
        Err(e) => {
            let mut message: String = "could not read that line as JSON: ".to_owned();
            message.push_str(e.as_str());
            return Dispatch::Answer(Response::anonymous_err(code::PARSE_ERROR, message));
        },
    };
    match read_request(&value) {
        Ok(request) => Dispatch::Handle(request),
        Err(e) => match value.get("id") {
            Some(id) => {
                let mut message: String = "not a valid JSON-RPC request: ".to_owned();
                message.push_str(e.as_str());
                Dispatch::Answer(Response::err(id.clone(), code::INVALID_REQUEST, message))
            },
            None => Dispatch::Silence,
        },
    }
}

/// Read a line and decide what becomes of it, in two stages: is it JSON at all,
/// then is it a request.
pub fn dispatch_line(line: &str) -> (r: Dispatch)
    ensures
        dispatches(r, json::parsed(line@)),
{
    dispatch(json::read(line))
}

/// What becomes of a line as it comes in: a blank one is passed over, and any
/// other is a message.
pub fn serve_line(line: &str) -> (r: Dispatch)
    ensures
        text::trimmed(line@).len() == 0 ==> r is Silence,
        text::trimmed(line@).len() > 0 ==> dispatches(r, json::parsed(line@)),
{
    let chars: Vec<char> = chars_of(line);
    if trim(chars.as_slice()).len() == 0 {
        Dispatch::Silence
    } else {
        dispatch_line(line)
    }
}

/// A message without an id is never answered, whatever is wrong with it.
pub proof fn a_message_without_an_id_gets_no_answer(d: Dispatch, t: json::Tree)
    requires
        dispatches(d, Ok(t)),
        sent_id(t) is None,
    ensures
        !(d is Answer),
        d matches Dispatch::Handle(r) ==> r.id is None,
{
}

/// A message with an id is answered under that id, or handled with it. Only an
/// object that is no request has its id to be answered under.
pub proof fn an_answer_keeps_the_id(d: Dispatch, t: json::Tree, id: json::Tree)
    requires
        dispatches(d, Ok(t)),
        t.at("id"@) == Some(id) || (sent_id(t) == Some(id) && request_fault(t) is None),
    ensures
        match d {
            Dispatch::Silence => false,
            Dispatch::Answer(r) => json::tree(r.id) == id && r.error is Some,
            Dispatch::Handle(r) => r.id matches Some(x) && json::tree(x) == id,
        },
{
}

} // verus!
