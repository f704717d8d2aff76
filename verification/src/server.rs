//! The protocol's methods, over JSON values.
//!
//! Four methods carry the whole protocol for a server that only offers tools:
//! `initialize` to agree on a version, `tools/list` to say what there is,
//! `tools/call` to run one, and `ping`. Notifications are accepted and answered
//! with silence.
//!
//! A failing tool is not a failing call: the result comes back with `isError`
//! set and the reason as text, so the caller can read what went wrong and try
//! something else. Protocol errors are reserved for the protocol itself.

use crate::json;
use crate::json::{find_key, Json, Member};
use crate::rpc;
use crate::rpc::{code, Request, Response};
use crate::text;
use crate::text::{debug_str, push_decimal, same_text};
use crate::toolbox;
use crate::toolbox::{push_member, tools, Tool};
use vstd::prelude::*;

verus! {

// ---------------------------------------------------------------------------
// Checking arguments against a schema.

/// A value is of the kind that a schema names; a kind that is not known says
/// nothing.
pub open spec fn is_of_kind(v: json::Tree, kind: Seq<char>) -> bool {
    &&& kind == "object"@ ==> v is Record
    &&& kind == "array"@ ==> v is List
    &&& kind == "string"@ ==> v is Text
    &&& kind == "integer"@ ==> v.as_whole() is Some
    &&& kind == "number"@ ==> v is Number
    &&& kind == "boolean"@ ==> v is Bool
}

/// A value is among some.
pub open spec fn is_allowed(v: json::Tree, allowed: Seq<json::Tree>) -> bool {
    exists|i: int| 0 <= i < allowed.len() && json::same_tree(#[trigger] allowed[i], v)
}

pub open spec fn has_key(m: Seq<json::Entry>, key: Seq<char>) -> bool {
    json::key_place(m, key) < m.len()
}

/// The first key from `i` on that is not among the properties.
pub open spec fn unknown_key(
    m: Seq<json::Entry>,
    properties: Option<Seq<json::Entry>>,
    i: nat,
) -> Option<Seq<char>>
    decreases m.len() - i,
{
    if i >= m.len() {
        None
    } else if properties matches Some(p) && has_key(p, m[i as int].key) {
        unknown_key(m, properties, i + 1)
    } else {
        Some(m[i as int].key)
    }
}

/// The first required key from `i` on that a record does not have.
pub open spec fn missing_key(
    m: Seq<json::Entry>,
    required: Seq<json::Tree>,
    i: nat,
) -> Option<Seq<char>>
    decreases required.len() - i,
{
    if i >= required.len() {
        None
    } else {
        match required[i as int].as_text() {
            Some(key) if !has_key(m, key) => Some(key),
            _ => missing_key(m, required, i + 1),
        }
    }
}

/// What is wrong with the kind of a value.
pub open spec fn kind_complaint(v: json::Tree, s: json::Tree, path: Seq<char>) -> Option<
    Seq<char>,
> {
    match s.text_at("type"@) {
        Some(kind) if !is_of_kind(v, kind) => Some(path + " must be "@ + kind),
        _ => None,
    }
}

/// What is wrong with the choice of a value.
pub open spec fn choice_complaint(v: json::Tree, s: json::Tree, path: Seq<char>) -> Option<
    Seq<char>,
> {
    match s.list_at("enum"@) {
        Some(allowed) if !is_allowed(v, allowed) => Some(
            path + " is not one of the allowed values"@,
        ),
        _ => None,
    }
}

/// What is wrong with the size of a value.
pub open spec fn bound_complaint(v: json::Tree, s: json::Tree, path: Seq<char>) -> Option<
    Seq<char>,
> {
    match v.as_whole() {
        None => None,
        Some(n) => if s.whole_at("minimum"@) matches Some(min) && n < min {
            Some(path + " is below the minimum"@)
        } else if s.whole_at("maximum"@) matches Some(max) && n > max {
            Some(path + " is above the maximum"@)
        } else {
            None
        },
    }
}

/// What is wrong with the keys of a record.
pub open spec fn key_complaint(m: Seq<json::Entry>, s: json::Tree, path: Seq<char>) -> Option<
    Seq<char>,
> {
    let properties = s.record_at("properties"@);
    let unknown = if s.at("additionalProperties"@) matches Some(json::Tree::Bool(b)) && !b {
        unknown_key(m, properties, 0)
    } else {
        None
    };
    let missing = match s.list_at("required"@) {
        Some(required) => missing_key(m, required, 0),
        None => None,
    };
    match (unknown, missing) {
        (Some(key), _) => Some(path + " contains unknown property "@ + text::debug_text(key)),
        (None, Some(key)) => Some(path + "."@ + key + " is required"@),
        (None, None) => None,
    }
}

/// The first thing that is wrong with a value, by a schema: `type`, `enum`,
/// `minimum`, `maximum`, `additionalProperties`, `required`, `properties` and
/// `items` are what it may say.
pub open spec fn complaint(v: json::Tree, s: json::Tree, path: Seq<char>) -> Option<Seq<char>>
    decreases v, 0nat,
{
    if kind_complaint(v, s, path) is Some {
        kind_complaint(v, s, path)
    } else if choice_complaint(v, s, path) is Some {
        choice_complaint(v, s, path)
    } else if bound_complaint(v, s, path) is Some {
        bound_complaint(v, s, path)
    } else {
        match v {
            json::Tree::Record(m) => if key_complaint(m, s, path) is Some {
                key_complaint(m, s, path)
            } else {
                match s.record_at("properties"@) {
                    Some(p) => member_complaint(m, p, path, 0),
                    None => None,
                }
            },
            json::Tree::List(items) => match s.at("items"@) {
                Some(item) => item_complaint(items, item, path, 0),
                None => None,
            },
            _ => None,
        }
    }
}

/// The first thing that is wrong with a member from `i` on.
pub open spec fn member_complaint(
    m: Seq<json::Entry>,
    p: Seq<json::Entry>,
    path: Seq<char>,
    i: nat,
) -> Option<Seq<char>>
    decreases m, m.len() - i,
{
    if i >= m.len() {
        None
    } else {
        let e = m[i as int];
        let k = json::key_place(p, e.key);
        let found = if k < p.len() {
            complaint(e.value, p[k].value, path + "."@ + e.key)
        } else {
            None
        };
        if found is Some {
            found
        } else {
            member_complaint(m, p, path, i + 1)
        }
    }
}

/// The first thing that is wrong with an item from `i` on.
pub open spec fn item_complaint(
    items: Seq<json::Tree>,
    item: json::Tree,
    path: Seq<char>,
    i: nat,
) -> Option<Seq<char>>
    decreases items, items.len() - i,
{
    if i >= items.len() {
        None
    } else {
        let found = complaint(items[i as int], item, path + "["@ + text::decimal(i) + "]"@);
        if found is Some {
            found
        } else {
            item_complaint(items, item, path, i + 1)
        }
    }
}

/// A result says what a complaint says.
pub open spec fn reports(r: Result<(), String>, c: Option<Seq<char>>) -> bool {
    match r {
        Ok(_) => c is None,
        Err(e) => c == Some(e@),
    }
}

/// Two texts, one behind the other.
fn beside(a: &str, b: &str) -> (r: String)
    ensures
        r@ == a@ + b@,
{
    let mut out: String = a.to_owned();
    out.push_str(b);
    out
}

fn check_kind(value: &Json, schema: &Json, path: &str) -> (r: Result<(), String>)
    ensures
        reports(r, kind_complaint(json::tree(*value), json::tree(*schema), path@)),
{
    let kind: &str = match schema.get_text("type") {
        Some(kind) => kind,
        None => return Ok(()),
    };
    let valid: bool = if same_text(kind, "object") {
        matches!(value, Json::Record(_))
    } else if same_text(kind, "array") {
        matches!(value, Json::List(_))
    } else if same_text(kind, "string") {
        matches!(value, Json::Text(_))
    } else if same_text(kind, "integer") {
        match value {
            Json::Number(n) => n.whole.is_some(),
            _ => false,
        }
    } else if same_text(kind, "number") {
        matches!(value, Json::Number(_))
    } else if same_text(kind, "boolean") {
        matches!(value, Json::Bool(_))
    } else {
        true
    };
    proof {
        reveal_strlit("object");
        reveal_strlit("array");
        reveal_strlit("string");
        reveal_strlit("integer");
        reveal_strlit("number");
        reveal_strlit("boolean");
        assert("object"@[0] == 'o' && "array"@[0] == 'a' && "string"@[0] == 's' && "integer"@[0]
            == 'i' && "number"@[0] == 'n' && "boolean"@[0] == 'b');
    }
    if valid {
        Ok(())
    } else {
        let mut out: String = beside(path, " must be ");
        out.push_str(kind);
        Err(out)
    }
}

fn check_choice(value: &Json, schema: &Json, path: &str) -> (r: Result<(), String>)
    ensures
        reports(r, choice_complaint(json::tree(*value), json::tree(*schema), path@)),
{
    match schema.get("enum") {
        Some(Json::List(allowed)) => {
            let ghost all = json::trees(*allowed, allowed@.len());
            proof {
                json::lemma_trees(*allowed, allowed@.len());
            }
            if is_among(value, allowed) {
                Ok(())
            } else {
                Err(beside(path, " is not one of the allowed values"))
            }
        },
        _ => Ok(()),
    }
}

fn is_among(value: &Json, allowed: &Vec<Json>) -> (r: bool)
    ensures
        r == is_allowed(json::tree(*value), json::trees(*allowed, allowed@.len())),
{
    let ghost all = json::trees(*allowed, allowed@.len());
    proof {
        json::lemma_trees(*allowed, allowed@.len());
    }
    let mut i: usize = 0;
    while i < allowed.len()
        invariant
            all == json::trees(*allowed, allowed@.len()),
            all.len() == allowed@.len(),
            forall|k: int| 0 <= k < all.len() ==> (#[trigger] all[k]) == json::tree(allowed@[k]),
            i <= allowed@.len(),
            forall|k: int|
                0 <= k < i ==> !json::same_tree(#[trigger] all[k], json::tree(*value)),
        decreases allowed@.len() - i,
    {
        assert(all[i as int] == json::tree(allowed@[i as int]));
        if allowed[i].same(value) {
            return true;
        }
        i += 1;
    }
    false
}

fn check_bounds(value: &Json, schema: &Json, path: &str) -> (r: Result<(), String>)
    ensures
        reports(r, bound_complaint(json::tree(*value), json::tree(*schema), path@)),
{
    let n: u64 = match value {
        Json::Number(n) => match n.whole {
            Some(n) => n,
            None => return Ok(()),
        },
        _ => return Ok(()),
    };
    if let Some(min) = schema.get_whole("minimum") {
        if n < min {
            return Err(beside(path, " is below the minimum"));
        }
    }
    if let Some(max) = schema.get_whole("maximum") {
        if n > max {
            return Err(beside(path, " is above the maximum"));
        }
    }
    Ok(())
}

fn first_unknown<'a>(members: &'a Vec<Member>, properties: Option<&Vec<Member>>) -> (r: Option<
    &'a str,
>)
    ensures
        ({
            let p = match properties {
                Some(p) => Some(json::entries(*p, p@.len())),
                None => None,
            };
            let found = unknown_key(json::entries(*members, members@.len()), p, 0);
            match r {
                Some(key) => found == Some(key@),
                None => found is None,
            }
        }),
{
    let ghost m = json::entries(*members, members@.len());
    let ghost p = match properties {
        Some(p) => Some(json::entries(*p, p@.len())),
        None => None,
    };
    proof {
        json::lemma_entries(*members, members@.len());
        if let Some(q) = properties {
            json::lemma_entries(*q, q@.len());
        }
    }
    let mut i: usize = 0;
    while i < members.len()
        invariant
            m == json::entries(*members, members@.len()),
            m.len() == members@.len(),
            forall|k: int| 0 <= k < m.len() ==> (#[trigger] m[k]).key == members@[k].key@,
            match properties {
                Some(q) => p == Some(json::entries(*q, q@.len())) && json::entries(
                    *q,
                    q@.len(),
                ).len() == q@.len(),
                None => p is None,
            },
            i <= members@.len(),
            unknown_key(m, p, 0) == unknown_key(m, p, i as nat),
        decreases members@.len() - i,
    {
        let known: bool = match properties {
            Some(q) => find_key(q, members[i].key.as_str()) < q.len(),
            None => false,
        };
        assert(m[i as int].key == members@[i as int].key@);
        if !known {
            return Some(members[i].key.as_str());
        }
        i += 1;
    }
    None
}

fn first_missing<'a>(members: &Vec<Member>, required: &'a Vec<Json>) -> (r: Option<&'a str>)
    ensures
        ({
            let found = missing_key(
                json::entries(*members, members@.len()),
                json::trees(*required, required@.len()),
                0,
            );
            match r {
                Some(key) => found == Some(key@),
                None => found is None,
            }
        }),
{
    let ghost m = json::entries(*members, members@.len());
    let ghost q = json::trees(*required, required@.len());
    proof {
        json::lemma_entries(*members, members@.len());
        json::lemma_trees(*required, required@.len());
    }
    let mut i: usize = 0;
    while i < required.len()
        invariant
            m == json::entries(*members, members@.len()),
            m.len() == members@.len(),
            q == json::trees(*required, required@.len()),
            q.len() == required@.len(),
            forall|k: int| 0 <= k < q.len() ==> (#[trigger] q[k]) == json::tree(required@[k]),
            i <= required@.len(),
            missing_key(m, q, 0) == missing_key(m, q, i as nat),
        decreases required@.len() - i,
    {
        assert(q[i as int] == json::tree(required@[i as int]));
        if let Json::Text(key) = &required[i] {
            if find_key(members, key.as_str()) >= members.len() {
                return Some(key.as_str());
            }
        }
        i += 1;
    }
    None
}

fn properties_of(schema: &Json) -> (r: Option<&Vec<Member>>)
    ensures
        json::tree(*schema).record_at("properties"@) == (match r {
            Some(p) => Some(json::entries(*p, p@.len())),
            None => None,
        }),
{
    match schema.get("properties") {
        Some(Json::Record(p)) => Some(p),
        _ => None,
    }
}

fn check_keys(members: &Vec<Member>, schema: &Json, path: &str) -> (r: Result<(), String>)
    ensures
        reports(
            r,
            key_complaint(json::entries(*members, members@.len()), json::tree(*schema), path@),
        ),
{
    let properties: Option<&Vec<Member>> = properties_of(schema);
    let closed: bool = match schema.get("additionalProperties") {
        Some(Json::Bool(b)) => !*b,
        _ => false,
    };
    if closed {
        if let Some(key) = first_unknown(members, properties) {
            let mut out: String = beside(path, " contains unknown property ");
            out.push_str(debug_str(key).as_str());
            return Err(out);
        }
    }
    if let Some(Json::List(required)) = schema.get("required") {
        if let Some(key) = first_missing(members, required) {
            let mut out: String = beside(path, ".");
            out.push_str(key);
            out.push_str(" is required");
            return Err(out);
        }
    }
    Ok(())
}

/// Check a value against the small subset of JSON Schema that the tool list
/// uses, so that the contract it advertises is also enforced.
pub fn validate_schema(value: &Json, schema: &Json, path: &str) -> (r: Result<(), String>)
    ensures
        reports(r, complaint(json::tree(*value), json::tree(*schema), path@)),
    decreases *value,
{
    let ghost v = json::tree(*value);
    let ghost s = json::tree(*schema);
    if let Err(e) = check_kind(value, schema, path) {
        return Err(e);
    }
    if let Err(e) = check_choice(value, schema, path) {
        return Err(e);
    }
    if let Err(e) = check_bounds(value, schema, path) {
        return Err(e);
    }
    match value {
        Json::Record(members) => {
            if let Err(e) = check_keys(members, schema, path) {
                return Err(e);
            }
            let properties: &Vec<Member> = match properties_of(schema) {
                Some(p) => p,
                None => return Ok(()),
            };
            let ghost m = json::entries(*members, members@.len());
            let ghost p = json::entries(*properties, properties@.len());
            proof {
                json::lemma_entries(*members, members@.len());
                json::lemma_entries(*properties, properties@.len());
            }
            let mut i: usize = 0;
            while i < members.len()
                invariant
                    decreases_to!(*value => *members),
                    complaint(v, s, path@) == member_complaint(m, p, path@, 0),
                    v == json::tree(*value),
                    s == json::tree(*schema),
                    m.len() == members@.len(),
                    forall|k: int|
                        0 <= k < m.len() ==> (#[trigger] m[k]) == (json::Entry {
                            key: members@[k].key@,
                            value: json::tree(members@[k].value),
                        }),
                    p == json::entries(*properties, properties@.len()),
                    p.len() == properties@.len(),
                    forall|k: int|
                        0 <= k < p.len() ==> (#[trigger] p[k]) == (json::Entry {
                            key: properties@[k].key@,
                            value: json::tree(properties@[k].value),
                        }),
                    i <= members@.len(),
                    member_complaint(m, p, path@, 0) == member_complaint(m, p, path@, i as nat),
                decreases members@.len() - i,
            {
                assert(decreases_to!(*members => members@[i as int]));
                assert(m[i as int].key == members@[i as int].key@);
                let member: &Member = &members[i];
                let k: usize = find_key(properties, member.key.as_str());
                if k < properties.len() {
                    assert(p[k as int].value == json::tree(properties@[k as int].value));
                    let mut below: String = beside(path, ".");
                    below.push_str(member.key.as_str());
                    if let Err(e) = validate_schema(
                        &member.value,
                        &properties[k].value,
                        below.as_str(),
                    ) {
                        return Err(e);
                    }
                }
                i += 1;
            }
            Ok(())
        },
        Json::List(items) => {
            let item: &Json = match schema.get("items") {
                Some(item) => item,
                None => return Ok(()),
            };
            let ghost all = json::trees(*items, items@.len());
            proof {
                json::lemma_trees(*items, items@.len());
            }
            let mut i: usize = 0;
            while i < items.len()
                invariant
                    decreases_to!(*value => *items),
                    complaint(v, s, path@) == item_complaint(all, json::tree(*item), path@, 0),
                    v == json::tree(*value),
                    s == json::tree(*schema),
                    all.len() == items@.len(),
                    forall|k: int|
                        0 <= k < all.len() ==> (#[trigger] all[k]) == json::tree(items@[k]),
                    i <= items@.len(),
                    item_complaint(all, json::tree(*item), path@, 0) == item_complaint(
                        all,
                        json::tree(*item),
                        path@,
                        i as nat,
                    ),
                decreases items@.len() - i,
            {
                assert(all[i as int] == json::tree(items@[i as int]));
                let mut below: String = beside(path, "[");
                push_decimal(&mut below, i as u64);
                below.push_str("]");
                if let Err(e) = validate_schema(&items[i], item, below.as_str()) {
                    return Err(e);
                }
                i += 1;
            }
            Ok(())
        },
        _ => Ok(()),
    }
}

// ---------------------------------------------------------------------------
// The methods.

/// The protocol version this server implements. A client asking for another
/// version is answered with this one, and it is left to the client to decide
/// whether it can live with that.
pub const PROTOCOL_VERSION: &'static str = "2025-06-18";

/// A revision that this server actually understands. Echoing a version back is a
/// promise that this server speaks it, so a revision is listed here or is not
/// echoed, whatever its date.
pub open spec fn is_spoken(version: Seq<char>) -> bool {
    version == "2024-11-05"@ || version == PROTOCOL_VERSION@
}

/// The version that a client is answered in.
pub open spec fn agreed(asked: Option<Seq<char>>) -> Seq<char> {
    match asked {
        Some(v) if is_spoken(v) => v,
        _ => PROTOCOL_VERSION@,
    }
}

/// What a client is told about this server before it asks anything.
pub open spec fn instructions() -> Seq<char> {
    "This is a spreadsheet, exposed as a graph you can search and then read down to individual cells.\n\nStart with `search` or `context` — `context` answers a question with a cited passage, which is usually the right first call. Passages contain no cell values; they say where to look. When the answer needs a number, follow a citation with `read_cells`, and when it needs to be trusted, `recompute` says whether a formula still agrees with the value stored beside it.\n\nCite what you use. Every node in a passage is numbered and every cell has an address: an answer that names them can be checked, and one that does not cannot."@
}

/// What `initialize` answers.
pub open spec fn introduction(params: json::Tree, version: Seq<char>) -> json::Tree {
    json::Tree::Record(
        seq![
            toolbox::entry(
                "protocolVersion"@,
                json::Tree::Text(agreed(params.text_at("protocolVersion"@))),
            ),
            toolbox::entry(
                "capabilities"@,
                json::Tree::Record(
                    seq![toolbox::entry("tools"@, json::Tree::Record(Seq::empty()))],
                ),
            ),
            toolbox::entry(
                "serverInfo"@,
                json::Tree::Record(
                    seq![
                        toolbox::entry("name"@, json::Tree::Text("excelgrag"@)),
                        toolbox::entry("version"@, json::Tree::Text(version)),
                    ],
                ),
            ),
            toolbox::entry("instructions"@, json::Tree::Text(instructions())),
        ],
    )
}

/// The result of a tool: its text, and whether it failed.
pub open spec fn outcome(text: Seq<char>, is_error: bool) -> json::Tree {
    json::Tree::Record(
        seq![
            toolbox::entry(
                "content"@,
                json::Tree::List(
                    seq![
                        json::Tree::Record(
                            seq![
                                toolbox::entry("type"@, json::Tree::Text("text"@)),
                                toolbox::entry("text"@, json::Tree::Text(text)),
                            ],
                        ),
                    ],
                ),
            ),
            toolbox::entry("isError"@, json::Tree::Bool(is_error)),
        ],
    )
}

/// One tool as `tools/list` shows it.
pub open spec fn tool_shown(d: toolbox::Declaration) -> json::Tree {
    json::Tree::Record(
        seq![
            toolbox::entry("name"@, json::Tree::Text(d.name)),
            toolbox::entry("description"@, json::Tree::Text(d.description)),
            toolbox::entry("inputSchema"@, d.arguments),
        ],
    )
}

/// What `tools/list` answers.
pub open spec fn tool_list() -> json::Tree {
    json::Tree::Record(
        seq![
            toolbox::entry(
                "tools"@,
                json::Tree::List(
                    toolbox::toolbox().map_values(|d: toolbox::Declaration| tool_shown(d)),
                ),
            ),
        ],
    )
}

/// The place of the first tool of a name from `i` on, the length where there is
/// none.
pub open spec fn tool_place(tools: Seq<toolbox::Declaration>, name: Seq<char>, i: nat) -> nat
    decreases tools.len() - i,
{
    if i >= tools.len() || tools[i as int].name == name {
        i
    } else {
        tool_place(tools, name, i + 1)
    }
}

/// What becomes of `tools/call`.
pub enum Asked {
    /// The call names no tool that there is.
    Refused(Seq<char>),
    /// The arguments are not those of the tool.
    Misused(Seq<char>),
    Call { name: Seq<char>, arguments: json::Tree },
}

pub open spec fn asked_for(params: json::Tree) -> Asked {
    let tools = toolbox::toolbox();
    match params.text_at("name"@) {
        None => Asked::Refused("tools/call needs a tool name"@),
        Some(name) => {
            let k = tool_place(tools, name, 0);
            let arguments = match params.at("arguments"@) {
                Some(a) => a,
                None => json::Tree::Record(Seq::empty()),
            };
            if k >= tools.len() {
                Asked::Refused("no tool called "@ + text::debug_text(name))
            } else {
                match complaint(arguments, tools[k as int].arguments, "arguments"@) {
                    Some(c) => Asked::Misused(c),
                    None => Asked::Call { name, arguments },
                }
            }
        },
    }
}

/// What the server does with a request.
pub enum Reply {
    /// A notification takes no reply.
    Silence,
    Answer(Response),
    /// A tool is to be run; [`tool_answered`] makes its answer.
    Call { id: Json, name: String, arguments: Json },
}

/// What the server does with a request.
pub open spec fn replies(
    r: Reply,
    id: Option<json::Tree>,
    method: Seq<char>,
    params: json::Tree,
    version: Seq<char>,
) -> bool {
    match id {
        None => r is Silence,
        Some(id) => if method == "initialize"@ {
            r matches Reply::Answer(a) && a.says(
                rpc::Answer::Result { id, result: introduction(params, version) },
            )
        } else if method == "tools/list"@ {
            r matches Reply::Answer(a) && a.says(rpc::Answer::Result { id, result: tool_list() })
        } else if method == "tools/call"@ {
            match asked_for(params) {
                Asked::Refused(message) => r matches Reply::Answer(a) && a.says(
                    rpc::Answer::Failure { id, code: code::INVALID_PARAMS, message },
                ),
                Asked::Misused(message) => r matches Reply::Answer(a) && a.says(
                    rpc::Answer::Result { id, result: outcome(message, true) },
                ),
                Asked::Call { name, arguments } => r matches Reply::Call {
                    id: i,
                    name: n,
                    arguments: x,
                } && json::tree(i) == id && n@ == name && json::tree(x) == arguments,
            }
        } else if method == "ping"@ {
            r matches Reply::Answer(a) && a.says(
                rpc::Answer::Result { id, result: json::Tree::Record(Seq::empty()) },
            )
        } else {
            r matches Reply::Answer(a) && a.says(
                rpc::Answer::Failure {
                    id,
                    code: code::METHOD_NOT_FOUND,
                    message: "this server implements initialize, tools/list, tools/call and ping, not "@
                        + text::debug_text(method),
                },
            )
        },
    }
}

fn initialize(params: &Json, version: &str) -> (r: Json)
    ensures
        json::tree(r) == introduction(json::tree(*params), version@),
{
    let spoken: String = match params.get_text("protocolVersion") {
        Some(asked) => if same_text(asked, "2024-11-05") || same_text(asked, PROTOCOL_VERSION) {
            asked.to_owned()
        } else {
            PROTOCOL_VERSION.to_owned()
        },
        None => PROTOCOL_VERSION.to_owned(),
    };
    let none: Vec<Member> = Vec::new();
    let mut capabilities: Vec<Member> = Vec::new();
    assert(json::entries(none, 0) =~= Seq::empty());
    push_member(&mut capabilities, "tools", Json::Record(none));
    let mut info: Vec<Member> = Vec::new();
    push_member(&mut info, "name", Json::Text("excelgrag".to_owned()));
    push_member(&mut info, "version", Json::Text(version.to_owned()));
    let mut out: Vec<Member> = Vec::new();
    push_member(&mut out, "protocolVersion", Json::Text(spoken));
    push_member(&mut out, "capabilities", Json::Record(capabilities));
    push_member(&mut out, "serverInfo", Json::Record(info));
    push_member(
        &mut out,
        "instructions",
        Json::Text(
            "This is a spreadsheet, exposed as a graph you can search and then read down to individual cells.\n\nStart with `search` or `context` — `context` answers a question with a cited passage, which is usually the right first call. Passages contain no cell values; they say where to look. When the answer needs a number, follow a citation with `read_cells`, and when it needs to be trusted, `recompute` says whether a formula still agrees with the value stored beside it.\n\nCite what you use. Every node in a passage is numbered and every cell has an address: an answer that names them can be checked, and one that does not cannot.".to_owned(),
        ),
    );
    proof {
        assert(json::entries(capabilities, capabilities@.len()) =~= seq![
            toolbox::entry("tools"@, json::Tree::Record(Seq::empty())),
        ]);
        assert(json::entries(info, info@.len()) =~= seq![
            toolbox::entry("name"@, json::Tree::Text("excelgrag"@)),
            toolbox::entry("version"@, json::Tree::Text(version@)),
        ]);
        assert(json::entries(out, out@.len()) =~= introduction(
            json::tree(*params),
            version@,
        )->Record_0);
    }
    Json::Record(out)
}

fn text_result(text: String, is_error: bool) -> (r: Json)
    ensures
        json::tree(r) == outcome(text@, is_error),
{
    let mut content: Vec<Member> = Vec::new();
    push_member(&mut content, "type", Json::Text("text".to_owned()));
    push_member(&mut content, "text", Json::Text(text));
    let mut list: Vec<Json> = Vec::new();
    list.push(Json::Record(content));
    let mut out: Vec<Member> = Vec::new();
    push_member(&mut out, "content", Json::List(list));
    push_member(&mut out, "isError", Json::Bool(is_error));
    proof {
        assert(json::entries(content, content@.len()) =~= seq![
            toolbox::entry("type"@, json::Tree::Text("text"@)),
            toolbox::entry("text"@, json::Tree::Text(text@)),
        ]);
        json::lemma_trees(list, list@.len());
        assert(json::trees(list, list@.len()) =~= seq![json::tree(list@[0])]);
        assert(json::entries(out, out@.len()) =~= outcome(text@, is_error)->Record_0);
    }
    Json::Record(out)
}

fn list_tools() -> (r: Json)
    ensures
        json::tree(r) == tool_list(),
{
    let all: Vec<Tool> = tools();
    let ghost shown = toolbox::declarations(all@).map_values(
        |d: toolbox::Declaration| tool_shown(d),
    );
    let mut list: Vec<Json> = Vec::new();
    let mut i: usize = 0;
    while i < all.len()
        invariant
            shown == toolbox::declarations(all@).map_values(
                |d: toolbox::Declaration| tool_shown(d),
            ),
            i <= all@.len(),
            list@.len() == i,
            forall|k: int| 0 <= k < i ==> json::tree(#[trigger] list@[k]) == shown[k],
        decreases all@.len() - i,
    {
        let tool: &Tool = &all[i];
        let mut m: Vec<Member> = Vec::new();
        push_member(&mut m, "name", Json::Text(tool.name.to_owned()));
        push_member(&mut m, "description", Json::Text(tool.description.to_owned()));
        push_member(&mut m, "inputSchema", tool.schema.clone());
        assert(json::entries(m, m@.len()) =~= shown[i as int]->Record_0);
        list.push(Json::Record(m));
        i += 1;
    }
    let mut out: Vec<Member> = Vec::new();
    proof {
        json::lemma_trees(list, list@.len());
        assert(json::trees(list, list@.len()) =~= shown);
    }
    push_member(&mut out, "tools", Json::List(list));
    assert(json::entries(out, out@.len()) =~= tool_list()->Record_0);
    Json::Record(out)
}

/// What becomes of a call: the protocol refuses it, its arguments are refused,
/// or the tool is to be run.
enum Ask {
    Refused(String),
    Misused(String),
    Call(String, Json),
}

fn call_tool(params: &Json) -> (r: Ask)
    ensures
        match (asked_for(json::tree(*params)), r) {
            (Asked::Refused(m), Ask::Refused(s)) => m == s@,
            (Asked::Misused(m), Ask::Misused(s)) => m == s@,
            (Asked::Call { name, arguments }, Ask::Call(n, a)) => n@ == name && json::tree(a)
                == arguments,
            _ => false,
        },
{
    let name: &str = match params.get_text("name") {
        Some(name) => name,
        None => return Ask::Refused("tools/call needs a tool name".to_owned()),
    };
    let all: Vec<Tool> = tools();
    let ghost declared = toolbox::declarations(all@);
    let mut k: usize = 0;
    while k < all.len() && !same_text(all[k].name, name)
        invariant
            declared == toolbox::declarations(all@),
            k <= all@.len(),
            tool_place(declared, name@, 0) == tool_place(declared, name@, k as nat),
        decreases all@.len() - k,
    {
        assert(declared[k as int].name == all@[k as int].name@);
        k += 1;
    }
    if k >= all.len() {
        let mut message: String = "no tool called ".to_owned();
        message.push_str(debug_str(name).as_str());
        return Ask::Refused(message);
    }
    assert(declared[k as int].name == all@[k as int].name@);
    assert(declared[k as int].arguments == json::tree(all@[k as int].schema));
    let arguments: Json = match params.get("arguments") {
        Some(a) => a.clone(),
        None => {
            let none: Vec<Member> = Vec::new();
            assert(json::entries(none, 0) =~= Seq::empty());
            Json::Record(none)
        },
    };
    match validate_schema(&arguments, &all[k].schema, "arguments") {
        Err(message) => Ask::Misused(message),
        Ok(_) => Ask::Call(name.to_owned(), arguments),
    }
}

/// The server, as the protocol sees it.
pub struct Server {
    /// The version of this server that it reports.
    pub version: String,
}

impl Server {
    pub fn new(version: String) -> (r: Self)
        ensures
            r.version == version,
    {
        Server { version }
    }

    /// Decide what to do with a request.
    pub fn handle(&self, request: &Request) -> (r: Reply)
        ensures
            replies(
                r,
                match request.id {
                    Some(id) => Some(json::tree(id)),
                    None => None,
                },
                request.method@,
                json::tree(request.params),
                self.version@,
            ),
    {
        let id: Json = match &request.id {
            Some(id) => id.clone(),
            None => return Reply::Silence,
        };
        let method: &str = request.method.as_str();
        if same_text(method, "initialize") {
            Reply::Answer(Response::ok(id, initialize(&request.params, self.version.as_str())))
        } else if same_text(method, "tools/list") {
            Reply::Answer(Response::ok(id, list_tools()))
        } else if same_text(method, "tools/call") {
            match call_tool(&request.params) {
                Ask::Refused(message) => Reply::Answer(
                    Response::err(id, code::INVALID_PARAMS, message),
                ),
                Ask::Misused(message) => Reply::Answer(
                    Response::ok(id, text_result(message, true)),
                ),
                Ask::Call(name, arguments) => Reply::Call { id, name, arguments },
            }
        } else if same_text(method, "ping") {
            let none: Vec<Member> = Vec::new();
            assert(json::entries(none, 0) =~= Seq::empty());
            Reply::Answer(Response::ok(id, Json::Record(none)))
        } else {
            let mut message: String =
                "this server implements initialize, tools/list, tools/call and ping, not ".to_owned();
            message.push_str(debug_str(method).as_str());
            Reply::Answer(Response::err(id, code::METHOD_NOT_FOUND, message))
        }
    }
}

/// The answer to a call of a tool. A tool that could not do what was asked
/// reports back through the result, not through a protocol error: the caller is
/// the one who can act on it.
pub fn tool_answered(id: Json, answer: Result<String, String>) -> (r: Response)
    ensures
        r.says(
            rpc::Answer::Result {
                id: json::tree(id),
                result: match answer {
                    Ok(text) => outcome(text@, false),
                    Err(message) => outcome(message@, true),
                },
            },
        ),
{
    match answer {
        Ok(text) => Response::ok(id, text_result(text, false)),
        Err(message) => Response::ok(id, text_result(message, true)),
    }
}

/// A version is answered that this server speaks, and the client's own exactly
/// where this server speaks it.
pub proof fn only_spoken_versions_are_agreed_on(asked: Option<Seq<char>>)
    ensures
        is_spoken(agreed(asked)),
        asked matches Some(v) ==> (agreed(asked) == v <==> is_spoken(v)),
{
}

} // verus!
