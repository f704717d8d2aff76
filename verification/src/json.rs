//! JSON values as the protocol exchanges them.

use crate::cell::Number;
use crate::text;
use crate::text::same_text;
use serde_json::Value;
use vstd::prelude::*;

verus! {

/// A JSON number.
#[derive(Debug, PartialEq, Eq)]
pub struct JsonNumber {
    /// The number, where it is a whole one that is not negative.
    pub whole: Option<u64>,
    /// The number that a cell would hold.
    pub float: Option<Number>,
    /// The number as JSON writes it.
    pub text: String,
}

/// A JSON value. The members of an object stand in the order of the object.
#[derive(Debug, PartialEq, Eq)]
pub enum Json {
    Null,
    Bool(bool),
    Number(JsonNumber),
    Text(String),
    List(Vec<Json>),
    Record(Vec<Member>),
}

/// A member of a JSON object.
#[derive(Debug, PartialEq, Eq)]
pub struct Member {
    pub key: String,
    pub value: Json,
}

/// What a [`JsonNumber`] says.
pub struct Numeral {
    pub whole: Option<u64>,
    pub bits: Option<u64>,
    pub shown: Option<Seq<char>>,
    pub text: Seq<char>,
}

/// What a [`Json`] says.
#[verifier::ext_equal]
pub enum Tree {
    Null,
    Bool(bool),
    Number(Numeral),
    Text(Seq<char>),
    List(Seq<Tree>),
    Record(Seq<Entry>),
}

/// A member of a record.
#[verifier::ext_equal]
pub struct Entry {
    pub key: Seq<char>,
    pub value: Tree,
}

impl JsonNumber {
    pub open spec fn says(self) -> Numeral {
        Numeral {
            whole: self.whole,
            bits: match self.float {
                Some(n) => Some(n.bits),
                None => None,
            },
            shown: match self.float {
                Some(n) => Some(n.text@),
                None => None,
            },
            text: self.text@,
        }
    }
}

/// What a value says.
pub open spec fn tree(j: Json) -> Tree
    decreases j, 0nat,
{
    match j {
        Json::Null => Tree::Null,
        Json::Bool(b) => Tree::Bool(b),
        Json::Number(n) => Tree::Number(n.says()),
        Json::Text(s) => Tree::Text(s@),
        Json::List(v) => Tree::List(trees(v, v@.len())),
        Json::Record(m) => Tree::Record(entries(m, m@.len())),
    }
}

/// What the first `n` of some values say.
pub open spec fn trees(v: Vec<Json>, n: nat) -> Seq<Tree>
    decreases v, n,
{
    if n == 0 || n > v@.len() {
        Seq::empty()
    } else {
        trees(v, (n - 1) as nat).push(tree(v@[n - 1]))
    }
}

/// What the first `n` of some members say.
pub open spec fn entries(m: Vec<Member>, n: nat) -> Seq<Entry>
    decreases m, n,
{
    if n == 0 || n > m@.len() {
        Seq::empty()
    } else {
        entries(m, (n - 1) as nat).push(
            Entry { key: m@[n - 1].key@, value: tree(m@[n - 1].value) },
        )
    }
}

pub proof fn lemma_trees(v: Vec<Json>, n: nat)
    requires
        n <= v@.len(),
    ensures
        trees(v, n).len() == n,
        forall|i: int| 0 <= i < n ==> (#[trigger] trees(v, n)[i]) == tree(v@[i]),
    decreases n,
{
    if n > 0 {
        lemma_trees(v, (n - 1) as nat);
    }
}

pub proof fn lemma_entries(m: Vec<Member>, n: nat)
    requires
        n <= m@.len(),
    ensures
        entries(m, n).len() == n,
        forall|i: int|
            0 <= i < n ==> (#[trigger] entries(m, n)[i]) == (Entry {
                key: m@[i].key@,
                value: tree(m@[i].value),
            }),
    decreases n,
{
    if n > 0 {
        lemma_entries(m, (n - 1) as nat);
    }
}

/// The place of the first member with a key, the length where there is none.
pub open spec fn key_place(m: Seq<Entry>, key: Seq<char>) -> int
    decreases m.len(),
{
    if m.len() == 0 || m[0].key == key {
        0
    } else {
        1 + key_place(m.drop_first(), key)
    }
}

pub proof fn lemma_key_place(m: Seq<Entry>, key: Seq<char>)
    ensures
        0 <= key_place(m, key) <= m.len(),
        key_place(m, key) < m.len() ==> m[key_place(m, key)].key == key,
        forall|i: int| 0 <= i < key_place(m, key) ==> (#[trigger] m[i]).key != key,
    decreases m.len(),
{
    if m.len() > 0 && m[0].key != key {
        let d = m.drop_first();
        lemma_key_place(d, key);
        assert forall|i: int| 0 <= i < key_place(m, key) implies (#[trigger] m[i]).key != key by {
            if i > 0 {
                assert(m[i] == d[i - 1]);
            }
        }
    }
}

impl Tree {
    /// The value of a member, where this is a record that has it.
    pub open spec fn at(self, key: Seq<char>) -> Option<Tree> {
        match self {
            Tree::Record(m) => {
                let k = key_place(m, key);
                if k < m.len() {
                    Some(m[k].value)
                } else {
                    None
                }
            },
            _ => None,
        }
    }

    pub open spec fn as_text(self) -> Option<Seq<char>> {
        match self {
            Tree::Text(s) => Some(s),
            _ => None,
        }
    }

    pub open spec fn as_whole(self) -> Option<u64> {
        match self {
            Tree::Number(n) => n.whole,
            _ => None,
        }
    }

    /// The text of a member.
    pub open spec fn text_at(self, key: Seq<char>) -> Option<Seq<char>> {
        match self.at(key) {
            Some(v) => v.as_text(),
            None => None,
        }
    }

    /// The whole number of a member.
    pub open spec fn whole_at(self, key: Seq<char>) -> Option<u64> {
        match self.at(key) {
            Some(v) => v.as_whole(),
            None => None,
        }
    }

    /// The list of a member.
    pub open spec fn list_at(self, key: Seq<char>) -> Option<Seq<Tree>> {
        match self.at(key) {
            Some(Tree::List(v)) => Some(v),
            _ => None,
        }
    }

    /// The members of a record at a member.
    pub open spec fn record_at(self, key: Seq<char>) -> Option<Seq<Entry>> {
        match self.at(key) {
            Some(Tree::Record(m)) => Some(m),
            _ => None,
        }
    }

    /// What JSON calls the value.
    pub open spec fn kind_name(self) -> Seq<char> {
        match self {
            Tree::Null => "null"@,
            Tree::Bool(_) => "a boolean"@,
            Tree::Number(_) => "a number"@,
            Tree::Text(_) => "a string"@,
            Tree::List(_) => "an array"@,
            Tree::Record(_) => "an object"@,
        }
    }
}

/// Two numbers are the same: whole ones by value, others by what they write, but
/// that zero has no sign.
pub open spec fn same_number(a: Numeral, b: Numeral) -> bool {
    match (a.whole, b.whole) {
        (Some(x), Some(y)) => x == y,
        (None, None) => a.text == b.text || (is_zero(a) && is_zero(b)),
        _ => false,
    }
}

/// Zero that is not written as a whole number.
pub open spec fn is_zero(n: Numeral) -> bool {
    n.whole is None && (n.bits == Some(0u64) || n.bits == Some(0x8000_0000_0000_0000u64))
}

/// Two values are the same.
pub open spec fn same_tree(a: Tree, b: Tree) -> bool
    decreases a, 0nat,
{
    match (a, b) {
        (Tree::Null, Tree::Null) => true,
        (Tree::Bool(x), Tree::Bool(y)) => x == y,
        (Tree::Number(x), Tree::Number(y)) => same_number(x, y),
        (Tree::Text(x), Tree::Text(y)) => x == y,
        (Tree::List(x), Tree::List(y)) => x.len() == y.len() && same_trees(x, y, x.len()),
        (Tree::Record(x), Tree::Record(y)) => x.len() == y.len() && same_entries(x, y, x.len()),
        _ => false,
    }
}

/// The first `n` of two lists of values are the same.
pub open spec fn same_trees(a: Seq<Tree>, b: Seq<Tree>, n: nat) -> bool
    decreases a, n,
{
    if n == 0 || n > a.len() {
        true
    } else {
        same_trees(a, b, (n - 1) as nat) && same_tree(a[n - 1], b[n - 1])
    }
}

pub open spec fn same_entries(a: Seq<Entry>, b: Seq<Entry>, n: nat) -> bool
    decreases a, n,
{
    if n == 0 || n > a.len() {
        true
    } else {
        same_entries(a, b, (n - 1) as nat) && a[n - 1].key == b[n - 1].key && same_tree(
            a[n - 1].value,
            b[n - 1].value,
        )
    }
}

impl JsonNumber {
    fn same(&self, other: &JsonNumber) -> (r: bool)
        ensures
            r == same_number(self.says(), other.says()),
    {
        match (self.whole, other.whole) {
            (Some(x), Some(y)) => x == y,
            (None, None) => same_text(self.text.as_str(), other.text.as_str()) || (self.is_zero()
                && other.is_zero()),
            _ => false,
        }
    }

    fn is_zero(&self) -> (r: bool)
        ensures
            r == is_zero(self.says()),
    {
        match &self.float {
            Some(n) => self.whole.is_none() && (n.bits == 0 || n.bits == 0x8000_0000_0000_0000),
            None => false,
        }
    }
}

impl Json {
    /// What JSON calls the value, for an error a caller can act on.
    pub fn kind_of(&self) -> (r: &'static str)
        ensures
            r@ == tree(*self).kind_name(),
    {
        match self {
            Json::Null => "null",
            Json::Bool(_) => "a boolean",
            Json::Number(_) => "a number",
            Json::Text(_) => "a string",
            Json::List(_) => "an array",
            Json::Record(_) => "an object",
        }
    }

    /// The value of a member, where this is an object that has it.
    pub fn get(&self, key: &str) -> (r: Option<&Json>)
        ensures
            match r {
                Some(v) => tree(*self).at(key@) == Some(tree(*v)) && decreases_to!(*self => *v),
                None => tree(*self).at(key@) is None,
            },
    {
        match self {
            Json::Record(members) => {
                let k: usize = find_key(members, key);
                proof {
                    lemma_entries(*members, members@.len());
                }
                if k < members.len() {
                    Some(&members[k].value)
                } else {
                    None
                }
            },
            _ => None,
        }
    }

    pub fn get_text(&self, key: &str) -> (r: Option<&str>)
        ensures
            match r {
                Some(s) => tree(*self).text_at(key@) == Some(s@),
                None => tree(*self).text_at(key@) is None,
            },
    {
        match self.get(key) {
            Some(Json::Text(s)) => Some(s.as_str()),
            _ => None,
        }
    }

    pub fn get_whole(&self, key: &str) -> (r: Option<u64>)
        ensures
            r == tree(*self).whole_at(key@),
    {
        match self.get(key) {
            Some(Json::Number(n)) => n.whole,
            _ => None,
        }
    }

    /// Whether two values are the same.
    pub fn same(&self, other: &Json) -> (r: bool)
        ensures
            r == same_tree(tree(*self), tree(*other)),
        decreases *self,
    {
        match (self, other) {
            (Json::Null, Json::Null) => true,
            (Json::Bool(x), Json::Bool(y)) => *x == *y,
            (Json::Number(x), Json::Number(y)) => x.same(y),
            (Json::Text(x), Json::Text(y)) => same_text(x.as_str(), y.as_str()),
            (Json::List(x), Json::List(y)) => {
                proof {
                    lemma_trees(*x, x@.len());
                    lemma_trees(*y, y@.len());
                }
                if x.len() != y.len() {
                    return false;
                }
                let ghost a = trees(*x, x@.len());
                let ghost b = trees(*y, y@.len());
                let mut i: usize = 0;
                while i < x.len()
                    invariant
                        decreases_to!(*self => *x),
                        x@.len() == y@.len(),
                        tree(*self) == Tree::List(a),
                        tree(*other) == Tree::List(b),
                        a == trees(*x, x@.len()),
                        b == trees(*y, y@.len()),
                        b.len() == a.len(),
                        a.len() == x@.len(),
                        forall|k: int| 0 <= k < a.len() ==> (#[trigger] a[k]) == tree(x@[k]),
                        forall|k: int| 0 <= k < a.len() ==> (#[trigger] b[k]) == tree(y@[k]),
                        i <= x@.len(),
                        same_trees(a, b, i as nat),
                    decreases x@.len() - i,
                {
                    if !x[i].same(&y[i]) {
                        proof {
                            lemma_not_same(a, b, (i + 1) as nat, a.len());
                        }
                        return false;
                    }
                    i += 1;
                }
                true
            },
            (Json::Record(x), Json::Record(y)) => {
                proof {
                    lemma_entries(*x, x@.len());
                    lemma_entries(*y, y@.len());
                }
                if x.len() != y.len() {
                    return false;
                }
                let ghost a = entries(*x, x@.len());
                let ghost b = entries(*y, y@.len());
                let mut i: usize = 0;
                while i < x.len()
                    invariant
                        decreases_to!(*self => *x),
                        x@.len() == y@.len(),
                        tree(*self) == Tree::Record(a),
                        tree(*other) == Tree::Record(b),
                        a == entries(*x, x@.len()),
                        b == entries(*y, y@.len()),
                        b.len() == a.len(),
                        a.len() == x@.len(),
                        forall|k: int|
                            0 <= k < a.len() ==> (#[trigger] a[k]) == (Entry {
                                key: x@[k].key@,
                                value: tree(x@[k].value),
                            }),
                        forall|k: int|
                            0 <= k < a.len() ==> (#[trigger] b[k]) == (Entry {
                                key: y@[k].key@,
                                value: tree(y@[k].value),
                            }),
                        i <= x@.len(),
                        same_entries(a, b, i as nat),
                    decreases x@.len() - i,
                {
                    assert(decreases_to!(*x => x@[i as int]));
                    if !same_text(x[i].key.as_str(), y[i].key.as_str()) || !x[i].value.same(
                        &y[i].value,
                    ) {
                        proof {
                            lemma_not_same_entries(a, b, (i + 1) as nat, a.len());
                        }
                        return false;
                    }
                    i += 1;
                }
                true
            },
            _ => false,
        }
    }
}

proof fn lemma_not_same(a: Seq<Tree>, b: Seq<Tree>, i: nat, n: nat)
    requires
        0 < i <= n <= a.len(),
        !same_tree(a[i - 1], b[i - 1]),
    ensures
        !same_trees(a, b, n),
    decreases n,
{
    if i < n {
        lemma_not_same(a, b, i, (n - 1) as nat);
    }
}

proof fn lemma_not_same_entries(a: Seq<Entry>, b: Seq<Entry>, i: nat, n: nat)
    requires
        0 < i <= n <= a.len(),
        a[i - 1].key != b[i - 1].key || !same_tree(a[i - 1].value, b[i - 1].value),
    ensures
        !same_entries(a, b, n),
    decreases n,
{
    if i < n {
        lemma_not_same_entries(a, b, i, (n - 1) as nat);
    }
}

impl Clone for JsonNumber {
    fn clone(&self) -> (r: Self)
        ensures
            r == *self,
    {
        let float: Option<Number> = match &self.float {
            Some(n) => Some(n.clone()),
            None => None,
        };
        JsonNumber { whole: self.whole, float, text: self.text.clone() }
    }
}

impl Clone for Json {
    fn clone(&self) -> (r: Self)
        ensures
            tree(r) == tree(*self),
        decreases *self,
    {
        match self {
            Json::Null => Json::Null,
            Json::Bool(b) => Json::Bool(*b),
            Json::Number(n) => Json::Number(n.clone()),
            Json::Text(s) => Json::Text(s.clone()),
            Json::List(v) => {
                let mut out: Vec<Json> = Vec::new();
                let mut i: usize = 0;
                while i < v.len()
                    invariant
                        decreases_to!(*self => *v),
                        i <= v@.len(),
                        out@.len() == i,
                        forall|k: int| 0 <= k < i ==> tree(#[trigger] out@[k]) == tree(v@[k]),
                    decreases v@.len() - i,
                {
                    out.push(v[i].clone());
                    i += 1;
                }
                proof {
                    lemma_trees(*v, v@.len());
                    lemma_trees(out, out@.len());
                    assert(trees(out, out@.len()) =~= trees(*v, v@.len()));
                }
                Json::List(out)
            },
            Json::Record(m) => {
                let mut out: Vec<Member> = Vec::new();
                let mut i: usize = 0;
                while i < m.len()
                    invariant
                        decreases_to!(*self => *m),
                        i <= m@.len(),
                        out@.len() == i,
                        forall|k: int|
                            0 <= k < i ==> (#[trigger] out@[k]).key@ == m@[k].key@ && tree(
                                out@[k].value,
                            ) == tree(m@[k].value),
                    decreases m@.len() - i,
                {
                    assert(decreases_to!(*m => m@[i as int]));
                    out.push(Member { key: m[i].key.clone(), value: m[i].value.clone() });
                    i += 1;
                }
                proof {
                    lemma_entries(*m, m@.len());
                    lemma_entries(out, out@.len());
                    assert(entries(out, out@.len()) =~= entries(*m, m@.len()));
                }
                Json::Record(out)
            },
        }
    }
}

/// The place of the first member with a key, the length where there is none.
pub fn find_key(members: &Vec<Member>, key: &str) -> (r: usize)
    ensures
        r == key_place(entries(*members, members@.len()), key@),
        r <= members@.len(),
{
    let ghost all = entries(*members, members@.len());
    proof {
        lemma_entries(*members, members@.len());
        assert(all.skip(0) =~= all);
    }
    let mut i: usize = 0;
    while i < members.len() && !same_text(members[i].key.as_str(), key)
        invariant
            all == entries(*members, members@.len()),
            all.len() == members@.len(),
            forall|k: int|
                0 <= k < all.len() ==> (#[trigger] all[k]) == (Entry {
                    key: members@[k].key@,
                    value: tree(members@[k].value),
                }),
            i <= members@.len(),
            key_place(all, key@) == i + key_place(all.skip(i as int), key@),
        decreases members@.len() - i,
    {
        assert(all.skip(i as int).drop_first() =~= all.skip(i + 1));
        i += 1;
    }
    i
}

// ---------------------------------------------------------------------------
// Between values and texts.

#[verifier::external_type_specification]
#[verifier::external_body]
pub struct ExValue(serde_json::Value);

/// What a parsed value holds.
pub uninterp spec fn tree_of(v: serde_json::Value) -> Tree;

/// What a line of JSON parses to, or what is wrong with it.
pub uninterp spec fn parsed(line: Seq<char>) -> Result<Tree, Seq<char>>;

/// `serde_json::from_str` into a `serde_json::Value`. What JSON is, and how the
/// parser words an error, is the parser's business; the result is a function of
/// the line alone and is only named here.
#[verifier::external_body]
fn parse_value(line: &str) -> (r: Result<serde_json::Value, String>)
    ensures
        match r {
            Ok(v) => parsed(line@) == Ok::<Tree, Seq<char>>(tree_of(v)),
            Err(e) => parsed(line@) == Err::<Tree, Seq<char>>(e@),
        },
{
    serde_json::from_str(line).map_err(|e| e.to_string())
}

/// A `serde_json::Value` taken apart, variant by variant: a number by
/// `Number::as_u64`, `Number::as_f64` and its text, the rest as it is, the
/// members of an object in the order of its map.
#[verifier::external_body]
fn json_of(v: serde_json::Value) -> (r: Json)
    ensures
        tree(r) == tree_of(v),
{
    match v {
        serde_json::Value::Null => Json::Null,
        serde_json::Value::Bool(b) => Json::Bool(b),
        serde_json::Value::Number(n) => Json::Number(JsonNumber {
            whole: n.as_u64(),
            float: n.as_f64().map(|f| Number { bits: f.to_bits(), text: f.to_string() }),
            text: n.to_string(),
        }),
        serde_json::Value::String(s) => Json::Text(s),
        serde_json::Value::Array(a) => Json::List(a.into_iter().map(json_of).collect()),
        serde_json::Value::Object(m) => Json::Record(
            m.into_iter().map(|(key, v)| Member { key, value: json_of(v) }).collect()),
    }
}

/// Read a line of JSON.
pub fn read(line: &str) -> (r: Result<Json, String>)
    ensures
        match r {
            Ok(j) => parsed(line@) == Ok::<Tree, Seq<char>>(tree(j)),
            Err(e) => parsed(line@) == Err::<Tree, Seq<char>>(e@),
        },
{
    match parse_value(line) {
        Ok(v) => Ok(json_of(v)),
        Err(e) => Err(e),
    }
}

/// What a number holds that is made again of what a numeral says: of the whole
/// number that it is, of the negative integer or of the fraction that its text
/// reads as.
pub uninterp spec fn renumbered(n: Numeral) -> Tree;

/// What a `serde_json::Value` made of these parts holds: the parts again, but that
/// a number is made again of its text, and that an object has one member for a
/// key, the last, in the order of the keys.
pub open spec fn made_of(t: Tree) -> Tree
    decreases t, 0nat,
{
    match t {
        Tree::Number(n) => renumbered(n),
        Tree::List(v) => Tree::List(made_list(v, v.len())),
        Tree::Record(m) => Tree::Record(made_object(m, m.len())),
        other => other,
    }
}

/// The list made of the first `n` of some values.
pub open spec fn made_list(v: Seq<Tree>, n: nat) -> Seq<Tree>
    decreases v, n,
{
    if n == 0 || n > v.len() {
        Seq::empty()
    } else {
        made_list(v, (n - 1) as nat).push(made_of(v[n - 1]))
    }
}

/// The object made of the first `n` of some members.
pub open spec fn made_object(m: Seq<Entry>, n: nat) -> Seq<Entry>
    decreases m, n,
{
    if n == 0 || n > m.len() {
        Seq::empty()
    } else {
        with_member(
            made_object(m, (n - 1) as nat),
            Entry { key: m[n - 1].key, value: made_of(m[n - 1].value) },
        )
    }
}

/// An object with one more member, in place of one of its key.
pub open spec fn with_member(m: Seq<Entry>, e: Entry) -> Seq<Entry>
    decreases m.len(),
{
    if m.len() == 0 || text::text_before(e.key, m[0].key) {
        seq![e] + m
    } else if m[0].key == e.key {
        seq![e] + m.drop_first()
    } else {
        seq![m[0]] + with_member(m.drop_first(), e)
    }
}

/// A number put together by `Value::from`, or by `Number::from_f64` for a fraction.
/// What it then holds is a function of the numeral alone and is only named here.
#[verifier::external_body]
fn number_value(n: &JsonNumber) -> (r: Value)
    ensures
        tree_of(r) == renumbered(n.says()),
{
    n.whole.map(Value::from)
        .or_else(|| n.text.parse::<i64>().ok().map(Value::from))
        .or_else(|| n.text.parse().ok().and_then(serde_json::Number::from_f64).map(Value::from))
        .unwrap_or_default()
}

/// A `serde_json::Value` put together, variant by variant, by `Value::from` and the
/// constructors of arrays and objects, an object's members by `Map::insert`. The
/// map keeps them in the order of their keys, and puts a value in place of one of
/// its key.
#[verifier::external_body]
fn value_of(j: &Json) -> (r: Value)
    ensures
        tree_of(r) == made_of(tree(*j)),
{
    match j {
        Json::Null => Value::Null,
        Json::Bool(b) => Value::from(*b),
        Json::Number(n) => number_value(n),
        Json::Text(s) => Value::from(s.as_str()),
        Json::List(v) => Value::Array(v.iter().map(value_of).collect()),
        Json::Record(m) => Value::Object(
            m.iter().fold(serde_json::Map::new(), |mut o, x| {
                o.insert(x.key.clone(), value_of(&x.value));
                o
            })),
    }
}

/// A value as JSON writes it.
pub uninterp spec fn written(t: Tree) -> Seq<char>;

/// `serde_json::Value::to_string`. How JSON is written is the writer's business;
/// the result is a function of what the value holds and is only named here.
#[verifier::external_body]
fn value_text(v: &Value) -> (r: String)
    ensures
        r@ == written(tree_of(*v)),
{
    v.to_string()
}

impl Json {
    /// Append the value as JSON writes it.
    pub fn write(&self, out: &mut String)
        ensures
            final(out)@ == old(out)@ + written(made_of(tree(*self))),
    {
        let v: Value = match self {
            Json::Number(n) => number_value(n),
            other => value_of(other),
        };
        out.push_str(value_text(&v).as_str());
    }
}

} // verus!
