//! What a schema accepts, and what a query that is accepted asks for.

use crate::args;
use crate::args::{Aggregate, Filter, Query, Test};
use crate::cell::CellValue;
use crate::json;
use crate::json::Tree;
use crate::server;
use crate::text;
use vstd::prelude::*;

verus! {

/// A record has a member of this name.
pub open spec fn holds_key(m: Seq<json::Entry>, key: Seq<char>) -> bool {
    exists|i: int| 0 <= i < m.len() && (#[trigger] m[i]).key == key
}

/// The first member of this name.
pub open spec fn is_first(m: Seq<json::Entry>, k: int, key: Seq<char>) -> bool {
    &&& 0 <= k < m.len()
    &&& m[k].key == key
    &&& forall|j: int| 0 <= j < k ==> (#[trigger] m[j]).key != key
}

/// A value is of the kind that a schema asks for, one of those it lists, and no
/// smaller or larger than it allows.
pub open spec fn fits_in_itself(v: Tree, s: Tree) -> bool {
    &&& s.at("type"@) matches Some(Tree::Text(kind)) ==> {
        &&& kind == "object"@ ==> v is Record
        &&& kind == "array"@ ==> v is List
        &&& kind == "string"@ ==> v is Text
        &&& kind == "integer"@ ==> v.as_whole() is Some
        &&& kind == "number"@ ==> v is Number
        &&& kind == "boolean"@ ==> v is Bool
    }
    &&& s.at("enum"@) matches Some(Tree::List(allowed)) ==> exists|i: int|
        0 <= i < allowed.len() && json::same_tree(#[trigger] allowed[i], v)
    &&& v.as_whole() matches Some(n) ==> {
        &&& s.whole_at("minimum"@) matches Some(min) ==> min <= n
        &&& s.whole_at("maximum"@) matches Some(max) ==> n <= max
    }
}

/// A record has every member that a schema requires and, where the schema says so,
/// none that it does not know.
pub open spec fn fits_in_its_keys(m: Seq<json::Entry>, s: Tree) -> bool {
    &&& s.at("additionalProperties"@) == Some(Tree::Bool(false)) ==> forall|i: int|
        0 <= i < m.len() ==> (s.at("properties"@) matches Some(Tree::Record(p)) && holds_key(
            p,
            (#[trigger] m[i]).key,
        ))
    &&& s.at("required"@) matches Some(Tree::List(required)) ==> forall|i: int|
        0 <= i < required.len() ==> (#[trigger] required[i] matches Tree::Text(key) ==> holds_key(
            m,
            key,
        ))
}

proof fn lemma_key(m: Seq<json::Entry>, key: Seq<char>)
    ensures
        server::has_key(m, key) <==> holds_key(m, key),
        server::has_key(m, key) ==> is_first(m, json::key_place(m, key), key),
        forall|k: int| #[trigger] is_first(m, k, key) ==> k == json::key_place(m, key),
{
    json::lemma_key_place(m, key);
    if server::has_key(m, key) {
        assert(m[json::key_place(m, key)].key == key);
    }
    if holds_key(m, key) {
        let i = choose|i: int| 0 <= i < m.len() && (#[trigger] m[i]).key == key;
        assert(i >= json::key_place(m, key));
    }
    assert forall|k: int| #[trigger] is_first(m, k, key) implies k == json::key_place(m, key) by {
        if json::key_place(m, key) < k {
            assert(m[json::key_place(m, key)].key != key);
        } else if k < json::key_place(m, key) {
            assert(m[k].key != key);
        }
    }
}

proof fn lemma_unknown(m: Seq<json::Entry>, properties: Option<Seq<json::Entry>>, i: nat)
    requires
        i <= m.len(),
    ensures
        server::unknown_key(m, properties, i) is None <==> forall|j: int|
            i <= j < m.len() ==> (properties matches Some(p) && holds_key(
                p,
                (#[trigger] m[j]).key,
            )),
    decreases m.len() - i,
{
    if i < m.len() {
        if let Some(p) = properties {
            lemma_key(p, m[i as int].key);
        }
        lemma_unknown(m, properties, i + 1);
    }
}

proof fn lemma_missing(m: Seq<json::Entry>, required: Seq<Tree>, i: nat)
    requires
        i <= required.len(),
    ensures
        server::missing_key(m, required, i) is None <==> forall|j: int|
            i <= j < required.len() ==> (#[trigger] required[j] matches Tree::Text(key)
                ==> holds_key(m, key)),
    decreases required.len() - i,
{
    if i < required.len() {
        if let Tree::Text(key) = required[i as int] {
            lemma_key(m, key);
        }
        lemma_missing(m, required, i + 1);
    }
}

proof fn lemma_keys(m: Seq<json::Entry>, s: Tree, path: Seq<char>)
    ensures
        server::key_complaint(m, s, path) is None <==> fits_in_its_keys(m, s),
{
    lemma_unknown(m, s.record_at("properties"@), 0);
    if let Some(required) = s.list_at("required"@) {
        lemma_missing(m, required, 0);
    }
}

/// The `i`-th member of a record is accepted by the schema's property of its name,
/// where there is one.
pub open spec fn member_fits(
    m: Seq<json::Entry>,
    p: Seq<json::Entry>,
    path: Seq<char>,
    i: int,
) -> bool {
    forall|k: int| #[trigger]
        is_first(p, k, m[i].key) ==> server::complaint(
            m[i].value,
            p[k].value,
            path + "."@ + m[i].key,
        ) is None
}

proof fn lemma_members(m: Seq<json::Entry>, p: Seq<json::Entry>, path: Seq<char>, i: nat)
    requires
        i <= m.len(),
    ensures
        server::member_complaint(m, p, path, i) is None <==> forall|j: int|
            i <= j < m.len() ==> #[trigger] member_fits(m, p, path, j),
    decreases m.len() - i,
{
    if i < m.len() {
        let e = m[i as int];
        lemma_key(p, e.key);
        lemma_members(m, p, path, i + 1);
        let k = json::key_place(p, e.key);
        let fine = k < p.len() ==> server::complaint(
            e.value,
            p[k].value,
            path + "."@ + e.key,
        ) is None;
        assert(member_fits(m, p, path, i as int) <==> fine) by {
            if k < p.len() {
                assert(is_first(p, k, e.key));
            }
            json::lemma_key_place(p, e.key);
        }
        assert(server::member_complaint(m, p, path, i) is None <==> fine
            && server::member_complaint(m, p, path, i + 1) is None);
        if forall|j: int| i + 1 <= j < m.len() ==> #[trigger] member_fits(m, p, path, j) {
            assert(fine ==> forall|j: int|
                i <= j < m.len() ==> #[trigger] member_fits(m, p, path, j));
        }
    }
}

proof fn lemma_items(items: Seq<Tree>, item: Tree, path: Seq<char>, i: nat)
    requires
        i <= items.len(),
    ensures
        server::item_complaint(items, item, path, i) is None <==> forall|j: int|
            i <= j < items.len() ==> server::complaint(
                #[trigger] items[j],
                item,
                path + "["@ + text::decimal(j as nat) + "]"@,
            ) is None,
    decreases items.len() - i,
{
    if i < items.len() {
        lemma_items(items, item, path, i + 1);
        let first = server::complaint(
            items[i as int],
            item,
            path + "["@ + text::decimal(i) + "]"@,
        );
        assert(server::item_complaint(items, item, path, i) is None <==> first is None
            && server::item_complaint(items, item, path, i + 1) is None);
    }
}

/// A value is accepted exactly where it is what the schema asks for: in its kind, its
/// choice and its size, in the keys of a record, and in every member of a record and
/// every item of a list that the schema speaks of.
pub proof fn what_is_accepted_is_what_the_schema_asks_for(v: Tree, s: Tree, path: Seq<char>)
    ensures
        server::complaint(v, s, path) is None <==> {
            &&& fits_in_itself(v, s)
            &&& v matches Tree::Record(m) ==> {
                &&& fits_in_its_keys(m, s)
                &&& s.at("properties"@) matches Some(Tree::Record(p)) ==> forall|i: int|
                    0 <= i < m.len() ==> #[trigger] member_fits(m, p, path, i)
            }
            &&& v matches Tree::List(items) ==> (s.at("items"@) matches Some(item) ==> forall|i: int|
                0 <= i < items.len() ==> server::complaint(
                    #[trigger] items[i],
                    item,
                    path + "["@ + text::decimal(i as nat) + "]"@,
                ) is None)
        },
{
    lemma_itself(v, s, path);
    match v {
        Tree::Record(m) => {
            lemma_keys(m, s, path);
            if let Some(p) = s.record_at("properties"@) {
                lemma_members(m, p, path, 0);
            }
        },
        Tree::List(items) => {
            if let Some(item) = s.at("items"@) {
                lemma_items(items, item, path, 0);
            }
        },
        _ => {},
    }
}

proof fn lemma_itself(v: Tree, s: Tree, path: Seq<char>)
    ensures
        (server::kind_complaint(v, s, path) is None && server::choice_complaint(v, s, path) is None
            && server::bound_complaint(v, s, path) is None) <==> fits_in_itself(v, s),
{
}

// ---------------------------------------------------------------------------
// Queries.

/// What a test is called.
pub open spec fn called(t: Test) -> Seq<char> {
    match t {
        Test::Is(_) => "is"@,
        Test::IsNot(_) => "is_not"@,
        Test::Contains(_) => "contains"@,
        Test::OneOf(_) => "one_of"@,
        Test::Above(_) => "above"@,
        Test::AtLeast(_) => "at_least"@,
        Test::Below(_) => "below"@,
        Test::AtMost(_) => "at_most"@,
        Test::Blank => "blank"@,
        Test::NotBlank => "not_blank"@,
        Test::Failed => "failed"@,
    }
}

/// A JSON value writes a cell's value.
pub open spec fn writes(t: Tree, v: CellValue) -> bool {
    match v {
        CellValue::Number(n) => t matches Tree::Number(m) && m.bits == Some(n.bits),
        CellValue::Text(s) => t == Tree::Text(s@),
        CellValue::Bool(b) => t == Tree::Bool(b),
        CellValue::Empty => t == Tree::Null,
        CellValue::Error(_) => false,
    }
}

/// A JSON value writes what a test compares with, where it compares with anything.
pub open spec fn writes_operand(value: Option<Tree>, test: Test) -> bool {
    match test {
        Test::Is(v) => value matches Some(t) && writes(t, v),
        Test::IsNot(v) => value matches Some(t) && writes(t, v),
        Test::Contains(s) => value == Some(Tree::Text(s@)),
        Test::OneOf(all) => value matches Some(Tree::List(ts)) && ts.len() == all@.len() && forall|
            i: int,
        |
            0 <= i < ts.len() ==> writes(#[trigger] ts[i], all@[i]),
        Test::Above(n) => value matches Some(t) && writes(t, CellValue::Number(n)),
        Test::AtLeast(n) => value matches Some(t) && writes(t, CellValue::Number(n)),
        Test::Below(n) => value matches Some(t) && writes(t, CellValue::Number(n)),
        Test::AtMost(n) => value matches Some(t) && writes(t, CellValue::Number(n)),
        Test::Blank | Test::NotBlank | Test::Failed => true,
    }
}

/// A condition is read as it is written: its column, the test that is called so, and
/// what that compares with.
pub proof fn a_condition_is_read_as_it_is_written(f: Filter, t: Tree)
    requires
        args::is_filter(f, t),
    ensures
        t.at("column"@) == Some(Tree::Text(f.column@)),
        t.at("test"@) == Some(Tree::Text(called(f.test))),
        writes_operand(t.at("value"@), f.test),
{
    if let Test::OneOf(all) = f.test {
        let ts = t.at("value"@)->0->List_0;
        assert forall|i: int| 0 <= i < ts.len() implies writes(#[trigger] ts[i], all@[i]) by {
            assert(args::holds(all@[i], ts[i]));
        }
    }
}

/// What an aggregate is called.
pub open spec fn aggregate_called(a: Aggregate) -> Seq<char> {
    match a {
        Aggregate::Count => "count"@,
        Aggregate::CountValues(_) => "count_values"@,
        Aggregate::CountDistinct(_) => "count_distinct"@,
        Aggregate::Sum(_) => "sum"@,
        Aggregate::Mean(_) => "mean"@,
        Aggregate::Min(_) => "min"@,
        Aggregate::Max(_) => "max"@,
    }
}

/// The column that an aggregate is taken over, where it is taken over one.
pub open spec fn taken_over(a: Aggregate) -> Option<Seq<char>> {
    match a {
        Aggregate::Count => None,
        Aggregate::CountValues(c) => Some(c@),
        Aggregate::CountDistinct(c) => Some(c@),
        Aggregate::Sum(c) => Some(c@),
        Aggregate::Mean(c) => Some(c@),
        Aggregate::Min(c) => Some(c@),
        Aggregate::Max(c) => Some(c@),
    }
}

/// A query is read as it is written: every condition, every column to group by and
/// every aggregate in its place, and no more groups than it asks for.
pub proof fn a_query_is_read_as_it_is_written(q: Query, given: Tree)
    requires
        args::is_query(q, given),
    ensures
        given.at("where"@) matches Some(Tree::List(ts)) ==> ts.len() == q.filters@.len(),
        given.at("where"@) is None ==> q.filters@.len() == 0,
        forall|i: int|
            0 <= i < q.filters@.len() ==> given.at("where"@)->0->List_0[i].at("test"@) == Some(
                Tree::Text(called((#[trigger] q.filters@[i]).test)),
            ),
        given.at("group_by"@) is None ==> q.group_by@.len() == 0,
        forall|i: int|
            0 <= i < q.group_by@.len() ==> given.at("group_by"@)->0->List_0[i] == Tree::Text(
                (#[trigger] q.group_by@[i])@,
            ),
        given.at("aggregate"@) is None ==> q.aggregates@.len() == 0,
        forall|i: int|
            0 <= i < q.aggregates@.len() ==> {
                let a = #[trigger] q.aggregates@[i];
                let t = given.at("aggregate"@)->0->List_0[i];
                &&& t.at("of"@) == Some(Tree::Text(aggregate_called(a)))
                &&& taken_over(a) matches Some(c) ==> t.at("column"@) == Some(Tree::Text(c))
            },
        given.at("limit"@) matches Some(Tree::Number(n)) ==> (n.whole matches Some(w) && w as usize
            == q.limit),
        given.at("limit"@) is None ==> q.limit == 20,
        1 <= q.limit <= 200,
{
    assert forall|i: int| 0 <= i < q.filters@.len() implies given.at("where"@)->0->List_0[i].at(
        "test"@,
    ) == Some(Tree::Text(called((#[trigger] q.filters@[i]).test))) by {
        a_condition_is_read_as_it_is_written(
            q.filters@[i],
            given.at("where"@)->0->List_0[i],
        );
    }
    assert forall|i: int| 0 <= i < q.aggregates@.len() implies {
        let a = #[trigger] q.aggregates@[i];
        let t = given.at("aggregate"@)->0->List_0[i];
        &&& t.at("of"@) == Some(Tree::Text(aggregate_called(a)))
        &&& taken_over(a) matches Some(c) ==> t.at("column"@) == Some(Tree::Text(c))
    } by {
        assert(args::is_aggregate(
            q.aggregates@[i],
            given.at("aggregate"@)->0->List_0[i],
        ));
    }
}

} // verus!
