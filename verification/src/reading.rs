//! What a reader can take from a passage.
//!
//! A passage numbers the nodes that were retrieved and says of each what it is in,
//! what it reads and what reads it. Here those lines are held against the roles
//! that the walk recorded, whichever way round a role puts the dependency.

use crate::address;
use crate::context;
use crate::context::{Dependency, Relation, RenderOptions};
use crate::expand::{Retrieved, RetrievedNode, Role, WorkbookContext};
use crate::graph::EdgeKind;
use crate::text;
use vstd::prelude::*;

verus! {

/// No two of some nodes have the same index.
pub open spec fn all_apart(nodes: Seq<RetrievedNode>) -> bool {
    forall|i: int, j: int|
        0 <= i < j < nodes.len() ==> (#[trigger] nodes[i]).node != (#[trigger] nodes[j]).node
}

// ---------------------------------------------------------------------------
// The numbering.

proof fn lemma_filter_apart(nodes: Seq<RetrievedNode>, p: spec_fn(RetrievedNode) -> bool)
    requires
        all_apart(nodes),
    ensures
        all_apart(nodes.filter(p)),
        forall|i: int|
            0 <= i < nodes.filter(p).len() ==> nodes.contains(#[trigger] nodes.filter(p)[i]) && p(
                nodes.filter(p)[i],
            ),
    decreases nodes.len(),
{
    reveal(Seq::filter);
    if nodes.len() > 0 {
        let before = nodes.drop_last();
        assert forall|i: int, j: int| 0 <= i < j < before.len() implies (
        #[trigger] before[i]).node != (#[trigger] before[j]).node by {
            assert(nodes[i].node != nodes[j].node);
        }
        lemma_filter_apart(before, p);
        let all = nodes.filter(p);
        let some = before.filter(p);
        assert forall|i: int| 0 <= i < all.len() implies nodes.contains(#[trigger] all[i]) && p(
            all[i],
        ) by {
            if i < some.len() {
                assert(all[i] == some[i]);
                let k = choose|k: int| 0 <= k < before.len() && before[k] == some[i];
                assert(nodes[k] == all[i]);
            } else {
                assert(nodes[nodes.len() - 1] == all[i]);
            }
        }
        assert forall|i: int, j: int| 0 <= i < j < all.len() implies (#[trigger] all[i]).node != (
        #[trigger] all[j]).node by {
            assert(all[i] == some[i]);
            let k = choose|k: int| 0 <= k < before.len() && before[k] == some[i];
            if j < some.len() {
                assert(all[j] == some[j]);
            } else {
                assert(nodes[k].node != nodes[nodes.len() - 1].node);
            }
        }
    }
}

proof fn lemma_numbered(nodes: Seq<RetrievedNode>)
    requires
        all_apart(nodes),
    ensures
        all_apart(context::listing(nodes)),
        context::listing(nodes).len() == nodes.len(),
        forall|i: int|
            0 <= i < nodes.len() ==> nodes.contains(#[trigger] context::listing(nodes)[i]),
{
    let p = |n: RetrievedNode| n.role is Seed;
    let q = |n: RetrievedNode| !(n.role is Seed);
    context::every_node_is_listed(nodes);
    lemma_filter_apart(nodes, p);
    lemma_filter_apart(nodes, q);
    let a = nodes.filter(p);
    let b = nodes.filter(q);
    let all = context::listing(nodes);
    assert(all == a + b);
    assert forall|i: int| 0 <= i < all.len() implies nodes.contains(#[trigger] all[i]) by {
        if i < a.len() {
            assert(all[i] == a[i]);
        } else {
            assert(all[i] == b[i - a.len()]);
        }
    }
    assert forall|i: int, j: int| 0 <= i < j < all.len() implies (#[trigger] all[i]).node != (
    #[trigger] all[j]).node by {
        if j < a.len() {
            assert(all[i] == a[i] && all[j] == a[j]);
        } else if i >= a.len() {
            assert(all[i] == b[i - a.len()] && all[j] == b[j - a.len()]);
        } else {
            assert(all[i] == a[i] && all[j] == b[j - a.len()]);
            let x = choose|x: int| 0 <= x < nodes.len() && nodes[x] == a[i];
            let y = choose|y: int| 0 <= y < nodes.len() && nodes[y] == b[j - a.len()];
            assert(x != y);
            if x < y {
                assert(nodes[x].node != nodes[y].node);
            } else {
                assert(nodes[y].node != nodes[x].node);
            }
        }
    }
}

proof fn lemma_place(nodes: Seq<RetrievedNode>, k: int)
    requires
        all_apart(nodes),
        0 <= k < nodes.len(),
    ensures
        context::last_place(nodes, nodes[k].node) == k,
    decreases nodes.len(),
{
    let before = nodes.drop_last();
    if k < before.len() {
        assert(nodes[k].node != nodes[nodes.len() - 1].node);
        assert forall|i: int, j: int| 0 <= i < j < before.len() implies (
        #[trigger] before[i]).node != (#[trigger] before[j]).node by {
            assert(nodes[i].node != nodes[j].node);
        }
        assert(before[k] == nodes[k]);
        lemma_place(before, k);
    }
}

proof fn lemma_place_of_found(nodes: Seq<RetrievedNode>, index: u32)
    ensures
        -1 <= context::last_place(nodes, index) < nodes.len(),
        context::last_place(nodes, index) >= 0 ==> nodes[context::last_place(
            nodes,
            index,
        )].node == index,
    decreases nodes.len(),
{
    if nodes.len() > 0 && nodes.last().node != index {
        lemma_place_of_found(nodes.drop_last(), index);
    }
}

// ---------------------------------------------------------------------------
// Relations.

proof fn lemma_recorded(order: Seq<RetrievedNode>, nodes: Seq<RetrievedNode>, n: RetrievedNode)
    requires
        nodes.contains(n),
        context::dependency_of(order, n) is Some,
    ensures
        context::dependencies(order, nodes).contains(context::dependency_of(order, n)->0),
    decreases nodes.len(),
{
    let d = context::dependency_of(order, n)->0;
    let all = context::dependencies(order, nodes);
    let before = context::dependencies(order, nodes.drop_last());
    let k = choose|k: int| 0 <= k < nodes.len() && nodes[k] == n;
    if k == nodes.len() - 1 {
        assert(all == before.push(d));
        assert(all[before.len() as int] == d);
    } else {
        assert(nodes.drop_last()[k] == n);
        lemma_recorded(order, nodes.drop_last(), n);
        let j = choose|j: int| 0 <= j < before.len() && before[j] == d;
        assert(all[j] == d);
    }
}

proof fn lemma_recorded_only(order: Seq<RetrievedNode>, nodes: Seq<RetrievedNode>, d: Dependency)
    requires
        context::dependencies(order, nodes).contains(d),
    ensures
        exists|n: RetrievedNode| #[trigger]
            nodes.contains(n) && context::dependency_of(order, n) == Some(d),
    decreases nodes.len(),
{
    let all = context::dependencies(order, nodes);
    let before = context::dependencies(order, nodes.drop_last());
    let j = choose|j: int| 0 <= j < all.len() && all[j] == d;
    if nodes.len() > 0 {
        if j < before.len() {
            assert(before[j] == d);
            lemma_recorded_only(order, nodes.drop_last(), d);
            let n = choose|n: RetrievedNode| #[trigger]
                nodes.drop_last().contains(n) && context::dependency_of(order, n) == Some(d);
            let k = choose|k: int|
                0 <= k < nodes.drop_last().len() && nodes.drop_last()[k] == n;
            assert(nodes[k] == n);
            assert(nodes.contains(n));
        } else {
            assert(nodes[nodes.len() - 1] == nodes.last());
            assert(nodes.contains(nodes.last()));
        }
    }
}

proof fn lemma_weighed(s: Seq<Relation>, x: Relation)
    ensures
        forall|r: Relation| #[trigger]
            context::weighed_in(s, x).contains(r) <==> r == x || s.contains(r),
        context::weighed_in(s, x).len() == s.len() + 1,
    decreases s.len(),
{
    let all = context::weighed_in(s, x);
    if s.len() == 0 {
        assert(all[0] == x);
    } else if context::weighs_more(x, s[0]) {
        assert forall|r: Relation| #[trigger] all.contains(r) <==> r == x || s.contains(r) by {
            if s.contains(r) {
                let k = choose|k: int| 0 <= k < s.len() && s[k] == r;
                assert(all[k + 1] == r);
            }
            if r == x {
                assert(all[0] == r);
            }
            if all.contains(r) {
                let k = choose|k: int| 0 <= k < all.len() && all[k] == r;
                if k > 0 {
                    assert(s[k - 1] == r);
                }
            }
        }
    } else {
        let rest = s.drop_first();
        let some = context::weighed_in(rest, x);
        lemma_weighed(rest, x);
        assert(all == seq![s[0]] + some);
        assert forall|r: Relation| #[trigger] all.contains(r) <==> r == x || s.contains(r) by {
            if all.contains(r) {
                let k = choose|k: int| 0 <= k < all.len() && all[k] == r;
                if k > 0 {
                    assert(some[k - 1] == r);
                    assert(some.contains(r));
                    if r != x {
                        let j = choose|j: int| 0 <= j < rest.len() && rest[j] == r;
                        assert(s[j + 1] == r);
                    }
                } else {
                    assert(s[0] == r);
                }
            }
            if r == x || s.contains(r) {
                if r == x {
                    assert(some.contains(r));
                    let k = choose|k: int| 0 <= k < some.len() && some[k] == r;
                    assert(all[k + 1] == r);
                } else {
                    let j = choose|j: int| 0 <= j < s.len() && s[j] == r;
                    if j == 0 {
                        assert(all[0] == r);
                    } else {
                        assert(rest[j - 1] == r);
                        assert(some.contains(r));
                        let k = choose|k: int| 0 <= k < some.len() && some[k] == r;
                        assert(all[k + 1] == r);
                    }
                }
            }
        }
    }
}

/// The relation that a dependency is to one of its ends.
spec fn seen_from(d: Dependency, reading: bool) -> Relation {
    Relation {
        other: if reading {
            d.target
        } else {
            d.reader
        },
        weight: d.weight,
        kind: d.kind,
    }
}

spec fn is_at(d: Dependency, number: int, reading: bool) -> bool {
    if reading {
        d.reader == number
    } else {
        d.target == number
    }
}

proof fn lemma_relations(deps: Seq<Dependency>, number: int, reading: bool)
    ensures
        forall|r: Relation| #[trigger]
            context::relations_of(deps, number, reading).contains(r) <==> exists|d: Dependency|
                #[trigger] deps.contains(d) && is_at(d, number, reading) && seen_from(d, reading)
                    == r,
    decreases deps.len(),
{
    let all = context::relations_of(deps, number, reading);
    if deps.len() > 0 {
        let before = deps.drop_last();
        let last = deps.last();
        let some = context::relations_of(before, number, reading);
        lemma_relations(before, number, reading);
        if is_at(last, number, reading) {
            lemma_weighed(some, seen_from(last, reading));
            assert(all == context::weighed_in(some, seen_from(last, reading)));
        } else {
            assert(all == some);
        }
        assert(deps[deps.len() - 1] == last);
        assert forall|r: Relation| #[trigger] all.contains(r) <==> exists|d: Dependency| #[trigger]
            deps.contains(d) && is_at(d, number, reading) && seen_from(d, reading) == r by {
            if all.contains(r) {
                if some.contains(r) {
                    let d = choose|d: Dependency| #[trigger]
                        before.contains(d) && is_at(d, number, reading) && seen_from(d, reading)
                            == r;
                    let k = choose|k: int| 0 <= k < before.len() && before[k] == d;
                    assert(deps[k] == d);
                    assert(deps.contains(d));
                } else {
                    assert(deps.contains(last));
                }
            }
            if exists|d: Dependency| #[trigger]
                deps.contains(d) && is_at(d, number, reading) && seen_from(d, reading) == r {
                let d = choose|d: Dependency| #[trigger]
                    deps.contains(d) && is_at(d, number, reading) && seen_from(d, reading) == r;
                let k = choose|k: int| 0 <= k < deps.len() && deps[k] == d;
                if k < before.len() {
                    assert(before[k] == d);
                    assert(before.contains(d));
                    assert(some.contains(r));
                }
            }
        }
    }
}

/// What is said behind the number of another entry: how many references there are,
/// and where they lead unless they stay on the sheet.
pub open spec fn reference_count(weight: u64, kind: EdgeKind) -> Seq<char> {
    " ("@ + context::separated(text::decimal(weight as nat)) + " refs"@ + (if kind
        == EdgeKind::CrossSheetRef {
        ", another sheet"@
    } else if kind == EdgeKind::CrossWorkbookRef {
        ", another workbook"@
    } else if kind == EdgeKind::ReferencesName {
        ", by name"@
    } else {
        ""@
    }) + ")"@
}

/// A line names an entry: behind its verb stands a list, and the number is in it.
pub open spec fn line_names(
    line: Seq<char>,
    indent: nat,
    verb: Seq<char>,
    number: int,
    behind: Seq<char>,
) -> bool {
    exists|items: Seq<Seq<char>>, k: int|
        0 <= k < items.len() && #[trigger] items[k] == "["@ + text::decimal(number as nat) + "]"@
            + behind && line == context::blanks(indent) + verb + ": "@ + context::joined(
            items,
            ", "@,
        ) + "\n"@
}

/// The entry under a head says that it reads another.
pub open spec fn says_it_reads(
    text: Seq<char>,
    head: Seq<char>,
    indent: nat,
    number: int,
    behind: Seq<char>,
) -> bool {
    exists|a: Seq<char>, line: Seq<char>, b: Seq<char>|
        text == #[trigger] (a + head + line + b) && line_names(
            line,
            indent,
            "reads"@,
            number,
            behind,
        )
}

/// The entry under a head says that it is read by another, at once or behind the
/// line on what it reads itself.
pub open spec fn says_it_is_read_by(
    text: Seq<char>,
    head: Seq<char>,
    indent: nat,
    number: int,
    behind: Seq<char>,
) -> bool {
    exists|a: Seq<char>, own: Seq<char>, line: Seq<char>, b: Seq<char>|
        text == #[trigger] (a + head + own + line + b) && (own.len() == 0 || (context::blanks(
            indent,
        ) + "reads"@ + ": "@).is_prefix_of(own)) && line_names(
            line,
            indent,
            "read by"@,
            number,
            behind,
        )
}

proof fn lemma_line(
    verb: Seq<char>,
    list: Seq<Relation>,
    r: Relation,
    upto: int,
    weights: bool,
    indent: nat,
)
    requires
        list.contains(r),
        r.other <= upto,
    ensures
        line_names(
            context::relation_line_text(verb, list, upto, weights, indent),
            indent,
            verb,
            r.other as int,
            if weights {
                reference_count(r.weight, r.kind)
            } else {
                Seq::empty()
            },
        ),
{
    let keep = |x: Relation| x.other <= upto;
    let shown = context::shown_relations(list, upto);
    let i = choose|i: int| 0 <= i < list.len() && list[i] == r;
    list.lemma_filter_contains(keep, i);
    let k = choose|k: int| 0 <= k < shown.len() && shown[k] == r;
    let items = shown.map_values(|x: Relation| context::relation_text(x, weights));
    let behind = if weights {
        reference_count(r.weight, r.kind)
    } else {
        Seq::empty()
    };
    assert(items[k] == context::relation_text(r, weights));
    assert("["@ + text::decimal(r.other as nat) + "]"@ + behind =~= items[k]) by {
        reveal_strlit("] (");
        reveal_strlit("]");
        reveal_strlit(" (");
        assert("] ("@ =~= "]"@ + " ("@);
    }
    assert(items[k] == "["@ + text::decimal(r.other as nat) + "]"@ + behind);
}

/// The parts of the entry of a number: its head, what it reads, what reads it.
#[verifier::opaque]
spec fn parts_of(nodes: Seq<RetrievedNode>, number: int, upto: nat, weights: bool) -> (
    Seq<char>,
    Seq<char>,
    Seq<char>,
) {
    let order = context::listing(nodes);
    let pad = context::number_width(order.len());
    let deps = context::dependencies(order, nodes);
    (
        context::entry_head_text(nodes, order[number - 1], number, pad),
        context::relation_line_text(
            "reads"@,
            context::relations_of(deps, number, true),
            upto as int,
            weights,
            pad + 5,
        ),
        context::relation_line_text(
            "read by"@,
            context::relations_of(deps, number, false),
            upto as int,
            weights,
            pad + 5,
        ),
    )
}

proof fn lemma_last_entry(nodes: Seq<RetrievedNode>, n: nat, upto: nat, weights: bool)
    requires
        n > 0,
    ensures
        ({
            let (h, x, y) = parts_of(nodes, n as int, upto, weights);
            context::entries_text(nodes, n, upto, weights) == context::entries_text(
                nodes,
                (n - 1) as nat,
                upto,
                weights,
            ) + h + (x + y)
        }),
{
    reveal(parts_of);
}

proof fn lemma_regroup(
    a: Seq<char>,
    h: Seq<char>,
    x: Seq<char>,
    y: Seq<char>,
    b: Seq<char>,
    c: Seq<char>,
    e: Seq<char>,
)
    ensures
        a + h + (x + y) == a + h + x + y + Seq::<char>::empty(),
        a + h + x + y + b + c + e == a + h + x + y + (b + (c + e)),
        a + h + x + y + b + (c + e) == a + h + x + y + (b + (c + e)),
        c + (a + h + x + y + b) + e == (c + a) + h + x + y + (b + e),
        c + (a + h + x + y + b) + e == (c + a) + h + x + (y + (b + e)),
{
    assert(a + h + (x + y) =~= a + h + x + y + Seq::<char>::empty());
    assert(a + h + x + y + b + c + e =~= a + h + x + y + (b + (c + e)));
    assert(a + h + x + y + b + (c + e) =~= a + h + x + y + (b + (c + e)));
    assert(c + (a + h + x + y + b) + e =~= (c + a) + h + x + y + (b + e));
    assert(c + (a + h + x + y + b) + e =~= (c + a) + h + x + (y + (b + e)));
}

/// The text of an entry in the middle of the others.
proof fn lemma_entry(nodes: Seq<RetrievedNode>, n: nat, upto: nat, weights: bool, number: int) -> (r:
    (Seq<char>, Seq<char>))
    requires
        1 <= number <= n,
    ensures
        ({
            let (h, x, y) = parts_of(nodes, number, upto, weights);
            context::entries_text(nodes, n, upto, weights) == r.0 + h + x + y + r.1
        }),
    decreases n,
{
    let (h, x, y) = parts_of(nodes, number, upto, weights);
    let before = context::entries_text(nodes, (n - 1) as nat, upto, weights);
    lemma_last_entry(nodes, n, upto, weights);
    if number == n {
        lemma_regroup(before, h, x, y, Seq::empty(), Seq::empty(), Seq::empty());
        (before, Seq::empty())
    } else {
        let (a, b) = lemma_entry(nodes, (n - 1) as nat, upto, weights, number);
        let (g, u, v) = parts_of(nodes, n as int, upto, weights);
        lemma_regroup(a, h, x, y, b, g, u + v);
        (a, b + (g + (u + v)))
    }
}

proof fn lemma_lines_name(
    nodes: Seq<RetrievedNode>,
    upto: nat,
    weights: bool,
    d: Dependency,
)
    requires
        context::dependencies(context::listing(nodes), nodes).contains(d),
        d.reader <= upto,
        d.target <= upto,
    ensures
        ({
            let indent = context::number_width(context::listing(nodes).len()) + 5;
            let behind = if weights {
                reference_count(d.weight, d.kind)
            } else {
                Seq::empty()
            };
            let own = parts_of(nodes, d.target as int, upto, weights).1;
            &&& line_names(
                parts_of(nodes, d.reader as int, upto, weights).1,
                indent,
                "reads"@,
                d.target as int,
                behind,
            )
            &&& line_names(
                parts_of(nodes, d.target as int, upto, weights).2,
                indent,
                "read by"@,
                d.reader as int,
                behind,
            )
            &&& own.len() == 0 || (context::blanks(indent) + "reads"@ + ": "@).is_prefix_of(own)
        }),
{
    reveal(parts_of);
    let order = context::listing(nodes);
    let indent = context::number_width(order.len()) + 5;
    let deps = context::dependencies(order, nodes);
    let r = Relation { other: d.target, weight: d.weight, kind: d.kind };
    let q = Relation { other: d.reader, weight: d.weight, kind: d.kind };
    lemma_relations(deps, d.reader as int, true);
    lemma_relations(deps, d.target as int, false);
    assert(is_at(d, d.reader as int, true) && seen_from(d, true) == r);
    assert(is_at(d, d.target as int, false) && seen_from(d, false) == q);
    let reads = context::relations_of(deps, d.reader as int, true);
    let read_by = context::relations_of(deps, d.target as int, false);
    assert(reads.contains(r));
    assert(read_by.contains(q));
    lemma_line("reads"@, reads, r, upto as int, weights, indent);
    lemma_line("read by"@, read_by, q, upto as int, weights, indent);
    let own = parts_of(nodes, d.target as int, upto, weights).1;
    if own.len() > 0 {
        let first = context::blanks(indent) + "reads"@ + ": "@;
        assert(own.take(first.len() as int) =~= first);
    }
}

proof fn lemma_told_from_both_ends(
    workbook: WorkbookContext,
    fits: nat,
    weights: bool,
    d: Dependency,
)
    requires
        context::dependencies(context::listing(workbook.nodes@), workbook.nodes@).contains(d),
        1 <= d.reader <= fits,
        1 <= d.target <= fits,
    ensures
        ({
            let nodes = workbook.nodes@;
            let indent = context::number_width(context::listing(nodes).len()) + 5;
            let text = context::assembled(workbook, fits, weights);
            let behind = if weights {
                reference_count(d.weight, d.kind)
            } else {
                Seq::empty()
            };
            &&& says_it_reads(
                text,
                parts_of(nodes, d.reader as int, fits, weights).0,
                indent,
                d.target as int,
                behind,
            )
            &&& says_it_is_read_by(
                text,
                parts_of(nodes, d.target as int, fits, weights).0,
                indent,
                d.reader as int,
                behind,
            )
        }),
{
    let nodes = workbook.nodes@;
    let order = context::listing(nodes);
    let text = context::assembled(workbook, fits, weights);
    let top = context::heading_text(workbook.path@, workbook.truncated, fits, order.len());
    lemma_lines_name(nodes, fits, weights, d);
    let (h, x, y) = parts_of(nodes, d.reader as int, fits, weights);
    let (a, b) = lemma_entry(nodes, fits, fits, weights, d.reader as int);
    lemma_regroup(a, h, x, y, b, top, "\n"@);
    assert(text == (top + a) + h + x + (y + (b + "\n"@)));
    let (h, x, y) = parts_of(nodes, d.target as int, fits, weights);
    let (a, b) = lemma_entry(nodes, fits, fits, weights, d.target as int);
    lemma_regroup(a, h, x, y, b, top, "\n"@);
    assert(text == (top + a) + h + x + y + (b + "\n"@));
}

/// A dependency is told from both of its ends, and the right way round. Where an
/// entry was reached because it reads another, its own line says that it reads
/// that one, and the line of that one that it is read by this; where it was reached
/// because another reads it, the other way about. With weights, each line says how
/// many references there are and where they lead.
pub proof fn a_dependency_is_told_from_both_ends(
    workbook: WorkbookContext,
    fits: nat,
    weights: bool,
    x: int,
    y: int,
    kind: EdgeKind,
    weight: u64,
)
    requires
        all_apart(workbook.nodes@),
        workbook.nodes@.len() < usize::MAX,
        fits <= workbook.nodes@.len(),
        0 <= x < fits,
        0 <= y < fits,
        ({
            let order = context::listing(workbook.nodes@);
            let here = order[x];
            let there = order[y].node;
            here.role == (Role::Dependent { on: there, kind, weight }) || here.role == (
            Role::Input { of: there, kind, weight })
        }),
    ensures
        ({
            let nodes = workbook.nodes@;
            let order = context::listing(nodes);
            let pad = context::number_width(order.len());
            let (reader, target) = if order[x].role is Dependent {
                (x, y)
            } else {
                (y, x)
            };
            let text = context::assembled(workbook, fits, weights);
            let behind = if weights {
                reference_count(weight, kind)
            } else {
                Seq::empty()
            };
            &&& says_it_reads(
                text,
                context::entry_head_text(nodes, order[reader], reader + 1, pad),
                pad + 5,
                target + 1,
                behind,
            )
            &&& says_it_is_read_by(
                text,
                context::entry_head_text(nodes, order[target], target + 1, pad),
                pad + 5,
                reader + 1,
                behind,
            )
        }),
{
    let nodes = workbook.nodes@;
    let order = context::listing(nodes);
    lemma_numbered(nodes);
    lemma_place(order, x);
    lemma_place(order, y);
    let d = if order[x].role is Dependent {
        Dependency { reader: (x + 1) as usize, target: (y + 1) as usize, weight, kind }
    } else {
        Dependency { reader: (y + 1) as usize, target: (x + 1) as usize, weight, kind }
    };
    assert(nodes.contains(order[x]));
    assert(context::dependency_of(order, order[x]) == Some(d));
    lemma_recorded(order, nodes, order[x]);
    lemma_told_from_both_ends(workbook, fits, weights, d);
    reveal(parts_of);
}

/// Nothing is told of two entries that the walk did not record: what the line of an
/// entry says that it reads, one of the two recorded as its reason to be there.
pub proof fn every_relation_was_recorded(nodes: Seq<RetrievedNode>, number: int, r: Relation)
    requires
        all_apart(nodes),
        nodes.len() < usize::MAX,
        1 <= number <= nodes.len(),
    ensures
        ({
            let order = context::listing(nodes);
            let deps = context::dependencies(order, nodes);
            let here = order[number - 1];
            let there = order[r.other - 1];
            &&& context::relations_of(deps, number, true).contains(r) ==> 1 <= r.other
                <= nodes.len() && (here.role == (Role::Dependent {
                on: there.node,
                kind: r.kind,
                weight: r.weight,
            }) || there.role == (Role::Input { of: here.node, kind: r.kind, weight: r.weight }))
            &&& context::relations_of(deps, number, false).contains(r) ==> 1 <= r.other
                <= nodes.len() && (there.role == (Role::Dependent {
                on: here.node,
                kind: r.kind,
                weight: r.weight,
            }) || here.role == (Role::Input { of: there.node, kind: r.kind, weight: r.weight }))
        }),
{
    let order = context::listing(nodes);
    let deps = context::dependencies(order, nodes);
    lemma_numbered(nodes);
    lemma_relations(deps, number, true);
    lemma_relations(deps, number, false);
    if context::relations_of(deps, number, true).contains(r) {
        let d = choose|d: Dependency| #[trigger]
            deps.contains(d) && is_at(d, number, true) && seen_from(d, true) == r;
        lemma_recorded_ends(nodes, d);
    }
    if context::relations_of(deps, number, false).contains(r) {
        let d = choose|d: Dependency| #[trigger]
            deps.contains(d) && is_at(d, number, false) && seen_from(d, false) == r;
        lemma_recorded_ends(nodes, d);
    }
}

proof fn lemma_recorded_ends(nodes: Seq<RetrievedNode>, d: Dependency)
    requires
        all_apart(nodes),
        nodes.len() < usize::MAX,
        context::dependencies(context::listing(nodes), nodes).contains(d),
    ensures
        ({
            let order = context::listing(nodes);
            let reader = order[d.reader - 1];
            let target = order[d.target - 1];
            &&& 1 <= d.reader <= nodes.len()
            &&& 1 <= d.target <= nodes.len()
            &&& reader.role == (Role::Dependent { on: target.node, kind: d.kind, weight: d.weight })
                || target.role == (Role::Input {
                of: reader.node,
                kind: d.kind,
                weight: d.weight,
            })
        }),
{
    let order = context::listing(nodes);
    lemma_numbered(nodes);
    lemma_recorded_only(order, nodes, d);
    let n = choose|n: RetrievedNode| #[trigger]
        nodes.contains(n) && context::dependency_of(order, n) == Some(d);
    lemma_place_of_found(order, n.node);
    context::every_node_is_listed(nodes);
    assert(order.contains(n));
    let k = choose|k: int| 0 <= k < order.len() && order[k] == n;
    lemma_place(order, k);
    if let Some(other) = n.role.origin() {
        lemma_place_of_found(order, other);
    }
}

// ---------------------------------------------------------------------------
// Where an entry is.

/// A chain of containers: each is the parent of the one before it, and the last
/// has none.
pub open spec fn is_chain(nodes: Seq<RetrievedNode>, from: Option<u32>, chain: Seq<int>) -> bool
    decreases chain.len(),
{
    if chain.len() == 0 {
        from is None
    } else {
        &&& 0 <= chain[0] < nodes.len()
        &&& from == Some(nodes[chain[0]].node)
        &&& is_chain(nodes, nodes[chain[0]].parent, chain.drop_first())
    }
}

/// The labels of a chain from the outermost to the innermost, without the workbook.
pub open spec fn path_of(nodes: Seq<RetrievedNode>, chain: Seq<int>) -> Seq<Seq<char>>
    decreases chain.len(),
{
    if chain.len() == 0 {
        Seq::empty()
    } else {
        let outer = path_of(nodes, chain.drop_first());
        if nodes[chain[0]].kind is Workbook {
            outer
        } else {
            outer.push(nodes[chain[0]].label@)
        }
    }
}

proof fn lemma_labels_up(
    nodes: Seq<RetrievedNode>,
    from: Option<u32>,
    chain: Seq<int>,
    left: nat,
)
    requires
        all_apart(nodes),
        is_chain(nodes, from, chain),
        chain.len() <= left,
    ensures
        context::labels_up(nodes, from, left).reverse() == path_of(nodes, chain),
    decreases chain.len(),
{
    if chain.len() > 0 {
        let k = chain[0];
        lemma_place(nodes, k);
        lemma_labels_up(nodes, nodes[k].parent, chain.drop_first(), (left - 1) as nat);
        let rest = context::labels_up(nodes, nodes[k].parent, (left - 1) as nat);
        let all = context::labels_up(nodes, from, left);
        if !(nodes[k].kind is Workbook) {
            assert(all == seq![nodes[k].label@] + rest);
            assert(all.reverse() =~= rest.reverse().push(nodes[k].label@));
        }
    } else {
        assert(context::labels_up(nodes, from, left) =~= Seq::empty());
        assert(context::labels_up(nodes, from, left).reverse() =~= path_of(nodes, chain));
    }
}

/// An entry's head says its number, whether it is a seed, its kind, its label unless
/// that is its own range, its citation, and what it is in, from the outermost
/// container to the innermost, the workbook left out.
pub proof fn a_head_says_where_its_entry_is(
    nodes: Seq<RetrievedNode>,
    n: RetrievedNode,
    number: int,
    pad: nat,
    chain: Seq<int>,
)
    requires
        all_apart(nodes),
        is_chain(nodes, n.parent, chain),
        chain.len() <= nodes.len(),
        text::decimal(number as nat).len() <= pad,
    ensures
        ({
            let digits = text::decimal(number as nat);
            let path = path_of(nodes, chain);
            let mark = if n.role == Role::Seed {
                "* "@
            } else {
                "  "@
            };
            let label = if n.label@.len() == 0 || (n.a1 matches Some(a) && context::local_part(a@)
                == n.label@) {
                Seq::empty()
            } else {
                text::debug_text(n.label@)
            };
            let cited = match n.a1 {
                Some(a) => "   "@ + a@,
                None => Seq::empty(),
            };
            let first = "["@ + digits + "]"@ + context::blanks((pad + 1 - digits.len()) as nat)
                + mark + n.kind.shown() + " "@ + label + cited + "\n"@;
            context::entry_head_text(nodes, n, number, pad) == (if path.len() == 0 {
                first
            } else {
                first + context::blanks(pad + 5) + "in: "@ + context::joined(path, " > "@) + "\n"@
            })
        }),
{
    lemma_labels_up(nodes, n.parent, chain, nodes.len());
    reveal_strlit("* ");
    reveal_strlit("  ");
    reveal_strlit("*");
    reveal_strlit(" ");
    assert("* "@ =~= "*"@ + " "@);
    assert("  "@ =~= " "@ + " "@);
    let path = path_of(nodes, chain);
    let digits = text::decimal(number as nat);
    let label = context::quoted_label(n.label@, address::opt_view(n.a1));
    let cited = match n.a1 {
        Some(a) => "   "@ + a@,
        None => Seq::empty(),
    };
    let mark = if n.role == Role::Seed {
        "* "@
    } else {
        "  "@
    };
    let first = "["@ + digits + "]"@ + context::blanks((pad + 1 - digits.len()) as nat) + mark
        + n.kind.shown() + " "@ + label + cited + "\n"@;
    let head = context::entry_head_text(nodes, n, number, pad);
    if path.len() == 0 {
        assert(head =~= first);
    } else {
        assert(head =~= first + context::blanks(pad + 5) + "in: "@ + context::joined(path, " > "@)
            + "\n"@);
    }
}

// ---------------------------------------------------------------------------
// The whole passage.

/// A passage that is not cut short holds the part of every workbook whole, with all
/// of its entries.
pub proof fn an_uncut_passage_shows_every_workbook_whole(
    found: Retrieved,
    opts: RenderOptions,
    k: int,
)
    requires
        passage_omits_nothing(found, opts),
        0 <= k < found.workbooks@.len(),
        found.workbooks@[k].nodes@.len() > 0,
    ensures
        context::occurs_in(
            context::assembled(
                found.workbooks@[k],
                found.workbooks@[k].nodes@.len(),
                opts.weights,
            ),
            context::passage(found, opts).text,
        ),
{
    let none = context::Passage {
        text: context::missing_notice(found.missing_workbooks@, opts.max_chars as int),
        citations: Seq::empty(),
        omitted: 0,
        omitted_workbooks: 0,
        any: false,
    };
    lemma_whole_parts(none, found.workbooks@, opts, k);
}

/// Nothing that was retrieved is left out of the passage.
pub open spec fn passage_omits_nothing(found: Retrieved, opts: RenderOptions) -> bool {
    context::passage(found, opts).omitted == 0
}

proof fn lemma_shown_bound(
    workbook: WorkbookContext,
    weights: bool,
    room: int,
    floor: nat,
    n: nat,
)
    ensures
        context::most_that_fit(workbook, weights, room, floor, n) <= (if n <= floor {
            floor
        } else {
            n
        }),
    decreases n,
{
    if n > floor {
        lemma_shown_bound(workbook, weights, room, floor, (n - 1) as nat);
    }
}

proof fn lemma_whole_parts(
    p: context::Passage,
    workbooks: Seq<WorkbookContext>,
    opts: RenderOptions,
    k: int,
)
    requires
        context::with_workbooks(p, workbooks, opts).omitted == 0,
        0 <= k < workbooks.len(),
        workbooks[k].nodes@.len() > 0,
    ensures
        context::occurs_in(
            context::assembled(workbooks[k], workbooks[k].nodes@.len(), opts.weights),
            context::with_workbooks(p, workbooks, opts).text,
        ),
    decreases workbooks.len(),
{
    let before = workbooks.drop_last();
    let last = workbooks.last();
    let so_far = context::with_workbooks(p, before, opts);
    let whole = context::with_workbooks(p, workbooks, opts);
    let total = context::listing(last.nodes@).len();
    context::every_node_is_listed(last.nodes@);
    let fits = context::entries_shown(last, opts, so_far.text.len(), so_far.any);
    if total > 0 {
        lemma_shown_bound(
            last,
            opts.weights,
            opts.max_chars - so_far.text.len(),
            if so_far.any {
                0
            } else {
                1
            },
            (total - 1) as nat,
        );
    }
    if k == workbooks.len() - 1 {
        assert(fits == total);
        let part = context::assembled(last, total, opts.weights);
        assert(whole.text =~= so_far.text + part + Seq::<char>::empty());
    } else {
        assert(before[k] == workbooks[k]);
        lemma_whole_parts(p, before, opts, k);
        let part = context::assembled(workbooks[k], workbooks[k].nodes@.len(), opts.weights);
        let more = if total == 0 || fits == 0 {
            Seq::empty()
        } else {
            context::assembled(last, fits, opts.weights)
        };
        assert(whole.text =~= Seq::<char>::empty() + so_far.text + more);
        context::lemma_occurs_wider(part, so_far.text, Seq::empty(), more);
    }
}

// ---------------------------------------------------------------------------
// Order and room.

proof fn lemma_weighed_in(s: Seq<Relation>, x: Relation)
    requires
        heaviest_first(s),
    ensures
        heaviest_first(context::weighed_in(s, x)),
        forall|i: int|
            0 <= i < context::weighed_in(s, x).len() ==> (#[trigger] context::weighed_in(s, x)[i])
                == x || s.contains(context::weighed_in(s, x)[i]),
    decreases s.len(),
{
    let p = context::weighed_in(s, x);
    if s.len() > 0 {
        if context::weighs_more(x, s[0]) {
            assert(p == seq![x] + s);
            assert forall|i: int, j: int| 0 <= i < j < p.len() implies no_lighter(
                #[trigger] p[i],
                #[trigger] p[j],
            ) by {
                assert(p[j] == s[j - 1]);
                if i > 0 {
                    assert(p[i] == s[i - 1]);
                } else if j > 1 {
                    assert(no_lighter(s[0], s[j - 1]));
                }
            }
            assert forall|i: int| 0 <= i < p.len() implies (#[trigger] p[i]) == x || s.contains(
                p[i],
            ) by {
                if i > 0 {
                    assert(p[i] == s[i - 1]);
                }
            }
        } else {
            let d = s.drop_first();
            let q = context::weighed_in(d, x);
            assert(p == seq![s[0]] + q);
            assert forall|i: int, j: int| 0 <= i < j < d.len() implies no_lighter(
                #[trigger] d[i],
                #[trigger] d[j],
            ) by {
                assert(no_lighter(s[i + 1], s[j + 1]));
            }
            lemma_weighed_in(d, x);
            assert forall|i: int| 0 <= i < p.len() implies (#[trigger] p[i]) == x || s.contains(
                p[i],
            ) by {
                if i > 0 {
                    assert(p[i] == q[i - 1]);
                    if q[i - 1] != x {
                        let k = choose|k: int| 0 <= k < d.len() && d[k] == q[i - 1];
                        assert(s[k + 1] == p[i]);
                    }
                } else {
                    assert(s[0] == p[0]);
                }
            }
            assert forall|i: int, j: int| 0 <= i < j < p.len() implies no_lighter(
                #[trigger] p[i],
                #[trigger] p[j],
            ) by {
                assert(p[j] == q[j - 1]);
                if i > 0 {
                    assert(p[i] == q[i - 1]);
                } else if q[j - 1] != x {
                    let k = choose|k: int| 0 <= k < d.len() && d[k] == q[j - 1];
                    assert(no_lighter(s[0], s[k + 1]));
                }
            }
        }
    }
}

/// The first relation weighs more, or as much and is to the lower number.
pub open spec fn no_lighter(a: Relation, b: Relation) -> bool {
    a.weight > b.weight || (a.weight == b.weight && a.other <= b.other)
}

pub open spec fn heaviest_first(s: Seq<Relation>) -> bool {
    forall|i: int, j: int|
        0 <= i < j < s.len() ==> no_lighter(#[trigger] s[i], #[trigger] s[j])
}

/// What an entry reads, and what reads it, comes heaviest first.
pub proof fn the_heaviest_relations_come_first(
    deps: Seq<Dependency>,
    number: int,
    reading: bool,
)
    ensures
        heaviest_first(context::relations_of(deps, number, reading)),
    decreases deps.len(),
{
    if deps.len() > 0 {
        let d = deps.last();
        let before = context::relations_of(deps.drop_last(), number, reading);
        the_heaviest_relations_come_first(deps.drop_last(), number, reading);
        if reading {
            lemma_weighed_in(
                before,
                Relation { other: d.target, weight: d.weight, kind: d.kind },
            );
        } else {
            lemma_weighed_in(
                before,
                Relation { other: d.reader, weight: d.weight, kind: d.kind },
            );
        }
    }
}

proof fn lemma_most_that_fit(
    w: WorkbookContext,
    weights: bool,
    room: int,
    floor: nat,
    n: nat,
)
    ensures
        ({
            let most = context::most_that_fit(w, weights, room, floor, n);
            &&& most >= floor
            &&& most <= n || most == floor
            &&& forall|k: nat|
                most < k <= n ==> (#[trigger] context::assembled(w, k, weights)).len() > room
            &&& most > floor ==> context::assembled(w, most, weights).len() <= room
        }),
    decreases n,
{
    if n > floor && context::assembled(w, n, weights).len() > room {
        lemma_most_that_fit(w, weights, room, floor, (n - 1) as nat);
    }
}

/// As much of a workbook is written as there is room for, and no more: what is
/// written fits, unless it is the first entry of all, and with any more entries it
/// would not.
pub proof fn as_much_is_written_as_fits(
    p: context::Passage,
    w: WorkbookContext,
    opts: RenderOptions,
)
    requires
        w.nodes@.len() > 0,
    ensures
        ({
            let after = context::with_workbook(p, w, opts);
            exists|shown: nat|
                {
                    &&& shown <= context::listing(w.nodes@).len()
                    &&& after.text == p.text + (if shown == 0 {
                        Seq::empty()
                    } else {
                        #[trigger] context::assembled(w, shown, opts.weights)
                    })
                    &&& after.omitted == p.omitted + context::listing(w.nodes@).len() - shown
                    &&& after.omitted_workbooks == p.omitted_workbooks + (if shown == 0 {
                        1int
                    } else {
                        0int
                    })
                    &&& p.any && shown > 0 || shown > 1 ==> after.text.len() <= opts.max_chars
                    &&& !p.any ==> shown > 0
                    &&& forall|more: nat|
                        shown < more <= context::listing(w.nodes@).len() ==> p.text.len()
                            + (#[trigger] context::assembled(w, more, opts.weights)).len()
                            > opts.max_chars
                }
        }),
{
    context::every_node_is_listed(w.nodes@);
    let total = context::listing(w.nodes@).len();
    let shown = context::entries_shown(w, opts, p.text.len(), p.any);
    let room = opts.max_chars - p.text.len();
    let floor: nat = if p.any {
        0
    } else {
        1
    };
    assert(total > 0);
    if context::assembled(w, total, opts.weights).len() > room {
        lemma_most_that_fit(w, opts.weights, room, floor, (total - 1) as nat);
    }
    let after = context::with_workbook(p, w, opts);
    let piece = context::assembled(w, shown, opts.weights);
    if shown == 0 {
        assert(after.text =~= p.text + Seq::<char>::empty());
    } else {
        assert(after.text.len() == p.text.len() + piece.len());
    }
}

/// A number written with commas has its digits in their order, counted from the
/// right, and a comma behind every third of them that another stands before.
pub proof fn every_three_digits_are_set_apart(digits: Seq<char>, k: int)
    requires
        0 <= k < digits.len(),
    ensures
        ({
            let s = context::separated(digits);
            &&& s.len() == digits.len() + (digits.len() - 1) / 3
            &&& s[s.len() - 1 - (k + k / 3)] == digits[digits.len() - 1 - k]
            &&& k % 3 == 2 && k + 1 < digits.len() ==> s[s.len() - 1 - (k + k / 3 + 1)] == ','
        }),
    decreases digits.len(),
{
    let n = digits.len();
    if n > 3 {
        let cut = n - 3;
        let front = digits.take(cut);
        let back = digits.skip(cut);
        let s = context::separated(digits);
        let x = context::separated(front);
        assert(s == x + seq![','] + back);
        every_three_digits_are_set_apart(front, 0);
        if k >= 3 {
            every_three_digits_are_set_apart(front, k - 3);
        } else {
            assert(s[s.len() - 1 - k] == back[2 - k]);
        }
    }
}

} // verus!
