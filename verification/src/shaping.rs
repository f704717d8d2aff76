//! How a formula's shape is made of the shapes of its pieces.
//!
//! A reference is rewritten where it stands, as it is seen from the cell that holds
//! the formula, and nothing around it changes.

use crate::address;
use crate::formula;
use crate::formula::Found;
use crate::scanning;
use crate::scanning::{
    all_moved, can_be_named, can_follow, can_precede, is_word, refers_to, writes_cell, Corner,
};
use crate::text;
use vstd::prelude::*;

verus! {

/// Two texts refer together to what each of them does.
spec fn go_together(a: Seq<char>, b: Seq<char>) -> bool {
    formula::references(a + b) == formula::references(a) + all_moved(
        formula::references(b),
        a.len() as int,
    )
}

/// The references of the second of two texts are rewritten as they are in it alone.
proof fn lemma_second(a: Seq<char>, b: Seq<char>, k: int, last: int, row: u32, col: u16)
    requires
        go_together(a, b),
        0 <= k <= formula::references(b).len(),
        0 <= last <= b.len(),
        k < formula::references(b).len() ==> last <= formula::references(b)[k].local,
    ensures
        formula::shape_from(
            a + b,
            formula::references(a + b),
            formula::references(a).len() + k,
            a.len() + last,
            row,
            col,
        ) == formula::shape_from(b, formula::references(b), k, last, row, col),
    decreases formula::references(b).len() - k,
{
    let n = a.len() as int;
    let p = formula::references(a);
    let q = formula::references(b);
    let r = formula::references(a + b);
    formula::references_are_in_order(b);
    if k < q.len() {
        assert(r[p.len() + k] == all_moved(q, n)[k]);
        assert((a + b).subrange(n + last, n + q[k].local) =~= b.subrange(last, q[k].local));
        if k + 1 < q.len() {
            assert(q[k].end <= q[k + 1].start);
        }
        lemma_second(a, b, k + 1, q[k].end, row, col);
    } else {
        assert((a + b).skip(n + last) =~= b.skip(last));
    }
}

#[verifier::spinoff_prover]
#[verifier::rlimit(40)]
proof fn lemma_first(a: Seq<char>, b: Seq<char>, k: int, last: int, row: u32, col: u16)
    requires
        go_together(a, b),
        0 <= k <= formula::references(a).len(),
        0 <= last <= a.len(),
        k < formula::references(a).len() ==> last <= formula::references(a)[k].local,
    ensures
        formula::shape_from(a + b, formula::references(a + b), k, last, row, col)
            == formula::shape_from(a, formula::references(a), k, last, row, col)
            + formula::shape(b, row, col),
    decreases formula::references(a).len() - k,
{
    let n = a.len() as int;
    let f = a + b;
    let p = formula::references(a);
    let q = formula::references(b);
    let r = formula::references(f);
    formula::references_are_in_order(a);
    formula::references_are_in_order(b);
    if k < p.len() {
        assert(r[k] == p[k]);
        if k + 1 < p.len() {
            assert(p[k].end <= p[k + 1].start);
        }
        lemma_first(a, b, k + 1, p[k].end, row, col);
        assert(f.subrange(last, p[k].local) =~= a.subrange(last, p[k].local));
        let x = a.subrange(last, p[k].local) + formula::coords(p[k].parsed, row, col);
        let y = formula::shape_from(a, p, k + 1, p[k].end, row, col);
        let z = formula::shape(b, row, col);
        assert(x + (y + z) =~= (x + y) + z);
    } else if q.len() > 0 {
        lemma_second(a, b, 1, q[0].end, row, col);
        assert(r[p.len() as int] == all_moved(q, n)[0]);
        let lead = b.subrange(0, q[0].local);
        let mid = formula::coords(q[0].parsed, row, col);
        let rest = formula::shape_from(b, q, 1, q[0].end, row, col);
        assert(f.subrange(last, n + q[0].local) =~= a.skip(last) + lead);
        assert((a.skip(last) + lead) + mid + rest =~= a.skip(last) + (lead + mid + rest));
    } else {
        assert(r =~= p);
        assert(f.skip(last) =~= a.skip(last) + b);
        assert(b.skip(0) =~= b);
    }
}

proof fn lemma_shapes_join(a: Seq<char>, b: Seq<char>, row: u32, col: u16)
    requires
        go_together(a, b),
    ensures
        formula::shape(a + b, row, col) == formula::shape(a, row, col) + formula::shape(
            b,
            row,
            col,
        ),
{
    formula::references_are_in_order(a);
    lemma_first(a, b, 0, 0, row, col);
}

/// What a piece refers to alone, it refers to among others, and the shape of the
/// whole is the shapes of its parts.
#[verifier::spinoff_prover]
#[verifier::rlimit(40)]
proof fn lemma_three(
    before: Seq<char>,
    piece: Seq<char>,
    behind: Seq<char>,
    found: Seq<Found>,
    row: u32,
    col: u16,
)
    requires
        refers_to(before, piece, behind, found),
        refers_to(before, piece, Seq::empty(), found),
        refers_to(Seq::empty(), piece, Seq::empty(), found),
    ensures
        formula::references(piece) == found,
        formula::shape(before + piece + behind, row, col) == formula::shape(before, row, col)
            + formula::shape(piece, row, col) + formula::shape(behind, row, col),
{
    let e = Seq::<char>::empty();
    let n = before.len() as int;
    assert(e + piece + e =~= piece);
    assert(before + piece + e =~= before + piece);
    assert(formula::references(e) =~= Seq::empty());
    assert(all_moved(found, 0) =~= found);
    assert(all_moved(formula::references(e), piece.len() as int) =~= Seq::empty());
    assert(formula::references(piece) =~= found);
    assert(formula::references(before + piece) =~= formula::references(before) + all_moved(
        found,
        n,
    ));
    lemma_shapes_join(before, piece, row, col);
    lemma_shapes_join(before + piece, behind, row, col);
}

proof fn lemma_one(piece: Seq<char>, f: Found, row: u32, col: u16)
    requires
        formula::references(piece) == seq![f],
        f.end == piece.len(),
    ensures
        formula::shape(piece, row, col) == piece.take(f.local) + formula::coords(
            f.parsed,
            row,
            col,
        ),
{
    let r = formula::references(piece);
    formula::references_are_in_order(piece);
    let x = piece.subrange(0, f.local) + formula::coords(f.parsed, row, col);
    assert(r[0] == f);
    assert(formula::shape_from(piece, r, 1, f.end, row, col) =~= Seq::empty());
    assert(x + Seq::<char>::empty() =~= x);
    assert(piece.subrange(0, f.local) =~= piece.take(f.local));
}

// ---------------------------------------------------------------------------
// What a reference becomes.

/// A row or column as it is seen from another: its number behind its letter where it
/// is pinned, and else how far off it is, in brackets, where it is off at all.
pub open spec fn seen(tag: char, at: int, pinned: bool, from: int) -> Seq<char> {
    if pinned {
        seq![tag] + text::decimal((at + 1) as nat)
    } else if at == from {
        seq![tag]
    } else if at > from {
        seq![tag, '['] + text::decimal((at - from) as nat) + seq![']']
    } else {
        seq![tag, '[', '-'] + text::decimal((from - at) as nat) + seq![']']
    }
}

/// A cell as it is seen from another.
pub open spec fn seen_cell(c: Corner, row: u32, col: u16) -> Seq<char> {
    seen('R', c.row as int, c.abs_row, row as int) + seen('C', c.col as int, c.abs_col, col as int)
}

proof fn lemma_seen(tag: char, at: int, pinned: bool, from: int)
    ensures
        formula::coord_text(tag, at, pinned, from) == seen(tag, at, pinned, from),
{
    if !pinned && at < from {
        let d = text::decimal((from - at) as nat);
        assert(seq![tag, '['] + (seq!['-'] + d) + seq![']'] =~= seq![tag, '[', '-'] + d
            + seq![']']);
    }
}

/// A cell is rewritten where it stands: by how far it is off, or by where it is
/// pinned. What is around it is rewritten on its own.
#[verifier::spinoff_prover]
#[verifier::rlimit(40)]
pub proof fn a_cell_is_rewritten_where_it_stands(
    before: Seq<char>,
    t: Seq<char>,
    behind: Seq<char>,
    c: Corner,
    row: u32,
    col: u16,
)
    requires
        can_precede(before),
        can_follow(behind),
        writes_cell(t, c),
    ensures
        formula::shape(before + t + behind, row, col) == formula::shape(before, row, col)
            + seen_cell(c, row, col) + formula::shape(behind, row, col),
{
    let e = Seq::<char>::empty();
    let f = Found {
        start: 0,
        local: 0,
        end: t.len() as int,
        parsed: scanning::cell_reference(c),
        qualified: false,
    };
    scanning::a_cell_is_one_reference(before, t, behind, c);
    scanning::a_cell_is_one_reference(before, t, e, c);
    scanning::a_cell_is_one_reference(e, t, e, c);
    lemma_three(before, t, behind, seq![f], row, col);
    lemma_one(t, f, row, col);
    lemma_seen('R', c.row as int, c.abs_row, row as int);
    lemma_seen('C', c.col as int, c.abs_col, col as int);
    assert(t.take(0) + seen_cell(c, row, col) =~= seen_cell(c, row, col));
}

/// A range of more than one cell is rewritten corner by corner, its upper left one
/// first.
#[verifier::spinoff_prover]
#[verifier::rlimit(40)]
pub proof fn a_range_is_rewritten_where_it_stands(
    before: Seq<char>,
    p: Seq<char>,
    q: Seq<char>,
    behind: Seq<char>,
    a: Corner,
    b: Corner,
    row: u32,
    col: u16,
)
    requires
        can_precede(before),
        can_follow(behind),
        writes_cell(p, a),
        writes_cell(q, b),
        a.row <= b.row,
        a.col <= b.col,
        a.row < b.row || a.col < b.col,
    ensures
        formula::shape(before + (p + seq![':'] + q) + behind, row, col) == formula::shape(
            before,
            row,
            col,
        ) + (seen_cell(a, row, col) + seq![':'] + seen_cell(b, row, col)) + formula::shape(
            behind,
            row,
            col,
        ),
{
    let e = Seq::<char>::empty();
    let t = p + seq![':'] + q;
    let f = Found {
        start: 0,
        local: 0,
        end: (p.len() + 1 + q.len()) as int,
        parsed: scanning::range_reference(a, b),
        qualified: false,
    };
    scanning::a_range_is_one_reference(before, p, q, behind, a, b);
    scanning::a_range_is_one_reference(before, p, q, e, a, b);
    scanning::a_range_is_one_reference(e, p, q, e, a, b);
    lemma_three(before, t, behind, seq![f], row, col);
    lemma_one(t, f, row, col);
    lemma_seen('R', a.row as int, a.abs_row, row as int);
    lemma_seen('C', a.col as int, a.abs_col, col as int);
    lemma_seen('R', b.row as int, b.abs_row, row as int);
    lemma_seen('C', b.col as int, b.abs_col, col as int);
    let whole = seen_cell(a, row, col) + seq![':'] + seen_cell(b, row, col);
    assert(t.take(0) + formula::coords(f.parsed, row, col) =~= whole);
}

/// A cell of a sheet keeps the sheet in front of it.
#[verifier::spinoff_prover]
#[verifier::rlimit(40)]
pub proof fn a_cell_of_a_sheet_is_rewritten_behind_its_sheet(
    before: Seq<char>,
    name: Seq<char>,
    p: Seq<char>,
    behind: Seq<char>,
    c: Corner,
    row: u32,
    col: u16,
)
    requires
        can_precede(before),
        can_be_named(name),
        can_follow(behind),
        writes_cell(p, c),
    ensures
        formula::shape(before + address::cited(name, p) + behind, row, col) == formula::shape(
            before,
            row,
            col,
        ) + address::cited(name, seen_cell(c, row, col)) + formula::shape(behind, row, col),
{
    let e = Seq::<char>::empty();
    let t = address::cited(name, p);
    let f = Found {
        start: 0,
        local: (t.len() - p.len()) as int,
        end: t.len() as int,
        parsed: scanning::on_sheet(scanning::cell_reference(c), name),
        qualified: true,
    };
    scanning::a_cell_of_a_sheet_is_one_reference(before, name, p, behind, c);
    scanning::a_cell_of_a_sheet_is_one_reference(before, name, p, e, c);
    scanning::a_cell_of_a_sheet_is_one_reference(e, name, p, e, c);
    lemma_three(before, t, behind, seq![f], row, col);
    lemma_one(t, f, row, col);
    lemma_seen('R', c.row as int, c.abs_row, row as int);
    lemma_seen('C', c.col as int, c.abs_col, col as int);
    assert(t.take(f.local) =~= address::quoted_name(name).push('!'));
}

/// A name stays as it is.
#[verifier::spinoff_prover]
#[verifier::rlimit(40)]
pub proof fn a_word_keeps_its_shape(
    before: Seq<char>,
    word: Seq<char>,
    behind: Seq<char>,
    row: u32,
    col: u16,
)
    requires
        can_precede(before),
        can_follow(behind),
        is_word(word),
        formula::cell_token(word) is None,
    ensures
        formula::shape(before + word + behind, row, col) == formula::shape(before, row, col) + word
            + formula::shape(behind, row, col),
{
    let e = Seq::<char>::empty();
    scanning::a_name_is_no_reference(before, word, behind);
    scanning::a_name_is_no_reference(before, word, e);
    scanning::a_name_is_no_reference(e, word, e);
    lemma_three(before, word, behind, Seq::empty(), row, col);
    assert(formula::shape(word, row, col) =~= word);
}

} // verus!
