//! Finding the tables and blocks a sheet is actually made of.
//!
//! A sheet is a grid, but people build it as tables, side notes, and stacked
//! blocks with blank rows between them. Recovering that layout is what lets a
//! retrieved answer say "the Revenue column of the Q3 Sales table" instead of
//! "some cells near D5".
//!
//! Detection uses only what every file format supplies:
//!
//! - **Blank rows and columns**, which is how people visually separate blocks.
//! - **Value kinds**, since a text row above numeric columns is a header.
//! - **Declared Excel tables**, which are ground truth where a format has them.
//!
//! # How it splits
//!
//! Recursive alternating projection: split the used area at blank rows, split
//! each band at blank columns, and repeat until neither axis splits any further.
//! A table containing a blank row becomes two regions; for retrieval that is the
//! better error, since each half is still coherent and correctly cited.

use crate::address;
use crate::address::{CellRef, RangeRef, SheetId};
use crate::cell::{CellValue, ValueKind};
use crate::sort;
use crate::sort::{order_of, Key};
use crate::text;
use crate::workbook;
use crate::workbook::{Edges, Entry, ExcelTable, Sheet, Workbook};
use vstd::prelude::*;

verus! {

// ---------------------------------------------------------------------------
// Splitting a set of cells into blocks
// ---------------------------------------------------------------------------

/// A row and a column.
pub type Place = (u32, u16);

#[derive(Debug, Clone, Copy, PartialEq, Eq, Structural)]
pub enum Axis {
    Row,
    Col,
}

impl Axis {
    pub open spec fn spec_other(self) -> Axis {
        match self {
            Axis::Row => Axis::Col,
            Axis::Col => Axis::Row,
        }
    }

    fn other(self) -> (r: Axis)
        ensures
            r == self.spec_other(),
    {
        match self {
            Axis::Row => Axis::Col,
            Axis::Col => Axis::Row,
        }
    }

    /// The line of a place along the axis: its row or its column.
    pub open spec fn line(self, p: Place) -> int {
        match self {
            Axis::Row => p.0 as int,
            Axis::Col => p.1 as int,
        }
    }

    /// The order along the axis: by its own line first.
    pub open spec fn before(self, a: Place, b: Place) -> bool {
        self.line(a) < self.line(b) || (self.line(a) == self.line(b) && self.spec_other().line(a)
            < self.spec_other().line(b))
    }

    /// The order along the axis, with every place at or before itself.
    pub open spec fn leq(self) -> spec_fn(Place, Place) -> bool {
        |a: Place, b: Place| self.before(a, b) || a == b
    }
}

/// The places in the order of the axis.
pub open spec fn ordered(s: Seq<Place>, axis: Axis) -> Seq<Place> {
    s.sort_by(axis.leq())
}

/// Strictly in the order of the axis.
pub open spec fn in_axis_order(s: Seq<Place>, axis: Axis) -> bool {
    forall|i: int, j: int|
        #![trigger s[i], s[j]]
        0 <= i < j < s.len() ==> axis.before(s[i], s[j])
}

/// The same places, in whatever order.
pub open spec fn same_places(a: Seq<Place>, b: Seq<Place>) -> bool {
    forall|p: Place|
        #![trigger a.contains(p)]
        #![trigger b.contains(p)]
        a.contains(p) <==> b.contains(p)
}

proof fn lemma_leq_total(axis: Axis)
    ensures
        vstd::relations::total_ordering(axis.leq()),
{
}

/// Ordering distinct places keeps them, and puts them strictly in order.
pub proof fn lemma_ordered(s: Seq<Place>, axis: Axis)
    requires
        s.no_duplicates(),
    ensures
        ordered(s, axis).len() == s.len(),
        ordered(s, axis).no_duplicates(),
        in_axis_order(ordered(s, axis), axis),
        same_places(ordered(s, axis), s),
{
    broadcast use vstd::seq_lib::group_to_multiset_ensures;

    let t = ordered(s, axis);
    lemma_leq_total(axis);
    s.lemma_sort_by_ensures(axis.leq());
    s.lemma_multiset_has_no_duplicates();
    assert(t.to_multiset() == s.to_multiset());
    t.lemma_multiset_has_no_duplicates_conv();
    assert(t.len() == t.to_multiset().len());
    assert forall|p: Place| #[trigger] t.contains(p) <==> s.contains(p) by {
        assert(t.contains(p) <==> t.to_multiset().count(p) > 0);
        assert(s.contains(p) <==> s.to_multiset().count(p) > 0);
    }
    assert forall|i: int, j: int| #![trigger t[i], t[j]] 0 <= i < j < t.len() implies axis.before(
        t[i],
        t[j],
    ) by {
        assert(axis.leq()(t[i], t[j]));
    }
}

/// Two strictly ordered lists of the same places are the same list.
proof fn lemma_order_unique(a: Seq<Place>, b: Seq<Place>, axis: Axis)
    requires
        in_axis_order(a, axis),
        in_axis_order(b, axis),
        same_places(a, b),
    ensures
        a == b,
    decreases a.len(),
{
    if a.len() == 0 {
        if b.len() > 0 {
            assert(b.contains(b[0]));
        }
        assert(a =~= b);
    } else {
        assert(a.contains(a[0]));
        assert(b.contains(a[0]));
        assert(b.contains(b[0]));
        assert(a.contains(b[0]));
        let j = choose|j: int| 0 <= j < b.len() && b[j] == a[0];
        let i = choose|i: int| 0 <= i < a.len() && a[i] == b[0];
        assert(a[0] == b[0]) by {
            if i > 0 && j > 0 {
                assert(axis.before(a[0], a[i]));
                assert(axis.before(b[0], b[j]));
            }
        }
        let x = a.drop_first();
        let y = b.drop_first();
        assert forall|p: Place| #[trigger] x.contains(p) <==> y.contains(p) by {
            if x.contains(p) {
                let k = choose|k: int| 0 <= k < x.len() && x[k] == p;
                assert(a[k + 1] == p);
                assert(axis.before(a[0], a[k + 1]));
                assert(a.contains(p));
                let m = choose|m: int| 0 <= m < b.len() && b[m] == p;
                assert(y[m - 1] == p);
            }
            if y.contains(p) {
                let k = choose|k: int| 0 <= k < y.len() && y[k] == p;
                assert(b[k + 1] == p);
                assert(axis.before(b[0], b[k + 1]));
                assert(b.contains(p));
                let m = choose|m: int| 0 <= m < a.len() && a[m] == p;
                assert(x[m - 1] == p);
            }
        }
        lemma_order_unique(x, y, axis);
        assert(a =~= seq![a[0]] + x);
        assert(b =~= seq![b[0]] + y);
    }
}

fn sort_places(cells: &Vec<Place>, axis: Axis) -> (r: Vec<Place>)
    requires
        cells@.no_duplicates(),
    ensures
        r@ == ordered(cells@, axis),
{
    let mut keys: Vec<Key> = Vec::new();
    let mut i: usize = 0;
    while i < cells.len()
        invariant
            i <= cells@.len(),
            keys@.len() == i,
            forall|k: int|
                0 <= k < i ==> (#[trigger] keys@[k]) == (
                    axis.line(cells@[k]) as u64,
                    axis.spec_other().line(cells@[k]) as u64,
                    0u64,
                ),
        decreases cells@.len() - i,
    {
        let (row, col) = cells[i];
        match axis {
            Axis::Row => keys.push((row as u64, col as u64, 0)),
            Axis::Col => keys.push((col as u64, row as u64, 0)),
        }
        i += 1;
    }
    let order: Vec<usize> = order_of(&keys);
    let mut out: Vec<Place> = Vec::new();
    let mut j: usize = 0;
    while j < order.len()
        invariant
            j <= order@.len(),
            order@.len() == cells@.len(),
            forall|a: int| 0 <= a < order@.len() ==> (#[trigger] order@[a]) < cells@.len(),
            out@.len() == j,
            forall|a: int| 0 <= a < j ==> #[trigger] out@[a] == cells@[order@[a] as int],
        decreases order@.len() - j,
    {
        out.push(cells[order[j]]);
        j += 1;
    }
    proof {
        let s = cells@;
        let t = out@;
        assert forall|a: int, b: int| #![trigger t[a], t[b]] 0 <= a < b < t.len() implies axis.before(
            t[a],
            t[b],
        ) by {
            let x = order@[a] as int;
            let y = order@[b] as int;
            assert(sort::precedes(keys@, x, y));
            assert(x != y);
            assert(s[x] != s[y]);
        }
        assert forall|p: Place| #[trigger] t.contains(p) <==> s.contains(p) by {
            if s.contains(p) {
                let k = choose|k: int| 0 <= k < s.len() && s[k] == p;
                sort::order_lists_every_place(order@, keys@, k);
                let a = choose|a: int| 0 <= a < order@.len() && (#[trigger] order@[a]) == k;
                assert(t[a] == p);
            }
            if t.contains(p) {
                let a = choose|a: int| 0 <= a < t.len() && t[a] == p;
                assert(s[order@[a] as int] == p);
            }
        }
        lemma_ordered(s, axis);
        lemma_order_unique(t, ordered(s, axis), axis);
    }
    out
}

/// The smallest rectangle around some places.
pub open spec fn bounds(s: Seq<Place>) -> Edges
    decreases s.len(),
{
    let p = s.last();
    if s.len() <= 1 {
        Edges { top: p.0, left: p.1, bottom: p.0, right: p.1 }
    } else {
        let b = bounds(s.drop_last());
        Edges {
            top: if p.0 < b.top {
                p.0
            } else {
                b.top
            },
            left: if p.1 < b.left {
                p.1
            } else {
                b.left
            },
            bottom: if p.0 > b.bottom {
                p.0
            } else {
                b.bottom
            },
            right: if p.1 > b.right {
                p.1
            } else {
                b.right
            },
        }
    }
}

/// A place lies within some edges.
pub open spec fn within(p: Place, e: Edges) -> bool {
    e.top <= p.0 <= e.bottom && e.left <= p.1 <= e.right
}

/// The bounds hold every place, and a place lies on each edge.
pub proof fn lemma_bounds(s: Seq<Place>)
    requires
        s.len() > 0,
    ensures
        forall|p: Place| #[trigger] s.contains(p) ==> within(p, bounds(s)),
        exists|p: Place| #[trigger] s.contains(p) && p.0 == bounds(s).top,
        exists|p: Place| #[trigger] s.contains(p) && p.0 == bounds(s).bottom,
        exists|p: Place| #[trigger] s.contains(p) && p.1 == bounds(s).left,
        exists|p: Place| #[trigger] s.contains(p) && p.1 == bounds(s).right,
    decreases s.len(),
{
    let q = s.last();
    assert(s.contains(q));
    if s.len() > 1 {
        let t = s.drop_last();
        lemma_bounds(t);
        assert forall|p: Place| #[trigger] s.contains(p) implies within(p, bounds(s)) by {
            let i = choose|i: int| 0 <= i < s.len() && s[i] == p;
            if i < t.len() {
                assert(t[i] == p);
                assert(t.contains(p));
            }
        }
        assert forall|p: Place| #[trigger] t.contains(p) implies s.contains(p) by {
            let i = choose|i: int| 0 <= i < t.len() && t[i] == p;
            assert(s[i] == p);
        }
        let a = choose|p: Place| #[trigger] t.contains(p) && p.0 == bounds(t).top;
        let b = choose|p: Place| #[trigger] t.contains(p) && p.0 == bounds(t).bottom;
        let c = choose|p: Place| #[trigger] t.contains(p) && p.1 == bounds(t).left;
        let d = choose|p: Place| #[trigger] t.contains(p) && p.1 == bounds(t).right;
        assert(s.contains(a) && s.contains(b) && s.contains(c) && s.contains(d));
    } else {
        assert forall|p: Place| #[trigger] s.contains(p) implies within(p, bounds(s)) by {
            let i = choose|i: int| 0 <= i < s.len() && s[i] == p;
        }
    }
}

/// A block of cells: the rectangle around them, and how many there are.
#[derive(Debug, Clone, Copy, PartialEq, Eq, Structural)]
pub struct Block {
    pub edges: Edges,
    pub count: u64,
}

fn block_of(cells: &Vec<Place>) -> (r: Block)
    requires
        cells@.len() > 0,
    ensures
        r.edges == bounds(cells@),
        r.count == cells@.len(),
{
    let (row, col) = cells[0];
    let mut e: Edges = Edges { top: row, left: col, bottom: row, right: col };
    let mut i: usize = 1;
    assert(cells@.take(1).last() == cells@[0]);
    while i < cells.len()
        invariant
            1 <= i <= cells@.len(),
            e == bounds(cells@.take(i as int)),
        decreases cells@.len() - i,
    {
        let (row, col) = cells[i];
        assert(cells@.take(i + 1).drop_last() =~= cells@.take(i as int));
        assert(cells@.take(i + 1).last() == cells@[i as int]);
        e = Edges {
            top: if row < e.top {
                row
            } else {
                e.top
            },
            left: if col < e.left {
                col
            } else {
                e.left
            },
            bottom: if row > e.bottom {
                row
            } else {
                e.bottom
            },
            right: if col > e.right {
                col
            } else {
                e.right
            },
        };
        i += 1;
    }
    assert(cells@.take(i as int) =~= cells@);
    Block { edges: e, count: cells.len() as u64 }
}

/// A rectangle shares a row and a column with some edges.
pub open spec fn clashes(t: RangeRef, e: Edges) -> bool {
    t.top <= e.bottom && t.bottom >= e.top && t.left <= e.right && t.right >= e.left
}

/// The first table, from `i` on, that a rectangle clashes with.
pub open spec fn first_clash(tables: Seq<RangeRef>, e: Edges, i: int) -> Option<RangeRef>
    decreases tables.len() - i,
{
    if i < 0 || i >= tables.len() {
        None
    } else if clashes(tables[i], e) {
        Some(tables[i])
    } else {
        first_clash(tables, e, i + 1)
    }
}

pub proof fn lemma_first_clash(tables: Seq<RangeRef>, e: Edges, i: int)
    requires
        0 <= i <= tables.len(),
    ensures
        match first_clash(tables, e, i) {
            Some(t) => clashes(t, e) && tables.contains(t),
            None => forall|j: int| i <= j < tables.len() ==> !clashes(#[trigger] tables[j], e),
        },
    decreases tables.len() - i,
{
    if i < tables.len() && !clashes(tables[i], e) {
        lemma_first_clash(tables, e, i + 1);
    }
}

fn find_clash(tables: &Vec<RangeRef>, e: Edges) -> (r: Option<RangeRef>)
    ensures
        r == first_clash(tables@, e, 0),
{
    let mut i: usize = 0;
    while i < tables.len()
        invariant
            i <= tables@.len(),
            first_clash(tables@, e, 0) == first_clash(tables@, e, i as int),
        decreases tables@.len() - i,
    {
        let t: RangeRef = tables[i];
        if t.top <= e.bottom && t.bottom >= e.top && t.left <= e.right && t.right >= e.left {
            return Some(t);
        }
        i += 1;
    }
    None
}

/// The first and last line of a table along an axis.
pub open spec fn table_lines(t: RangeRef, axis: Axis) -> (int, int) {
    match axis {
        Axis::Row => (t.top as int, t.bottom as int),
        Axis::Col => (t.left as int, t.right as int),
    }
}

/// How many places, from the front, lie on a line below `bound`.
pub open spec fn lead(s: Seq<Place>, axis: Axis, bound: int, i: int) -> int
    decreases s.len() - i,
{
    if 0 <= i < s.len() && axis.line(s[i]) < bound {
        lead(s, axis, bound, i + 1)
    } else {
        i
    }
}

proof fn lemma_lead(s: Seq<Place>, axis: Axis, bound: int, i: int)
    requires
        0 <= i <= s.len(),
    ensures
        i <= lead(s, axis, bound, i) <= s.len(),
        forall|j: int| i <= j < lead(s, axis, bound, i) ==> axis.line(#[trigger] s[j]) < bound,
        in_axis_order(s, axis) ==> forall|j: int|
            lead(s, axis, bound, i) <= j < s.len() ==> axis.line(#[trigger] s[j]) >= bound,
    decreases s.len() - i,
{
    if i < s.len() && axis.line(s[i]) < bound {
        lemma_lead(s, axis, bound, i + 1);
    } else if in_axis_order(s, axis) {
        assert forall|j: int| i <= j < s.len() implies axis.line(#[trigger] s[j]) >= bound by {
            if j > i {
                assert(axis.before(s[i], s[j]));
            }
        }
    }
}

fn count_lead(s: &Vec<Place>, axis: Axis, bound: u64) -> (r: usize)
    ensures
        r == lead(s@, axis, bound as int, 0),
        r <= s@.len(),
{
    let mut i: usize = 0;
    while i < s.len()
        invariant
            i <= s@.len(),
            lead(s@, axis, bound as int, 0) == lead(s@, axis, bound as int, i as int),
        decreases s@.len() - i,
    {
        let (row, col) = s[i];
        let line: u64 = match axis {
            Axis::Row => row as u64,
            Axis::Col => col as u64,
        };
        if line >= bound {
            return i;
        }
        i += 1;
    }
    i
}

/// All tables have their corners in order.
pub open spec fn all_normalised(tables: Seq<RangeRef>) -> bool {
    forall|i: int| 0 <= i < tables.len() ==> (#[trigger] tables[i]).normalised()
}

/// Some places cut at a table's edges along an axis: those before it, those on
/// its lines, those behind it.
pub open spec fn cut_at_table(s: Seq<Place>, axis: Axis, t: RangeRef) -> (
    Seq<Place>,
    Seq<Place>,
    Seq<Place>,
) {
    let o = ordered(s, axis);
    let (lo, hi) = table_lines(t, axis);
    let first = lead(o, axis, lo, 0);
    let second = lead(o, axis, hi + 1, 0);
    (o.take(first), o.subrange(first, second), o.skip(second))
}

/// A list cut in three: nothing is lost and nothing comes twice.
proof fn lemma_three_parts(o: Seq<Place>, first: int, second: int)
    requires
        o.no_duplicates(),
        0 <= first <= second <= o.len(),
    ensures
        ({
            let (a, b, c) = (o.take(first), o.subrange(first, second), o.skip(second));
            &&& a.no_duplicates() && b.no_duplicates() && c.no_duplicates()
            &&& o == a + b + c
            &&& forall|p: Place| #[trigger] o.contains(p) <==> a.contains(p) || b.contains(p)
                || c.contains(p)
        }),
{
    let (a, b, c) = (o.take(first), o.subrange(first, second), o.skip(second));
    assert(o =~= a + b + c);
    assert forall|p: Place| #[trigger] o.contains(p) <==> a.contains(p) || b.contains(p)
        || c.contains(p) by {
        if o.contains(p) {
            let i = choose|i: int| 0 <= i < o.len() && o[i] == p;
            if i < first {
                assert(a[i] == p);
            } else if i < second {
                assert(b[i - first] == p);
            } else {
                assert(c[i - second] == p);
            }
        }
        if a.contains(p) {
            let i = choose|i: int| 0 <= i < a.len() && a[i] == p;
            assert(o[i] == p);
        }
        if b.contains(p) {
            let i = choose|i: int| 0 <= i < b.len() && b[i] == p;
            assert(o[first + i] == p);
        }
        if c.contains(p) {
            let i = choose|i: int| 0 <= i < c.len() && c[i] == p;
            assert(o[second + i] == p);
        }
    }
}

/// The lines that the parts of a list lie on, from the lines of its items.
proof fn lemma_part_lines(o: Seq<Place>, axis: Axis, a: int, b: int, lo: int, hi: int)
    requires
        0 <= a <= b <= o.len(),
        forall|j: int| a <= j < b ==> lo <= axis.line(#[trigger] o[j]) <= hi,
    ensures
        forall|p: Place| #[trigger]
            o.subrange(a, b).contains(p) ==> lo <= axis.line(p) <= hi,
{
    let t = o.subrange(a, b);
    assert forall|p: Place| #[trigger] t.contains(p) implies lo <= axis.line(p) <= hi by {
        let i = choose|i: int| 0 <= i < t.len() && t[i] == p;
        assert(o[a + i] == p);
    }
}

/// What a cut at a table's edges leaves: three lists of the same places, on
/// three separate stretches of lines. If they clashed with the table, neither
/// the first nor the last of them is everything.
pub proof fn lemma_cut_at_table(s: Seq<Place>, axis: Axis, t: RangeRef)
    requires
        s.no_duplicates(),
        s.len() > 0,
        t.normalised(),
        clashes(t, bounds(s)),
    ensures
        ({
            let (a, b, c) = cut_at_table(s, axis, t);
            let (lo, hi) = table_lines(t, axis);
            &&& a.len() + b.len() + c.len() == s.len()
            &&& a.len() < s.len()
            &&& c.len() < s.len()
            &&& a.no_duplicates() && b.no_duplicates() && c.no_duplicates()
            &&& forall|p: Place| #[trigger] s.contains(p) <==> a.contains(p) || b.contains(p)
                || c.contains(p)
            &&& forall|p: Place| #[trigger] a.contains(p) ==> axis.line(p) < lo
            &&& forall|p: Place| #[trigger] b.contains(p) ==> lo <= axis.line(p) <= hi
            &&& forall|p: Place| #[trigger] c.contains(p) ==> hi < axis.line(p)
        }),
{
    let o = ordered(s, axis);
    lemma_ordered(s, axis);
    let (lo, hi) = table_lines(t, axis);
    lemma_lead(o, axis, lo, 0);
    lemma_lead(o, axis, hi + 1, 0);
    let first = lead(o, axis, lo, 0);
    let second = lead(o, axis, hi + 1, 0);
    assert(first <= second) by {
        if second < first {
            assert(axis.line(o[second]) < lo);
        }
    }
    let (a, b, c) = cut_at_table(s, axis, t);
    lemma_three_parts(o, first, second);
    lemma_part_lines(o, axis, 0, first, -1, lo - 1);
    lemma_part_lines(o, axis, first, second, lo, hi);
    lemma_part_lines(o, axis, second, o.len() as int, hi + 1, u32::MAX as int);
    assert(o.subrange(0, first) =~= a);
    assert(o.subrange(second, o.len() as int) =~= c);
    lemma_bounds(s);
    let e = bounds(s);
    let near = match axis {
        Axis::Row => choose|p: Place| #[trigger] s.contains(p) && p.0 == e.top,
        Axis::Col => choose|p: Place| #[trigger] s.contains(p) && p.1 == e.left,
    };
    let far = match axis {
        Axis::Row => choose|p: Place| #[trigger] s.contains(p) && p.0 == e.bottom,
        Axis::Col => choose|p: Place| #[trigger] s.contains(p) && p.1 == e.right,
    };
    assert(o.contains(near) && o.contains(far));
    assert(!c.contains(near));
    assert(!a.contains(far));
    assert(c.len() < s.len()) by {
        if c.len() == s.len() {
            assert(c =~= o);
        }
    }
    assert(a.len() < s.len()) by {
        if a.len() == s.len() {
            assert(a =~= o);
        }
    }
}

/// The blocks that some cells make once their rectangles are cut clear of every
/// declared table. `stalled` counts the cuts in a row that left the cells whole.
pub open spec fn cleared(s: Seq<Place>, tables: Seq<RangeRef>, axis: Axis, stalled: int) -> Seq<
    Block,
>
    decreases s.len(), 2 - stalled,
    when s.no_duplicates() && all_normalised(tables)
{
    if s.len() == 0 {
        Seq::empty()
    } else {
        let whole = Block { edges: bounds(s), count: s.len() as u64 };
        match first_clash(tables, bounds(s), 0) {
            None => seq![whole],
            Some(t) => if stalled >= 2 {
                seq![whole]
            } else {
                let (a, b, c) = cut_at_table(s, axis, t);
                let next = if b.len() < s.len() {
                    0
                } else {
                    stalled + 1
                };
                proof {
                    lemma_first_clash(tables, bounds(s), 0);
                    lemma_cut_at_table(s, axis, t);
                }
                cleared(a, tables, axis.spec_other(), next) + cleared(
                    b,
                    tables,
                    axis.spec_other(),
                    next,
                ) + cleared(c, tables, axis.spec_other(), next)
            },
        }
    }
}

fn part_of(s: &Vec<Place>, a: usize, b: usize) -> (r: Vec<Place>)
    requires
        a <= b <= s@.len(),
    ensures
        r@ == s@.subrange(a as int, b as int),
{
    let mut out: Vec<Place> = Vec::new();
    let mut i: usize = a;
    while i < b
        invariant
            a <= i <= b <= s@.len(),
            out@ == s@.subrange(a as int, i as int),
        decreases b - i,
    {
        out.push(s[i]);
        i += 1;
        assert(out@ =~= s@.subrange(a as int, i as int));
    }
    out
}

/// Push `cells` as blocks whose bounding boxes clear every declared table.
///
/// A detected block can *bound* a declared table without containing any of its
/// cells: the cells around it still span a rectangle that encloses it. Emitting
/// that rectangle would put the same cell in two regions, so the block is cut at
/// the table's own edges.
fn push_clear_of_tables(
    cells: Vec<Place>,
    tables: &Vec<RangeRef>,
    axis: Axis,
    stalled: u8,
    out: &mut Vec<Block>,
)
    requires
        cells@.no_duplicates(),
        all_normalised(tables@),
        stalled <= 2,
    ensures
        final(out)@ == old(out)@ + cleared(cells@, tables@, axis, stalled as int),
    decreases cells@.len(), 2 - stalled,
{
    if cells.len() == 0 {
        assert(out@ =~= old(out)@ + cleared(cells@, tables@, axis, stalled as int));
        return;
    }
    let block: Block = block_of(&cells);
    let clash: Option<RangeRef> = find_clash(tables, block.edges);
    let table: RangeRef = match clash {
        Some(t) => {
            if stalled >= 2 {
                out.push(block);
                return;
            }
            t
        },
        None => {
            out.push(block);
            return;
        },
    };
    proof {
        lemma_first_clash(tables@, block.edges, 0);
        lemma_cut_at_table(cells@, axis, table);
    }
    let sorted: Vec<Place> = sort_places(&cells, axis);
    let (lo, hi): (u64, u64) = match axis {
        Axis::Row => (table.top as u64, table.bottom as u64),
        Axis::Col => (table.left as u64, table.right as u64),
    };
    let first: usize = count_lead(&sorted, axis, lo);
    let second: usize = count_lead(&sorted, axis, hi + 1);
    proof {
        lemma_ordered(cells@, axis);
        lemma_lead(sorted@, axis, lo as int, 0);
        lemma_lead(sorted@, axis, hi + 1, 0);
        if second < first {
            assert(axis.line(sorted@[second as int]) < lo);
        }
    }
    let head: Vec<Place> = part_of(&sorted, 0, first);
    let middle: Vec<Place> = part_of(&sorted, first, second);
    let tail: Vec<Place> = part_of(&sorted, second, sorted.len());
    assert(head@ =~= cut_at_table(cells@, axis, table).0);
    assert(middle@ =~= cut_at_table(cells@, axis, table).1);
    assert(tail@ =~= cut_at_table(cells@, axis, table).2);
    let next: u8 = if middle.len() < cells.len() {
        0
    } else {
        stalled + 1
    };
    let ghost before = out@;
    push_clear_of_tables(head, tables, axis.other(), next, out);
    push_clear_of_tables(middle, tables, axis.other(), next, out);
    push_clear_of_tables(tail, tables, axis.other(), next, out);
    assert(out@ =~= before + cleared(cells@, tables@, axis, stalled as int));
}


/// A part of a whole, exactly.
#[derive(Debug, Clone, Copy, PartialEq, Eq, Structural)]
pub struct Fraction {
    pub part: u64,
    pub whole: u64,
}

/// Tuning for [`detect_regions_with`].
#[derive(Debug, Clone, Copy, PartialEq, Eq, Structural)]
pub struct RegionOptions {
    /// Blank rows needed to separate two blocks. One is the usual visual cue.
    pub row_gap: u32,
    /// Blank columns needed to separate two blocks.
    pub col_gap: u16,
    /// Most header rows to consider stacking.
    pub max_header_rows: u32,
    /// Fraction of columns that must look like a header for a row to be one.
    pub header_agreement: Fraction,
    /// Regions smaller than this are still emitted, but never called tables.
    pub min_table_rows: u32,
    /// Depth cap on the alternating split, as a guard against pathological input.
    pub max_depth: u8,
}

impl RegionOptions {
    /// One blank line separates blocks, up to three header rows stack, half of
    /// the columns make a header, and two rows make a table.
    pub open spec fn usual() -> RegionOptions {
        RegionOptions {
            row_gap: 1,
            col_gap: 1,
            max_header_rows: 3,
            header_agreement: Fraction { part: 1, whole: 2 },
            min_table_rows: 2,
            max_depth: 12,
        }
    }

    /// The gap that separates along an axis.
    pub open spec fn gap(self, axis: Axis) -> int {
        match axis {
            Axis::Row => self.row_gap as int,
            Axis::Col => self.col_gap as int,
        }
    }
}

impl Default for RegionOptions {
    fn default() -> (r: Self)
        ensures
            r == RegionOptions::usual(),
    {
        RegionOptions {
            row_gap: 1,
            col_gap: 1,
            max_header_rows: 3,
            header_agreement: Fraction { part: 1, whole: 2 },
            min_table_rows: 2,
            max_depth: 12,
        }
    }
}

/// The lines before `i` and at `i` are so far apart that at least `gap` blank
/// ones lie between.
pub open spec fn is_cut(s: Seq<Place>, axis: Axis, gap: int, i: int) -> bool {
    axis.line(s[i]) - axis.line(s[i - 1]) > gap
}

/// The first cut at or behind `i`; the length when there is none.
pub open spec fn next_cut(s: Seq<Place>, axis: Axis, gap: int, i: int) -> int
    decreases s.len() - i,
{
    if i >= s.len() || i < 1 {
        s.len() as int
    } else if is_cut(s, axis, gap, i) {
        i
    } else {
        next_cut(s, axis, gap, i + 1)
    }
}

pub proof fn lemma_next_cut(s: Seq<Place>, axis: Axis, gap: int, i: int)
    requires
        1 <= i <= s.len(),
    ensures
        i <= next_cut(s, axis, gap, i) <= s.len(),
        next_cut(s, axis, gap, i) < s.len() ==> is_cut(s, axis, gap, next_cut(s, axis, gap, i)),
    decreases s.len() - i,
{
    if i < s.len() && !is_cut(s, axis, gap, i) {
        lemma_next_cut(s, axis, gap, i + 1);
    }
}

fn find_cut(s: &Vec<Place>, axis: Axis, gap: u64, from: usize) -> (r: usize)
    requires
        1 <= from <= s@.len(),
        in_axis_order(s@, axis),
    ensures
        r == next_cut(s@, axis, gap as int, from as int),
        from <= r <= s@.len(),
{
    let mut i: usize = from;
    while i < s.len()
        invariant
            1 <= from <= i <= s@.len(),
            in_axis_order(s@, axis),
            next_cut(s@, axis, gap as int, from as int) == next_cut(
                s@,
                axis,
                gap as int,
                i as int,
            ),
        decreases s@.len() - i,
    {
        let (r1, c1) = s[i - 1];
        let (r2, c2) = s[i];
        assert(axis.before(s@[i - 1], s@[i as int]));
        let jump: u64 = match axis {
            Axis::Row => (r2 - r1) as u64,
            Axis::Col => (c2 - c1) as u64,
        };
        if jump > gap {
            return i;
        }
        i += 1;
    }
    i
}

/// The blocks that some cells split into: alternately at wide gaps between
/// their rows and between their columns. `stalled` counts the axes in a row that
/// gave no split; at two, or at the depth cap, the cells are one block but for
/// the declared tables it must stay clear of.
pub open spec fn partitioned(
    s: Seq<Place>,
    tables: Seq<RangeRef>,
    axis: Axis,
    stalled: int,
    depth: int,
    opts: RegionOptions,
) -> Seq<Block>
    decreases opts.max_depth - depth, 1int, 0int,
{
    if s.len() == 0 {
        Seq::empty()
    } else if stalled >= 2 || depth >= opts.max_depth {
        cleared(s, tables, Axis::Row, 0)
    } else {
        let o = ordered(s, axis);
        if next_cut(o, axis, opts.gap(axis), 1) >= o.len() {
            partitioned(o, tables, axis.spec_other(), stalled + 1, depth + 1, opts)
        } else {
            bands(o, tables, axis, depth, 0, opts)
        }
    }
}

/// The blocks of the bands that ordered cells fall into at the wide gaps along
/// an axis, from the band that starts at `from` on.
pub open spec fn bands(
    o: Seq<Place>,
    tables: Seq<RangeRef>,
    axis: Axis,
    depth: int,
    from: int,
    opts: RegionOptions,
) -> Seq<Block>
    decreases opts.max_depth - depth, 0int, o.len() - from,
{
    if from < 0 || from >= o.len() || depth >= opts.max_depth {
        Seq::empty()
    } else {
        let end = next_cut(o, axis, opts.gap(axis), from + 1);
        proof {
            lemma_next_cut(o, axis, opts.gap(axis), from + 1);
        }
        partitioned(o.subrange(from, end), tables, axis.spec_other(), 0, depth + 1, opts) + bands(
            o,
            tables,
            axis,
            depth,
            end,
            opts,
        )
    }
}

proof fn lemma_part_distinct(o: Seq<Place>, a: int, b: int)
    requires
        o.no_duplicates(),
        0 <= a <= b <= o.len(),
    ensures
        o.subrange(a, b).no_duplicates(),
{
}

/// Recursively split a set of cells at blank rows and columns.
fn partition(
    cells: Vec<Place>,
    tables: &Vec<RangeRef>,
    axis: Axis,
    stalled: u8,
    depth: u8,
    opts: &RegionOptions,
    out: &mut Vec<Block>,
)
    requires
        cells@.no_duplicates(),
        all_normalised(tables@),
        stalled <= 2,
    ensures
        final(out)@ == old(out)@ + partitioned(
            cells@,
            tables@,
            axis,
            stalled as int,
            depth as int,
            *opts,
        ),
    decreases opts.max_depth - depth,
{
    if cells.len() == 0 {
        assert(out@ =~= old(out)@ + Seq::<Block>::empty());
        return;
    }
    if stalled >= 2 || depth >= opts.max_depth {
        push_clear_of_tables(cells, tables, Axis::Row, 0, out);
        return;
    }
    let sorted: Vec<Place> = sort_places(&cells, axis);
    proof {
        lemma_ordered(cells@, axis);
    }
    let gap: u64 = match axis {
        Axis::Row => opts.row_gap as u64,
        Axis::Col => opts.col_gap as u64,
    };
    let n: usize = sorted.len();
    let cut: usize = find_cut(&sorted, axis, gap, 1);
    if cut >= n {
        partition(sorted, tables, axis.other(), stalled + 1, depth + 1, opts, out);
        return;
    }
    let ghost all = bands(sorted@, tables@, axis, depth as int, 0, *opts);
    let ghost before = out@;
    let mut from: usize = 0;
    assert(out@ + bands(sorted@, tables@, axis, depth as int, 0, *opts) =~= before + all);
    while from < n
        invariant
            n == sorted@.len(),
            from <= n,
            depth < opts.max_depth,
            sorted@.no_duplicates(),
            in_axis_order(sorted@, axis),
            all_normalised(tables@),
            gap == opts.gap(axis),
            out@ + bands(sorted@, tables@, axis, depth as int, from as int, *opts) == before
                + all,
        decreases n - from,
    {
        let end: usize = find_cut(&sorted, axis, gap, from + 1);
        let part: Vec<Place> = part_of(&sorted, from, end);
        proof {
            lemma_part_distinct(sorted@, from as int, end as int);
        }
        let ghost so_far = out@;
        let ghost rest = bands(sorted@, tables@, axis, depth as int, from as int, *opts);
        partition(part, tables, axis.other(), 0, depth + 1, opts, out);
        from = end;
        assert(out@ + bands(sorted@, tables@, axis, depth as int, from as int, *opts) =~= so_far
            + rest);
    }
    assert(out@ + bands(sorted@, tables@, axis, depth as int, from as int, *opts) =~= out@);
}


// ---------------------------------------------------------------------------
// What the blocks make of the cells
// ---------------------------------------------------------------------------

/// Two rectangles with no place in common.
pub open spec fn apart(a: Edges, b: Edges) -> bool {
    a.bottom < b.top || b.bottom < a.top || a.right < b.left || b.right < a.left
}

/// A rectangle that lies in another.
pub open spec fn inside(a: Edges, b: Edges) -> bool {
    b.top <= a.top && a.bottom <= b.bottom && b.left <= a.left && a.right <= b.right
}

/// The places of `s` in the rectangle of a block, each listed once.
pub open spec fn is_content(p: Seq<Place>, b: Block, s: Seq<Place>) -> bool {
    &&& p.no_duplicates()
    &&& p.len() == b.count
    &&& forall|x: Place| #[trigger] p.contains(x) <==> s.contains(x) && within(x, b.edges)
}

/// A block counts the places of `s` that lie in its rectangle.
pub open spec fn counts(b: Block, s: Seq<Place>) -> bool {
    exists|p: Seq<Place>| is_content(p, b, s)
}

/// Some block's rectangle holds this place.
pub open spec fn covered(blocks: Seq<Block>, x: Place) -> bool {
    exists|k: int| 0 <= k < blocks.len() && within(x, (#[trigger] blocks[k]).edges)
}

/// Blocks that share the places of `s` out among them: each is a rectangle
/// within the bounds, no two overlap, every place lies in one, and each counts
/// what lies in it.
pub open spec fn tiles(blocks: Seq<Block>, s: Seq<Place>) -> bool {
    &&& s.len() == 0 ==> blocks.len() == 0
    &&& forall|k: int|
        0 <= k < blocks.len() ==> inside((#[trigger] blocks[k]).edges, bounds(s))
            && blocks[k].edges.top <= blocks[k].edges.bottom && blocks[k].edges.left
            <= blocks[k].edges.right
    &&& forall|j: int, k: int|
        #![trigger blocks[j], blocks[k]]
        0 <= j < k < blocks.len() ==> apart(blocks[j].edges, blocks[k].edges)
    &&& forall|x: Place| #[trigger] s.contains(x) ==> covered(blocks, x)
    &&& forall|k: int| 0 <= k < blocks.len() ==> counts(#[trigger] blocks[k], s)
}

proof fn lemma_bounds_of_part(a: Seq<Place>, s: Seq<Place>)
    requires
        a.len() > 0,
        s.len() > 0,
        forall|x: Place| #[trigger] a.contains(x) ==> s.contains(x),
    ensures
        inside(bounds(a), bounds(s)),
{
    lemma_bounds(a);
    lemma_bounds(s);
}

proof fn lemma_bounds_same(a: Seq<Place>, b: Seq<Place>)
    requires
        a.len() > 0,
        b.len() > 0,
        same_places(a, b),
    ensures
        bounds(a) == bounds(b),
{
    lemma_bounds_of_part(a, b);
    lemma_bounds_of_part(b, a);
}

/// Every line of `a` comes before every line of `b`.
pub open spec fn separated(a: Seq<Place>, b: Seq<Place>, axis: Axis) -> bool {
    forall|x: Place, y: Place| #[trigger]
        a.contains(x) && #[trigger] b.contains(y) ==> axis.line(x) < axis.line(y)
}

/// A place of `b` lies in no rectangle within the bounds of `a`.
proof fn lemma_separated_outside(a: Seq<Place>, b: Seq<Place>, axis: Axis, y: Place, e: Edges)
    requires
        a.len() > 0,
        separated(a, b, axis) || separated(b, a, axis),
        b.contains(y),
        inside(e, bounds(a)),
    ensures
        !within(y, e),
{
    lemma_bounds(a);
    let t = choose|p: Place| #[trigger] a.contains(p) && p.0 == bounds(a).top;
    let u = choose|p: Place| #[trigger] a.contains(p) && p.0 == bounds(a).bottom;
    let l = choose|p: Place| #[trigger] a.contains(p) && p.1 == bounds(a).left;
    let r = choose|p: Place| #[trigger] a.contains(p) && p.1 == bounds(a).right;
    assert(a.contains(t) && a.contains(u) && a.contains(l) && a.contains(r));
}

proof fn lemma_separated_bounds(a: Seq<Place>, b: Seq<Place>, axis: Axis)
    requires
        a.len() > 0,
        b.len() > 0,
        separated(a, b, axis),
    ensures
        apart(bounds(a), bounds(b)),
{
    lemma_bounds(a);
    lemma_bounds(b);
    match axis {
        Axis::Row => {
            let x = choose|p: Place| #[trigger] a.contains(p) && p.0 == bounds(a).bottom;
            let y = choose|p: Place| #[trigger] b.contains(p) && p.0 == bounds(b).top;
            assert(a.contains(x) && b.contains(y));
        },
        Axis::Col => {
            let x = choose|p: Place| #[trigger] a.contains(p) && p.1 == bounds(a).right;
            let y = choose|p: Place| #[trigger] b.contains(p) && p.1 == bounds(b).left;
            assert(a.contains(x) && b.contains(y));
        },
    }
}

/// What counts in a part counts in the whole, if the rest lies elsewhere.
proof fn lemma_counts_in_whole(b: Block, a: Seq<Place>, other: Seq<Place>, s: Seq<Place>, axis: Axis)
    requires
        a.len() > 0,
        counts(b, a),
        inside(b.edges, bounds(a)),
        separated(a, other, axis) || separated(other, a, axis),
        forall|x: Place| #[trigger] s.contains(x) <==> a.contains(x) || other.contains(x),
    ensures
        counts(b, s),
{
    let p = choose|p: Seq<Place>| is_content(p, b, a);
    assert forall|x: Place| #[trigger] p.contains(x) <==> s.contains(x) && within(x, b.edges) by {
        assert(p.contains(x) <==> a.contains(x) && within(x, b.edges));
        if s.contains(x) && within(x, b.edges) && !a.contains(x) {
            lemma_separated_outside(a, other, axis, x, b.edges);
        }
    }
    assert(is_content(p, b, s));
}

/// Blocks of two separated parts together are blocks of the whole.
proof fn lemma_tiles_join(
    ba: Seq<Block>,
    a: Seq<Place>,
    bb: Seq<Block>,
    b: Seq<Place>,
    axis: Axis,
    s: Seq<Place>,
)
    requires
        tiles(ba, a),
        tiles(bb, b),
        separated(a, b, axis),
        forall|x: Place| #[trigger] s.contains(x) <==> a.contains(x) || b.contains(x),
    ensures
        tiles(ba + bb, s),
{
    let all = ba + bb;
    if s.len() == 0 {
        if a.len() > 0 {
            assert(a.contains(a[0]));
            assert(s.contains(a[0]));
        }
        if b.len() > 0 {
            assert(b.contains(b[0]));
            assert(s.contains(b[0]));
        }
    }
    if a.len() > 0 {
        assert(a.contains(a[0]));
        assert(s.contains(a[0]));
        lemma_bounds_of_part(a, s);
    }
    if b.len() > 0 {
        assert(b.contains(b[0]));
        assert(s.contains(b[0]));
        lemma_bounds_of_part(b, s);
    }
    if a.len() > 0 && b.len() > 0 {
        lemma_separated_bounds(a, b, axis);
    }
    assert forall|k: int| 0 <= k < all.len() implies inside((#[trigger] all[k]).edges, bounds(s))
        && all[k].edges.top <= all[k].edges.bottom && all[k].edges.left <= all[k].edges.right
        && counts(all[k], s) by {
        if k < ba.len() {
            assert(all[k] == ba[k]);
            assert(a.len() > 0);
            lemma_counts_in_whole(ba[k], a, b, s, axis);
        } else {
            assert(all[k] == bb[k - ba.len()]);
            assert(b.len() > 0);
            assert forall|x: Place| #[trigger] s.contains(x) <==> b.contains(x) || a.contains(x) by {}
            lemma_counts_in_whole(bb[k - ba.len()], b, a, s, axis);
        }
    }
    assert forall|j: int, k: int|
        #![trigger all[j], all[k]]
        0 <= j < k < all.len() implies apart(all[j].edges, all[k].edges) by {
        if k < ba.len() {
            assert(all[j] == ba[j] && all[k] == ba[k]);
        } else if j >= ba.len() {
            assert(all[j] == bb[j - ba.len()] && all[k] == bb[k - ba.len()]);
        } else {
            assert(all[j] == ba[j] && all[k] == bb[k - ba.len()]);
            assert(a.len() > 0 && b.len() > 0);
        }
    }
    assert forall|x: Place| #[trigger] s.contains(x) implies covered(all, x) by {
        if a.contains(x) {
            assert(covered(ba, x));
            let k = choose|k: int| 0 <= k < ba.len() && within(x, (#[trigger] ba[k]).edges);
            assert(all[k] == ba[k]);
        } else {
            assert(covered(bb, x));
            let k = choose|k: int| 0 <= k < bb.len() && within(x, (#[trigger] bb[k]).edges);
            assert(all[k + ba.len()] == bb[k]);
        }
    }
}

/// One block is all there is of some places.
proof fn lemma_tiles_whole(s: Seq<Place>)
    requires
        s.no_duplicates(),
        0 < s.len() <= u64::MAX,
    ensures
        tiles(seq![Block { edges: bounds(s), count: s.len() as u64 }], s),
{
    let b = Block { edges: bounds(s), count: s.len() as u64 };
    let blocks = seq![b];
    lemma_bounds(s);
    assert(s.contains(s[0]));
    assert(is_content(s, b, s));
    assert forall|x: Place| #[trigger] s.contains(x) implies covered(blocks, x) by {
        assert(within(x, blocks[0].edges));
    }
}

proof fn lemma_tiles_same(blocks: Seq<Block>, a: Seq<Place>, s: Seq<Place>)
    requires
        tiles(blocks, a),
        same_places(a, s),
        a.len() == s.len(),
    ensures
        tiles(blocks, s),
{
    if a.len() > 0 {
        lemma_bounds_same(a, s);
    }
    assert forall|k: int| 0 <= k < blocks.len() implies counts(#[trigger] blocks[k], s) by {
        let p = choose|p: Seq<Place>| is_content(p, blocks[k], a);
        assert(is_content(p, blocks[k], s));
    }
}

proof fn lemma_cleared_tiles(s: Seq<Place>, tables: Seq<RangeRef>, axis: Axis, stalled: int)
    requires
        s.no_duplicates(),
        s.len() <= u64::MAX,
        all_normalised(tables),
    ensures
        tiles(cleared(s, tables, axis, stalled), s),
    decreases s.len(), 2 - stalled,
{
    if s.len() > 0 {
        lemma_tiles_whole(s);
        lemma_first_clash(tables, bounds(s), 0);
        let clash = first_clash(tables, bounds(s), 0);
        if clash is Some && stalled < 2 {
            let t = clash->0;
            lemma_cut_at_table(s, axis, t);
            let (a, b, c) = cut_at_table(s, axis, t);
            let next = if b.len() < s.len() {
                0
            } else {
                stalled + 1
            };
            let other = axis.spec_other();
            lemma_cleared_tiles(a, tables, other, next);
            lemma_cleared_tiles(b, tables, other, next);
            lemma_cleared_tiles(c, tables, other, next);
            let ab = a + b;
            assert forall|x: Place| #[trigger] ab.contains(x) <==> a.contains(x) || b.contains(
                x,
            ) by {
                lemma_concat_contains(a, b, x);
            }
            lemma_tiles_join(
                cleared(a, tables, other, next),
                a,
                cleared(b, tables, other, next),
                b,
                axis,
                ab,
            );
            lemma_tiles_join(
                cleared(a, tables, other, next) + cleared(b, tables, other, next),
                ab,
                cleared(c, tables, other, next),
                c,
                axis,
                s,
            );
        }
    }
}

proof fn lemma_concat_contains(a: Seq<Place>, b: Seq<Place>, x: Place)
    ensures
        (a + b).contains(x) <==> a.contains(x) || b.contains(x),
{
    let ab = a + b;
    if ab.contains(x) {
        let i = choose|i: int| 0 <= i < ab.len() && ab[i] == x;
        if i < a.len() {
            assert(a[i] == x);
        } else {
            assert(b[i - a.len()] == x);
        }
    }
    if a.contains(x) {
        let i = choose|i: int| 0 <= i < a.len() && a[i] == x;
        assert(ab[i] == x);
    }
    if b.contains(x) {
        let i = choose|i: int| 0 <= i < b.len() && b[i] == x;
        assert(ab[i + a.len()] == x);
    }
}

/// A cut at a wide gap separates what lies before it from what lies behind.
proof fn lemma_cut_separates(o: Seq<Place>, axis: Axis, gap: int, from: int, end: int)
    requires
        in_axis_order(o, axis),
        gap >= 0,
        0 <= from < end < o.len(),
        is_cut(o, axis, gap, end),
    ensures
        separated(o.subrange(from, end), o.skip(end), axis),
{
    let a = o.subrange(from, end);
    let b = o.skip(end);
    assert forall|x: Place, y: Place| #[trigger] a.contains(x) && #[trigger] b.contains(y) implies
        axis.line(x) < axis.line(y) by {
        let i = choose|i: int| 0 <= i < a.len() && a[i] == x;
        let j = choose|j: int| 0 <= j < b.len() && b[j] == y;
        assert(o[from + i] == x && o[end + j] == y);
        if from + i < end - 1 {
            assert(axis.before(o[from + i], o[end - 1]));
        }
        if j > 0 {
            assert(axis.before(o[end], o[end + j]));
        }
    }
}

pub proof fn lemma_partitioned_tiles(
    s: Seq<Place>,
    tables: Seq<RangeRef>,
    axis: Axis,
    stalled: int,
    depth: int,
    opts: RegionOptions,
)
    requires
        s.no_duplicates(),
        s.len() <= u64::MAX,
        all_normalised(tables),
    ensures
        tiles(partitioned(s, tables, axis, stalled, depth, opts), s),
    decreases opts.max_depth - depth, 1int, 0int,
{
    if s.len() == 0 {
    } else if stalled >= 2 || depth >= opts.max_depth {
        lemma_cleared_tiles(s, tables, Axis::Row, 0);
    } else {
        let o = ordered(s, axis);
        lemma_ordered(s, axis);
        if next_cut(o, axis, opts.gap(axis), 1) >= o.len() {
            lemma_partitioned_tiles(o, tables, axis.spec_other(), stalled + 1, depth + 1, opts);
            lemma_tiles_same(partitioned(s, tables, axis, stalled, depth, opts), o, s);
        } else {
            lemma_bands_tile(o, tables, axis, depth, 0, opts);
            assert(o.skip(0) =~= o);
            lemma_tiles_same(partitioned(s, tables, axis, stalled, depth, opts), o, s);
        }
    }
}

proof fn lemma_bands_tile(
    o: Seq<Place>,
    tables: Seq<RangeRef>,
    axis: Axis,
    depth: int,
    from: int,
    opts: RegionOptions,
)
    requires
        o.no_duplicates(),
        in_axis_order(o, axis),
        o.len() <= u64::MAX,
        all_normalised(tables),
        depth < opts.max_depth,
        0 <= from <= o.len(),
    ensures
        tiles(bands(o, tables, axis, depth, from, opts), o.skip(from)),
    decreases opts.max_depth - depth, 0int, o.len() - from,
{
    if from < o.len() {
        let gap = opts.gap(axis);
        let end = next_cut(o, axis, gap, from + 1);
        lemma_next_cut(o, axis, gap, from + 1);
        let a = o.subrange(from, end);
        let b = o.skip(end);
        lemma_part_distinct(o, from, end);
        lemma_partitioned_tiles(a, tables, axis.spec_other(), 0, depth + 1, opts);
        lemma_bands_tile(o, tables, axis, depth, end, opts);
        let s = o.skip(from);
        assert(s =~= a + b);
        assert forall|x: Place| #[trigger] s.contains(x) <==> a.contains(x) || b.contains(x) by {
            lemma_concat_contains(a, b, x);
        }
        if end < o.len() {
            lemma_cut_separates(o, axis, gap, from, end);
        }
        lemma_tiles_join(
            partitioned(a, tables, axis.spec_other(), 0, depth + 1, opts),
            a,
            bands(o, tables, axis, depth, end, opts),
            b,
            axis,
            s,
        );
    }
}

/// A place lies in a table's rectangle.
pub open spec fn in_table(p: Place, t: RangeRef) -> bool {
    t.top <= p.0 <= t.bottom && t.left <= p.1 <= t.right
}

/// None of the places lies in any of the tables.
pub open spec fn free_of_tables(s: Seq<Place>, tables: Seq<RangeRef>) -> bool {
    forall|p: Place, i: int|
        #![trigger s.contains(p), tables[i]]
        s.contains(p) && 0 <= i < tables.len() ==> !in_table(p, tables[i])
}

/// No block clashes with any table.
pub open spec fn clear_of_tables(blocks: Seq<Block>, tables: Seq<RangeRef>) -> bool {
    forall|k: int, i: int|
        #![trigger blocks[k], tables[i]]
        0 <= k < blocks.len() && 0 <= i < tables.len() ==> !clashes(tables[i], blocks[k].edges)
}

/// Every place lies on the lines of the table that is in the way.
spec fn on_lines(s: Seq<Place>, tables: Seq<RangeRef>, axis: Axis) -> bool {
    first_clash(tables, bounds(s), 0) matches Some(t) ==> forall|p: Place| #[trigger]
        s.contains(p) ==> table_lines(t, axis).0 <= axis.line(p) <= table_lines(t, axis).1
}

/// Places that lie in no table are cut into blocks that clash with no table: a
/// cut along both axes that splits nothing would put them all in the table.
proof fn lemma_cleared_clear(s: Seq<Place>, tables: Seq<RangeRef>, axis: Axis, stalled: int)
    requires
        s.no_duplicates(),
        all_normalised(tables),
        free_of_tables(s, tables),
        0 <= stalled <= 2,
        s.len() > 0 && stalled >= 1 ==> on_lines(s, tables, axis.spec_other()),
        s.len() > 0 && stalled >= 2 ==> on_lines(s, tables, axis),
    ensures
        clear_of_tables(cleared(s, tables, axis, stalled), tables),
    decreases s.len(), 2 - stalled,
{
    if s.len() > 0 {
        lemma_first_clash(tables, bounds(s), 0);
        let clash = first_clash(tables, bounds(s), 0);
        if clash is Some {
            let t = clash->0;
            if stalled >= 2 {
                assert(s.contains(s[0]));
                let i = choose|i: int| 0 <= i < tables.len() && tables[i] == t;
                assert(in_table(s[0], tables[i]));
                assert(false);
            } else {
                lemma_cut_at_table(s, axis, t);
                let (a, b, c) = cut_at_table(s, axis, t);
                let next = if b.len() < s.len() {
                    0
                } else {
                    stalled + 1
                };
                let other = axis.spec_other();
                assert(free_of_tables(a, tables)) by {
                    assert forall|p: Place, i: int|
                        #![trigger a.contains(p), tables[i]]
                        a.contains(p) && 0 <= i < tables.len() implies !in_table(p, tables[i]) by {
                        assert(s.contains(p));
                    }
                }
                assert(free_of_tables(b, tables)) by {
                    assert forall|p: Place, i: int|
                        #![trigger b.contains(p), tables[i]]
                        b.contains(p) && 0 <= i < tables.len() implies !in_table(p, tables[i]) by {
                        assert(s.contains(p));
                    }
                }
                assert(free_of_tables(c, tables)) by {
                    assert forall|p: Place, i: int|
                        #![trigger c.contains(p), tables[i]]
                        c.contains(p) && 0 <= i < tables.len() implies !in_table(p, tables[i]) by {
                        assert(s.contains(p));
                    }
                }
                if next > 0 {
                    assert(a.len() == 0 && c.len() == 0);
                    assert(same_places(b, s));
                    lemma_bounds_same(b, s);
                    assert(on_lines(b, tables, axis));
                    if stalled >= 1 {
                        assert(on_lines(b, tables, other));
                    }
                }
                lemma_cleared_clear(a, tables, other, next);
                lemma_cleared_clear(b, tables, other, next);
                lemma_cleared_clear(c, tables, other, next);
                let ba = cleared(a, tables, other, next);
                let bb = cleared(b, tables, other, next);
                let bc = cleared(c, tables, other, next);
                let all = cleared(s, tables, axis, stalled);
                assert(all == ba + bb + bc);
                lemma_clear_join(ba, bb, tables);
                lemma_clear_join(ba + bb, bc, tables);
            }
        }
    }
}

proof fn lemma_clear_join(a: Seq<Block>, b: Seq<Block>, tables: Seq<RangeRef>)
    requires
        clear_of_tables(a, tables),
        clear_of_tables(b, tables),
    ensures
        clear_of_tables(a + b, tables),
{
    let all = a + b;
    assert forall|k: int, i: int|
        #![trigger all[k], tables[i]]
        0 <= k < all.len() && 0 <= i < tables.len() implies !clashes(tables[i], all[k].edges) by {
        if k < a.len() {
            assert(all[k] == a[k]);
        } else {
            assert(all[k] == b[k - a.len()]);
        }
    }
}

proof fn lemma_partitioned_clear(
    s: Seq<Place>,
    tables: Seq<RangeRef>,
    axis: Axis,
    stalled: int,
    depth: int,
    opts: RegionOptions,
)
    requires
        s.no_duplicates(),
        all_normalised(tables),
        free_of_tables(s, tables),
    ensures
        clear_of_tables(partitioned(s, tables, axis, stalled, depth, opts), tables),
    decreases opts.max_depth - depth, 1int, 0int,
{
    if s.len() == 0 {
    } else if stalled >= 2 || depth >= opts.max_depth {
        lemma_cleared_clear(s, tables, Axis::Row, 0);
    } else {
        let o = ordered(s, axis);
        lemma_ordered(s, axis);
        if next_cut(o, axis, opts.gap(axis), 1) >= o.len() {
            lemma_partitioned_clear(o, tables, axis.spec_other(), stalled + 1, depth + 1, opts);
        } else {
            lemma_bands_clear(o, tables, axis, depth, 0, opts);
        }
    }
}

proof fn lemma_bands_clear(
    o: Seq<Place>,
    tables: Seq<RangeRef>,
    axis: Axis,
    depth: int,
    from: int,
    opts: RegionOptions,
)
    requires
        o.no_duplicates(),
        all_normalised(tables),
        free_of_tables(o, tables),
        depth < opts.max_depth,
        0 <= from <= o.len(),
    ensures
        clear_of_tables(bands(o, tables, axis, depth, from, opts), tables),
    decreases opts.max_depth - depth, 0int, o.len() - from,
{
    if from < o.len() {
        let end = next_cut(o, axis, opts.gap(axis), from + 1);
        lemma_next_cut(o, axis, opts.gap(axis), from + 1);
        let a = o.subrange(from, end);
        lemma_part_distinct(o, from, end);
        assert forall|p: Place, i: int|
            #![trigger a.contains(p), tables[i]]
            a.contains(p) && 0 <= i < tables.len() implies !in_table(p, tables[i]) by {
            let k = choose|k: int| 0 <= k < a.len() && a[k] == p;
            assert(o[from + k] == p);
            assert(o.contains(p));
        }
        lemma_partitioned_clear(a, tables, axis.spec_other(), 0, depth + 1, opts);
        lemma_bands_clear(o, tables, axis, depth, end, opts);
        lemma_clear_join(
            partitioned(a, tables, axis.spec_other(), 0, depth + 1, opts),
            bands(o, tables, axis, depth, end, opts),
            tables,
        );
    }
}


// ---------------------------------------------------------------------------
// Describing a block
// ---------------------------------------------------------------------------

/// How a region was arrived at.
#[derive(Debug, Clone, Copy, PartialEq, Eq, Structural)]
pub enum RegionSource {
    /// The workbook declares an Excel table here. Not a guess.
    Declared,
    /// Inferred from layout.
    Detected,
}

/// What the region appears to be.
#[derive(Debug, Clone, Copy, PartialEq, Eq, Structural)]
pub enum RegionKind {
    /// A header row or column plus a body of data underneath it.
    Table,
    /// A rectangle of data with no header we could identify.
    Block,
    /// A thin strip of text: a title, a note, a caption.
    Note,
}

/// A detected region of a sheet.
#[derive(Debug, Clone, PartialEq, Eq)]
pub struct Region {
    pub range: RangeRef,
    pub kind: RegionKind,
    pub source: RegionSource,
    /// A lone text cell heading the region, such as a section title written
    /// above a block. Far better to retrieve on than a bare A1 range.
    pub title: Option<String>,
    /// Leading rows of `range` that are header, not data. Counted *after* any
    /// title row.
    pub header_rows: u32,
    /// Leading columns of `range` that label rows rather than hold data.
    pub header_cols: u16,
    /// One entry per body column, left to right. Multi-row headers are joined
    /// with `.`, giving paths like `Q3.Revenue`.
    pub headers: Vec<String>,
    /// Populated cells inside `range`.
    pub cell_count: u64,
}

/// What a [`Region`] says, with its texts as sequences of characters.
pub struct Outline {
    pub range: RangeRef,
    pub kind: RegionKind,
    pub source: RegionSource,
    pub title: Option<Seq<char>>,
    pub header_rows: u32,
    pub header_cols: u16,
    pub headers: Seq<Seq<char>>,
    pub cell_count: u64,
}

/// The characters of each of some strings.
pub open spec fn texts(v: Seq<String>) -> Seq<Seq<char>> {
    Seq::new(v.len(), |i: int| v[i]@)
}

impl View for Region {
    type V = Outline;

    open spec fn view(&self) -> Outline {
        Outline {
            range: self.range,
            kind: self.kind,
            source: self.source,
            title: address::opt_view(self.title),
            header_rows: self.header_rows,
            header_cols: self.header_cols,
            headers: texts(self.headers@),
            cell_count: self.cell_count,
        }
    }
}

impl Region {
    /// Rows of `range` consumed by the title: one where it was read from the
    /// region's own first row, none for a declared table, whose title is its
    /// name.
    pub open spec fn spec_title_rows(self) -> nat {
        if self.source is Detected && self.title is Some {
            1
        } else {
            0
        }
    }

    /// The first data row and column fit their types, as they do for every
    /// region of a worksheet.
    pub open spec fn body_fits(self) -> bool {
        self.range.top + self.spec_title_rows() + self.header_rows <= u32::MAX && self.range.left
            + self.header_cols <= u16::MAX
    }

    pub fn title_rows(&self) -> (r: u32)
        ensures
            r == self.spec_title_rows(),
    {
        match self.source {
            RegionSource::Declared => 0,
            RegionSource::Detected => if self.title.is_some() {
                1
            } else {
                0
            },
        }
    }

    /// The rectangle under the title and headers, where they leave one.
    pub open spec fn spec_body(self) -> Option<RangeRef> {
        let top = self.range.top + self.spec_title_rows() + self.header_rows;
        let left = self.range.left + self.header_cols;
        if top > self.range.bottom || left > self.range.right {
            None
        } else {
            Some(
                RangeRef {
                    sheet: self.range.sheet,
                    top: top as u32,
                    left: left as u16,
                    bottom: self.range.bottom,
                    right: self.range.right,
                },
            )
        }
    }

    /// The data rows, excluding any title and header; `None` where the title and
    /// headers leave nothing.
    pub fn body(&self) -> (r: Option<RangeRef>)
        requires
            self.body_fits(),
        ensures
            r == self.spec_body(),
    {
        let top: u32 = self.range.top + self.title_rows() + self.header_rows;
        let left: u16 = self.range.left + self.header_cols;
        if top > self.range.bottom || left > self.range.right {
            return None;
        }
        Some(RangeRef::new(self.range.sheet, top, left, self.range.bottom, self.range.right))
    }

    /// Fraction of the rectangle that is actually populated.
    pub fn density(&self) -> (r: Fraction)
        ensures
            r.part == self.cell_count,
            r.whole == self.range.height() * self.range.width(),
            r.whole > 0,
    {
        let whole: u64 = self.range.cell_count();
        assert(self.range.height() * self.range.width() > 0) by (nonlinear_arith)
            requires
                self.range.height() >= 1,
                self.range.width() >= 1,
        ;
        Fraction { part: self.cell_count, whole }
    }

    pub fn has_header(&self) -> (r: bool)
        ensures
            r == (self.header_rows > 0 || self.header_cols > 0),
    {
        self.header_rows > 0 || self.header_cols > 0
    }
}

/// The columns from `col` to `right` on a row that hold a value.
pub open spec fn filled_cols(sheet: Sheet, row: u32, col: int, right: int) -> Seq<int>
    decreases right + 1 - col,
{
    if col > right {
        Seq::empty()
    } else if sheet.value_at(row, col as u16) is Empty {
        filled_cols(sheet, row, col + 1, right)
    } else {
        seq![col] + filled_cols(sheet, row, col + 1, right)
    }
}

/// A lone text cell on the first row of a range that is more than one row and
/// one column: the text, where it is more than white space.
pub open spec fn title_of(sheet: Sheet, range: RangeRef) -> Option<Seq<char>> {
    let filled = filled_cols(sheet, range.top, range.left as int, range.right as int);
    if range.height() < 2 || range.width() < 2 || filled.len() != 1 {
        None
    } else {
        match sheet.value_at(range.top, filled[0] as u16) {
            CellValue::Text(t) => if text::trimmed(t@).len() > 0 {
                Some(t@)
            } else {
                None
            },
            _ => None,
        }
    }
}

/// A lone text cell on the region's first row, read as a section title.
///
/// Requiring the row to hold exactly one populated cell is what separates a
/// title from a header: a header labels every column, a title labels the block.
/// In a single column a header row *is* one populated cell, so a title is not
/// claimed there.
fn detect_title(sheet: &Sheet, range: RangeRef) -> (r: Option<String>)
    ensures
        address::opt_view(r) == title_of(*sheet, range),
{
    if range.rows() < 2 || range.cols() < 2 {
        return None;
    }
    let mut found: Option<String> = None;
    let mut at: u16 = 0;
    let mut col: u32 = range.left as u32;
    let ghost all = filled_cols(*sheet, range.top, range.left as int, range.right as int);
    assert(Seq::<int>::empty() + all =~= all);
    while col <= range.right as u32
        invariant
            range.left <= col <= range.right + 1,
            range.height() >= 2,
            range.width() >= 2,
            all == filled_cols(*sheet, range.top, range.left as int, range.right as int),
            match found {
                None => all == filled_cols(*sheet, range.top, col as int, range.right as int),
                Some(t) => all == seq![at as int] + filled_cols(
                    *sheet,
                    range.top,
                    col as int,
                    range.right as int,
                ) && sheet.value_at(range.top, at) == CellValue::Text(t) && text::trimmed(
                    t@,
                ).len() > 0,
            },
        decreases range.right + 1 - col,
    {
        let ghost rest = filled_cols(*sheet, range.top, col as int, range.right as int);
        match sheet.value(range.top, col as u16) {
            CellValue::Empty => {},
            CellValue::Text(t) => {
                let chars: Vec<char> = text::chars_of(t.as_str());
                if found.is_none() && text::trim(chars.as_slice()).len() > 0 {
                    found = Some(t);
                    at = col as u16;
                } else {
                    proof {
                        if found is None {
                            lemma_not_a_title(*sheet, range, col as int);
                        } else {
                            assert(all.len() >= 2);
                        }
                    }
                    return None;
                }
            },
            _ => {
                proof {
                    if found is None {
                        lemma_not_a_title(*sheet, range, col as int);
                    } else {
                        assert(all.len() >= 2);
                    }
                }
                return None;
            },
        }
        col += 1;
    }
    assert(filled_cols(*sheet, range.top, col as int, range.right as int).len() == 0);
    found
}

/// The first value on the row is no title, so the row has none.
proof fn lemma_not_a_title(sheet: Sheet, range: RangeRef, col: int)
    requires
        range.left <= col <= range.right,
        filled_cols(sheet, range.top, range.left as int, range.right as int) == filled_cols(
            sheet,
            range.top,
            col,
            range.right as int,
        ),
        match sheet.value_at(range.top, col as u16) {
            CellValue::Empty => false,
            CellValue::Text(t) => text::trimmed(t@).len() == 0,
            _ => true,
        },
    ensures
        title_of(sheet, range) is None,
{
    assert(filled_cols(sheet, range.top, col, range.right as int)[0] == col);
}

/// The most cells of a column that are looked at to tell its kind.
pub const SAMPLE: u32 = 64;

/// The kinds of the first `n` values of a column, read downwards.
pub open spec fn sampled(sheet: Sheet, row: int, bottom: int, col: u16, n: int) -> Seq<ValueKind>
    decreases bottom + 1 - row,
{
    if row > bottom || n <= 0 {
        Seq::empty()
    } else {
        let kind = sheet.value_at(row as u32, col).spec_kind();
        if kind is Empty {
            sampled(sheet, row + 1, bottom, col, n)
        } else {
            seq![kind] + sampled(sheet, row + 1, bottom, col, n - 1)
        }
    }
}

/// How often a kind occurs.
pub open spec fn tally(s: Seq<ValueKind>, k: ValueKind) -> int
    decreases s.len(),
{
    if s.len() == 0 {
        0
    } else {
        tally(s.drop_last(), k) + (if s.last() == k {
            1int
        } else {
            0int
        })
    }
}

/// The kind that occurs most often; of several, the last of number, text, truth
/// value and error.
pub open spec fn commonest(s: Seq<ValueKind>) -> Option<ValueKind> {
    let n = tally(s, ValueKind::Number);
    let t = tally(s, ValueKind::Text);
    let b = tally(s, ValueKind::Bool);
    let e = tally(s, ValueKind::Error);
    if s.len() == 0 {
        None
    } else if e >= n && e >= t && e >= b {
        Some(ValueKind::Error)
    } else if b >= n && b >= t {
        Some(ValueKind::Bool)
    } else if t >= n {
        Some(ValueKind::Text)
    } else {
        Some(ValueKind::Number)
    }
}

/// The kind that a stretch of a column mostly holds.
pub open spec fn dominant(sheet: Sheet, top: u32, bottom: u32, col: u16) -> Option<ValueKind> {
    commonest(sampled(sheet, top as int, bottom as int, col, SAMPLE as int))
}

/// The most common non-empty value kind in a column slice.
fn dominant_kind(sheet: &Sheet, top: u32, bottom: u32, col: u16) -> (r: Option<ValueKind>)
    ensures
        r == dominant(*sheet, top, bottom, col),
{
    let mut numbers: u32 = 0;
    let mut texts: u32 = 0;
    let mut bools: u32 = 0;
    let mut errors: u32 = 0;
    let mut seen: u32 = 0;
    let ghost all = sampled(*sheet, top as int, bottom as int, col, SAMPLE as int);
    let ghost mut done: Seq<ValueKind> = Seq::empty();
    let mut row: u64 = top as u64;
    assert(done + all =~= all);
    while row <= bottom as u64 && seen < SAMPLE
        invariant
            top <= row,
            row <= bottom + 1 || row == top,
            seen <= SAMPLE,
            all == sampled(*sheet, top as int, bottom as int, col, SAMPLE as int),
            all == done + sampled(*sheet, row as int, bottom as int, col, SAMPLE - seen),
            done.len() == seen,
            numbers == tally(done, ValueKind::Number),
            texts == tally(done, ValueKind::Text),
            bools == tally(done, ValueKind::Bool),
            errors == tally(done, ValueKind::Error),
            numbers <= seen,
            texts <= seen,
            bools <= seen,
            errors <= seen,
        decreases bottom + 1 - row,
    {
        let kind: ValueKind = sheet.kind(row as u32, col);
        let ghost before = done;
        let ghost rest = sampled(*sheet, row as int, bottom as int, col, SAMPLE - seen);
        if !matches!(kind, ValueKind::Empty) {
            proof {
                done = done.push(kind);
                assert(done.drop_last() =~= before);
            }
            match kind {
                ValueKind::Number => {
                    numbers += 1;
                },
                ValueKind::Text => {
                    texts += 1;
                },
                ValueKind::Bool => {
                    bools += 1;
                },
                ValueKind::Error => {
                    errors += 1;
                },
                ValueKind::Empty => {},
            }
            seen += 1;
        }
        row += 1;
        assert(done + sampled(*sheet, row as int, bottom as int, col, SAMPLE - seen) =~= before
            + rest);
    }
    assert(all =~= done);
    if seen == 0 {
        None
    } else if errors >= numbers && errors >= texts && errors >= bools {
        Some(ValueKind::Error)
    } else if bools >= numbers && bools >= texts {
        Some(ValueKind::Bool)
    } else if texts >= numbers {
        Some(ValueKind::Text)
    } else {
        Some(ValueKind::Number)
    }
}

/// Of the columns from `col` to `right`, those that hold data between two rows.
pub open spec fn considered(sheet: Sheet, top: u32, bottom: u32, col: int, right: int) -> int
    decreases right + 1 - col,
{
    if col > right {
        0
    } else {
        considered(sheet, top, bottom, col + 1, right) + (if dominant(
            sheet,
            top,
            bottom,
            col as u16,
        ) is Some {
            1int
        } else {
            0int
        })
    }
}

/// Of the columns from `col` to `right`, those that are text on the row `at` and
/// hold data of another kind between two rows.
pub open spec fn contrasting(
    sheet: Sheet,
    at: u32,
    top: u32,
    bottom: u32,
    col: int,
    right: int,
) -> int
    decreases right + 1 - col,
{
    if col > right {
        0
    } else {
        let body = dominant(sheet, top, bottom, col as u16);
        contrasting(sheet, at, top, bottom, col + 1, right) + (if body is Some && body->0
            != ValueKind::Text && sheet.value_at(at, col as u16).spec_kind() == ValueKind::Text {
            1int
        } else {
            0int
        })
    }
}

/// A row reads as a header: enough of the columns that hold data below it are
/// text here and something else there.
pub open spec fn is_header_row(sheet: Sheet, range: RangeRef, at: u32, agreement: Fraction) -> bool {
    let below = (at + 1) as u32;
    let n = considered(sheet, below, range.bottom, range.left as int, range.right as int);
    let k = contrasting(sheet, at, below, range.bottom, range.left as int, range.right as int);
    n > 0 && k * agreement.whole >= agreement.part * n
}

/// How many rows read as headers in a row, from the `k`-th on, up to `max`.
pub open spec fn header_run(
    sheet: Sheet,
    range: RangeRef,
    agreement: Fraction,
    k: int,
    max: int,
) -> int
    decreases max - k,
{
    if k < max && is_header_row(sheet, range, (range.top + k) as u32, agreement) {
        header_run(sheet, range, agreement, k + 1, max)
    } else {
        k
    }
}

/// The most header rows a range can have: a row of data must be left.
pub open spec fn header_cap(range: RangeRef, opts: RegionOptions) -> int {
    if opts.max_header_rows < range.height() - 1 {
        opts.max_header_rows as int
    } else {
        range.height() - 1
    }
}

/// Whether a row reads as a header over the rows below it.
fn check_header_row(sheet: &Sheet, range: RangeRef, at: u32, agreement: Fraction) -> (r: bool)
    requires
        range.normalised(),
        at < range.bottom,
    ensures
        r == is_header_row(*sheet, range, at, agreement),
{
    let below: u32 = at + 1;
    let mut looks: u64 = 0;
    let mut seen: u64 = 0;
    let mut col: u32 = range.right as u32 + 1;
    while col > range.left as u32
        invariant
            range.normalised(),
            at < range.bottom,
            below == at + 1,
            range.left <= col <= range.right + 1,
            0 <= looks <= seen <= range.right + 1 - col,
            seen == considered(*sheet, below, range.bottom, col as int, range.right as int),
            looks == contrasting(*sheet, at, below, range.bottom, col as int, range.right as int),
        decreases col,
    {
        col -= 1;
        if let Some(body) = dominant_kind(sheet, below, range.bottom, col as u16) {
            seen += 1;
            if sheet.kind(at, col as u16) == ValueKind::Text && body != ValueKind::Text {
                looks += 1;
            }
        }
    }
    if seen == 0 {
        return false;
    }
    let (part, whole): (u64, u64) = (agreement.part, agreement.whole);
    assert(0 <= looks * whole <= 0x1_0000 * 0xffff_ffff_ffff_ffff) by (nonlinear_arith)
        requires
            0 <= looks <= 0x1_0000,
            0 <= whole <= 0xffff_ffff_ffff_ffff,
    ;
    assert(0 <= part * seen <= 0xffff_ffff_ffff_ffff * 0x1_0000) by (nonlinear_arith)
        requires
            0 <= seen <= 0x1_0000,
            0 <= part <= 0xffff_ffff_ffff_ffff,
    ;
    let got: u128 = looks as u128 * whole as u128;
    let want: u128 = part as u128 * seen as u128;
    got >= want
}

/// How many leading rows look like a header rather than data.
///
/// A row is a header when, across the columns that hold data below it, it is
/// text where the body is not.
fn count_header_rows(sheet: &Sheet, range: RangeRef, opts: &RegionOptions) -> (r: u32)
    requires
        range.normalised(),
    ensures
        r == header_run(*sheet, range, opts.header_agreement, 0, header_cap(range, *opts)),
        r <= header_cap(range, *opts),
{
    let room: u32 = range.bottom - range.top;
    let max: u32 = if opts.max_header_rows < room {
        opts.max_header_rows
    } else {
        room
    };
    let mut k: u32 = 0;
    while k < max
        invariant
            range.normalised(),
            k <= max <= range.bottom - range.top,
            max == header_cap(range, *opts),
            header_run(*sheet, range, opts.header_agreement, 0, max as int) == header_run(
                *sheet,
                range,
                opts.header_agreement,
                k as int,
                max as int,
            ),
        decreases max - k,
    {
        if !check_header_row(sheet, range, range.top + k, opts.header_agreement) {
            return k;
        }
        k += 1;
    }
    k
}

/// Of the columns from `col` to `right`, those that hold something other than
/// text between two rows.
pub open spec fn not_text(sheet: Sheet, top: u32, bottom: u32, col: int, right: int) -> int
    decreases right + 1 - col,
{
    if col > right {
        0
    } else {
        let body = dominant(sheet, top, bottom, col as u16);
        not_text(sheet, top, bottom, col + 1, right) + (if body is Some && body->0
            != ValueKind::Text {
            1int
        } else {
            0int
        })
    }
}

/// The leading column labels rows: it is text below the headers, and at least
/// half of the columns beside it that hold data there are not.
pub open spec fn labels_rows(sheet: Sheet, range: RangeRef, header_rows: u32) -> bool {
    let top = (range.top + header_rows) as u32;
    let n = considered(sheet, top, range.bottom, range.left + 1, range.right as int);
    let k = not_text(sheet, top, range.bottom, range.left + 1, range.right as int);
    &&& range.width() >= 2
    &&& range.top + header_rows <= range.bottom
    &&& dominant(sheet, top, range.bottom, range.left) == Some(ValueKind::Text)
    &&& n > 0
    &&& 2 * k >= n
}

/// Whether the leading column labels rows rather than holding data.
fn has_row_labels(sheet: &Sheet, range: RangeRef, header_rows: u32) -> (r: bool)
    requires
        range.normalised(),
        range.top + header_rows <= u32::MAX,
    ensures
        r == labels_rows(*sheet, range, header_rows),
{
    if range.cols() < 2 {
        return false;
    }
    let top: u32 = range.top + header_rows;
    if top > range.bottom {
        return false;
    }
    match dominant_kind(sheet, top, range.bottom, range.left) {
        Some(ValueKind::Text) => {},
        _ => {
            return false;
        },
    }
    let mut others: u64 = 0;
    let mut seen: u64 = 0;
    let mut col: u32 = range.right as u32 + 1;
    while col > range.left as u32 + 1
        invariant
            range.width() >= 2,
            range.normalised(),
            range.left + 1 <= col <= range.right + 1,
            0 <= others <= seen <= range.right + 1 - col,
            seen == considered(*sheet, top, range.bottom, col as int, range.right as int),
            others == not_text(*sheet, top, range.bottom, col as int, range.right as int),
        decreases col,
    {
        col -= 1;
        if let Some(kind) = dominant_kind(sheet, top, range.bottom, col as u16) {
            seen += 1;
            if kind != ValueKind::Text {
                others += 1;
            }
        }
    }
    seen > 0 && 2 * others >= seen
}

/// The distinct texts of a column from the row `row` to before the row `end`,
/// top to bottom, blanks left out, added to those already there.
pub open spec fn header_parts(
    sheet: Sheet,
    row: int,
    end: int,
    col: u16,
    parts: Seq<Seq<char>>,
) -> Seq<Seq<char>>
    decreases end - row,
{
    if row >= end {
        parts
    } else {
        let t = sheet.value_at(row as u32, col).shown();
        header_parts(
            sheet,
            row + 1,
            end,
            col,
            if t.len() > 0 && !parts.contains(t) {
                parts.push(t)
            } else {
                parts
            },
        )
    }
}

/// Texts joined with a point between each two.
pub open spec fn joined(parts: Seq<Seq<char>>) -> Seq<char>
    decreases parts.len(),
{
    if parts.len() == 0 {
        Seq::empty()
    } else if parts.len() == 1 {
        parts[0]
    } else {
        joined(parts.drop_last()).push('.') + parts.last()
    }
}

/// The header of a column under stacked header rows.
pub open spec fn header_text(sheet: Sheet, range: RangeRef, header_rows: u32, col: u16) -> Seq<char> {
    joined(
        header_parts(
            sheet,
            range.top as int,
            range.top + header_rows,
            col,
            Seq::empty(),
        ),
    )
}

fn read_header(sheet: &Sheet, range: RangeRef, header_rows: u32, col: u16) -> (r: String)
    requires
        range.top + header_rows <= u32::MAX,
    ensures
        r@ == header_text(*sheet, range, header_rows, col),
{
    let mut parts: Vec<String> = Vec::new();
    let end: u32 = range.top + header_rows;
    let mut row: u32 = range.top;
    assert(texts(parts@) =~= Seq::<Seq<char>>::empty());
    while row < end
        invariant
            range.top <= row <= end,
            header_parts(*sheet, range.top as int, end as int, col, Seq::empty()) == header_parts(
                *sheet,
                row as int,
                end as int,
                col,
                texts(parts@),
            ),
        decreases end - row,
    {
        let t: String = sheet.value(row, col).to_display();
        let ghost before = texts(parts@);
        if !t.as_str().is_empty() && !holds_text(&parts, t.as_str()) {
            parts.push(t);
            assert(texts(parts@) =~= before.push(t@));
        }
        row += 1;
    }
    join_parts(&parts)
}

fn holds_text(v: &Vec<String>, t: &str) -> (r: bool)
    ensures
        r == texts(v@).contains(t@),
{
    let mut i: usize = 0;
    while i < v.len()
        invariant
            i <= v@.len(),
            forall|j: int| 0 <= j < i ==> texts(v@)[j] != t@,
        decreases v@.len() - i,
    {
        if text::same_text(v[i].as_str(), t) {
            assert(texts(v@)[i as int] == t@);
            return true;
        }
        i += 1;
    }
    false
}

fn join_parts(parts: &Vec<String>) -> (r: String)
    ensures
        r@ == joined(texts(parts@)),
{
    let mut out: String = String::new();
    let mut i: usize = 0;
    while i < parts.len()
        invariant
            i <= parts@.len(),
            out@ == joined(texts(parts@).take(i as int)),
        decreases parts@.len() - i,
    {
        if i > 0 {
            out.push('.');
        }
        out.push_str(parts[i].as_str());
        i += 1;
        proof {
            let t = texts(parts@).take(i as int);
            assert(t.drop_last() =~= texts(parts@).take(i - 1));
            if i == 1 {
                assert(out@ =~= t[0]);
            }
        }
    }
    assert(texts(parts@).take(i as int) =~= texts(parts@));
    out
}

/// The headers of the columns from `left` to the right edge of a range.
pub open spec fn headers_of(sheet: Sheet, range: RangeRef, header_rows: u32, left: int) -> Seq<
    Seq<char>,
> {
    Seq::new(
        (range.right + 1 - left) as nat,
        |i: int| header_text(sheet, range, header_rows, (left + i) as u16),
    )
}

/// Header text per body column, joining stacked header rows with `.`.
fn column_headers(sheet: &Sheet, range: RangeRef, header_rows: u32, header_cols: u16) -> (r: Vec<
    String,
>)
    requires
        range.top + header_rows <= u32::MAX,
        range.left + header_cols <= range.right,
    ensures
        texts(r@) == headers_of(*sheet, range, header_rows, range.left + header_cols),
{
    let left: u32 = range.left as u32 + header_cols as u32;
    let mut out: Vec<String> = Vec::new();
    let mut col: u32 = left;
    while col <= range.right as u32
        invariant
            range.top + header_rows <= u32::MAX,
            left == range.left + header_cols,
            left <= col <= range.right + 1,
            out@.len() == col - left,
            forall|i: int|
                0 <= i < out@.len() ==> (#[trigger] out@[i])@ == header_text(
                    *sheet,
                    range,
                    header_rows,
                    (left + i) as u16,
                ),
        decreases range.right + 1 - col,
    {
        out.push(read_header(sheet, range, header_rows, col as u16));
        col += 1;
    }
    assert(texts(out@) =~= headers_of(*sheet, range, header_rows, range.left + header_cols));
    out
}

/// How many of some entries hold a value, and how many hold text.
pub open spec fn value_tally(s: Seq<Entry>) -> (int, int)
    decreases s.len(),
{
    if s.len() == 0 {
        (0, 0)
    } else {
        let (total, texts) = value_tally(s.drop_last());
        match s.last().cell.value.spec_kind() {
            ValueKind::Empty => (total, texts),
            ValueKind::Text => (total + 1, texts + 1),
            _ => (total + 1, texts),
        }
    }
}

/// More than half of the values in a range are text.
pub open spec fn mostly_text(sheet: Sheet, range: RangeRef) -> bool {
    let (total, texts) = value_tally(sheet.entries_in(range));
    2 * texts > total
}

/// Whether a range is mostly textual, used to spot titles and notes.
fn is_mostly_text(sheet: &Sheet, range: RangeRef) -> (r: bool)
    requires
        range.normalised(),
    ensures
        r == mostly_text(*sheet, range),
{
    let cells: Vec<(CellRef, &crate::cell::Cell)> = sheet.iter_range(range);
    let ghost s = sheet.entries_in(range);
    let mut total: usize = 0;
    let mut texts: usize = 0;
    let mut i: usize = 0;
    while i < cells.len()
        invariant
            workbook::listed(cells@, s, sheet.id),
            i <= cells@.len(),
            (total as int, texts as int) == value_tally(s.take(i as int)),
            texts <= total <= i,
        decreases cells@.len() - i,
    {
        proof {
            assert(s.take(i + 1).drop_last() =~= s.take(i as int));
        }
        match cells[i].1.value.kind() {
            ValueKind::Empty => {},
            ValueKind::Text => {
                total += 1;
                texts += 1;
            },
            _ => {
                total += 1;
            },
        }
        i += 1;
    }
    assert(s.take(i as int) =~= s);
    texts > total - texts
}

/// A block classified, with its title and headers worked out.
pub open spec fn described(sheet: Sheet, range: RangeRef, count: u64, opts: RegionOptions) -> Outline {
    let title = title_of(sheet, range);
    let rest = RangeRef {
        top: if title is Some {
            (range.top + 1) as u32
        } else {
            range.top
        },
        ..range
    };
    let header_rows = header_run(
        sheet,
        rest,
        opts.header_agreement,
        0,
        header_cap(rest, opts),
    ) as u32;
    let header_cols: u16 = if labels_rows(sheet, rest, header_rows) {
        1
    } else {
        0
    };
    Outline {
        range,
        kind: if header_rows > 0 && range.height() > header_rows && range.height()
            >= opts.min_table_rows {
            RegionKind::Table
        } else if (range.height() <= 1 || range.width() == 1) && mostly_text(sheet, range) {
            RegionKind::Note
        } else {
            RegionKind::Block
        },
        source: RegionSource::Detected,
        title,
        header_rows,
        header_cols,
        headers: if header_rows > 0 {
            headers_of(sheet, rest, header_rows, rest.left + header_cols)
        } else {
            Seq::empty()
        },
        cell_count: count,
    }
}

/// Classify a block and work out its headers.
fn describe(sheet: &Sheet, range: RangeRef, count: u64, opts: &RegionOptions) -> (r: Region)
    requires
        range.normalised(),
    ensures
        r@ == described(*sheet, range, count, *opts),
{
    let title: Option<String> = detect_title(sheet, range);
    let top: u32 = if title.is_some() {
        range.top + 1
    } else {
        range.top
    };
    let rest: RangeRef = RangeRef::new(range.sheet, top, range.left, range.bottom, range.right);
    let header_rows: u32 = count_header_rows(sheet, rest, opts);
    let labels: bool = has_row_labels(sheet, rest, header_rows);
    let header_cols: u16 = if labels {
        1
    } else {
        0
    };
    let rows: u64 = range.rows();
    let cols: u32 = range.cols();
    let kind: RegionKind = if header_rows > 0 && rows > header_rows as u64 && rows
        >= opts.min_table_rows as u64 {
        RegionKind::Table
    } else if (rows <= 1 || cols == 1) && is_mostly_text(sheet, range) {
        RegionKind::Note
    } else {
        RegionKind::Block
    };
    let headers: Vec<String> = if header_rows > 0 {
        column_headers(sheet, rest, header_rows, header_cols)
    } else {
        Vec::new()
    };
    let region: Region = Region {
        range,
        kind,
        source: RegionSource::Detected,
        title,
        header_rows,
        header_cols,
        headers,
        cell_count: count,
    };
    assert(region@.headers =~= described(*sheet, range, count, *opts).headers);
    region
}


// ---------------------------------------------------------------------------
// The regions of a sheet
// ---------------------------------------------------------------------------

/// The places of some entries.
pub open spec fn places(s: Seq<Entry>) -> Seq<Place> {
    Seq::new(s.len(), |i: int| (s[i].row, s[i].col))
}

/// A declared table holds this place.
pub open spec fn tabled(sheet: Sheet, row: u32, col: u16) -> bool {
    exists|i: int|
        0 <= i < sheet.tables@.len() && (#[trigger] sheet.tables@[i]).range.holds(
            CellRef { sheet: sheet.id, row, col },
        )
}

/// The places of the stored cells that no declared table holds, in row-major
/// order.
pub open spec fn free_places(sheet: Sheet) -> Seq<Place> {
    places(sheet.entries().filter(|e: Entry| !tabled(sheet, e.row, e.col)))
}

/// The ranges of the declared tables.
pub open spec fn table_ranges(sheet: Sheet) -> Seq<RangeRef> {
    Seq::new(sheet.tables@.len(), |i: int| sheet.tables@[i].range)
}

/// The blocks that the cells outside the declared tables make.
pub open spec fn blocks_of(sheet: Sheet, opts: RegionOptions) -> Seq<Block> {
    partitioned(free_places(sheet), table_ranges(sheet), Axis::Row, 0, 0, opts)
}

/// A declared table, as the workbook says it is.
pub open spec fn declared(sheet: Sheet, table: ExcelTable) -> Outline {
    Outline {
        range: table.range,
        kind: RegionKind::Table,
        source: RegionSource::Declared,
        title: Some(table.name@),
        header_rows: if table.has_header_row {
            1
        } else {
            0
        },
        header_cols: 0,
        headers: texts(table.columns@),
        cell_count: sheet.entries_in(table.range).len() as u64,
    }
}

/// The range of a sheet between some edges.
pub open spec fn block_range(id: SheetId, e: Edges) -> RangeRef {
    RangeRef { sheet: id, top: e.top, left: e.left, bottom: e.bottom, right: e.right }
}

/// Every region of a sheet: the declared tables, then the detected blocks.
pub open spec fn found(sheet: Sheet, opts: RegionOptions) -> Seq<Outline> {
    let blocks = blocks_of(sheet, opts);
    let n = sheet.tables@.len() as int;
    Seq::new(
        sheet.tables@.len() + blocks.len(),
        |k: int|
            if k < n {
                declared(sheet, sheet.tables@[k])
            } else {
                described(
                    sheet,
                    block_range(sheet.id, blocks[k - n].edges),
                    blocks[k - n].count,
                    opts,
                )
            },
    )
}

/// The keys that put regions in row-major order.
pub open spec fn corner_keys(found: Seq<Outline>) -> Seq<Key> {
    Seq::new(found.len(), |k: int| (found[k].range.top as u64, found[k].range.left as u64, 0u64))
}

/// The regions are the ones found, in the given order.
pub open spec fn arranged(regions: Seq<Region>, found: Seq<Outline>, order: Seq<usize>) -> bool {
    &&& sort::is_order(order, corner_keys(found))
    &&& regions.len() == found.len()
    &&& forall|k: int|
        0 <= k < regions.len() ==> (#[trigger] regions[k])@ == found[order[k] as int]
}

/// The regions are the ones found, by their top left corners in row-major order.
pub open spec fn in_place(regions: Seq<Region>, found: Seq<Outline>) -> bool {
    exists|order: Seq<usize>| arranged(regions, found, order)
}

/// Detect the regions of a sheet.
///
/// Regions are returned in row-major order and never overlap.
pub fn detect_regions(sheet: &Sheet) -> (r: Vec<Region>)
    requires
        all_normalised(table_ranges(*sheet)),
    ensures
        in_place(r@, found(*sheet, RegionOptions::usual())),
{
    detect_regions_with(sheet, &RegionOptions::default())
}

fn is_tabled(sheet: &Sheet, row: u32, col: u16) -> (r: bool)
    ensures
        r == tabled(*sheet, row, col),
{
    let cell: CellRef = CellRef::new(sheet.id, row, col);
    let mut i: usize = 0;
    while i < sheet.tables.len()
        invariant
            i <= sheet.tables@.len(),
            cell == (CellRef { sheet: sheet.id, row, col }),
            forall|j: int| 0 <= j < i ==> !(#[trigger] sheet.tables@[j]).range.holds(cell),
        decreases sheet.tables@.len() - i,
    {
        if sheet.tables[i].range.contains(cell) {
            return true;
        }
        i += 1;
    }
    false
}

fn cells_outside_tables(sheet: &Sheet) -> (r: Vec<Place>)
    ensures
        r@ == free_places(*sheet),
        workbook::row_major(sheet.entries()),
{
    let cells: Vec<(CellRef, &crate::cell::Cell)> = sheet.iter();
    let mut out: Vec<Place> = Vec::new();
    let ghost s = sheet.entries();
    let ghost keep = |e: Entry| !tabled(*sheet, e.row, e.col);
    let mut i: usize = 0;
    assert(s.take(0).filter(keep) =~= Seq::<Entry>::empty()) by {
        reveal(Seq::filter);
    }
    assert(out@ =~= places(s.take(0).filter(keep)));
    while i < cells.len()
        invariant
            workbook::listed(cells@, s, sheet.id),
            keep == (|e: Entry| !tabled(*sheet, e.row, e.col)),
            i <= cells@.len(),
            out@ == places(s.take(i as int).filter(keep)),
        decreases cells@.len() - i,
    {
        let cell: CellRef = cells[i].0;
        proof {
            assert(s.take(i + 1) =~= s.take(i as int).push(s[i as int]));
            s.take(i as int).lemma_filter_push(s[i as int], keep);
        }
        let ghost before = s.take(i as int).filter(keep);
        if !is_tabled(sheet, cell.row, cell.col) {
            out.push((cell.row, cell.col));
            assert(places(before.push(s[i as int])) =~= places(before).push(
                (cell.row, cell.col),
            ));
        }
        i += 1;
    }
    assert(s.take(i as int) =~= s);
    out
}

pub proof fn lemma_free_places(sheet: Sheet)
    requires
        workbook::row_major(sheet.entries()),
    ensures
        free_places(sheet).no_duplicates(),
        forall|p: Place| #[trigger]
            free_places(sheet).contains(p) <==> workbook::occupied(sheet.entries(), p.0, p.1)
                && !tabled(sheet, p.0, p.1),
{
    let s = sheet.entries();
    let keep = |e: Entry| !tabled(sheet, e.row, e.col);
    let t = s.filter(keep);
    lemma_kept_places(s, keep);
    assert forall|p: Place| #[trigger] free_places(sheet).contains(p) <==> workbook::occupied(
        s,
        p.0,
        p.1,
    ) && !tabled(sheet, p.0, p.1) by {
        if workbook::occupied(s, p.0, p.1) && !tabled(sheet, p.0, p.1) {
            let i = choose|i: int|
                0 <= i < s.len() && (#[trigger] s[i]).row == p.0 && s[i].col == p.1;
            assert(keep(s[i]));
        }
    }
}

/// The places of the entries that a filter keeps: distinct, and exactly those
/// of the entries it accepts.
pub proof fn lemma_kept_places(s: Seq<Entry>, keep: spec_fn(Entry) -> bool)
    requires
        workbook::row_major(s),
    ensures
        places(s.filter(keep)).no_duplicates(),
        workbook::row_major(s.filter(keep)),
        forall|p: Place| #[trigger]
            places(s.filter(keep)).contains(p) <==> exists|i: int|
                0 <= i < s.len() && (#[trigger] s[i]).row == p.0 && s[i].col == p.1 && keep(s[i]),
    decreases s.len(),
{
    reveal(Seq::filter);
    let t = s.filter(keep);
    if s.len() == 0 {
        assert(places(t).no_duplicates());
    } else {
        let d = s.drop_last();
        let last = s.last();
        let n = s.len() - 1;
        assert(workbook::row_major(d));
        lemma_kept_places(d, keep);
        let u = d.filter(keep);
        assert forall|i: int| 0 <= i < u.len() implies workbook::before(
            (#[trigger] u[i]).row,
            u[i].col,
            last.row,
            last.col,
        ) by {
            let p = places(u)[i];
            assert(places(u).contains(p));
            let j = choose|j: int|
                0 <= j < d.len() && (#[trigger] d[j]).row == p.0 && d[j].col == p.1 && keep(d[j]);
            assert(s[j] == d[j]);
            assert(workbook::before(s[j].row, s[j].col, s[n].row, s[n].col));
        }
        if keep(last) {
            assert(t =~= u.push(last));
            assert(places(t) =~= places(u).push((last.row, last.col)));
        } else {
            assert(t =~= u);
        }
        assert(places(t).no_duplicates()) by {
            assert forall|i: int, j: int|
                0 <= i < places(t).len() && 0 <= j < places(t).len() && i != j implies places(
                t,
            )[i] != places(t)[j] by {
                if i < u.len() && j < u.len() {
                    assert(places(t)[i] == places(u)[i] && places(t)[j] == places(u)[j]);
                } else if i < u.len() {
                    assert(workbook::before(u[i].row, u[i].col, last.row, last.col));
                } else {
                    assert(workbook::before(u[j].row, u[j].col, last.row, last.col));
                }
            }
        }
        assert forall|p: Place| #[trigger] places(t).contains(p) <==> exists|i: int|
            0 <= i < s.len() && (#[trigger] s[i]).row == p.0 && s[i].col == p.1 && keep(s[i]) by {
            if places(t).contains(p) {
                let k = choose|k: int| 0 <= k < places(t).len() && places(t)[k] == p;
                if k < u.len() {
                    assert(places(u)[k] == p);
                    assert(places(u).contains(p));
                    let j = choose|j: int|
                        0 <= j < d.len() && (#[trigger] d[j]).row == p.0 && d[j].col == p.1 && keep(
                            d[j],
                        );
                    assert(s[j] == d[j]);
                } else {
                    assert(s[n].row == p.0);
                }
            }
            if exists|i: int|
                0 <= i < s.len() && (#[trigger] s[i]).row == p.0 && s[i].col == p.1 && keep(s[i]) {
                let i = choose|i: int|
                    0 <= i < s.len() && (#[trigger] s[i]).row == p.0 && s[i].col == p.1 && keep(
                        s[i],
                    );
                if i < n {
                    assert(d[i] == s[i]);
                    assert(places(u).contains(p));
                    let k = choose|k: int| 0 <= k < places(u).len() && places(u)[k] == p;
                    assert(places(t)[k] == p);
                } else {
                    assert(places(t)[places(t).len() - 1] == p);
                }
            }
        }
    }
}

/// Detect the regions of a sheet with explicit options.
pub fn detect_regions_with(sheet: &Sheet, opts: &RegionOptions) -> (r: Vec<Region>)
    requires
        all_normalised(table_ranges(*sheet)),
    ensures
        in_place(r@, found(*sheet, *opts)),
{
    let mut tables: Vec<RangeRef> = Vec::new();
    let mut keys: Vec<Key> = Vec::new();
    let mut i: usize = 0;
    while i < sheet.tables.len()
        invariant
            i <= sheet.tables@.len(),
            tables@ == table_ranges(*sheet).take(i as int),
            keys@.len() == i,
            forall|k: int|
                0 <= k < i ==> (#[trigger] keys@[k]) == (
                    sheet.tables@[k].range.top as u64,
                    sheet.tables@[k].range.left as u64,
                    0u64,
                ),
        decreases sheet.tables@.len() - i,
    {
        let t: RangeRef = sheet.tables[i].range;
        tables.push(t);
        keys.push((t.top as u64, t.left as u64, 0));
        i += 1;
        assert(tables@ =~= table_ranges(*sheet).take(i as int));
    }
    assert(tables@ =~= table_ranges(*sheet));
    let n: usize = i;
    let cells: Vec<Place> = cells_outside_tables(sheet);
    proof {
        lemma_free_places(*sheet);
    }
    let total: usize = cells.len();
    proof {
        assert(free_places(*sheet).len() == total);
        lemma_partitioned_tiles(
            free_places(*sheet),
            table_ranges(*sheet),
            Axis::Row,
            0,
            0,
            *opts,
        );
    }
    let mut blocks: Vec<Block> = Vec::new();
    partition(cells, &tables, Axis::Row, 0, 0, opts, &mut blocks);
    assert(blocks@ =~= blocks_of(*sheet, *opts));
    let mut j: usize = 0;
    while j < blocks.len()
        invariant
            n == sheet.tables@.len(),
            j <= blocks@.len(),
            keys@.len() == n + j,
            forall|k: int|
                0 <= k < n ==> (#[trigger] keys@[k]) == (
                    sheet.tables@[k].range.top as u64,
                    sheet.tables@[k].range.left as u64,
                    0u64,
                ),
            forall|k: int|
                n <= k < n + j ==> (#[trigger] keys@[k]) == (
                    blocks@[k - n].edges.top as u64,
                    blocks@[k - n].edges.left as u64,
                    0u64,
                ),
        decreases blocks@.len() - j,
    {
        let e: Edges = blocks[j].edges;
        keys.push((e.top as u64, e.left as u64, 0));
        j += 1;
    }
    let ghost all = found(*sheet, *opts);
    assert(keys@ =~= corner_keys(all));
    let order: Vec<usize> = order_of(&keys);
    let mut out: Vec<Region> = Vec::new();
    let mut k: usize = 0;
    while k < order.len()
        invariant
            n == sheet.tables@.len(),
            all == found(*sheet, *opts),
            blocks@ == blocks_of(*sheet, *opts),
            all_normalised(table_ranges(*sheet)),
            order@.len() == all.len(),
            forall|a: int| 0 <= a < order@.len() ==> (#[trigger] order@[a]) < all.len(),
            forall|b: int|
                0 <= b < blocks@.len() ==> (#[trigger] blocks@[b]).edges.top
                    <= blocks@[b].edges.bottom && blocks@[b].edges.left <= blocks@[b].edges.right,
            k <= order@.len(),
            out@.len() == k,
            forall|a: int| 0 <= a < k ==> (#[trigger] out@[a])@ == all[order@[a] as int],
        decreases order@.len() - k,
    {
        let at: usize = order[k];
        if at < n {
            let table: &ExcelTable = &sheet.tables[at];
            assert(table_ranges(*sheet)[at as int] == table.range);
            let count: u64 = sheet.iter_range(table.range).len() as u64;
            let region: Region = Region {
                range: table.range,
                kind: RegionKind::Table,
                source: RegionSource::Declared,
                title: Some(table.name.clone()),
                header_rows: if table.has_header_row {
                    1
                } else {
                    0
                },
                header_cols: 0,
                headers: table.columns.clone(),
                cell_count: count,
            };
            assert(region@.headers =~= texts(table.columns@));
            assert(region@ == declared(*sheet, sheet.tables@[at as int]));
            out.push(region);
        } else {
            let b: Block = blocks[at - n];
            let range: RangeRef = RangeRef::new(
                sheet.id,
                b.edges.top,
                b.edges.left,
                b.edges.bottom,
                b.edges.right,
            );
            assert(range == block_range(sheet.id, b.edges));
            out.push(describe(sheet, range, b.count, opts));
        }
        k += 1;
    }
    assert(arranged(out@, all, order@));
    out
}

/// Regions for every sheet in a workbook, keyed by sheet id.
pub fn detect_workbook_regions(workbook: &Workbook) -> (r: Vec<(SheetId, Vec<Region>)>)
    requires
        forall|i: int|
            0 <= i < workbook.sheets@.len() ==> all_normalised(
                table_ranges(#[trigger] workbook.sheets@[i]),
            ),
    ensures
        r@.len() == workbook.sheets@.len(),
        forall|i: int|
            0 <= i < r@.len() ==> (#[trigger] r@[i]).0 == workbook.sheets@[i].id && in_place(
                r@[i].1@,
                found(workbook.sheets@[i], RegionOptions::usual()),
            ),
{
    let mut out: Vec<(SheetId, Vec<Region>)> = Vec::new();
    let mut i: usize = 0;
    while i < workbook.sheets.len()
        invariant
            i <= workbook.sheets@.len(),
            forall|i: int|
                0 <= i < workbook.sheets@.len() ==> all_normalised(
                    table_ranges(#[trigger] workbook.sheets@[i]),
                ),
            out@.len() == i,
            forall|k: int|
                0 <= k < i ==> (#[trigger] out@[k]).0 == workbook.sheets@[k].id && in_place(
                    out@[k].1@,
                    found(workbook.sheets@[k], RegionOptions::usual()),
                ),
        decreases workbook.sheets@.len() - i,
    {
        let sheet: &Sheet = &workbook.sheets[i];
        out.push((sheet.id, detect_regions(sheet)));
        i += 1;
    }
    out
}


// ---------------------------------------------------------------------------
// Laws
// ---------------------------------------------------------------------------

/// A sheet as a workbook holds it: its cells are in order and its declared
/// tables are ranges of it that do not overlap.
pub open spec fn is_sound(sheet: Sheet) -> bool {
    &&& workbook::row_major(sheet.entries())
    &&& sheet.entries().len() <= u64::MAX
    &&& forall|i: int|
        0 <= i < sheet.tables@.len() ==> (#[trigger] sheet.tables@[i]).range.normalised()
            && sheet.tables@[i].range.sheet == sheet.id
    &&& forall|i: int, j: int|
        #![trigger sheet.tables@[i], sheet.tables@[j]]
        0 <= i < j < sheet.tables@.len() ==> !sheet.tables@[i].range.overlaps(
            sheet.tables@[j].range,
        )
}

pub proof fn lemma_sheet_blocks(sheet: Sheet, opts: RegionOptions)
    requires
        is_sound(sheet),
    ensures
        all_normalised(table_ranges(sheet)),
        free_places(sheet).no_duplicates(),
        free_places(sheet).len() <= u64::MAX,
        tiles(blocks_of(sheet, opts), free_places(sheet)),
        clear_of_tables(blocks_of(sheet, opts), table_ranges(sheet)),
{
    let free = free_places(sheet);
    let tables = table_ranges(sheet);
    lemma_free_places(sheet);
    assert(free.len() <= sheet.entries().len()) by {
        sheet.entries().lemma_filter_len(|e: Entry| !tabled(sheet, e.row, e.col));
    }
    assert forall|i: int| 0 <= i < tables.len() implies (#[trigger] tables[i]).normalised() by {
        assert(sheet.tables@[i].range.normalised());
    }
    assert forall|p: Place, i: int|
        #![trigger free.contains(p), tables[i]]
        free.contains(p) && 0 <= i < tables.len() implies !in_table(p, tables[i]) by {
        assert(!sheet.tables@[i].range.holds(
            CellRef { sheet: sheet.id, row: p.0, col: p.1 },
        ));
    }
    lemma_partitioned_tiles(free, tables, Axis::Row, 0, 0, opts);
    lemma_partitioned_clear(free, tables, Axis::Row, 0, 0, opts);
}

proof fn lemma_found_apart(sheet: Sheet, opts: RegionOptions, a: int, b: int)
    requires
        is_sound(sheet),
        0 <= a < found(sheet, opts).len(),
        0 <= b < found(sheet, opts).len(),
        a != b,
    ensures
        !found(sheet, opts)[a].range.overlaps(found(sheet, opts)[b].range),
        found(sheet, opts)[a].range.normalised(),
{
    lemma_sheet_blocks(sheet, opts);
    let blocks = blocks_of(sheet, opts);
    let tables = table_ranges(sheet);
    let n = sheet.tables@.len() as int;
    if a < n && b < n {
        let x = sheet.tables@[a];
        let y = sheet.tables@[b];
        if a < b {
            assert(!x.range.overlaps(y.range));
        } else {
            assert(!y.range.overlaps(x.range));
        }
    } else if a < n {
        assert(tables[a] == sheet.tables@[a].range);
        assert(!clashes(tables[a], blocks[b - n].edges));
    } else if b < n {
        assert(tables[b] == sheet.tables@[b].range);
        assert(!clashes(tables[b], blocks[a - n].edges));
        assert(blocks[a - n].edges.top <= blocks[a - n].edges.bottom);
    } else {
        let x = blocks[a - n];
        let y = blocks[b - n];
        assert(x.edges.top <= x.edges.bottom && y.edges.top <= y.edges.bottom);
        if a < b {
            assert(apart(x.edges, y.edges));
        } else {
            assert(apart(y.edges, x.edges));
        }
    }
}

/// Regions never overlap, and they come in row-major order of their top left
/// corners.
pub proof fn regions_never_overlap(sheet: Sheet, opts: RegionOptions, regions: Seq<Region>)
    requires
        is_sound(sheet),
        in_place(regions, found(sheet, opts)),
    ensures
        forall|i: int, j: int|
            #![trigger regions[i], regions[j]]
            0 <= i < j < regions.len() ==> !regions[i].range.overlaps(regions[j].range)
                && workbook::before(
                regions[i].range.top,
                regions[i].range.left,
                regions[j].range.top,
                regions[j].range.left,
            ),
{
    let all = found(sheet, opts);
    let order = choose|order: Seq<usize>| arranged(regions, all, order);
    let keys = corner_keys(all);
    assert forall|i: int, j: int|
        #![trigger regions[i], regions[j]]
        0 <= i < j < regions.len() implies !regions[i].range.overlaps(regions[j].range)
        && workbook::before(
        regions[i].range.top,
        regions[i].range.left,
        regions[j].range.top,
        regions[j].range.left,
    ) by {
        let a = order[i] as int;
        let b = order[j] as int;
        assert(regions[i]@ == all[a] && regions[j]@ == all[b]);
        assert(sort::precedes(keys, a, b));
        lemma_found_apart(sheet, opts, a, b);
        lemma_found_apart(sheet, opts, b, a);
    }
}

/// A region is a range of the sheet that it was found on.
pub proof fn regions_lie_on_their_sheet(
    sheet: Sheet,
    opts: RegionOptions,
    regions: Seq<Region>,
    k: int,
)
    requires
        is_sound(sheet),
        in_place(regions, found(sheet, opts)),
        0 <= k < regions.len(),
    ensures
        regions[k].range.sheet == sheet.id,
        regions[k].range.normalised(),
{
    let all = found(sheet, opts);
    let order = choose|order: Seq<usize>| arranged(regions, all, order);
    let a = order[k] as int;
    assert(regions[k]@ == all[a]);
    lemma_sheet_blocks(sheet, opts);
}

/// Every stored cell of a sheet lies in exactly one of its regions.
pub proof fn every_cell_lies_in_one_region(
    sheet: Sheet,
    opts: RegionOptions,
    regions: Seq<Region>,
    row: u32,
    col: u16,
)
    requires
        is_sound(sheet),
        in_place(regions, found(sheet, opts)),
        workbook::occupied(sheet.entries(), row, col),
    ensures
        exists|k: int|
            0 <= k < regions.len() && (#[trigger] regions[k]).range.holds(
                CellRef { sheet: sheet.id, row, col },
            ),
        forall|j: int, k: int|
            #![trigger regions[j], regions[k]]
            0 <= j < regions.len() && 0 <= k < regions.len() && regions[j].range.holds(
                CellRef { sheet: sheet.id, row, col },
            ) && regions[k].range.holds(CellRef { sheet: sheet.id, row, col }) ==> j == k,
{
    let all = found(sheet, opts);
    let order = choose|order: Seq<usize>| arranged(regions, all, order);
    let keys = corner_keys(all);
    let cell = CellRef { sheet: sheet.id, row, col };
    let p: Place = (row, col);
    let n = sheet.tables@.len() as int;
    let blocks = blocks_of(sheet, opts);
    lemma_sheet_blocks(sheet, opts);
    lemma_free_places(sheet);
    let at = if tabled(sheet, row, col) {
        choose|i: int| 0 <= i < n && (#[trigger] sheet.tables@[i]).range.holds(cell)
    } else {
        assert(free_places(sheet).contains(p));
        assert(covered(blocks, p));
        n + choose|k: int| 0 <= k < blocks.len() && within(p, (#[trigger] blocks[k]).edges)
    };
    assert(all[at].range.holds(cell));
    sort::order_lists_every_place(order, keys, at);
    let k = choose|k: int| 0 <= k < order.len() && (#[trigger] order[k]) == at;
    assert(regions[k]@ == all[at]);
    regions_never_overlap(sheet, opts, regions);
    assert forall|j: int, k: int|
        #![trigger regions[j], regions[k]]
        0 <= j < regions.len() && 0 <= k < regions.len() && regions[j].range.holds(cell)
            && regions[k].range.holds(cell) implies j == k by {
        if j < k {
            assert(!regions[j].range.overlaps(regions[k].range));
        } else if k < j {
            assert(!regions[k].range.overlaps(regions[j].range));
        }
    }
}

/// Two lists without repetition of the same places are of one length.
proof fn lemma_same_length(a: Seq<Place>, b: Seq<Place>)
    requires
        a.no_duplicates(),
        b.no_duplicates(),
        same_places(a, b),
    ensures
        a.len() == b.len(),
{
    a.unique_seq_to_set();
    b.unique_seq_to_set();
    assert(a.to_set() =~= b.to_set());
}

/// A region counts the stored cells that lie in its range.
pub proof fn a_region_counts_its_cells(
    sheet: Sheet,
    opts: RegionOptions,
    regions: Seq<Region>,
    k: int,
)
    requires
        is_sound(sheet),
        in_place(regions, found(sheet, opts)),
        0 <= k < regions.len(),
    ensures
        regions[k].cell_count == sheet.entries_in(regions[k].range).len(),
{
    let all = found(sheet, opts);
    let order = choose|order: Seq<usize>| arranged(regions, all, order);
    let at = order[k] as int;
    assert(regions[k]@ == all[at]);
    let n = sheet.tables@.len() as int;
    let s = sheet.entries();
    let range = regions[k].range;
    let keep = |e: Entry| range.holds(CellRef { sheet: sheet.id, row: e.row, col: e.col });
    let listed = s.filter(keep);
    assert(sheet.entries_in(range) == listed);
    s.lemma_filter_len(keep);
    if at >= n {
        lemma_sheet_blocks(sheet, opts);
        lemma_free_places(sheet);
        let blocks = blocks_of(sheet, opts);
        let b = blocks[at - n];
        let free = free_places(sheet);
        assert(counts(b, free));
        let p = choose|p: Seq<Place>| is_content(p, b, free);
        lemma_kept_places(s, keep);
        let q = places(listed);
        assert forall|x: Place|
            #![trigger p.contains(x)]
            #![trigger q.contains(x)]
            p.contains(x) <==> q.contains(x) by {
            if p.contains(x) {
                assert(free.contains(x) && within(x, b.edges));
                let i = choose|i: int|
                    0 <= i < s.len() && (#[trigger] s[i]).row == x.0 && s[i].col == x.1;
                assert(keep(s[i]));
            }
            if q.contains(x) {
                let i = choose|i: int|
                    0 <= i < s.len() && (#[trigger] s[i]).row == x.0 && s[i].col == x.1 && keep(
                        s[i],
                    );
                assert(workbook::occupied(s, x.0, x.1));
                assert(within(x, b.edges));
                if tabled(sheet, x.0, x.1) {
                    let cell = CellRef { sheet: sheet.id, row: x.0, col: x.1 };
                    let t = choose|t: int|
                        0 <= t < sheet.tables@.len() && (#[trigger] sheet.tables@[t]).range.holds(
                            cell,
                        );
                    assert(table_ranges(sheet)[t] == sheet.tables@[t].range);
                    assert(!clashes(table_ranges(sheet)[t], blocks[at - n].edges));
                }
                assert(free.contains(x));
            }
        }
        lemma_same_length(p, q);
    }
}

} // verus!
