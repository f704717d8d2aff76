//! Which cells of a sheet make a block together: near ones do, those with blank lines
//! between them do not, and a block reaches no further than its cells.

use crate::address::{CellRef, RangeRef};
use crate::region;
use crate::region::{Axis, Block, Place, Region, RegionOptions};
use crate::sort;
use crate::workbook;
use crate::workbook::{Edges, Sheet};
use vstd::prelude::*;

verus! {

/// Two lines no further apart than a gap.
pub open spec fn near(a: int, b: int, gap: int) -> bool {
    a - b <= gap && b - a <= gap
}

spec fn together(blocks: Seq<Block>, p: Place, q: Place) -> bool {
    exists|k: int|
        0 <= k < blocks.len() && region::within(p, (#[trigger] blocks[k]).edges) && region::within(
            q,
            blocks[k].edges,
        )
}

proof fn lemma_together(a: Seq<Block>, b: Seq<Block>, p: Place, q: Place)
    ensures
        together(a, p, q) || together(b, p, q) ==> together(a + b, p, q),
{
    if together(a, p, q) {
        let k = choose|k: int|
            0 <= k < a.len() && region::within(p, (#[trigger] a[k]).edges) && region::within(
                q,
                a[k].edges,
            );
        assert((a + b)[k] == a[k]);
    } else if together(b, p, q) {
        let k = choose|k: int|
            0 <= k < b.len() && region::within(p, (#[trigger] b[k]).edges) && region::within(
                q,
                b[k].edges,
            );
        assert((a + b)[a.len() + k] == b[k]);
    }
}

proof fn lemma_cleared_near(s: Seq<Place>, p: Place, q: Place)
    requires
        s.no_duplicates(),
        s.contains(p),
        s.contains(q),
    ensures
        together(region::cleared(s, Seq::empty(), Axis::Row, 0), p, q),
{
    region::lemma_bounds(s);
    region::lemma_first_clash(Seq::empty(), region::bounds(s), 0);
    let blocks = region::cleared(s, Seq::empty(), Axis::Row, 0);
    assert(region::within(p, blocks[0].edges) && region::within(q, blocks[0].edges));
}

proof fn lemma_near(
    s: Seq<Place>,
    axis: Axis,
    stalled: int,
    depth: int,
    opts: RegionOptions,
    p: Place,
    q: Place,
)
    requires
        s.no_duplicates(),
        s.contains(p),
        s.contains(q),
        near(p.0 as int, q.0 as int, opts.row_gap as int),
        near(p.1 as int, q.1 as int, opts.col_gap as int),
    ensures
        together(region::partitioned(s, Seq::empty(), axis, stalled, depth, opts), p, q),
    decreases opts.max_depth - depth, 1int, 0int,
{
    if stalled >= 2 || depth >= opts.max_depth {
        lemma_cleared_near(s, p, q);
    } else {
        let o = region::ordered(s, axis);
        region::lemma_ordered(s, axis);
        assert(o.contains(p) && o.contains(q));
        if region::next_cut(o, axis, opts.gap(axis), 1) >= o.len() {
            lemma_near(o, axis.spec_other(), stalled + 1, depth + 1, opts, p, q);
        } else {
            let i = o.index_of(p);
            let j = o.index_of(q);
            lemma_bands_near(o, axis, depth, 0, opts, i, j);
        }
    }
}

proof fn lemma_bands_near(
    o: Seq<Place>,
    axis: Axis,
    depth: int,
    from: int,
    opts: RegionOptions,
    i: int,
    j: int,
)
    requires
        o.no_duplicates(),
        region::in_axis_order(o, axis),
        depth < opts.max_depth,
        0 <= from <= i < o.len(),
        from <= j < o.len(),
        near(o[i].0 as int, o[j].0 as int, opts.row_gap as int),
        near(o[i].1 as int, o[j].1 as int, opts.col_gap as int),
    ensures
        together(region::bands(o, Seq::empty(), axis, depth, from, opts), o[i], o[j]),
    decreases opts.max_depth - depth, 0int, o.len() - from,
{
    let gap = opts.gap(axis);
    let end = region::next_cut(o, axis, gap, from + 1);
    region::lemma_next_cut(o, axis, gap, from + 1);
    let a = o.subrange(from, end);
    let x = region::partitioned(a, Seq::empty(), axis.spec_other(), 0, depth + 1, opts);
    let y = region::bands(o, Seq::empty(), axis, depth, end, opts);
    if i < end && j < end {
        assert(a[i - from] == o[i] && a[j - from] == o[j]);
        lemma_near(a, axis.spec_other(), 0, depth + 1, opts, o[i], o[j]);
    } else if i >= end && j >= end {
        lemma_bands_near(o, axis, depth, end, opts, i, j);
    } else {
        let lo = if i < j {
            i
        } else {
            j
        };
        let hi = if i < j {
            j
        } else {
            i
        };
        assert(region::is_cut(o, axis, gap, end));
        if lo < end - 1 {
            assert(axis.before(o[lo], o[end - 1]));
        }
        if end < hi {
            assert(axis.before(o[end], o[hi]));
        }
        assert(false);
    }
    lemma_together(x, y, o[i], o[j]);
}

/// Where a stored cell lies among the blocks of a sheet without declared tables.
proof fn lemma_plain(sheet: Sheet)
    requires
        region::is_sound(sheet),
        sheet.tables@.len() == 0,
    ensures
        region::table_ranges(sheet) == Seq::<RangeRef>::empty(),
        region::free_places(sheet).no_duplicates(),
        forall|p: Place| #[trigger]
            region::free_places(sheet).contains(p) <==> workbook::occupied(
                sheet.entries(),
                p.0,
                p.1,
            ),
{
    region::lemma_free_places(sheet);
    assert(region::table_ranges(sheet) =~= Seq::<RangeRef>::empty());
    assert forall|p: Place| #[trigger] region::free_places(sheet).contains(p)
        <==> workbook::occupied(sheet.entries(), p.0, p.1) by {
        assert(!region::tabled(sheet, p.0, p.1));
    }
}

/// Cells that lie no further apart than the gaps that separate blocks are in one
/// region, on a sheet without declared tables.
pub proof fn near_cells_share_a_region(
    sheet: Sheet,
    opts: RegionOptions,
    regions: Seq<Region>,
    p: Place,
    q: Place,
)
    requires
        region::is_sound(sheet),
        sheet.tables@.len() == 0,
        region::in_place(regions, region::found(sheet, opts)),
        workbook::occupied(sheet.entries(), p.0, p.1),
        workbook::occupied(sheet.entries(), q.0, q.1),
        near(p.0 as int, q.0 as int, opts.row_gap as int),
        near(p.1 as int, q.1 as int, opts.col_gap as int),
    ensures
        exists|k: int|
            0 <= k < regions.len() && (#[trigger] regions[k]).range.holds(
                CellRef { sheet: sheet.id, row: p.0, col: p.1 },
            ) && regions[k].range.holds(CellRef { sheet: sheet.id, row: q.0, col: q.1 }),
{
    lemma_plain(sheet);
    let free = region::free_places(sheet);
    let blocks = region::blocks_of(sheet, opts);
    lemma_near(free, Axis::Row, 0, 0, opts, p, q);
    let at = choose|k: int|
        0 <= k < blocks.len() && region::within(p, (#[trigger] blocks[k]).edges) && region::within(
            q,
            blocks[k].edges,
        );
    let all = region::found(sheet, opts);
    let order = choose|order: Seq<usize>| region::arranged(regions, all, order);
    sort::order_lists_every_place(order, region::corner_keys(all), at);
    let k = choose|k: int| 0 <= k < order.len() && (#[trigger] order[k]) == at;
    assert(regions[k]@ == all[at]);
    assert(regions[k].range.holds(CellRef { sheet: sheet.id, row: p.0, col: p.1 }));
}

// ---------------------------------------------------------------------------
// Blank lines.

/// The first and the last line of a block.
spec fn first_line(e: Edges, axis: Axis) -> int {
    match axis {
        Axis::Row => e.top as int,
        Axis::Col => e.left as int,
    }
}

spec fn last_line(e: Edges, axis: Axis) -> int {
    match axis {
        Axis::Row => e.bottom as int,
        Axis::Col => e.right as int,
    }
}

/// No place lies on the lines behind `x`, as many as the gap.
spec fn strip(s: Seq<Place>, axis: Axis, x: int, gap: int) -> bool {
    forall|p: Place| #[trigger] s.contains(p) ==> axis.line(p) <= x || axis.line(p) > x + gap
}

spec fn lies_on_one_side(s: Seq<Place>, axis: Axis, x: int, gap: int) -> bool {
    ||| forall|p: Place| #[trigger] s.contains(p) ==> axis.line(p) <= x
    ||| forall|p: Place| #[trigger] s.contains(p) ==> axis.line(p) > x + gap
}

spec fn on_one_side(blocks: Seq<Block>, axis: Axis, x: int, gap: int) -> bool {
    forall|k: int|
        0 <= k < blocks.len() ==> last_line((#[trigger] blocks[k]).edges, axis) <= x || first_line(
            blocks[k].edges,
            axis,
        ) > x + gap
}

proof fn lemma_sides(a: Seq<Block>, b: Seq<Block>, axis: Axis, x: int, gap: int)
    requires
        on_one_side(a, axis, x, gap),
        on_one_side(b, axis, x, gap),
    ensures
        on_one_side(a + b, axis, x, gap),
{
    assert forall|k: int| 0 <= k < (a + b).len() implies last_line(
        (#[trigger] (a + b)[k]).edges,
        axis,
    ) <= x || first_line((a + b)[k].edges, axis) > x + gap by {
        if k < a.len() {
            assert((a + b)[k] == a[k]);
        } else {
            assert((a + b)[k] == b[k - a.len()]);
        }
    }
}

/// Blocks of places that all lie on one side do so too.
proof fn lemma_one_side(blocks: Seq<Block>, s: Seq<Place>, axis: Axis, x: int, gap: int)
    requires
        region::tiles(blocks, s),
        lies_on_one_side(s, axis, x, gap),
    ensures
        on_one_side(blocks, axis, x, gap),
{
    if s.len() > 0 {
        region::lemma_bounds(s);
        let b = region::bounds(s);
        let t = choose|p: Place| #[trigger] s.contains(p) && p.0 == b.top;
        let u = choose|p: Place| #[trigger] s.contains(p) && p.0 == b.bottom;
        let v = choose|p: Place| #[trigger] s.contains(p) && p.1 == b.left;
        let w = choose|p: Place| #[trigger] s.contains(p) && p.1 == b.right;
        assert(s.contains(t) && s.contains(u) && s.contains(v) && s.contains(w));
        assert forall|k: int| 0 <= k < blocks.len() implies last_line(
            (#[trigger] blocks[k]).edges,
            axis,
        ) <= x || first_line(blocks[k].edges, axis) > x + gap by {
            assert(region::inside(blocks[k].edges, b));
        }
    }
}

/// Ordered places with no wide gap between two of them lie on one side of a strip.
proof fn lemma_no_cut(o: Seq<Place>, axis: Axis, x: int, gap: int, i: int)
    requires
        region::in_axis_order(o, axis),
        strip(o, axis, x, gap),
        1 <= i <= o.len(),
    ensures
        ({
            let end = region::next_cut(o, axis, gap, i);
            axis.line(o[i - 1]) <= x ==> forall|j: int|
                i - 1 <= j < end ==> axis.line(#[trigger] o[j]) <= x
        }),
    decreases o.len() - i,
{
    region::lemma_next_cut(o, axis, gap, i);
    if i < o.len() && !region::is_cut(o, axis, gap, i) {
        lemma_no_cut(o, axis, x, gap, i + 1);
        assert(o.contains(o[i]) && o.contains(o[i - 1]));
        if axis.line(o[i - 1]) <= x {
            let end = region::next_cut(o, axis, gap, i);
            assert(axis.line(o[i]) <= x);
            assert forall|j: int| i - 1 <= j < end implies axis.line(#[trigger] o[j]) <= x by {
                if j >= i {
                }
            }
        }
    }
}

/// The places from one cut to the next lie on one side of a strip.
proof fn lemma_band(o: Seq<Place>, axis: Axis, x: int, gap: int, from: int)
    requires
        region::in_axis_order(o, axis),
        strip(o, axis, x, gap),
        0 <= from < o.len(),
    ensures
        lies_on_one_side(
            o.subrange(from, region::next_cut(o, axis, gap, from + 1)),
            axis,
            x,
            gap,
        ),
{
    let end = region::next_cut(o, axis, gap, from + 1);
    region::lemma_next_cut(o, axis, gap, from + 1);
    lemma_no_cut(o, axis, x, gap, from + 1);
    let a = o.subrange(from, end);
    if axis.line(o[from]) <= x {
        assert forall|p: Place| #[trigger] a.contains(p) implies axis.line(p) <= x by {
            let j = choose|j: int| 0 <= j < a.len() && a[j] == p;
            assert(o[from + j] == p);
        }
    } else {
        assert forall|p: Place| #[trigger] a.contains(p) implies axis.line(p) > x + gap by {
            let j = choose|j: int| 0 <= j < a.len() && a[j] == p;
            assert(o[from + j] == p);
            assert(o.contains(p) && o.contains(o[from]));
            if j > 0 {
                assert(axis.before(o[from], o[from + j]));
            }
        }
    }
}

proof fn lemma_strip_of_part(o: Seq<Place>, a: int, b: int, axis: Axis, x: int, gap: int)
    requires
        strip(o, axis, x, gap),
        0 <= a <= b <= o.len(),
    ensures
        strip(o.subrange(a, b), axis, x, gap),
{
    let part = o.subrange(a, b);
    assert forall|p: Place| #[trigger] part.contains(p) implies axis.line(p) <= x || axis.line(p)
        > x + gap by {
        let j = choose|j: int| 0 <= j < part.len() && part[j] == p;
        assert(o[a + j] == p);
        assert(o.contains(p));
    }
}

proof fn lemma_split(
    s: Seq<Place>,
    along: Axis,
    x: int,
    axis: Axis,
    stalled: int,
    depth: int,
    opts: RegionOptions,
)
    requires
        s.no_duplicates(),
        s.len() <= u64::MAX,
        strip(s, along, x, opts.gap(along)),
        axis == along ==> stalled < 2 && depth < opts.max_depth,
        axis != along ==> stalled < 1 && depth + 1 < opts.max_depth,
    ensures
        on_one_side(
            region::partitioned(s, Seq::empty(), axis, stalled, depth, opts),
            along,
            x,
            opts.gap(along),
        ),
    decreases opts.max_depth - depth, 1int, 0int,
{
    if s.len() > 0 {
        let gap = opts.gap(along);
        let o = region::ordered(s, axis);
        region::lemma_ordered(s, axis);
        assert(strip(o, along, x, gap)) by {
            assert forall|p: Place| #[trigger] o.contains(p) implies along.line(p) <= x
                || along.line(p) > x + gap by {
                assert(s.contains(p));
            }
        }
        if region::next_cut(o, axis, opts.gap(axis), 1) >= o.len() {
            let rest = region::partitioned(
                o,
                Seq::empty(),
                axis.spec_other(),
                stalled + 1,
                depth + 1,
                opts,
            );
            if axis == along {
                lemma_band(o, along, x, gap, 0);
                region::lemma_next_cut(o, along, gap, 1);
                assert(o.subrange(0, region::next_cut(o, along, gap, 1)) =~= o);
                region::lemma_partitioned_tiles(
                    o,
                    Seq::empty(),
                    axis.spec_other(),
                    stalled + 1,
                    depth + 1,
                    opts,
                );
                lemma_one_side(rest, o, along, x, gap);
            } else {
                lemma_split(o, along, x, axis.spec_other(), stalled + 1, depth + 1, opts);
            }
        } else {
            lemma_split_bands(o, along, x, axis, depth, 0, opts);
        }
    }
}

proof fn lemma_split_bands(
    o: Seq<Place>,
    along: Axis,
    x: int,
    axis: Axis,
    depth: int,
    from: int,
    opts: RegionOptions,
)
    requires
        o.no_duplicates(),
        o.len() <= u64::MAX,
        region::in_axis_order(o, axis),
        strip(o, along, x, opts.gap(along)),
        depth < opts.max_depth,
        axis != along ==> depth + 1 < opts.max_depth,
        0 <= from <= o.len(),
    ensures
        on_one_side(
            region::bands(o, Seq::empty(), axis, depth, from, opts),
            along,
            x,
            opts.gap(along),
        ),
    decreases opts.max_depth - depth, 0int, o.len() - from,
{
    if from < o.len() {
        let gap = opts.gap(along);
        let end = region::next_cut(o, axis, opts.gap(axis), from + 1);
        region::lemma_next_cut(o, axis, opts.gap(axis), from + 1);
        let a = o.subrange(from, end);
        let first = region::partitioned(a, Seq::empty(), axis.spec_other(), 0, depth + 1, opts);
        let rest = region::bands(o, Seq::empty(), axis, depth, end, opts);
        lemma_split_bands(o, along, x, axis, depth, end, opts);
        if axis == along {
            lemma_band(o, along, x, gap, from);
            region::lemma_partitioned_tiles(
                a,
                Seq::empty(),
                axis.spec_other(),
                0,
                depth + 1,
                opts,
            );
            lemma_one_side(first, a, along, x, gap);
        } else {
            lemma_strip_of_part(o, from, end, along, x, gap);
            lemma_split(a, along, x, axis.spec_other(), 0, depth + 1, opts);
        }
        lemma_sides(first, rest, along, x, gap);
    }
}

proof fn lemma_regions_split(
    sheet: Sheet,
    opts: RegionOptions,
    regions: Seq<Region>,
    along: Axis,
    x: int,
    k: int,
)
    requires
        region::is_sound(sheet),
        sheet.tables@.len() == 0,
        region::in_place(regions, region::found(sheet, opts)),
        opts.max_depth >= 2 || (along == Axis::Row && opts.max_depth >= 1),
        strip(region::free_places(sheet), along, x, opts.gap(along)),
        0 <= k < regions.len(),
    ensures
        ({
            let r = regions[k].range;
            let e = Edges { top: r.top, left: r.left, bottom: r.bottom, right: r.right };
            last_line(e, along) <= x || first_line(e, along) > x + opts.gap(along)
        }),
{
    lemma_plain(sheet);
    region::lemma_sheet_blocks(sheet, opts);
    let blocks = region::blocks_of(sheet, opts);
    lemma_split(region::free_places(sheet), along, x, Axis::Row, 0, 0, opts);
    let all = region::found(sheet, opts);
    let order = choose|order: Seq<usize>| region::arranged(regions, all, order);
    let at = order[k] as int;
    assert(regions[k]@ == all[at]);
    assert(last_line(blocks[at].edges, along) <= x || first_line(blocks[at].edges, along) > x
        + opts.gap(along));
}

/// Rows that are blank across a sheet, as many as separate blocks, lie in no region
/// together with a cell above or below them: every region ends above them or starts
/// below. The sheet has no declared tables.
pub proof fn blank_rows_part_the_regions(
    sheet: Sheet,
    opts: RegionOptions,
    regions: Seq<Region>,
    x: int,
    k: int,
)
    requires
        region::is_sound(sheet),
        sheet.tables@.len() == 0,
        region::in_place(regions, region::found(sheet, opts)),
        opts.max_depth >= 1,
        forall|row: u32, col: u16|
            #[trigger] workbook::occupied(sheet.entries(), row, col) ==> row <= x || row > x
                + opts.row_gap,
        0 <= k < regions.len(),
    ensures
        regions[k].range.bottom <= x || regions[k].range.top > x + opts.row_gap,
{
    lemma_plain(sheet);
    assert forall|p: Place| #[trigger] region::free_places(sheet).contains(p) implies Axis::Row.line(
        p,
    ) <= x || Axis::Row.line(p) > x + opts.row_gap by {
        assert(workbook::occupied(sheet.entries(), p.0, p.1));
    }
    lemma_regions_split(sheet, opts, regions, Axis::Row, x, k);
}

/// Columns that are blank down a sheet part its regions in the same way.
pub proof fn blank_columns_part_the_regions(
    sheet: Sheet,
    opts: RegionOptions,
    regions: Seq<Region>,
    x: int,
    k: int,
)
    requires
        region::is_sound(sheet),
        sheet.tables@.len() == 0,
        region::in_place(regions, region::found(sheet, opts)),
        opts.max_depth >= 2,
        forall|row: u32, col: u16|
            #[trigger] workbook::occupied(sheet.entries(), row, col) ==> col <= x || col > x
                + opts.col_gap,
        0 <= k < regions.len(),
    ensures
        regions[k].range.right <= x || regions[k].range.left > x + opts.col_gap,
{
    lemma_plain(sheet);
    assert forall|p: Place| #[trigger] region::free_places(sheet).contains(p) implies Axis::Col.line(
        p,
    ) <= x || Axis::Col.line(p) > x + opts.col_gap by {
        assert(workbook::occupied(sheet.entries(), p.0, p.1));
    }
    lemma_regions_split(sheet, opts, regions, Axis::Col, x, k);
}

// ---------------------------------------------------------------------------
// How far a block reaches.

/// A place of some lies on every edge of a block, within it.
spec fn is_tight(b: Block, s: Seq<Place>) -> bool {
    exists|t: Seq<Place>|
        t.len() > 0 && b.edges == #[trigger] region::bounds(t) && forall|p: Place| #[trigger]
            t.contains(p) ==> s.contains(p)
}

spec fn all_tight(blocks: Seq<Block>, s: Seq<Place>) -> bool {
    forall|k: int| 0 <= k < blocks.len() ==> is_tight(#[trigger] blocks[k], s)
}

proof fn lemma_all_tight(a: Seq<Block>, b: Seq<Block>, s: Seq<Place>)
    requires
        all_tight(a, s),
        all_tight(b, s),
    ensures
        all_tight(a + b, s),
{
    assert forall|k: int| 0 <= k < (a + b).len() implies is_tight(#[trigger] (a + b)[k], s) by {
        if k < a.len() {
            assert((a + b)[k] == a[k]);
        } else {
            assert((a + b)[k] == b[k - a.len()]);
        }
    }
}

proof fn lemma_tight_in_more(blocks: Seq<Block>, a: Seq<Place>, s: Seq<Place>)
    requires
        all_tight(blocks, a),
        forall|p: Place| #[trigger] a.contains(p) ==> s.contains(p),
    ensures
        all_tight(blocks, s),
{
    assert forall|k: int| 0 <= k < blocks.len() implies is_tight(#[trigger] blocks[k], s) by {
        assert(is_tight(blocks[k], a));
        let t = choose|t: Seq<Place>|
            t.len() > 0 && blocks[k].edges == #[trigger] region::bounds(t) && forall|p: Place|
             #[trigger]
                t.contains(p) ==> a.contains(p);
        assert(blocks[k].edges == region::bounds(t));
    }
}

proof fn lemma_cleared_tight(s: Seq<Place>, tables: Seq<RangeRef>, axis: Axis, stalled: int)
    requires
        s.no_duplicates(),
        region::all_normalised(tables),
    ensures
        all_tight(region::cleared(s, tables, axis, stalled), s),
    decreases s.len(), 2 - stalled,
{
    if s.len() > 0 {
        region::lemma_first_clash(tables, region::bounds(s), 0);
        let clash = region::first_clash(tables, region::bounds(s), 0);
        if clash is Some && stalled < 2 {
            let t = clash->0;
            region::lemma_cut_at_table(s, axis, t);
            let (a, b, c) = region::cut_at_table(s, axis, t);
            let next = if b.len() < s.len() {
                0
            } else {
                stalled + 1
            };
            let other = axis.spec_other();
            lemma_cleared_tight(a, tables, other, next);
            lemma_cleared_tight(b, tables, other, next);
            lemma_cleared_tight(c, tables, other, next);
            let x = region::cleared(a, tables, other, next);
            let y = region::cleared(b, tables, other, next);
            let z = region::cleared(c, tables, other, next);
            lemma_tight_in_more(x, a, s);
            lemma_tight_in_more(y, b, s);
            lemma_tight_in_more(z, c, s);
            lemma_all_tight(x, y, s);
            lemma_all_tight(x + y, z, s);
        } else {
            let blocks = region::cleared(s, tables, axis, stalled);
            assert(blocks[0].edges == region::bounds(s));
            assert(is_tight(blocks[0], s));
        }
    }
}

proof fn lemma_tight(
    s: Seq<Place>,
    tables: Seq<RangeRef>,
    axis: Axis,
    stalled: int,
    depth: int,
    opts: RegionOptions,
)
    requires
        s.no_duplicates(),
        region::all_normalised(tables),
    ensures
        all_tight(region::partitioned(s, tables, axis, stalled, depth, opts), s),
    decreases opts.max_depth - depth, 1int, 0int,
{
    if s.len() == 0 {
    } else if stalled >= 2 || depth >= opts.max_depth {
        lemma_cleared_tight(s, tables, Axis::Row, 0);
    } else {
        let o = region::ordered(s, axis);
        region::lemma_ordered(s, axis);
        let blocks = region::partitioned(s, tables, axis, stalled, depth, opts);
        if region::next_cut(o, axis, opts.gap(axis), 1) >= o.len() {
            lemma_tight(o, tables, axis.spec_other(), stalled + 1, depth + 1, opts);
        } else {
            lemma_bands_tight(o, tables, axis, depth, 0, opts);
        }
        lemma_tight_in_more(blocks, o, s);
    }
}

proof fn lemma_bands_tight(
    o: Seq<Place>,
    tables: Seq<RangeRef>,
    axis: Axis,
    depth: int,
    from: int,
    opts: RegionOptions,
)
    requires
        o.no_duplicates(),
        region::all_normalised(tables),
        depth < opts.max_depth,
        0 <= from <= o.len(),
    ensures
        all_tight(region::bands(o, tables, axis, depth, from, opts), o),
    decreases opts.max_depth - depth, 0int, o.len() - from,
{
    if from < o.len() {
        let end = region::next_cut(o, axis, opts.gap(axis), from + 1);
        region::lemma_next_cut(o, axis, opts.gap(axis), from + 1);
        let a = o.subrange(from, end);
        let first = region::partitioned(a, tables, axis.spec_other(), 0, depth + 1, opts);
        lemma_tight(a, tables, axis.spec_other(), 0, depth + 1, opts);
        assert forall|p: Place| #[trigger] a.contains(p) implies o.contains(p) by {
            let j = choose|j: int| 0 <= j < a.len() && a[j] == p;
            assert(o[from + j] == p);
        }
        lemma_tight_in_more(first, a, o);
        lemma_bands_tight(o, tables, axis, depth, end, opts);
        lemma_all_tight(first, region::bands(o, tables, axis, depth, end, opts), o);
    }
}

/// A stored cell of a sheet, in a range.
pub open spec fn fills(sheet: Sheet, range: RangeRef, row: u32, col: u16) -> bool {
    workbook::occupied(sheet.entries(), row, col) && range.holds(
        CellRef { sheet: sheet.id, row, col },
    )
}

/// A detected region is no larger than its cells make it: a stored cell lies on its
/// first row, on its last row, in its first column and in its last column.
pub proof fn a_region_reaches_no_further_than_its_cells(
    sheet: Sheet,
    opts: RegionOptions,
    regions: Seq<Region>,
    k: int,
)
    requires
        region::is_sound(sheet),
        region::in_place(regions, region::found(sheet, opts)),
        0 <= k < regions.len(),
        regions[k].source is Detected,
    ensures
        ({
            let r = regions[k].range;
            &&& exists|col: u16| #[trigger] fills(sheet, r, r.top, col)
            &&& exists|col: u16| #[trigger] fills(sheet, r, r.bottom, col)
            &&& exists|row: u32| #[trigger] fills(sheet, r, row, r.left)
            &&& exists|row: u32| #[trigger] fills(sheet, r, row, r.right)
        }),
{
    region::lemma_free_places(sheet);
    region::lemma_sheet_blocks(sheet, opts);
    let free = region::free_places(sheet);
    let blocks = region::blocks_of(sheet, opts);
    let n = sheet.tables@.len() as int;
    lemma_tight(free, region::table_ranges(sheet), Axis::Row, 0, 0, opts);
    let all = region::found(sheet, opts);
    let order = choose|order: Seq<usize>| region::arranged(regions, all, order);
    let at = order[k] as int;
    assert(regions[k]@ == all[at]);
    let b = blocks[at - n];
    assert(is_tight(b, free));
    let t = choose|t: Seq<Place>|
        t.len() > 0 && b.edges == #[trigger] region::bounds(t) && forall|p: Place| #[trigger]
            t.contains(p) ==> free.contains(p);
    region::lemma_bounds(t);
    let r = regions[k].range;
    let u = choose|p: Place| #[trigger] t.contains(p) && p.0 == b.edges.top;
    let v = choose|p: Place| #[trigger] t.contains(p) && p.0 == b.edges.bottom;
    let w = choose|p: Place| #[trigger] t.contains(p) && p.1 == b.edges.left;
    let x = choose|p: Place| #[trigger] t.contains(p) && p.1 == b.edges.right;
    assert(fills(sheet, r, r.top, u.1));
    assert(fills(sheet, r, r.bottom, v.1));
    assert(fills(sheet, r, w.0, r.left));
    assert(fills(sheet, r, x.0, r.right));
}

} // verus!
