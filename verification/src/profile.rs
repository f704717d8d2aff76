//! What is actually in a column, summarised small enough to store.
//!
//! A workbook is asked about in the vocabulary of its values at least as often
//! as in the vocabulary of its headers. A profile is that vocabulary plus enough
//! to answer a question without opening the workbook: how many rows, how many
//! blank, the numbers of a numeric column, and, for a column with few enough of
//! them, the distinct values and their counts.
//!
//! Two things a profile is not. It is not a copy of the column: the distinct
//! list is abandoned above [`ProfileOptions::max_distinct`], so a key column
//! profiles to a count and nothing else. And it is not free of the workbook's
//! data, since a distinct list *is* cell values; [`ProfileOptions::values`] is
//! how a caller declines it.

use crate::address::{CellRef, RangeRef};
use crate::cell::{Cell, CellValue};
use crate::table;
use crate::table::{ColumnKind, Table, TableColumn};
use crate::text;
use crate::text::{chars_of, same_chars, string_of};
use crate::workbook;
use crate::workbook::{Entry, Sheet};
use vstd::prelude::*;

verus! {

/// How much of a column to keep.
#[derive(Debug, Clone, Copy, PartialEq, Eq)]
pub struct ProfileOptions {
    /// Keep the distinct values of a column that has at most this many.
    ///
    /// The point is the categorical column: a debt type, a status, a
    /// classification. A column with hundreds of distinct values is an
    /// identifier or a measurement, and listing it would be storing the column.
    pub max_distinct: usize,
    /// Stop counting distinct values once this many have been seen.
    ///
    /// Separate from `max_distinct` and larger: the counter has to know it went
    /// past the keeping threshold, and it must not hold a set the size of the
    /// column to find that out.
    pub abandon_distinct_after: usize,
    /// Longest text value kept, in characters. A cell can hold a paragraph.
    pub max_value_chars: usize,
    /// Whether to record anything derived from the values themselves: the
    /// distinct lists and the numeric summaries.
    ///
    /// `false` leaves the counts and the types, which are structure, and drops
    /// everything that is data.
    pub values: bool,
}

impl Default for ProfileOptions {
    fn default() -> (r: Self)
        ensures
            r.max_distinct == 64,
            r.abandon_distinct_after == 1024,
            r.max_value_chars == 64,
            r.values,
    {
        ProfileOptions {
            max_distinct: 64,
            abandon_distinct_after: 1024,
            max_value_chars: 64,
            values: true,
        }
    }
}

/// One distinct value and how often it occurs.
#[derive(Debug, Clone, PartialEq, Eq)]
pub struct ValueCount {
    pub value: String,
    pub count: u64,
    /// Whether `value` was cut to [`ProfileOptions::max_value_chars`].
    pub truncated: bool,
}

/// What the arithmetic of a numeric column is taken over.
///
/// The least, the greatest, the sum and the mean are floating-point folds over
/// these numbers, in this order.
#[derive(Debug, Clone, PartialEq, Eq)]
pub struct NumericSummary {
    /// The bit patterns of the column's numbers, top to bottom.
    pub numbers: Vec<u64>,
}

/// What one column holds.
#[derive(Debug, Clone, PartialEq, Eq)]
pub struct ColumnProfile {
    pub header: String,
    pub range: RangeRef,
    pub kind: ColumnKind,
    /// Populated cells.
    pub populated: u64,
    /// Cells of the column's range holding nothing.
    pub empty: u64,
    /// Cells holding an error value, counted separately because a column that is
    /// 3% `#REF!` is a finding rather than a type.
    pub errors: u64,
    /// Distinct values and their counts, most frequent first.
    ///
    /// `None` when the column had too many to be worth keeping, or when values
    /// were not collected at all. The distinction is in `distinct_count`.
    pub distinct: Option<Vec<ValueCount>>,
    /// How many distinct values the column has. `None` once counting was
    /// abandoned: "more than we were willing to count", not "unknown".
    pub distinct_count: Option<u64>,
    pub numeric: Option<NumericSummary>,
}

impl ColumnProfile {
    pub open spec fn reads_as_category(self) -> bool {
        match (self.distinct, self.distinct_count) {
            (Some(values), Some(n)) => n > 0 && values@.len() > 0 && self.populated >= 2 * n,
            _ => false,
        }
    }

    /// Whether this column reads as a category: few values, each repeated.
    ///
    /// Repetition is the test that separates a category from an identifier: kept
    /// distinct values are already few, and few values over few rows is a lookup
    /// table's key. Average repetition of two is the line.
    pub fn is_categorical(&self) -> (r: bool)
        ensures
            r == self.reads_as_category(),
    {
        match (&self.distinct, self.distinct_count) {
            (Some(values), Some(n)) => n > 0 && values.len() > 0 && self.populated / 2 >= n,
            _ => false,
        }
    }
}

/// Every profiled column of one workbook.
#[derive(Debug, Clone, PartialEq, Eq)]
pub struct Profiles {
    pub columns: Vec<ColumnProfile>,
    /// Whether the values themselves were collected. A profile set built with
    /// [`ProfileOptions::values`] off carries counts and types only, and a
    /// reader must not take a missing `numeric` for a column with no numbers.
    pub values: bool,
}

impl Default for Profiles {
    fn default() -> (r: Self)
        ensures
            r.columns@.len() == 0,
            !r.values,
    {
        Profiles { columns: Vec::new(), values: false }
    }
}

impl Profiles {
    pub fn is_empty(&self) -> (r: bool)
        ensures
            r == (self.columns@.len() == 0),
    {
        self.columns.len() == 0
    }

    pub fn len(&self) -> (r: usize)
        ensures
            r == self.columns@.len(),
    {
        self.columns.len()
    }

    /// Columns whose values a question is likely to name, in order.
    pub fn categorical(&self) -> (r: Vec<&ColumnProfile>)
        ensures
            r@.map_values(|c: &ColumnProfile| *c) == self.columns@.filter(
                |c: ColumnProfile| c.reads_as_category(),
            ),
    {
        let ghost keep = |c: ColumnProfile| c.reads_as_category();
        let ghost all = self.columns@;
        let mut out: Vec<&ColumnProfile> = Vec::new();
        let mut i: usize = 0;
        proof {
            reveal(Seq::filter);
            assert(out@.map_values(|c: &ColumnProfile| *c) =~= all.take(0).filter(keep));
        }
        while i < self.columns.len()
            invariant
                all == self.columns@,
                keep == (|c: ColumnProfile| c.reads_as_category()),
                i <= all.len(),
                out@.map_values(|c: &ColumnProfile| *c) == all.take(i as int).filter(keep),
            decreases all.len() - i,
        {
            let column: &ColumnProfile = &self.columns[i];
            let ghost before = out@;
            if column.is_categorical() {
                out.push(column);
                assert(out@.map_values(|c: &ColumnProfile| *c) =~= before.map_values(
                    |c: &ColumnProfile| *c,
                ).push(*column));
            }
            proof {
                reveal(Seq::filter);
                assert(all.take(i + 1).drop_last() =~= all.take(i as int));
                assert(all.take(i + 1).last() == *column);
            }
            i += 1;
        }
        assert(all.take(i as int) =~= all);
        out
    }
}

/// One value in full, as a profile writes it.
///
/// A number is written the way a sheet shows it, so `1` and `1.0` are one value
/// and not two.
pub open spec fn written(value: CellValue) -> Seq<char> {
    match value {
        CellValue::Bool(b) => if b {
            "true"@
        } else {
            "false"@
        },
        other => other.shown(),
    }
}

/// The text cut to at most `max` characters.
pub open spec fn cut(s: Seq<char>, max: int) -> Seq<char> {
    if s.len() <= max {
        s
    } else {
        s.take(max)
    }
}

/// What a profile stores a value under.
pub open spec fn key_of(value: CellValue, max: int) -> Seq<char> {
    cut(written(value), max)
}

/// The values a column holds, top to bottom, blanks left out.
pub open spec fn column_values(s: Seq<Entry>, col: int) -> Seq<CellValue> {
    s.filter(|e: Entry| e.col == col && !(e.cell.value is Empty)).map_values(
        |e: Entry| e.cell.value,
    )
}

/// How many values are error values.
pub open spec fn error_count(vals: Seq<CellValue>) -> nat {
    vals.filter(|v: CellValue| v is Error).len()
}

/// The bit patterns of the numbers among some values.
pub open spec fn number_bits(vals: Seq<CellValue>) -> Seq<u64> {
    vals.filter(|v: CellValue| v is Number).map_values(|v: CellValue| v->Number_0.bits)
}

/// The keys of some values, in order.
pub open spec fn keys(vals: Seq<CellValue>, max: int) -> Seq<Seq<char>> {
    vals.map_values(|v: CellValue| key_of(v, max))
}

/// How many different keys some values have.
pub open spec fn distinct_keys(vals: Seq<CellValue>, max: int) -> nat {
    keys(vals, max).to_set().len()
}

/// How many values have a key.
pub open spec fn occurrences(vals: Seq<CellValue>, max: int, key: Seq<char>) -> nat {
    vals.filter(|v: CellValue| key_of(v, max) == key).len()
}

/// A value with this key was cut to get it.
pub open spec fn was_cut(vals: Seq<CellValue>, max: int, key: Seq<char>) -> bool {
    exists|i: int|
        0 <= i < vals.len() && key_of(#[trigger] vals[i], max) == key && written(vals[i]).len()
            > max
}

/// The order of a distinct list: most frequent first, then by value.
pub open spec fn ranks_before(a: ValueCount, b: ValueCount) -> bool {
    a.count > b.count || (a.count == b.count && text::text_before(a.value@, b.value@))
}

/// The distinct values of a column with their counts, in order.
pub open spec fn is_distinct_list(l: Seq<ValueCount>, vals: Seq<CellValue>, max: int) -> bool {
    &&& forall|i: int, j: int|
        0 <= i < j < l.len() ==> ranks_before(#[trigger] l[i], #[trigger] l[j])
    &&& forall|i: int|
        0 <= i < l.len() ==> {
            let v = #[trigger] l[i];
            v.count == occurrences(vals, max, v.value@) && v.count > 0 && v.truncated == was_cut(
                vals,
                max,
                v.value@,
            )
        }
    &&& forall|k: int| 0 <= k < vals.len() ==> lists_value(l, key_of(#[trigger] vals[k], max))
}

/// A value stands in a distinct list.
pub open spec fn lists_value(l: Seq<ValueCount>, value: Seq<char>) -> bool {
    exists|i: int| 0 <= i < l.len() && (#[trigger] l[i]).value@ == value
}

/// What is kept of a column that holds these values.
pub open spec fn is_profile(
    p: ColumnProfile,
    column: TableColumn,
    vals: Seq<CellValue>,
    opts: ProfileOptions,
) -> bool {
    let max = opts.max_value_chars as int;
    let distinct = distinct_keys(vals, max);
    let cells = column.range.height() * column.range.width();
    &&& p.header@ == column.header@
    &&& p.range == column.range
    &&& p.kind == column.kind
    &&& p.populated == vals.len()
    &&& p.empty == (if cells > vals.len() {
        cells - vals.len()
    } else {
        0
    })
    &&& p.errors == error_count(vals)
    &&& match p.distinct_count {
        Some(n) => opts.values && distinct <= opts.abandon_distinct_after && n == distinct,
        None => !opts.values || distinct > opts.abandon_distinct_after,
    }
    &&& match p.distinct {
        Some(l) => p.distinct_count is Some && distinct <= opts.max_distinct && is_distinct_list(
            l@,
            vals,
            max,
        ),
        None => p.distinct_count is None || distinct > opts.max_distinct,
    }
    &&& match p.numeric {
        Some(n) => opts.values && n.numbers@.len() > 0 && n.numbers@ == number_bits(vals),
        None => !opts.values || number_bits(vals).len() == 0,
    }
}

/// One value, as the characters a profile stores it under, and whether they were
/// cut.
fn render(value: &CellValue, max_chars: usize) -> (r: (Vec<char>, bool))
    ensures
        r.0@ == key_of(*value, max_chars as int),
        r.1 == (written(*value).len() > max_chars),
{
    let full: Vec<char> = match value {
        CellValue::Bool(b) => if *b {
            chars_of("true")
        } else {
            chars_of("false")
        },
        other => chars_of(other.to_display().as_str()),
    };
    if full.len() <= max_chars {
        (full, false)
    } else {
        let mut out: Vec<char> = Vec::new();
        let mut i: usize = 0;
        while i < max_chars
            invariant
                max_chars < full@.len(),
                i <= max_chars,
                out@ == full@.take(i as int),
            decreases max_chars - i,
        {
            out.push(full[i]);
            assert(full@.take(i + 1) =~= full@.take(i as int).push(full@[i as int]));
            i += 1;
        }
        (out, true)
    }
}

/// How often one key has been seen so far.
struct Tally {
    key: Vec<char>,
    count: u64,
    cut: bool,
}

/// A tally says how often its key occurs among some values.
spec fn tallies(c: Seq<Tally>, vals: Seq<CellValue>, max: int) -> bool {
    &&& c.len() == distinct_keys(vals, max)
    &&& forall|i: int, j: int|
        0 <= i < j < c.len() ==> (#[trigger] c[i]).key@ != (#[trigger] c[j]).key@
    &&& forall|i: int|
        0 <= i < c.len() ==> {
            let t = #[trigger] c[i];
            t.count == occurrences(vals, max, t.key@) && t.count > 0 && t.cut == was_cut(
                vals,
                max,
                t.key@,
            )
        }
    &&& forall|k: int| 0 <= k < vals.len() ==> listed_key(c, key_of(#[trigger] vals[k], max))
}

spec fn listed_key(c: Seq<Tally>, key: Seq<char>) -> bool {
    exists|i: int| 0 <= i < c.len() && (#[trigger] c[i]).key@ == key
}

/// What one column has been seen to hold, so far.
struct ColumnState {
    populated: u64,
    errors: u64,
    numbers: Vec<u64>,
    /// Dropped whole the moment it grows past what we were willing to count: a
    /// key column has as many distinct values as rows, and holding that list is
    /// holding the column.
    counts: Vec<Tally>,
    abandoned: bool,
}

impl ColumnState {
    /// The state after some values.
    spec fn saw(self, vals: Seq<CellValue>, opts: ProfileOptions) -> bool {
        let max = opts.max_value_chars as int;
        &&& self.populated == vals.len()
        &&& self.errors == error_count(vals)
        &&& opts.values ==> self.numbers@ == number_bits(vals)
        &&& opts.values ==> self.abandoned == (distinct_keys(vals, max)
            > opts.abandon_distinct_after)
        &&& opts.values && !self.abandoned ==> tallies(self.counts@, vals, max)
    }

    fn new() -> (r: ColumnState)
        ensures
            forall|opts: ProfileOptions| #[trigger] r.saw(Seq::empty(), opts),
    {
        let r: ColumnState = ColumnState {
            populated: 0,
            errors: 0,
            numbers: Vec::new(),
            counts: Vec::new(),
            abandoned: false,
        };
        proof {
            assert forall|opts: ProfileOptions| #[trigger] r.saw(Seq::empty(), opts) by {
                let vals = Seq::<CellValue>::empty();
                let max = opts.max_value_chars as int;
                reveal(Seq::filter);
                assert(number_bits(vals) =~= Seq::empty());
                assert(keys(vals, max) =~= Seq::empty());
                assert(keys(vals, max).to_set() =~= Set::empty());
            }
        }
        r
    }

    fn see(&mut self, value: &CellValue, opts: &ProfileOptions, Ghost(vals): Ghost<Seq<CellValue>>)
        requires
            old(self).saw(vals, *opts),
            vals.len() < u64::MAX,
            !(value is Empty),
        ensures
            final(self).saw(vals.push(*value), *opts),
    {
        let ghost max = opts.max_value_chars as int;
        let ghost next = vals.push(*value);
        proof {
            lemma_counts_after(vals, *value, max);
            lemma_count_bound(vals);
        }
        self.populated = self.populated + 1;
        match value {
            CellValue::Error(_) => {
                self.errors = self.errors + 1;
            },
            CellValue::Number(n) => {
                if opts.values {
                    self.numbers.push(n.bits);
                }
            },
            _ => {},
        }
        if !opts.values || self.abandoned {
            return;
        }
        let (key, cut): (Vec<char>, bool) = render(value, opts.max_value_chars);
        let mut at: usize = 0;
        while at < self.counts.len() && !same_chars(self.counts[at].key.as_slice(), key.as_slice())
            invariant
                at <= self.counts@.len(),
                forall|i: int| 0 <= i < at ==> (#[trigger] self.counts@[i]).key@ != key@,
            decreases self.counts@.len() - at,
        {
            at += 1;
        }
        let ghost before = self.counts@;
        if at < self.counts.len() {
            proof {
                lemma_key_repeats(before, vals, *value, max, at as int);
            }
            let seen: &mut Tally = &mut self.counts[at];
            seen.count = seen.count + 1;
            seen.cut = seen.cut || cut;
            proof {
                lemma_tally_raised(before, self.counts@, vals, *value, max, at as int);
            }
            return;
        }
        proof {
            lemma_key_is_new(before, vals, *value, max);
        }
        if self.counts.len() >= opts.abandon_distinct_after {
            self.abandoned = true;
            self.counts = Vec::new();
            return;
        }
        self.counts.push(Tally { key, count: 1, cut });
        proof {
            lemma_tally_added(before, self.counts@, vals, *value, max);
        }
    }
}

/// What one more value does to the counts.
proof fn lemma_counts_after(vals: Seq<CellValue>, value: CellValue, max: int)
    ensures
        ({
            let next = vals.push(value);
            &&& error_count(next) == error_count(vals) + (if value is Error {
                1int
            } else {
                0
            })
            &&& number_bits(next) == (if value is Number {
                number_bits(vals).push(value->Number_0.bits)
            } else {
                number_bits(vals)
            })
            &&& distinct_keys(next, max) == distinct_keys(vals, max) + (if keys(vals, max).contains(
                key_of(value, max),
            ) {
                0int
            } else {
                1
            })
            &&& forall|key: Seq<char>| #[trigger]
                occurrences(next, max, key) == occurrences(vals, max, key) + (if key_of(value, max)
                    == key {
                    1int
                } else {
                    0
                })
            &&& forall|key: Seq<char>| #[trigger]
                was_cut(next, max, key) <==> was_cut(vals, max, key) || (key_of(value, max) == key
                    && written(value).len() > max)
        }),
{
    reveal(Seq::filter);
    let next = vals.push(value);
    assert(next.drop_last() =~= vals);
    if value is Number {
        assert(number_bits(next) =~= number_bits(vals).push(value->Number_0.bits));
    } else {
        assert(number_bits(next) =~= number_bits(vals));
    }
    let ks = keys(vals, max);
    let key = key_of(value, max);
    assert(keys(next, max) =~= ks.push(key));
    assert(ks.push(key).to_set() =~= ks.to_set().insert(key)) by {
        assert forall|k: Seq<char>| #[trigger]
            ks.push(key).to_set().contains(k) <==> ks.to_set().insert(key).contains(k) by {
            if ks.contains(k) {
                let i = choose|i: int| 0 <= i < ks.len() && ks[i] == k;
                assert(ks.push(key)[i] == k);
            }
            if k == key {
                assert(ks.push(key)[ks.len() as int] == k);
            }
        }
    }
    vstd::seq_lib::seq_to_set_is_finite(ks);
    assert forall|k: Seq<char>| #[trigger]
        was_cut(next, max, k) <==> was_cut(vals, max, k) || (key == k && written(value).len()
            > max) by {
        if was_cut(vals, max, k) {
            let i = choose|i: int|
                0 <= i < vals.len() && key_of(#[trigger] vals[i], max) == k && written(
                    vals[i],
                ).len() > max;
            assert(next[i] == vals[i]);
        }
        if key == k && written(value).len() > max {
            assert(next[vals.len() as int] == value);
        }
        if was_cut(next, max, k) {
            let i = choose|i: int|
                0 <= i < next.len() && key_of(#[trigger] next[i], max) == k && written(
                    next[i],
                ).len() > max;
            if i < vals.len() {
                assert(next[i] == vals[i]);
            }
        }
    }
}

proof fn lemma_count_bound(vals: Seq<CellValue>)
    ensures
        error_count(vals) <= vals.len(),
        forall|max: int, key: Seq<char>| #[trigger] occurrences(vals, max, key) <= vals.len(),
{
}

/// A listed key occurs among the values, and the other way round.
proof fn lemma_listed(c: Seq<Tally>, vals: Seq<CellValue>, max: int, key: Seq<char>)
    requires
        tallies(c, vals, max),
    ensures
        listed_key(c, key) <==> keys(vals, max).contains(key),
        !listed_key(c, key) ==> occurrences(vals, max, key) == 0 && !was_cut(vals, max, key),
{
    let ks = keys(vals, max);
    let keep = |v: CellValue| key_of(v, max) == key;
    if occurrences(vals, max, key) > 0 {
        let v = vals.filter(keep)[0];
        vals.lemma_filter_pred(keep, 0);
        assert(vals.filter(keep).contains(v));
        vals.lemma_filter_contains_rev(keep, v);
        let k = choose|k: int| 0 <= k < vals.len() && vals[k] == v;
        assert(ks[k] == key);
        assert(listed_key(c, key_of(vals[k], max)));
    }
    if listed_key(c, key) {
        let i = choose|i: int| 0 <= i < c.len() && (#[trigger] c[i]).key@ == key;
        assert(occurrences(vals, max, key) == c[i].count);
    }
    if ks.contains(key) {
        let k = choose|k: int| 0 <= k < ks.len() && ks[k] == key;
        assert(listed_key(c, key_of(vals[k], max)));
    }
}

proof fn lemma_key_repeats(c: Seq<Tally>, vals: Seq<CellValue>, value: CellValue, max: int, at: int)
    requires
        tallies(c, vals, max),
        vals.len() < u64::MAX,
        0 <= at < c.len(),
        c[at].key@ == key_of(value, max),
    ensures
        c[at].count < u64::MAX,
        keys(vals, max).contains(key_of(value, max)),
        distinct_keys(vals.push(value), max) == distinct_keys(vals, max),
{
    let key = key_of(value, max);
    assert(listed_key(c, key));
    lemma_listed(c, vals, max, key);
    lemma_count_bound(vals);
    assert(occurrences(vals, max, key) <= vals.len());
    lemma_counts_after(vals, value, max);
}

proof fn lemma_tally_raised(
    c: Seq<Tally>,
    d: Seq<Tally>,
    vals: Seq<CellValue>,
    value: CellValue,
    max: int,
    at: int,
)
    requires
        tallies(c, vals, max),
        0 <= at < c.len(),
        c[at].key@ == key_of(value, max),
        d.len() == c.len(),
        forall|i: int| 0 <= i < c.len() && i != at ==> d[i] == c[i],
        d[at].key@ == c[at].key@,
        d[at].count == c[at].count + 1,
        d[at].cut == (c[at].cut || written(value).len() > max),
    ensures
        tallies(d, vals.push(value), max),
{
    let key = key_of(value, max);
    let next = vals.push(value);
    assert(listed_key(c, key));
    lemma_listed(c, vals, max, key);
    lemma_counts_after(vals, value, max);
    assert forall|i: int| 0 <= i < d.len() implies (#[trigger] d[i]).key@ == c[i].key@ by {}
    assert forall|k: int| 0 <= k < next.len() implies listed_key(
        d,
        key_of(#[trigger] next[k], max),
    ) by {
        if k < vals.len() {
            assert(next[k] == vals[k]);
            assert(listed_key(c, key_of(vals[k], max)));
            let i = choose|i: int|
                0 <= i < c.len() && (#[trigger] c[i]).key@ == key_of(vals[k], max);
            assert(d[i].key@ == c[i].key@);
        } else {
            assert(d[at].key@ == key);
        }
    }
}

proof fn lemma_key_is_new(c: Seq<Tally>, vals: Seq<CellValue>, value: CellValue, max: int)
    requires
        tallies(c, vals, max),
        forall|i: int| 0 <= i < c.len() ==> (#[trigger] c[i]).key@ != key_of(value, max),
    ensures
        distinct_keys(vals.push(value), max) == c.len() + 1,
        occurrences(vals, max, key_of(value, max)) == 0,
        !was_cut(vals, max, key_of(value, max)),
{
    let key = key_of(value, max);
    assert(!listed_key(c, key));
    lemma_listed(c, vals, max, key);
    lemma_counts_after(vals, value, max);
}

proof fn lemma_tally_added(
    c: Seq<Tally>,
    d: Seq<Tally>,
    vals: Seq<CellValue>,
    value: CellValue,
    max: int,
)
    requires
        tallies(c, vals, max),
        forall|i: int| 0 <= i < c.len() ==> (#[trigger] c[i]).key@ != key_of(value, max),
        d.len() == c.len() + 1,
        forall|i: int| 0 <= i < c.len() ==> d[i] == c[i],
        d.last().key@ == key_of(value, max),
        d.last().count == 1,
        d.last().cut == (written(value).len() > max),
    ensures
        tallies(d, vals.push(value), max),
{
    let key = key_of(value, max);
    let next = vals.push(value);
    lemma_key_is_new(c, vals, value, max);
    lemma_counts_after(vals, value, max);
    assert forall|k: int| 0 <= k < next.len() implies listed_key(
        d,
        key_of(#[trigger] next[k], max),
    ) by {
        if k < vals.len() {
            assert(next[k] == vals[k]);
            assert(listed_key(c, key_of(vals[k], max)));
            let i = choose|i: int|
                0 <= i < c.len() && (#[trigger] c[i]).key@ == key_of(vals[k], max);
            assert(d[i].key@ == c[i].key@);
        } else {
            assert(d[c.len() as int].key@ == key);
        }
    }
}

proof fn lemma_text_order(a: Seq<char>, b: Seq<char>, c: Seq<char>)
    ensures
        !text::text_before(a, a),
        a != b ==> text::text_before(a, b) || text::text_before(b, a),
        text::text_before(a, b) ==> !text::text_before(b, a),
        text::text_before(a, b) && text::text_before(b, c) ==> text::text_before(a, c),
    decreases a.len(),
{
    if a.len() > 0 && b.len() > 0 {
        let t = if c.len() > 0 {
            c.drop_first()
        } else {
            c
        };
        lemma_text_order(a.drop_first(), b.drop_first(), t);
        assert(a =~= seq![a[0]] + a.drop_first());
        assert(b =~= seq![b[0]] + b.drop_first());
    } else if a.len() > 0 {
        lemma_text_order(a.drop_first(), a.drop_first(), a.drop_first());
    } else if b.len() == 0 {
        assert(a =~= b);
    }
}

proof fn lemma_rank_order(a: ValueCount, b: ValueCount, c: ValueCount)
    ensures
        !ranks_before(a, a),
        a.value@ != b.value@ ==> ranks_before(a, b) || ranks_before(b, a),
        ranks_before(a, b) ==> !ranks_before(b, a),
        ranks_before(a, b) && ranks_before(b, c) ==> ranks_before(a, c),
{
    lemma_text_order(a.value@, b.value@, c.value@);
}

/// Whether one string comes before another.
fn is_text_before(a: &[char], b: &[char]) -> (r: bool)
    ensures
        r == text::text_before(a@, b@),
{
    let mut i: usize = 0;
    proof {
        assert(a@.skip(0) =~= a@);
        assert(b@.skip(0) =~= b@);
    }
    while i < a.len() && i < b.len()
        invariant
            i <= a@.len(),
            i <= b@.len(),
            text::text_before(a@, b@) == text::text_before(a@.skip(i as int), b@.skip(i as int)),
        decreases a@.len() - i,
    {
        proof {
            assert(a@.skip(i as int).drop_first() =~= a@.skip(i + 1));
            assert(b@.skip(i as int).drop_first() =~= b@.skip(i + 1));
        }
        if a[i] != b[i] {
            return a[i] < b[i];
        }
        i += 1;
    }
    i < b.len()
}

fn is_ranked_before(a: &ValueCount, b: &ValueCount) -> (r: bool)
    ensures
        r == ranks_before(*a, *b),
{
    a.count > b.count || (a.count == b.count && is_text_before(
        chars_of(a.value.as_str()).as_slice(),
        chars_of(b.value.as_str()).as_slice(),
    ))
}

spec fn ranked(l: Seq<ValueCount>) -> bool {
    forall|i: int, j: int|
        0 <= i < j < l.len() ==> ranks_before(#[trigger] l[i], #[trigger] l[j])
}

/// The list says of each of the first `n` tallies what the tally says.
spec fn lists(l: Seq<ValueCount>, c: Seq<Tally>, n: int) -> bool {
    &&& l.len() == n
    &&& forall|i: int| 0 <= i < l.len() ==> tallied(#[trigger] l[i], c, n)
    &&& forall|k: int| 0 <= k < n ==> taken_up(#[trigger] c[k], l)
}

spec fn says(v: ValueCount, t: Tally) -> bool {
    v.value@ == t.key@ && v.count == t.count && v.truncated == t.cut
}

spec fn tallied(v: ValueCount, c: Seq<Tally>, n: int) -> bool {
    exists|k: int| 0 <= k < n && says(v, #[trigger] c[k])
}

spec fn taken_up(t: Tally, l: Seq<ValueCount>) -> bool {
    exists|i: int| 0 <= i < l.len() && says(#[trigger] l[i], t)
}

/// Putting a value at its place keeps the order.
proof fn lemma_ranked_insert(before: Seq<ValueCount>, l: Seq<ValueCount>, p: int, v: ValueCount)
    requires
        ranked(before),
        0 <= p <= before.len(),
        forall|i: int| 0 <= i < p ==> ranks_before(#[trigger] before[i], v),
        p < before.len() ==> !ranks_before(before[p], v) && before[p].value@ != v.value@,
        l == before.insert(p, v),
    ensures
        ranked(l),
{
    assert forall|i: int| p <= i < before.len() implies ranks_before(v, #[trigger] before[i]) by {
        lemma_rank_order(before[p], v, v);
        lemma_rank_order(v, before[p], before[i]);
    }
    assert forall|i: int, j: int| 0 <= i < j < l.len() implies ranks_before(
        #[trigger] l[i],
        #[trigger] l[j],
    ) by {
        let a = if i < p {
            i
        } else {
            i - 1
        };
        let b = if j < p {
            j
        } else {
            j - 1
        };
        if i == p {
            assert(ranks_before(v, before[b]));
        } else if j == p {
            assert(ranks_before(before[a], v));
        } else {
            assert(ranks_before(before[a], before[b]));
        }
    }
}

/// Putting a value into the list takes up its tally.
proof fn lemma_lists_insert(
    before: Seq<ValueCount>,
    l: Seq<ValueCount>,
    c: Seq<Tally>,
    k: int,
    p: int,
    v: ValueCount,
)
    requires
        lists(before, c, k),
        0 <= k < c.len(),
        says(v, c[k]),
        0 <= p <= before.len(),
        l == before.insert(p, v),
    ensures
        lists(l, c, k + 1),
{
    assert forall|i: int| 0 <= i < l.len() implies tallied(#[trigger] l[i], c, k + 1) by {
        if i == p {
            assert(says(l[i], c[k]));
        } else {
            let a = if i < p {
                i
            } else {
                i - 1
            };
            assert(tallied(before[a], c, k));
            let q = choose|q: int| 0 <= q < k && says(before[a], #[trigger] c[q]);
            assert(says(l[i], c[q]));
        }
    }
    assert forall|q: int| 0 <= q < k + 1 implies taken_up(#[trigger] c[q], l) by {
        if q == k {
            assert(says(l[p], c[q]));
        } else {
            assert(taken_up(c[q], before));
            let i = choose|i: int| 0 <= i < before.len() && says(#[trigger] before[i], c[q]);
            let j = if i < p {
                i
            } else {
                i + 1
            };
            assert(says(l[j], c[q]));
        }
    }
}

/// The tallies as values, most frequent first and then by value.
fn ranked_values(counts: &Vec<Tally>) -> (r: Vec<ValueCount>)
    requires
        forall|i: int, j: int|
            0 <= i < j < counts@.len() ==> (#[trigger] counts@[i]).key@ != (
            #[trigger] counts@[j]).key@,
    ensures
        ranked(r@),
        lists(r@, counts@, counts@.len() as int),
{
    let ghost c = counts@;
    let mut out: Vec<ValueCount> = Vec::new();
    let mut k: usize = 0;
    while k < counts.len()
        invariant
            c == counts@,
            forall|i: int, j: int|
                0 <= i < j < c.len() ==> (#[trigger] c[i]).key@ != (#[trigger] c[j]).key@,
            k <= c.len(),
            ranked(out@),
            lists(out@, c, k as int),
        decreases c.len() - k,
    {
        let t: &Tally = &counts[k];
        let v: ValueCount = ValueCount {
            value: string_of(t.key.as_slice()),
            count: t.count,
            truncated: t.cut,
        };
        let mut p: usize = 0;
        while p < out.len() && is_ranked_before(&out[p], &v)
            invariant
                p <= out@.len(),
                forall|i: int| 0 <= i < p ==> ranks_before(#[trigger] out@[i], v),
            decreases out@.len() - p,
        {
            p += 1;
        }
        let ghost before = out@;
        out.insert(p, v);
        proof {
            if p < before.len() {
                assert(tallied(before[p as int], c, k as int));
                let q = choose|q: int| 0 <= q < k && says(before[p as int], #[trigger] c[q]);
                assert(c[q].key@ != c[k as int].key@);
            }
            lemma_ranked_insert(before, out@, p as int, v);
            lemma_lists_insert(before, out@, c, k as int, p as int, v);
        }
        k += 1;
    }
    out
}

proof fn lemma_ranked_is_distinct_list(
    l: Seq<ValueCount>,
    c: Seq<Tally>,
    vals: Seq<CellValue>,
    max: int,
)
    requires
        tallies(c, vals, max),
        ranked(l),
        lists(l, c, c.len() as int),
    ensures
        is_distinct_list(l, vals, max),
{
    assert forall|i: int| 0 <= i < l.len() implies {
        let v = #[trigger] l[i];
        v.count == occurrences(vals, max, v.value@) && v.count > 0 && v.truncated == was_cut(
            vals,
            max,
            v.value@,
        )
    } by {
        assert(tallied(l[i], c, c.len() as int));
        let q = choose|q: int| 0 <= q < c.len() && says(l[i], #[trigger] c[q]);
        assert(c[q].count > 0);
    }
    assert forall|k: int| 0 <= k < vals.len() implies lists_value(
        l,
        key_of(#[trigger] vals[k], max),
    ) by {
        assert(listed_key(c, key_of(vals[k], max)));
        let q = choose|q: int| 0 <= q < c.len() && (#[trigger] c[q]).key@ == key_of(vals[k], max);
        assert(taken_up(c[q], l));
        let i = choose|i: int| 0 <= i < l.len() && says(#[trigger] l[i], c[q]);
        assert(l[i].value@ == key_of(vals[k], max));
    }
}

impl ColumnState {
    fn finish(
        &self,
        column: &TableColumn,
        opts: &ProfileOptions,
        Ghost(vals): Ghost<Seq<CellValue>>,
    ) -> (r: ColumnProfile)
        requires
            self.saw(vals, *opts),
        ensures
            is_profile(r, *column, vals, *opts),
    {
        let ghost max = opts.max_value_chars as int;
        let counted: bool = opts.values && !self.abandoned;
        let distinct_count: Option<u64> = if counted {
            Some(self.counts.len() as u64)
        } else {
            None
        };
        let distinct: Option<Vec<ValueCount>> = if counted && self.counts.len()
            <= opts.max_distinct {
            let values: Vec<ValueCount> = ranked_values(&self.counts);
            proof {
                lemma_ranked_is_distinct_list(values@, self.counts@, vals, max);
            }
            Some(values)
        } else {
            None
        };
        let numeric: Option<NumericSummary> = if opts.values && self.numbers.len() > 0 {
            let numbers: Vec<u64> = self.numbers.clone();
            assert(numbers@ =~= self.numbers@);
            Some(NumericSummary { numbers })
        } else {
            None
        };
        let cells: u64 = column.range.cell_count();
        ColumnProfile {
            header: column.header.clone(),
            range: column.range,
            kind: column.kind,
            populated: self.populated,
            empty: if cells > self.populated {
                cells - self.populated
            } else {
                0
            },
            errors: self.errors,
            distinct,
            distinct_count,
            numeric,
        }
    }
}

proof fn lemma_column_values(s: Seq<Entry>, col: int)
    ensures
        column_values(s, col).len() <= s.len(),
        s.len() == 0 ==> column_values(s, col) == Seq::<CellValue>::empty(),
        s.len() > 0 ==> column_values(s, col) == (if s.last().col == col && !(
        s.last().cell.value is Empty) {
            column_values(s.drop_last(), col).push(s.last().cell.value)
        } else {
            column_values(s.drop_last(), col)
        }),
{
    reveal(Seq::filter);
    if s.len() == 0 {
        assert(column_values(s, col) =~= Seq::empty());
    } else if s.last().col == col && !(s.last().cell.value is Empty) {
        assert(column_values(s, col) =~= column_values(s.drop_last(), col).push(
            s.last().cell.value,
        ));
    } else {
        assert(column_values(s, col) =~= column_values(s.drop_last(), col));
    }
}

/// Profile every column of a table, by one pass over its body.
pub fn profile_table(sheet: &Sheet, table: &Table, opts: &ProfileOptions) -> (r: Vec<ColumnProfile>)
    requires
        table.body.normalised(),
    ensures
        r@.len() == table.columns@.len(),
        forall|i: int|
            0 <= i < r@.len() ==> is_profile(
                #[trigger] r@[i],
                table.columns@[i],
                column_values(sheet.entries_in(table.body), table.body.left + i),
                *opts,
            ),
{
    let body: RangeRef = table.body;
    let left: u16 = body.left;
    let width: usize = table.columns.len();
    let ghost s = sheet.entries_in(body);
    let mut state: Vec<ColumnState> = Vec::new();
    let mut k: usize = 0;
    while k < width
        invariant
            k <= width,
            state@.len() == k,
            forall|j: int|
                0 <= j < k ==> (#[trigger] state@[j]).saw(column_values(s.take(0), left + j), *opts),
        decreases width - k,
    {
        state.push(ColumnState::new());
        proof {
            lemma_column_values(s.take(0), left + k);
        }
        k += 1;
    }
    let cells: Vec<(CellRef, &Cell)> = sheet.iter_range(body);
    let count: usize = cells.len();
    proof {
        table::lemma_entries_in(*sheet, body);
    }
    let mut i: usize = 0;
    while i < count
        invariant
            count == cells@.len(),
            count <= u64::MAX,
            left == body.left,
            s == sheet.entries_in(body),
            workbook::listed(cells@, s, sheet.id),
            forall|k: int|
                0 <= k < s.len() ==> body.holds(
                    CellRef { sheet: sheet.id, row: (#[trigger] s[k]).row, col: s[k].col },
                ),
            i <= count,
            state@.len() == width,
            forall|j: int|
                0 <= j < width ==> (#[trigger] state@[j]).saw(
                    column_values(s.take(i as int), left + j),
                    *opts,
                ),
        decreases count - i,
    {
        let at: CellRef = cells[i].0;
        assert(body.holds(CellRef { sheet: sheet.id, row: s[i as int].row, col: s[i as int].col }));
        let j: usize = (at.col - left) as usize;
        let value: &CellValue = &cells[i].1.value;
        let ghost vals = column_values(s.take(i as int), left + j);
        let ghost before = state@;
        proof {
            assert(s.take(i + 1).drop_last() =~= s.take(i as int));
            assert(s.take(i + 1).last() == s[i as int]);
            lemma_column_values(s.take(i as int), left + j);
        }
        if j < width && !matches!(value, CellValue::Empty) {
            state[j].see(value, opts, Ghost(vals));
        }
        proof {
            assert forall|c: int| 0 <= c < width implies (#[trigger] state@[c]).saw(
                column_values(s.take(i + 1), left + c),
                *opts,
            ) by {
                lemma_column_values(s.take(i + 1), left + c);
                assert(before[c].saw(column_values(s.take(i as int), left + c), *opts));
            }
        }
        i += 1;
    }
    assert(s.take(count as int) =~= s);
    let mut out: Vec<ColumnProfile> = Vec::new();
    let mut c: usize = 0;
    while c < width
        invariant
            width == table.columns@.len(),
            state@.len() == width,
            forall|j: int|
                0 <= j < width ==> (#[trigger] state@[j]).saw(column_values(s, left + j), *opts),
            c <= width,
            out@.len() == c,
            forall|j: int|
                0 <= j < c ==> is_profile(
                    #[trigger] out@[j],
                    table.columns@[j],
                    column_values(s, left + j),
                    *opts,
                ),
        decreases width - c,
    {
        out.push(
            state[c].finish(&table.columns[c], opts, Ghost(column_values(s, left + c))),
        );
        c += 1;
    }
    out
}

/// A profile taken without values holds nothing but counts and types.
pub proof fn structure_alone_holds_no_values(
    p: ColumnProfile,
    column: TableColumn,
    vals: Seq<CellValue>,
    opts: ProfileOptions,
)
    requires
        is_profile(p, column, vals, opts),
        !opts.values,
    ensures
        p.distinct is None,
        p.distinct_count is None,
        p.numeric is None,
        !p.reads_as_category(),
        p.populated == vals.len(),
        p.kind == column.kind,
{
}

/// Two distinct lists of the same values are the same list, so that two runs
/// over one workbook write the same thing.
pub proof fn a_distinct_list_is_settled_by_the_values(
    a: Seq<ValueCount>,
    b: Seq<ValueCount>,
    vals: Seq<CellValue>,
    max: int,
)
    requires
        is_distinct_list(a, vals, max),
        is_distinct_list(b, vals, max),
    ensures
        a.len() == b.len(),
        forall|i: int|
            0 <= i < a.len() ==> (#[trigger] a[i]).value@ == b[i].value@ && a[i].count == b[i].count
                && a[i].truncated == b[i].truncated,
{
    lemma_lists_agree(a, b, vals, max, a.len() as int);
    if a.len() < b.len() {
        let v = b[a.len() as int];
        lemma_value_is_listed(a, vals, max, v);
        let i = choose|i: int| 0 <= i < a.len() && (#[trigger] a[i]).value@ == v.value@;
        assert(b[i].value@ == v.value@ && b[i].count == v.count);
        lemma_rank_order(b[i], v, v);
        assert(ranks_before(b[i], b[a.len() as int]));
        lemma_text_order(v.value@, v.value@, v.value@);
    }
}

/// Whatever one distinct list of some values holds, another does.
proof fn lemma_value_is_listed(
    a: Seq<ValueCount>,
    vals: Seq<CellValue>,
    max: int,
    v: ValueCount,
)
    requires
        is_distinct_list(a, vals, max),
        occurrences(vals, max, v.value@) > 0,
    ensures
        exists|i: int|
            0 <= i < a.len() && (#[trigger] a[i]).value@ == v.value@ && a[i].count == occurrences(
                vals,
                max,
                v.value@,
            ),
{
    let keep = |x: CellValue| key_of(x, max) == v.value@;
    let x = vals.filter(keep)[0];
    vals.lemma_filter_pred(keep, 0);
    assert(vals.filter(keep).contains(x));
    vals.lemma_filter_contains_rev(keep, x);
    let k = choose|k: int| 0 <= k < vals.len() && vals[k] == x;
    assert(lists_value(a, key_of(vals[k], max)));
}

proof fn lemma_lists_agree(
    a: Seq<ValueCount>,
    b: Seq<ValueCount>,
    vals: Seq<CellValue>,
    max: int,
    n: int,
)
    requires
        is_distinct_list(a, vals, max),
        is_distinct_list(b, vals, max),
        0 <= n <= a.len(),
    ensures
        n <= b.len(),
        forall|i: int|
            0 <= i < n ==> (#[trigger] a[i]).value@ == b[i].value@ && a[i].count == b[i].count
                && a[i].truncated == b[i].truncated,
    decreases n,
{
    if n > 0 {
        lemma_lists_agree(a, b, vals, max, n - 1);
        let p = n - 1;
        let x = a[p];
        lemma_value_is_listed(b, vals, max, x);
        let j = choose|j: int|
            0 <= j < b.len() && (#[trigger] b[j]).value@ == x.value@ && b[j].count == occurrences(
                vals,
                max,
                x.value@,
            );
        if j < p {
            assert(a[j].value@ == b[j].value@ && a[j].count == b[j].count);
            assert(ranks_before(a[j], a[p]));
            lemma_text_order(x.value@, x.value@, x.value@);
        } else if j > p {
            let y = b[p];
            lemma_value_is_listed(a, vals, max, y);
            let i = choose|i: int|
                0 <= i < a.len() && (#[trigger] a[i]).value@ == y.value@ && a[i].count
                    == occurrences(vals, max, y.value@);
            assert(ranks_before(b[p], b[j]));
            assert(y.count == a[i].count);
            lemma_text_order(x.value@, y.value@, x.value@);
            if i < p {
                assert(a[i].value@ == b[i].value@ && a[i].count == b[i].count);
                assert(ranks_before(b[i], b[p]));
                lemma_text_order(y.value@, y.value@, y.value@);
            } else if i > p {
                assert(ranks_before(a[p], a[i]));
                assert(false);
            }
        }
    }
}

} // verus!
