//! Turning an expansion into text an agent can ground an answer in.
//!
//! The constraint that shapes this is not prose quality, it is checkability. So
//! every node carries the A1 range it stands for, and nothing appears here that
//! the graph did not say.
//!
//! Each node is listed once with a number, and relations are given as numbers.
//! It is shorter than nesting, it is unambiguous, and it gives the reader a
//! handle: "the figure comes from [4]" is checkable against the list.
//!
//! Cell values are deliberately absent. What this gives a reader is where to
//! look.

use crate::address;
use crate::expand;
use crate::expand::{Retrieved, RetrievedNode, Role, WorkbookContext};
use crate::fx;
use crate::graph::{EdgeKind, NodeKind};
use crate::text;
use crate::text::{chars_of, debug_str, find_last_char, push_decimal, same_chars};
use rustc_hash::FxHashMap;
use vstd::prelude::*;

verus! {

/// How much text to produce.
#[derive(Debug, Clone, Copy, PartialEq, Eq)]
pub struct RenderOptions {
    /// A ceiling on the passage, in characters: the missing-workbook notice,
    /// each workbook's heading, the entries under it, and the blank line between
    /// workbooks.
    ///
    /// Four things are written whatever this says, and nothing else is:
    ///
    /// - The first node of the passage, and the heading above it. A preamble
    ///   with nothing under it would be worse than one that overran, and a node
    ///   with no workbook named above it cannot be cited.
    /// - The notice that workbooks are missing from the corpus, shortened to a
    ///   bare count if it has to be.
    /// - The closing line saying how much was cut.
    pub max_chars: usize,
    /// Show how many cell references stand behind each relation. The difference
    /// between an edge of weight 1 and one of weight 115,003 is the difference
    /// between a footnote and the spine of the model.
    pub weights: bool,
}

impl Default for RenderOptions {
    fn default() -> (r: Self)
        ensures
            r.max_chars == 8_000,
            r.weights,
    {
        RenderOptions { max_chars: 8_000, weights: true }
    }
}

/// A rendered passage, and what had to be left out of it.
#[derive(Debug, Clone, PartialEq, Eq)]
pub struct Rendered {
    pub text: String,
    /// Ranges the passage cites, in the order they appear.
    ///
    /// Handed back separately so a caller can check an answer's citations
    /// against what it was actually given. An answer citing a range that is not
    /// in this list has invented it.
    pub citations: Vec<String>,
    /// Nodes dropped to fit `max_chars`. Named in the text too, because a
    /// passage that was cut and does not say so reads as a complete one.
    pub omitted: usize,
    /// Workbooks that got no room at all, and so are not in the text under any
    /// heading. Counted separately: a reader can see that a listed workbook was
    /// cut short, and cannot notice one that never appeared.
    pub omitted_workbooks: usize,
}

impl Default for Rendered {
    fn default() -> (r: Self)
        ensures
            r.text@.len() == 0,
            r.citations@.len() == 0,
            r.omitted == 0,
            r.omitted_workbooks == 0,
    {
        Rendered {
            text: String::new(),
            citations: Vec::new(),
            omitted: 0,
            omitted_workbooks: 0,
        }
    }
}

// ---------------------------------------------------------------------------
// Small texts.

/// So many spaces.
pub open spec fn blanks(n: nat) -> Seq<char> {
    Seq::new(n, |i: int| ' ')
}

/// Some texts with another between each two.
pub open spec fn joined(parts: Seq<Seq<char>>, between: Seq<char>) -> Seq<char>
    decreases parts.len(),
{
    if parts.len() == 0 {
        Seq::empty()
    } else if parts.len() == 1 {
        parts[0]
    } else {
        joined(parts.drop_last(), between) + between + parts.last()
    }
}

/// The digits with a comma before every group of three, counted from the right.
pub open spec fn separated(digits: Seq<char>) -> Seq<char>
    decreases digits.len(),
{
    if digits.len() <= 3 {
        digits
    } else {
        let cut = digits.len() - 3;
        separated(digits.take(cut)) + seq![','] + digits.skip(cut)
    }
}

pub(crate) fn push_blanks(out: &mut String, n: usize)
    ensures
        final(out)@ == old(out)@ + blanks(n as nat),
{
    let ghost before = out@;
    let mut i: usize = 0;
    assert(before + blanks(0) =~= before);
    while i < n
        invariant
            i <= n,
            out@ == before + blanks(i as nat),
        decreases n - i,
    {
        out.push(' ');
        assert(out@ =~= before + blanks((i + 1) as nat));
        i += 1;
    }
}

/// A separator stands before the `i`-th of so many digits.
spec fn comma_before(i: int, len: int) -> bool {
    i > 0 && (len - i) % 3 == 0
}

/// The first `i` of some digits, each with its separator before it.
spec fn partly_separated(digits: Seq<char>, i: int) -> Seq<char>
    decreases i,
{
    if i <= 0 {
        Seq::empty()
    } else {
        let before = partly_separated(digits, i - 1);
        if comma_before(i - 1, digits.len() as int) {
            before.push(',').push(digits[i - 1])
        } else {
            before.push(digits[i - 1])
        }
    }
}

proof fn lemma_partly_separated(digits: Seq<char>, rest: Seq<char>, i: int)
    requires
        0 <= i <= digits.len(),
        rest.len() % 3 == 0,
    ensures
        partly_separated(digits + rest, i) == partly_separated(digits, i),
    decreases i,
{
    if i > 0 {
        lemma_partly_separated(digits, rest, i - 1);
        let n = digits.len() as int;
        let m = (digits + rest).len() as int;
        assert((m - (i - 1)) % 3 == (n - (i - 1)) % 3) by {
            vstd::arithmetic::div_mod::lemma_mod_adds(n - (i - 1), rest.len() as int, 3);
            vstd::arithmetic::div_mod::lemma_mod_multiples_vanish(
                rest.len() as int / 3,
                n - (i - 1),
                3,
            );
        }
    }
}

proof fn lemma_separated(digits: Seq<char>)
    ensures
        partly_separated(digits, digits.len() as int) == separated(digits),
    decreases digits.len(),
{
    let n = digits.len() as int;
    reveal_with_fuel(partly_separated, 5);
    if n <= 3 {
        assert(partly_separated(digits, n) =~= digits);
    } else {
        let cut = n - 3;
        let a = digits.take(cut);
        let b = digits.skip(cut);
        assert(digits =~= a + b);
        lemma_separated(a);
        lemma_partly_separated(a, b, cut);
        assert(partly_separated(digits, n) =~= partly_separated(digits, cut) + seq![','] + b);
    }
}

/// 115003 reads as a different number at a glance than 115,003 does, and the
/// weights here span six orders of magnitude.
pub fn thousands(n: u64) -> (r: String)
    ensures
        r@ == separated(text::decimal(n as nat)),
{
    let mut shown: String = String::new();
    push_decimal(&mut shown, n);
    let digits: Vec<char> = chars_of(shown.as_str());
    let len: usize = digits.len();
    let mut out: String = String::new();
    let mut i: usize = 0;
    while i < len
        invariant
            len == digits@.len(),
            i <= len,
            out@ == partly_separated(digits@, i as int),
        decreases len - i,
    {
        if i > 0 && (len - i) % 3 == 0 {
            out.push(',');
        }
        out.push(digits[i]);
        i += 1;
    }
    proof {
        lemma_separated(digits@);
        assert(digits@ == text::decimal(n as nat)) by {
            assert(Seq::<char>::empty() + text::decimal(n as nat) =~= text::decimal(n as nat));
        }
    }
    out
}

/// Named only where it is not the ordinary case, so the common line stays short.
pub open spec fn crossing(kind: EdgeKind) -> Seq<char> {
    match kind {
        EdgeKind::CrossSheetRef => ", another sheet"@,
        EdgeKind::CrossWorkbookRef => ", another workbook"@,
        EdgeKind::ReferencesName => ", by name"@,
        _ => ""@,
    }
}

fn across(kind: EdgeKind) -> (r: &'static str)
    ensures
        r@ == crossing(kind),
{
    match kind {
        EdgeKind::CrossSheetRef => ", another sheet",
        EdgeKind::CrossWorkbookRef => ", another workbook",
        EdgeKind::ReferencesName => ", by name",
        _ => "",
    }
}

/// What stands behind the last `!` of a citation; all of it where there is none.
pub open spec fn local_part(a1: Seq<char>) -> Seq<char> {
    a1.skip(text::last_position(a1, '!', a1.len() as int) + 1)
}

/// The label is exactly the local part of the citation beside it.
pub open spec fn cites_itself(label: Seq<char>, a1: Option<Seq<char>>) -> bool {
    a1 matches Some(a) && local_part(a) == label
}

/// A label in quotes, unless it is the node's own range, which is already the
/// citation on the same line and reads as noise repeated.
pub open spec fn quoted_label(label: Seq<char>, a1: Option<Seq<char>>) -> Seq<char> {
    if label.len() == 0 || cites_itself(label, a1) {
        Seq::empty()
    } else {
        text::debug_text(label)
    }
}

/// Whether the label is exactly the local part of the citation beside it.
///
/// Compared against the citation rather than guessed at from the shape. A header
/// reading `FY2024` is a perfectly good A1 reference, so no test on the string
/// alone can tell a range from a name.
pub fn is_the_citation(label: &str, a1: Option<&str>) -> (r: bool)
    ensures
        r == cites_itself(
            label@,
            match a1 {
                Some(a) => Some(a@),
                None => None,
            },
        ),
{
    match a1 {
        None => false,
        Some(a1) => {
            let chars: Vec<char> = chars_of(a1);
            let len: usize = chars.len();
            let from: usize = match find_last_char(chars.as_slice(), '!') {
                Some(i) => i + 1,
                None => 0,
            };
            proof {
                lemma_last_position(chars@, '!', len as int);
                assert(chars@.subrange(from as int, len as int) =~= chars@.skip(from as int));
            }
            let local: &[char] = &chars.as_slice()[from..len];
            same_chars(local, chars_of(label).as_slice())
        },
    }
}

proof fn lemma_last_position(s: Seq<char>, c: char, n: int)
    requires
        0 <= n <= s.len(),
    ensures
        -1 <= text::last_position(s, c, n) < n,
    decreases n,
{
    if n > 0 && s[n - 1] != c {
        lemma_last_position(s, c, n - 1);
    }
}

/// A label in quotes, unless it is the node's own range.
pub fn quoted(label: &str, a1: Option<&str>) -> (r: String)
    ensures
        r@ == quoted_label(
            label@,
            match a1 {
                Some(a) => Some(a@),
                None => None,
            },
        ),
{
    if label.is_empty() || is_the_citation(label, a1) {
        String::new()
    } else {
        debug_str(label)
    }
}

// ---------------------------------------------------------------------------
// What a workbook's part of the passage says.

/// The nodes in the order of their numbers: seeds first, then everything else in
/// the order in which the walk found it. So the numbering itself carries the
/// ranking.
pub open spec fn listing(nodes: Seq<RetrievedNode>) -> Seq<RetrievedNode> {
    nodes.filter(|n: RetrievedNode| n.role is Seed) + nodes.filter(
        |n: RetrievedNode| !(n.role is Seed),
    )
}

/// The last place of a node with an index, minus one where there is none.
pub open spec fn last_place(nodes: Seq<RetrievedNode>, index: u32) -> int
    decreases nodes.len(),
{
    if nodes.len() == 0 {
        -1
    } else if nodes.last().node == index {
        nodes.len() - 1
    } else {
        last_place(nodes.drop_last(), index)
    }
}

/// One relation between two listed nodes, as the reader should see it.
#[derive(Debug, Clone, Copy, PartialEq, Eq, Structural)]
pub struct Relation {
    /// The number of the other node.
    pub other: usize,
    pub weight: u64,
    pub kind: EdgeKind,
}

/// A dependency between two numbers.
#[derive(Debug, Clone, Copy, PartialEq, Eq, Structural)]
pub struct Dependency {
    pub reader: usize,
    pub target: usize,
    pub weight: u64,
    pub kind: EdgeKind,
}

/// The dependency that a node's role records, where both of its ends are
/// listed.
pub open spec fn dependency_of(order: Seq<RetrievedNode>, n: RetrievedNode) -> Option<Dependency> {
    let here = last_place(order, n.node) + 1;
    match n.role {
        Role::Input { of, kind, weight } => {
            let reader = last_place(order, of) + 1;
            if here > 0 && reader > 0 {
                Some(Dependency { reader: reader as usize, target: here as usize, weight, kind })
            } else {
                None
            }
        },
        Role::Dependent { on, kind, weight } => {
            let target = last_place(order, on) + 1;
            if here > 0 && target > 0 {
                Some(Dependency { reader: here as usize, target: target as usize, weight, kind })
            } else {
                None
            }
        },
        _ => None,
    }
}

/// The dependencies that some nodes record, in their order.
///
/// Read off the roles: they are what the expansion actually followed.
pub open spec fn dependencies(order: Seq<RetrievedNode>, nodes: Seq<RetrievedNode>) -> Seq<
    Dependency,
>
    decreases nodes.len(),
{
    if nodes.len() == 0 {
        Seq::empty()
    } else {
        let before = dependencies(order, nodes.drop_last());
        match dependency_of(order, nodes.last()) {
            Some(d) => before.push(d),
            None => before,
        }
    }
}

/// The heavier relation comes first, and of two equal ones that to the lower
/// number.
pub open spec fn weighs_more(a: Relation, b: Relation) -> bool {
    a.weight > b.weight || (a.weight == b.weight && a.other < b.other)
}

/// A list of relations with one more put before the first that it outweighs.
pub open spec fn weighed_in(s: Seq<Relation>, x: Relation) -> Seq<Relation>
    decreases s.len(),
{
    if s.len() == 0 {
        seq![x]
    } else if weighs_more(x, s[0]) {
        seq![x] + s
    } else {
        seq![s[0]] + weighed_in(s.drop_first(), x)
    }
}

/// What the entry of a number reads, or what reads it, heaviest first.
pub open spec fn relations_of(deps: Seq<Dependency>, number: int, reading: bool) -> Seq<Relation>
    decreases deps.len(),
{
    if deps.len() == 0 {
        Seq::empty()
    } else {
        let before = relations_of(deps.drop_last(), number, reading);
        let d = deps.last();
        if reading && d.reader == number {
            weighed_in(before, Relation { other: d.target, weight: d.weight, kind: d.kind })
        } else if !reading && d.target == number {
            weighed_in(before, Relation { other: d.reader, weight: d.weight, kind: d.kind })
        } else {
            before
        }
    }
}

/// One relation: the number of the other entry, and what stands behind it.
pub open spec fn relation_text(r: Relation, weights: bool) -> Seq<char> {
    if weights {
        "["@ + text::decimal(r.other as nat) + "] ("@ + separated(text::decimal(r.weight as nat))
            + " refs"@ + crossing(r.kind) + ")"@
    } else {
        "["@ + text::decimal(r.other as nat) + "]"@
    }
}

/// The relations to entries that are there. One to an entry that the ceiling cut
/// is dropped: a dangling `[37]` is worse than a missing one.
pub open spec fn shown_relations(list: Seq<Relation>, upto: int) -> Seq<Relation> {
    list.filter(|r: Relation| r.other <= upto)
}

/// A line of relations, where there are any to show.
pub open spec fn relation_line_text(
    verb: Seq<char>,
    list: Seq<Relation>,
    upto: int,
    weights: bool,
    indent: nat,
) -> Seq<char> {
    let shown = shown_relations(list, upto);
    if shown.len() == 0 {
        Seq::empty()
    } else {
        blanks(indent) + verb + ": "@ + joined(
            shown.map_values(|r: Relation| relation_text(r, weights)),
            ", "@,
        ) + "\n"@
    }
}

/// The part of an entry that shrinks as entries are cut.
pub open spec fn entry_relations_text(
    deps: Seq<Dependency>,
    number: int,
    upto: int,
    weights: bool,
    indent: nat,
) -> Seq<char> {
    relation_line_text("reads"@, relations_of(deps, number, true), upto, weights, indent)
        + relation_line_text("read by"@, relations_of(deps, number, false), upto, weights, indent)
}

/// The labels of the containers from one on upwards, but for the workbook, which
/// is the heading above all entries; no more steps than a path without a circle
/// can have.
pub open spec fn labels_up(nodes: Seq<RetrievedNode>, at: Option<u32>, left: nat) -> Seq<Seq<char>>
    decreases left,
{
    match at {
        None => Seq::empty(),
        Some(index) => {
            let k = last_place(nodes, index);
            if k < 0 || left == 0 {
                Seq::empty()
            } else {
                let rest = labels_up(nodes, nodes[k].parent, (left - 1) as nat);
                if nodes[k].kind is Workbook {
                    rest
                } else {
                    seq![nodes[k].label@] + rest
                }
            }
        },
    }
}

/// The part of an entry that is the same however many entries survive: its
/// number, a mark for a seed, its kind, label, citation and containers.
pub open spec fn entry_head_text(
    nodes: Seq<RetrievedNode>,
    n: RetrievedNode,
    number: int,
    pad: nat,
) -> Seq<char> {
    let digits = text::decimal(number as nat);
    let path = labels_up(nodes, n.parent, nodes.len()).reverse();
    let a1 = address::opt_view(n.a1);
    "["@ + digits + "]"@ + blanks((pad - digits.len() + 1) as nat) + (if n.role is Seed {
        "*"@
    } else {
        " "@
    }) + " "@ + n.kind.shown() + " "@ + quoted_label(n.label@, a1) + (match a1 {
        Some(a) => "   "@ + a,
        None => Seq::empty(),
    }) + "\n"@ + (if path.len() == 0 {
        Seq::empty()
    } else {
        blanks(pad + 5) + "in: "@ + joined(path, " > "@) + "\n"@
    })
}

/// What stands above the entries of a workbook.
pub open spec fn heading_text(
    path: Seq<char>,
    truncated: bool,
    shown: nat,
    total: nat,
) -> Seq<char> {
    "# "@ + path + "\n"@ + (if truncated {
        "\nThe walk hit its budget: this is part of the context around the match, not all of it.\n"@
    } else {
        Seq::empty()
    }) + "\n"@ + (if shown < total {
        text::decimal(shown) + " of "@ + text::decimal(total) + " node(s), the rest cut to fit"@
    } else {
        text::decimal(total) + " node(s)"@
    })
        + ". A `*` marks something the search matched; the rest were reached from it. Every range below is a live location in this workbook, not a value.\n\n"@
}

/// The width of the largest number.
pub open spec fn number_width(total: nat) -> nat {
    text::decimal(total).len()
}

/// The first `n` entries, where so many survive.
pub open spec fn entries_text(
    nodes: Seq<RetrievedNode>,
    n: nat,
    upto: nat,
    weights: bool,
) -> Seq<char>
    decreases n,
{
    if n == 0 {
        Seq::empty()
    } else {
        let order = listing(nodes);
        let pad = number_width(order.len());
        entries_text(nodes, (n - 1) as nat, upto, weights) + entry_head_text(
            nodes,
            order[n - 1],
            n as int,
            pad,
        ) + entry_relations_text(
            dependencies(order, nodes),
            n as int,
            upto as int,
            weights,
            pad + 5,
        )
    }
}

/// A workbook's part of the passage with its first `fits` entries.
pub open spec fn assembled(workbook: WorkbookContext, fits: nat, weights: bool) -> Seq<char> {
    let nodes = workbook.nodes@;
    heading_text(workbook.path@, workbook.truncated, fits, listing(nodes).len()) + entries_text(
        nodes,
        fits,
        fits,
        weights,
    ) + "\n"@
}

/// The most entries, at most `n` and at least `floor`, that fit into the room.
pub open spec fn most_that_fit(
    workbook: WorkbookContext,
    weights: bool,
    room: int,
    floor: nat,
    n: nat,
) -> nat
    decreases n,
{
    if n <= floor {
        floor
    } else if assembled(workbook, n, weights).len() <= room {
        n
    } else {
        most_that_fit(workbook, weights, room, floor, (n - 1) as nat)
    }
}

/// How many entries of a workbook are written: all if they fit, else as many as
/// do. The first entry of the passage is written whether it fits or not.
pub open spec fn entries_shown(
    workbook: WorkbookContext,
    opts: RenderOptions,
    written: nat,
    any: bool,
) -> nat {
    let total = listing(workbook.nodes@).len();
    let room = opts.max_chars - written;
    if assembled(workbook, total, opts.weights).len() <= room {
        total
    } else {
        most_that_fit(
            workbook,
            opts.weights,
            room,
            if any {
                0
            } else {
                1
            },
            (total - 1) as nat,
        )
    }
}

/// A passage as far as it is written.
pub struct Passage {
    pub text: Seq<char>,
    pub citations: Seq<Seq<char>>,
    pub omitted: nat,
    pub omitted_workbooks: nat,
    /// Whether an entry has been written.
    pub any: bool,
}

/// The citations of some nodes, in their order.
pub open spec fn citations_of(nodes: Seq<RetrievedNode>) -> Seq<Seq<char>>
    decreases nodes.len(),
{
    if nodes.len() == 0 {
        Seq::empty()
    } else {
        let before = citations_of(nodes.drop_last());
        match nodes.last().a1 {
            Some(a) => before.push(a@),
            None => before,
        }
    }
}

/// The passage with a workbook's part behind it.
pub open spec fn with_workbook(p: Passage, workbook: WorkbookContext, opts: RenderOptions) -> Passage {
    let order = listing(workbook.nodes@);
    let fits = entries_shown(workbook, opts, p.text.len(), p.any);
    if order.len() == 0 {
        p
    } else if fits == 0 {
        Passage {
            omitted: p.omitted + order.len(),
            omitted_workbooks: p.omitted_workbooks + 1,
            ..p
        }
    } else {
        Passage {
            text: p.text + assembled(workbook, fits, opts.weights),
            citations: p.citations + citations_of(order.take(fits as int)),
            omitted: (p.omitted + order.len() - fits) as nat,
            any: true,
            ..p
        }
    }
}

pub open spec fn with_workbooks(
    p: Passage,
    workbooks: Seq<WorkbookContext>,
    opts: RenderOptions,
) -> Passage
    decreases workbooks.len(),
{
    if workbooks.len() == 0 {
        p
    } else {
        with_workbook(
            with_workbooks(p, workbooks.drop_last(), opts),
            workbooks.last(),
            opts,
        )
    }
}

/// The first characters of each of some texts.
pub open spec fn shortened(names: Seq<String>) -> Seq<Seq<char>> {
    names.map_values(
        |n: String|
            if n@.len() <= 8 {
                n@
            } else {
                n@.take(8)
            },
    )
}

/// The notice that workbooks are missing: the first few by name, or, where that
/// would not fit, a bare count.
pub open spec fn missing_notice(missing: Seq<String>, max_chars: int) -> Seq<char> {
    let count = missing.len();
    let named = if count <= 8 {
        missing
    } else {
        missing.take(8)
    };
    let full = text::decimal(count)
        + " workbook(s) matched by the search are no longer in the corpus ("@ + joined(
        shortened(named),
        ", "@,
    ) + (if count > 8 {
        ", and "@ + text::decimal((count - 8) as nat) + " more"@
    } else {
        Seq::empty()
    }) + "); their context is missing. Reindex to recover it.\n\n"@;
    if count == 0 {
        Seq::empty()
    } else if full.len() <= max_chars {
        full
    } else {
        text::decimal(count)
            + " workbook(s) matched by the search are missing from the corpus.\n\n"@
    }
}

/// The closing line, saying how much was cut.
pub open spec fn closing_text(omitted: nat, omitted_workbooks: nat) -> Seq<char> {
    if omitted == 0 {
        Seq::empty()
    } else {
        "\n"@ + text::decimal(omitted) + " further node(s) were retrieved and left out to fit"@ + (
        if omitted_workbooks > 0 {
            ", including "@ + text::decimal(omitted_workbooks)
                + " workbook(s) that do not appear above at all"@
        } else {
            Seq::empty()
        }) + ". Raise the character ceiling, or expand fewer hops.\n"@
    }
}

/// The passage of an expansion, without its closing line.
pub open spec fn passage(found: Retrieved, opts: RenderOptions) -> Passage {
    let p = Passage {
        text: missing_notice(found.missing_workbooks@, opts.max_chars as int),
        citations: Seq::empty(),
        omitted: 0,
        omitted_workbooks: 0,
        any: false,
    };
    with_workbooks(p, found.workbooks@, opts)
}

// ---------------------------------------------------------------------------
// Writing it.

/// What the references of a list refer to.
spec fn told(s: Seq<&RetrievedNode>) -> Seq<RetrievedNode> {
    s.map_values(|n: &RetrievedNode| *n)
}

/// The nodes that are seeds, or those that are not, in their order.
fn sifted<'a>(nodes: &'a Vec<RetrievedNode>, seeds: bool) -> (r: Vec<&'a RetrievedNode>)
    ensures
        told(r@) == nodes@.filter(|n: RetrievedNode| n.role is Seed == seeds),
{
    let ghost keep = |n: RetrievedNode| n.role is Seed == seeds;
    let ghost all = nodes@;
    let mut out: Vec<&RetrievedNode> = Vec::new();
    proof {
        reveal(Seq::filter);
        assert(told(out@) =~= all.take(0).filter(keep));
    }
    let mut i: usize = 0;
    while i < nodes.len()
        invariant
            all == nodes@,
            keep == (|n: RetrievedNode| n.role is Seed == seeds),
            i <= all.len(),
            told(out@) == all.take(i as int).filter(keep),
        decreases all.len() - i,
    {
        let node: &RetrievedNode = &nodes[i];
        let ghost before = out@;
        if node.is_seed() == seeds {
            out.push(node);
            assert(told(out@) =~= told(before).push(*node));
        }
        proof {
            reveal(Seq::filter);
            assert(all.take(i + 1).drop_last() =~= all.take(i as int));
            assert(all.take(i + 1).last() == *node);
        }
        i += 1;
    }
    assert(all.take(i as int) =~= all);
    out
}

fn in_order<'a>(nodes: &'a Vec<RetrievedNode>) -> (r: Vec<&'a RetrievedNode>)
    ensures
        told(r@) == listing(nodes@),
        r@.len() == listing(nodes@).len(),
{
    let mut out: Vec<&RetrievedNode> = sifted(nodes, true);
    let rest: Vec<&RetrievedNode> = sifted(nodes, false);
    let ghost first = out@;
    let mut i: usize = 0;
    while i < rest.len()
        invariant
            i <= rest@.len(),
            out@ == first + rest@.take(i as int),
        decreases rest@.len() - i,
    {
        out.push(rest[i]);
        assert(out@ =~= first + rest@.take(i + 1));
        i += 1;
    }
    proof {
        assert(rest@.take(i as int) =~= rest@);
        assert(told(out@) =~= told(first) + told(rest@));
        lemma_filter_same(
            nodes@,
            |n: RetrievedNode| n.role is Seed,
            |n: RetrievedNode| n.role is Seed == true,
        );
        lemma_filter_same(
            nodes@,
            |n: RetrievedNode| !(n.role is Seed),
            |n: RetrievedNode| n.role is Seed == false,
        );
    }
    out
}

proof fn lemma_filter_same(
    s: Seq<RetrievedNode>,
    a: spec_fn(RetrievedNode) -> bool,
    b: spec_fn(RetrievedNode) -> bool,
)
    requires
        forall|n: RetrievedNode| #[trigger] a(n) == b(n),
    ensures
        s.filter(a) == s.filter(b),
    decreases s.len(),
{
    reveal(Seq::filter);
    if s.len() > 0 {
        lemma_filter_same(s.drop_last(), a, b);
        assert(a(s.last()) == b(s.last()));
    }
}

/// Each index is bound to the last place of a node with it.
spec fn finds(places: Map<u32, usize>, nodes: Seq<RetrievedNode>) -> bool {
    forall|index: u32|
        (#[trigger] places.contains_key(index) <==> last_place(nodes, index) >= 0) && (
        places.contains_key(index) ==> places[index] == last_place(nodes, index))
}

fn index_of(nodes: &Vec<&RetrievedNode>) -> (r: FxHashMap<u32, usize>)
    ensures
        finds(r@, told(nodes@)),
{
    let ghost all = told(nodes@);
    let mut out: FxHashMap<u32, usize> = FxHashMap::default();
    let mut i: usize = 0;
    while i < nodes.len()
        invariant
            all == told(nodes@),
            i <= nodes@.len(),
            finds(out@, all.take(i as int)),
        decreases nodes@.len() - i,
    {
        let ghost before = out@;
        proof {
            assert(all.take(i + 1).drop_last() =~= all.take(i as int));
            assert(all.take(i + 1).last() == *nodes@[i as int]);
        }
        fx::map_insert(&mut out, nodes[i].node, i);
        proof {
            assert forall|index: u32|
                (#[trigger] out@.contains_key(index) <==> last_place(all.take(i + 1), index) >= 0)
                    && (out@.contains_key(index) ==> out@[index] == last_place(
                    all.take(i + 1),
                    index,
                )) by {
                assert(before.contains_key(index) <==> last_place(all.take(i as int), index) >= 0);
            }
        }
        i += 1;
    }
    assert(all.take(i as int) =~= all);
    out
}

proof fn lemma_last_place(nodes: Seq<RetrievedNode>, index: u32)
    ensures
        -1 <= last_place(nodes, index) < nodes.len(),
        last_place(nodes, index) >= 0 ==> nodes[last_place(nodes, index)].node == index,
    decreases nodes.len(),
{
    if nodes.len() > 0 && nodes.last().node != index {
        lemma_last_place(nodes.drop_last(), index);
    }
}

/// Append texts with another between each two.
pub(crate) fn push_joined(out: &mut String, parts: &Vec<String>, between: &str)
    ensures
        final(out)@ == old(out)@ + joined(
            parts@.map_values(|p: String| p@),
            between@,
        ),
{
    let ghost before = out@;
    let ghost all = parts@.map_values(|p: String| p@);
    let mut i: usize = 0;
    assert(before + joined(all.take(0), between@) =~= before);
    while i < parts.len()
        invariant
            all == parts@.map_values(|p: String| p@),
            i <= parts@.len(),
            out@ == before + joined(all.take(i as int), between@),
        decreases parts@.len() - i,
    {
        proof {
            assert(all.take(i + 1).drop_last() =~= all.take(i as int));
            assert(all.take(i + 1).last() == parts@[i as int]@);
        }
        if i > 0 {
            out.push_str(between);
        }
        out.push_str(parts[i].as_str());
        proof {
            if i > 0 {
                assert(out@ =~= before + (joined(all.take(i as int), between@) + between@
                    + parts@[i as int]@));
            } else {
                assert(joined(all.take(0), between@) =~= Seq::empty());
                assert(out@ =~= before + all.take(1)[0]);
            }
        }
        i += 1;
    }
    assert(all.take(i as int) =~= all);
}

/// The labels of the containers above a node, outermost first.
fn container_labels(nodes: &Vec<RetrievedNode>, places: &FxHashMap<u32, usize>, from: Option<u32>) -> (r:
    Vec<String>)
    requires
        finds(places@, nodes@),
    ensures
        r@.map_values(|p: String| p@) == labels_up(nodes@, from, nodes@.len()).reverse(),
{
    let ghost all = nodes@;
    let ghost whole = labels_up(all, from, all.len());
    let mut up: Vec<&str> = Vec::new();
    let ghost mut labels: Seq<Seq<char>> = Seq::empty();
    let mut at: Option<u32> = from;
    let mut left: usize = nodes.len();
    assert(labels + labels_up(all, at, left as nat) =~= whole);
    while at.is_some() && left > 0
        invariant
            all == nodes@,
            finds(places@, all),
            whole == labels + labels_up(all, at, left as nat),
            up@.len() == labels.len(),
            forall|i: int| 0 <= i < up@.len() ==> (#[trigger] up@[i])@ == labels[i],
        decreases
                left,
                if at is Some {
                    1int
                } else {
                    0
                },
    {
        let index: u32 = match at {
            Some(index) => index,
            None => 0,
        };
        proof {
            lemma_last_place(all, index);
            assert(places@.contains_key(index) <==> last_place(all, index) >= 0);
        }
        match fx::map_get(places, &index) {
            None => {
                at = None;
            },
            Some(k) => {
                let parent: &RetrievedNode = &nodes[*k];
                let ghost rest = labels_up(all, parent.parent, (left - 1) as nat);
                if parent.kind != NodeKind::Workbook {
                    up.push(parent.label.as_str());
                    proof {
                        assert(labels + (seq![parent.label@] + rest) =~= labels.push(parent.label@)
                            + rest);
                        labels = labels.push(parent.label@);
                    }
                }
                at = parent.parent;
                left -= 1;
            },
        }
    }
    assert(whole =~= labels);
    let mut out: Vec<String> = Vec::new();
    let mut i: usize = up.len();
    while i > 0
        invariant
            i <= up@.len(),
            up@.len() == labels.len(),
            forall|i: int| 0 <= i < up@.len() ==> (#[trigger] up@[i])@ == labels[i],
            out@.len() == up@.len() - i,
            forall|k: int|
                0 <= k < out@.len() ==> (#[trigger] out@[k])@ == labels[labels.len() - 1 - k],
        decreases i,
    {
        i -= 1;
        out.push(up[i].to_owned());
    }
    assert(out@.map_values(|p: String| p@) =~= whole.reverse());
    out
}

/// How many characters a number has.
fn width_of(n: usize) -> (r: usize)
    ensures
        r == text::decimal(n as nat).len(),
{
    let mut shown: String = String::new();
    push_decimal(&mut shown, n as u64);
    let len: usize = chars_of(shown.as_str()).len();
    assert(Seq::<char>::empty() + text::decimal(n as nat) =~= text::decimal(n as nat));
    len
}

proof fn lemma_width(n: nat, m: nat)
    requires
        n <= m,
    ensures
        1 <= text::decimal(n).len() <= text::decimal(m).len(),
    decreases m,
{
    if n < 10 {
        if m >= 10 {
            lemma_width(0, m / 10);
        }
    } else {
        lemma_width(n / 10, m / 10);
    }
}

/// The part of an entry that is the same however many entries survive.
fn entry_head(
    nodes: &Vec<RetrievedNode>,
    places: &FxHashMap<u32, usize>,
    node: &RetrievedNode,
    number: usize,
    pad: usize,
) -> (r: String)
    requires
        finds(places@, nodes@),
        text::decimal(number as nat).len() <= pad,
        pad < 1000,
    ensures
        r@ == entry_head_text(nodes@, *node, number as int, pad as nat),
{
    let a1: Option<&str> = match &node.a1 {
        Some(a) => Some(a.as_str()),
        None => None,
    };
    let mut entry: String = String::new();
    entry.push_str("[");
    push_decimal(&mut entry, number as u64);
    entry.push_str("]");
    push_blanks(&mut entry, pad - width_of(number) + 1);
    if node.is_seed() {
        entry.push_str("*");
    } else {
        entry.push_str(" ");
    }
    entry.push_str(" ");
    entry.push_str(node.kind.as_str());
    entry.push_str(" ");
    entry.push_str(quoted(node.label.as_str(), a1).as_str());
    let ghost before_a1 = entry@;
    match a1 {
        Some(a1) => {
            entry.push_str("   ");
            entry.push_str(a1);
        },
        None => {},
    }
    entry.push_str("\n");
    let path: Vec<String> = container_labels(nodes, places, node.parent);
    let ghost before_path = entry@;
    let ghost labels = labels_up(nodes@, node.parent, nodes@.len()).reverse();
    if path.len() > 0 {
        push_blanks(&mut entry, pad + 5);
        entry.push_str("in: ");
        push_joined(&mut entry, &path, " > ");
        entry.push_str("\n");
    }
    proof {
        assert(path@.map_values(|p: String| p@).len() == path@.len());
        let digits = text::decimal(number as nat);
        let a = address::opt_view(node.a1);
        let first = "["@ + digits + "]"@ + blanks((pad - digits.len() + 1) as nat) + (
        if node.role is Seed {
            "*"@
        } else {
            " "@
        }) + " "@ + node.kind.shown() + " "@ + quoted_label(node.label@, a);
        assert(before_a1 =~= first);
        let middle = first + (match a {
            Some(x) => "   "@ + x,
            None => Seq::empty(),
        }) + "\n"@;
        assert(before_path =~= middle);
        if path@.len() > 0 {
            assert(entry@ =~= middle + (blanks((pad + 5) as nat) + "in: "@ + joined(labels, " > "@)
                + "\n"@));
        } else {
            assert(entry@ =~= middle + Seq::<char>::empty());
        }
    }
    entry
}

spec fn ten_to(k: nat) -> nat
    decreases k,
{
    if k == 0 {
        1
    } else {
        10 * ten_to((k - 1) as nat)
    }
}

proof fn lemma_short_number(n: nat, k: nat)
    requires
        k > 0,
        n < ten_to(k),
    ensures
        1 <= text::decimal(n).len() <= k,
    decreases k,
{
    if n >= 10 {
        if k == 1 {
            reveal_with_fuel(ten_to, 2);
        } else {
            lemma_short_number(n / 10, (k - 1) as nat);
        }
    }
}

/// No number of entries is wider than this.
proof fn lemma_number_is_short(n: nat)
    requires
        n <= u64::MAX,
    ensures
        1 <= text::decimal(n).len() <= 20,
{
    reveal_with_fuel(ten_to, 21);
    lemma_short_number(n, 20);
}

/// Both directions of every dependency the expansion recorded, by number.
fn recorded(nodes: &Vec<RetrievedNode>, order: &Vec<&RetrievedNode>, numbers: &FxHashMap<u32, usize>) -> (r:
    Vec<Dependency>)
    requires
        told(order@) == listing(nodes@),
        finds(numbers@, told(order@)),
    ensures
        r@ == dependencies(listing(nodes@), nodes@),
        forall|i: int|
            0 <= i < r@.len() ==> 1 <= (#[trigger] r@[i]).reader <= order@.len() && 1 <= r@[i].target
                <= order@.len(),
{
    let ghost all = nodes@;
    let ghost listed = listing(nodes@);
    let mut out: Vec<Dependency> = Vec::new();
    let count: usize = order.len();
    let mut i: usize = 0;
    while i < nodes.len()
        invariant
            all == nodes@,
            listed == listing(nodes@),
            told(order@) == listed,
            count == order@.len(),
            finds(numbers@, listed),
            i <= all.len(),
            out@ == dependencies(listed, all.take(i as int)),
            forall|i: int|
                0 <= i < out@.len() ==> 1 <= (#[trigger] out@[i]).reader <= count && 1
                    <= out@[i].target <= count,
        decreases all.len() - i,
    {
        let node: &RetrievedNode = &nodes[i];
        proof {
            assert(all.take(i + 1).drop_last() =~= all.take(i as int));
            assert(all.take(i + 1).last() == *node);
            assert(listed.len() == count);
        }
        match node.role {
            Role::Input { of, kind, weight } => {
                proof {
                    lemma_last_place(listed, of);
                    lemma_last_place(listed, node.node);
                    assert(numbers@.contains_key(of) <==> last_place(listed, of) >= 0);
                    assert(numbers@.contains_key(node.node) <==> last_place(listed, node.node)
                        >= 0);
                }
                match (fx::map_get(numbers, &of), fx::map_get(numbers, &node.node)) {
                    (Some(reader), Some(here)) => {
                        out.push(
                            Dependency { reader: *reader + 1, target: *here + 1, weight, kind },
                        );
                    },
                    _ => {},
                }
            },
            Role::Dependent { on, kind, weight } => {
                proof {
                    lemma_last_place(listed, on);
                    lemma_last_place(listed, node.node);
                    assert(numbers@.contains_key(on) <==> last_place(listed, on) >= 0);
                    assert(numbers@.contains_key(node.node) <==> last_place(listed, node.node)
                        >= 0);
                }
                match (fx::map_get(numbers, &node.node), fx::map_get(numbers, &on)) {
                    (Some(here), Some(target)) => {
                        out.push(
                            Dependency { reader: *here + 1, target: *target + 1, weight, kind },
                        );
                    },
                    _ => {},
                }
            },
            _ => {},
        }
        i += 1;
    }
    assert(all.take(i as int) =~= all);
    out
}

/// Put a relation before the first that it outweighs.
fn weigh_in(list: &mut Vec<Relation>, x: Relation)
    ensures
        final(list)@ == weighed_in(old(list)@, x),
{
    let ghost s = list@;
    let mut p: usize = 0;
    assert(s.take(0) + weighed_in(s.skip(0), x) =~= weighed_in(s, x)) by {
        assert(s.skip(0) =~= s);
    }
    while p < list.len() && !(x.weight > list[p].weight || (x.weight == list[p].weight && x.other
        < list[p].other))
        invariant
            s == list@,
            p <= s.len(),
            weighed_in(s, x) == s.take(p as int) + weighed_in(s.skip(p as int), x),
        decreases s.len() - p,
    {
        proof {
            let rest = s.skip(p as int);
            assert(rest.drop_first() =~= s.skip(p + 1));
            assert(s.take(p as int) + (seq![rest[0]] + weighed_in(s.skip(p + 1), x)) =~= s.take(
                p + 1,
            ) + weighed_in(s.skip(p + 1), x));
        }
        p += 1;
    }
    list.insert(p, x);
    proof {
        assert(list@ =~= s.take(p as int) + (seq![x] + s.skip(p as int)));
        if p == s.len() {
            assert(seq![x] + s.skip(p as int) =~= seq![x]);
        }
    }
}

/// What each of so many entries reads, or what reads each, heaviest first.
fn by_number(deps: &Vec<Dependency>, count: usize, reading: bool) -> (r: Vec<Vec<Relation>>)
    requires
        forall|i: int|
            0 <= i < deps@.len() ==> 1 <= (#[trigger] deps@[i]).reader <= count && 1
                <= deps@[i].target <= count,
    ensures
        r@.len() == count,
        forall|k: int|
            0 <= k < count ==> (#[trigger] r@[k])@ == relations_of(deps@, k + 1, reading),
{
    let mut out: Vec<Vec<Relation>> = Vec::new();
    let mut k: usize = 0;
    while k < count
        invariant
            k <= count,
            out@.len() == k,
            forall|j: int| 0 <= j < k ==> (#[trigger] out@[j])@ == Seq::<Relation>::empty(),
        decreases count - k,
    {
        out.push(Vec::new());
        assert(out@[k as int]@ =~= Seq::empty());
        k += 1;
    }
    let ghost all = deps@;
    let mut i: usize = 0;
    while i < deps.len()
        invariant
            all == deps@,
            forall|i: int|
                0 <= i < deps@.len() ==> 1 <= (#[trigger] deps@[i]).reader <= count && 1
                    <= deps@[i].target <= count,
            i <= all.len(),
            out@.len() == count,
            forall|k: int|
                0 <= k < count ==> (#[trigger] out@[k])@ == relations_of(
                    all.take(i as int),
                    k + 1,
                    reading,
                ),
        decreases all.len() - i,
    {
        let d: Dependency = deps[i];
        let (at, other): (usize, usize) = if reading {
            (d.reader, d.target)
        } else {
            (d.target, d.reader)
        };
        let ghost before = out@;
        proof {
            assert(all.take(i + 1).drop_last() =~= all.take(i as int));
            assert(all.take(i + 1).last() == d);
        }
        let list: &mut Vec<Relation> = &mut out[at - 1];
        weigh_in(list, Relation { other, weight: d.weight, kind: d.kind });
        proof {
            assert forall|k: int| 0 <= k < count implies (#[trigger] out@[k])@ == relations_of(
                all.take(i + 1),
                k + 1,
                reading,
            ) by {
                assert(before[k]@ == relations_of(all.take(i as int), k + 1, reading));
            }
        }
        i += 1;
    }
    assert(all.take(i as int) =~= all);
    out
}

fn relation(r: &Relation, opts: &RenderOptions) -> (s: String)
    ensures
        s@ == relation_text(*r, opts.weights),
{
    let mut out: String = String::new();
    out.push_str("[");
    push_decimal(&mut out, r.other as u64);
    if opts.weights {
        out.push_str("] (");
        out.push_str(thousands(r.weight).as_str());
        out.push_str(" refs");
        out.push_str(across(r.kind));
        out.push_str(")");
        assert(out@ =~= relation_text(*r, true));
    } else {
        out.push_str("]");
        assert(out@ =~= relation_text(*r, false));
    }
    out
}

/// A line of relations, where there are any to show.
fn push_relation_line(
    out: &mut String,
    verb: &str,
    list: &Vec<Relation>,
    upto: usize,
    opts: &RenderOptions,
    indent: usize,
)
    ensures
        final(out)@ == old(out)@ + relation_line_text(
            verb@,
            list@,
            upto as int,
            opts.weights,
            indent as nat,
        ),
{
    let ghost before = out@;
    let ghost keep = |r: Relation| r.other <= upto as int;
    let ghost write = |r: Relation| relation_text(r, opts.weights);
    let ghost plain = |p: String| p@;
    let mut parts: Vec<String> = Vec::new();
    proof {
        reveal(Seq::filter);
        assert(parts@.map_values(plain) =~= list@.take(0).filter(keep).map_values(write));
    }
    let mut i: usize = 0;
    while i < list.len()
        invariant
            keep == (|r: Relation| r.other <= upto as int),
            write == (|r: Relation| relation_text(r, opts.weights)),
            plain == (|p: String| p@),
            i <= list@.len(),
            parts@.map_values(plain) == list@.take(i as int).filter(keep).map_values(write),
        decreases list@.len() - i,
    {
        let ghost so_far = parts@;
        let ghost kept = list@.take(i as int).filter(keep);
        proof {
            reveal(Seq::filter);
            assert(list@.take(i + 1).drop_last() =~= list@.take(i as int));
            assert(list@.take(i + 1).last() == list@[i as int]);
        }
        if list[i].other <= upto {
            let part: String = relation(&list[i], opts);
            parts.push(part);
            proof {
                assert(parts@.map_values(plain) =~= so_far.map_values(plain).push(part@));
                assert(kept.push(list@[i as int]).map_values(write) =~= kept.map_values(
                    write,
                ).push(part@));
            }
        }
        i += 1;
    }
    proof {
        assert(list@.take(i as int) =~= list@);
        assert(parts@.map_values(plain).len() == parts@.len());
    }
    if parts.len() > 0 {
        push_blanks(out, indent);
        out.push_str(verb);
        out.push_str(": ");
        push_joined(out, &parts, ", ");
        out.push_str("\n");
        proof {
            let texts = shown_relations(list@, upto as int).map_values(write);
            assert(parts@.map_values(plain) == texts);
            assert(out@ =~= before + (blanks(indent as nat) + verb@ + ": "@ + joined(texts, ", "@)
                + "\n"@));
        }
    } else {
        assert(out@ =~= before + Seq::<char>::empty());
    }
}

fn heading(workbook: &WorkbookContext, shown: usize, total: usize) -> (r: String)
    ensures
        r@ == heading_text(workbook.path@, workbook.truncated, shown as nat, total as nat),
{
    let mut out: String = String::new();
    out.push_str("# ");
    out.push_str(workbook.path.as_str());
    out.push_str("\n");
    let ghost first = out@;
    assert(first =~= "# "@ + workbook.path@ + "\n"@);
    if workbook.truncated {
        out.push_str(
            "\nThe walk hit its budget: this is part of the context around the match, not all of it.\n",
        );
    }
    out.push_str("\n");
    let ghost second = out@;
    proof {
        let note = if workbook.truncated {
            "\nThe walk hit its budget: this is part of the context around the match, not all of it.\n"@
        } else {
            Seq::<char>::empty()
        };
        assert(second =~= first + note + "\n"@);
    }
    if shown < total {
        push_decimal(&mut out, shown as u64);
        out.push_str(" of ");
        push_decimal(&mut out, total as u64);
        out.push_str(" node(s), the rest cut to fit");
        assert(out@ =~= second + (text::decimal(shown as nat) + " of "@ + text::decimal(
            total as nat,
        ) + " node(s), the rest cut to fit"@));
    } else {
        push_decimal(&mut out, total as u64);
        out.push_str(" node(s)");
        assert(out@ =~= second + (text::decimal(total as nat) + " node(s)"@));
    }
    out.push_str(
        ". A `*` marks something the search matched; the rest were reached from it. Every range below is a live location in this workbook, not a value.\n\n",
    );
    out
}

/// A workbook ready to be written at any length.
struct Sheaf<'a> {
    workbook: &'a WorkbookContext,
    /// The part of each entry that does not depend on how many survive.
    heads: Vec<String>,
    reads: Vec<Vec<Relation>>,
    read_by: Vec<Vec<Relation>>,
    indent: usize,
}

impl<'a> Sheaf<'a> {
    spec fn is_bound(self) -> bool {
        let nodes = self.workbook.nodes@;
        let order = listing(nodes);
        let pad = number_width(order.len());
        let deps = dependencies(order, nodes);
        &&& self.heads@.len() == order.len()
        &&& self.reads@.len() == order.len()
        &&& self.read_by@.len() == order.len()
        &&& self.indent == pad + 5
        &&& forall|k: int|
            0 <= k < order.len() ==> (#[trigger] self.heads@[k])@ == entry_head_text(
                nodes,
                order[k],
                k + 1,
                pad,
            )
        &&& forall|k: int|
            0 <= k < order.len() ==> (#[trigger] self.reads@[k])@ == relations_of(deps, k + 1, true)
        &&& forall|k: int|
            0 <= k < order.len() ==> (#[trigger] self.read_by@[k])@ == relations_of(
                deps,
                k + 1,
                false,
            )
    }

    fn bind(workbook: &'a WorkbookContext, order: &Vec<&RetrievedNode>) -> (r: Sheaf<'a>)
        requires
            told(order@) == listing(workbook.nodes@),
        ensures
            r.is_bound(),
            r.workbook == workbook,
    {
        let nodes: &Vec<RetrievedNode> = &workbook.nodes;
        let ghost listed = listing(nodes@);
        let numbers: FxHashMap<u32, usize> = index_of(order);
        let mut all: Vec<&RetrievedNode> = Vec::new();
        let mut j: usize = 0;
        while j < nodes.len()
            invariant
                j <= nodes@.len(),
                told(all@) == nodes@.take(j as int),
            decreases nodes@.len() - j,
        {
            let ghost before = all@;
            all.push(&nodes[j]);
            assert(told(all@) =~= told(before).push(nodes@[j as int]));
            assert(nodes@.take(j + 1) =~= nodes@.take(j as int).push(nodes@[j as int]));
            j += 1;
        }
        assert(nodes@.take(j as int) =~= nodes@);
        let places: FxHashMap<u32, usize> = index_of(&all);
        let deps: Vec<Dependency> = recorded(nodes, order, &numbers);
        let count: usize = order.len();
        let pad: usize = width_of(count);
        proof {
            lemma_number_is_short(count as nat);
            assert(listed.len() == count);
        }
        let mut heads: Vec<String> = Vec::new();
        let mut i: usize = 0;
        while i < count
            invariant
                nodes == &workbook.nodes,
                listed == listing(nodes@),
                told(order@) == listed,
                count == order@.len(),
                finds(places@, nodes@),
                pad == text::decimal(count as nat).len(),
                pad <= 20,
                i <= count,
                heads@.len() == i,
                forall|k: int|
                    0 <= k < i ==> (#[trigger] heads@[k])@ == entry_head_text(
                        nodes@,
                        listed[k],
                        k + 1,
                        pad as nat,
                    ),
            decreases count - i,
        {
            proof {
                lemma_width((i + 1) as nat, count as nat);
                assert(told(order@)[i as int] == *order@[i as int]);
            }
            heads.push(entry_head(nodes, &places, order[i], i + 1, pad));
            i += 1;
        }
        let reads: Vec<Vec<Relation>> = by_number(&deps, count, true);
        let read_by: Vec<Vec<Relation>> = by_number(&deps, count, false);
        Sheaf { workbook, heads, reads, read_by, indent: pad + 5 }
    }

    /// The head and the relations of an entry, where so many survive.
    spec fn entry(self, i: int, upto: int, weights: bool) -> (Seq<char>, Seq<char>) {
        let nodes = self.workbook.nodes@;
        let order = listing(nodes);
        let pad = number_width(order.len());
        (
            entry_head_text(nodes, order[i], i + 1, pad),
            entry_relations_text(dependencies(order, nodes), i + 1, upto, weights, pad + 5),
        )
    }

    fn push_entry(&self, out: &mut String, i: usize, fits: usize, opts: &RenderOptions)
        requires
            self.is_bound(),
            i < self.heads@.len(),
        ensures
            ({
                let (x, y) = self.entry(i as int, fits as int, opts.weights);
                final(out)@ == old(out)@ + (x + y)
            }),
    {
        let ghost before = out@;
        out.push_str(self.heads[i].as_str());
        let ghost a = out@;
        push_relation_line(out, "reads", &self.reads[i], fits, opts, self.indent);
        let ghost b = out@;
        push_relation_line(out, "read by", &self.read_by[i], fits, opts, self.indent);
        proof {
            let (x, y) = self.entry(i as int, fits as int, opts.weights);
            assert(a == before + x);
            assert(out@ =~= before + (x + y));
        }
    }

    /// The workbook's part of the passage with its first `fits` entries.
    fn assemble(&self, fits: usize, opts: &RenderOptions) -> (r: String)
        requires
            self.is_bound(),
            fits <= self.heads@.len(),
        ensures
            r@ == assembled(*self.workbook, fits as nat, opts.weights),
    {
        let mut out: String = heading(self.workbook, fits, self.heads.len());
        let ghost head = out@;
        let ghost nodes = self.workbook.nodes@;
        let mut i: usize = 0;
        assert(out@ =~= head + entries_text(nodes, 0, fits as nat, opts.weights));
        while i < fits
            invariant
                self.is_bound(),
                nodes == self.workbook.nodes@,
                fits <= self.heads@.len(),
                i <= fits,
                out@ == head + entries_text(nodes, i as nat, fits as nat, opts.weights),
            decreases fits - i,
        {
            let ghost so_far = entries_text(nodes, i as nat, fits as nat, opts.weights);
            self.push_entry(&mut out, i, fits, opts);
            proof {
                let (x, y) = self.entry(i as int, fits as int, opts.weights);
                assert(entries_text(nodes, (i + 1) as nat, fits as nat, opts.weights) == so_far + x
                    + y);
                assert(head + so_far + (x + y) =~= head + (so_far + x + y));
            }
            i += 1;
        }
        out.push_str("\n");
        out
    }
}

// ---------------------------------------------------------------------------
// More entries make a longer text.

spec fn length_of(parts: Seq<Seq<char>>, between: nat) -> nat
    decreases parts.len(),
{
    if parts.len() == 0 {
        0
    } else if parts.len() == 1 {
        parts[0].len()
    } else {
        length_of(parts.drop_last(), between) + between + parts.last().len()
    }
}

proof fn lemma_joined_length(parts: Seq<Seq<char>>, between: Seq<char>)
    ensures
        joined(parts, between).len() == length_of(parts, between.len()),
    decreases parts.len(),
{
    if parts.len() > 1 {
        lemma_joined_length(parts.drop_last(), between);
    }
}

/// Showing more of a list of relations never makes it shorter.
proof fn lemma_more_relations(list: Seq<Relation>, a: int, b: int, weights: bool, between: nat)
    requires
        a <= b,
    ensures
        ({
            let write = |r: Relation| relation_text(r, weights);
            let x = shown_relations(list, a).map_values(write);
            let y = shown_relations(list, b).map_values(write);
            x.len() <= y.len() && length_of(x, between) <= length_of(y, between)
        }),
    decreases list.len(),
{
    let write = |r: Relation| relation_text(r, weights);
    let x = shown_relations(list, a).map_values(write);
    let y = shown_relations(list, b).map_values(write);
    reveal(Seq::filter);
    if list.len() > 0 {
        let d = list.drop_last();
        let last = list.last();
        lemma_more_relations(d, a, b, weights, between);
        let u = shown_relations(d, a).map_values(write);
        let v = shown_relations(d, b).map_values(write);
        assert(x =~= if last.other <= a {
            u.push(write(last))
        } else {
            u
        });
        assert(y =~= if last.other <= b {
            v.push(write(last))
        } else {
            v
        });
        assert(u.push(write(last)).drop_last() =~= u);
        assert(v.push(write(last)).drop_last() =~= v);
    }
}

proof fn lemma_longer_line(
    verb: Seq<char>,
    list: Seq<Relation>,
    a: int,
    b: int,
    weights: bool,
    indent: nat,
)
    requires
        a <= b,
    ensures
        relation_line_text(verb, list, a, weights, indent).len() <= relation_line_text(
            verb,
            list,
            b,
            weights,
            indent,
        ).len(),
{
    let write = |r: Relation| relation_text(r, weights);
    lemma_more_relations(list, a, b, weights, ", "@.len());
    lemma_joined_length(shown_relations(list, a).map_values(write), ", "@);
    lemma_joined_length(shown_relations(list, b).map_values(write), ", "@);
}

proof fn lemma_longer_entries(nodes: Seq<RetrievedNode>, n: nat, a: nat, b: nat, weights: bool)
    requires
        a <= b,
    ensures
        entries_text(nodes, n, a, weights).len() <= entries_text(nodes, n, b, weights).len(),
    decreases n,
{
    if n > 0 {
        let order = listing(nodes);
        let pad = number_width(order.len());
        let deps = dependencies(order, nodes);
        lemma_longer_entries(nodes, (n - 1) as nat, a, b, weights);
        lemma_longer_line(
            "reads"@,
            relations_of(deps, n as int, true),
            a as int,
            b as int,
            weights,
            pad + 5,
        );
        lemma_longer_line(
            "read by"@,
            relations_of(deps, n as int, false),
            a as int,
            b as int,
            weights,
            pad + 5,
        );
    }
}

/// A cut passage grows with every entry added.
pub proof fn a_cut_passage_grows_with_every_entry(
    workbook: WorkbookContext,
    n: nat,
    m: nat,
    weights: bool,
)
    requires
        n <= m < listing(workbook.nodes@).len(),
    ensures
        assembled(workbook, n, weights).len() <= assembled(workbook, m, weights).len(),
    decreases m,
{
    if n < m {
        let nodes = workbook.nodes@;
        let k = (m - 1) as nat;
        a_cut_passage_grows_with_every_entry(workbook, n, k, weights);
        lemma_width(k, m);
        lemma_longer_entries(nodes, k, k, m, weights);
    }
}

proof fn lemma_most_that_fit(
    workbook: WorkbookContext,
    weights: bool,
    room: int,
    floor: nat,
    n: nat,
    best: nat,
)
    requires
        floor <= best,
        best <= n || best == floor,
        best > floor ==> assembled(workbook, best, weights).len() <= room,
        forall|k: nat|
            best < k <= n ==> (#[trigger] assembled(workbook, k, weights)).len() > room,
    ensures
        most_that_fit(workbook, weights, room, floor, n) == best,
    decreases n,
{
    if n > floor && best < n {
        assert(assembled(workbook, n, weights).len() > room);
        lemma_most_that_fit(workbook, weights, room, floor, (n - 1) as nat, best);
    }
}

// ---------------------------------------------------------------------------
// The whole passage.

impl Rendered {
    /// What has been written so far.
    spec fn stands(self, p: Passage) -> bool {
        &&& self.text@ == p.text
        &&& self.citations@.len() == p.citations.len()
        &&& forall|i: int|
            0 <= i < self.citations@.len() ==> (#[trigger] self.citations@[i])@ == p.citations[i]
        &&& self.omitted == p.omitted
        &&& self.omitted_workbooks == p.omitted_workbooks
    }
}

/// Whether so many characters more stay within the ceiling.
fn has_room(written: u128, more: usize, max_chars: usize) -> (r: bool)
    requires
        written <= u128::MAX - usize::MAX,
    ensures
        r == (more <= max_chars - written),
{
    written + more as u128 <= max_chars as u128
}

/// How many entries are written, and the text that they make.
fn cut_to_fit(
    sheaf: &Sheaf,
    opts: &RenderOptions,
    written: u128,
    any: bool,
) -> (r: (usize, String))
    requires
        sheaf.is_bound(),
        sheaf.heads@.len() > 0,
        written <= u128::MAX - usize::MAX,
    ensures
        r.0 == entries_shown(*sheaf.workbook, *opts, written as nat, any),
        r.0 <= sheaf.heads@.len(),
        r.1@ == assembled(*sheaf.workbook, r.0 as nat, opts.weights),
{
    let total: usize = sheaf.heads.len();
    let ghost workbook = *sheaf.workbook;
    let ghost weights = opts.weights;
    let ghost room = opts.max_chars - written;
    let whole: String = sheaf.assemble(total, opts);
    if has_room(written, chars_of(whole.as_str()).len(), opts.max_chars) {
        return (total, whole);
    }
    let floor: usize = if any {
        0
    } else {
        1
    };
    // The whole passage is the one size that can be smaller than the size below
    // it, because only it gets the shorter heading. The rest grows with every
    // entry added, and is bisected.
    let mut best: usize = floor;
    let mut text: String = sheaf.assemble(floor, opts);
    let mut lo: usize = floor;
    let mut hi: usize = total - 1;
    while lo <= hi
        invariant_except_break
            lo <= hi + 1,
            best == floor || best == lo - 1,
            best == floor ==> lo == floor || lo == floor + 1,
        invariant
            sheaf.is_bound(),
            workbook == *sheaf.workbook,
            weights == opts.weights,
            room == opts.max_chars - written,
            written <= u128::MAX - usize::MAX,
            total == sheaf.heads@.len(),
            total == listing(workbook.nodes@).len(),
            total >= 1,
            floor <= 1,
            floor <= best,
            floor <= lo,
            hi <= total - 1,
            best < total || best == floor,
            text@ == assembled(workbook, best as nat, weights),
            best > floor ==> assembled(workbook, best as nat, weights).len() <= room,
            forall|k: nat|
                hi < k < total ==> (#[trigger] assembled(workbook, k, weights)).len() > room,
        ensures
            forall|k: nat|
                best < k < total ==> (#[trigger] assembled(workbook, k, weights)).len() > room,
        decreases hi + 1 - lo,
    {
        let mid: usize = lo + (hi - lo) / 2;
        let candidate: String = sheaf.assemble(mid, opts);
        if has_room(written, chars_of(candidate.as_str()).len(), opts.max_chars) {
            best = mid;
            text = candidate;
            lo = mid + 1;
        } else {
            proof {
                assert forall|k: nat| mid <= k < total implies (#[trigger] assembled(
                    workbook,
                    k,
                    weights,
                )).len() > room by {
                    a_cut_passage_grows_with_every_entry(workbook, mid as nat, k, weights);
                }
            }
            if mid == 0 {
                break;
            }
            hi = mid - 1;
        }
    }
    proof {
        lemma_most_that_fit(
            workbook,
            weights,
            room,
            floor as nat,
            (total - 1) as nat,
            best as nat,
        );
    }
    (best, text)
}

proof fn lemma_filters_split(s: Seq<RetrievedNode>)
    ensures
        listing(s).len() == s.len(),
    decreases s.len(),
{
    reveal(Seq::filter);
    if s.len() > 0 {
        lemma_filters_split(s.drop_last());
    }
}

/// Every node has one place in the listing.
pub proof fn every_node_is_listed(nodes: Seq<RetrievedNode>)
    ensures
        listing(nodes).len() == nodes.len(),
        forall|n: RetrievedNode| #[trigger]
            nodes.contains(n) ==> listing(nodes).contains(n),
{
    lemma_filters_split(nodes);
    let a = |n: RetrievedNode| n.role is Seed;
    let b = |n: RetrievedNode| !(n.role is Seed);
    let x = nodes.filter(a);
    let y = nodes.filter(b);
    assert forall|n: RetrievedNode| #[trigger] nodes.contains(n) implies listing(
        nodes,
    ).contains(n) by {
        let i = choose|i: int| 0 <= i < nodes.len() && nodes[i] == n;
        if a(n) {
            nodes.lemma_filter_contains(a, i);
            let k = choose|k: int| 0 <= k < x.len() && x[k] == n;
            assert((x + y)[k] == n);
        } else {
            nodes.lemma_filter_contains(b, i);
            let k = choose|k: int| 0 <= k < y.len() && y[k] == n;
            assert((x + y)[x.len() + k] == n);
        }
    }
}

fn render_workbook(
    workbook: &WorkbookContext,
    opts: &RenderOptions,
    out: &mut Rendered,
    written: u128,
    any: bool,
    Ghost(p): Ghost<Passage>,
) -> (r: (u128, bool))
    requires
        old(out).stands(p),
        written == p.text.len(),
        any == p.any,
        written <= u128::MAX - usize::MAX,
        old(out).omitted + workbook.nodes@.len() <= usize::MAX,
        old(out).omitted_workbooks < usize::MAX,
    ensures
        final(out).stands(with_workbook(p, *workbook, *opts)),
        r.0 == with_workbook(p, *workbook, *opts).text.len(),
        r.0 <= written + usize::MAX,
        r.1 == with_workbook(p, *workbook, *opts).any,
        final(out).omitted <= old(out).omitted + workbook.nodes@.len(),
{
    let order: Vec<&RetrievedNode> = in_order(&workbook.nodes);
    proof {
        lemma_filters_split(workbook.nodes@);
    }
    if order.len() == 0 {
        return (written, any);
    }
    let sheaf: Sheaf = Sheaf::bind(workbook, &order);
    let (fits, text): (usize, String) = cut_to_fit(&sheaf, opts, written, any);
    if fits == 0 {
        out.omitted = out.omitted + order.len();
        out.omitted_workbooks = out.omitted_workbooks + 1;
        return (written, any);
    }
    let more: usize = chars_of(text.as_str()).len();
    out.text.push_str(text.as_str());
    let ghost listed = listing(workbook.nodes@);
    let ghost had = p.citations;
    let mut i: usize = 0;
    while i < fits
        invariant
            fits <= order@.len(),
            told(order@) == listed,
            i <= fits,
            out.text@ == p.text + text@,
            out.omitted == p.omitted,
            out.omitted_workbooks == p.omitted_workbooks,
            out.citations@.len() == (had + citations_of(listed.take(i as int))).len(),
            forall|k: int|
                0 <= k < out.citations@.len() ==> (#[trigger] out.citations@[k])@ == (had
                    + citations_of(listed.take(i as int)))[k],
        decreases fits - i,
    {
        let node: &RetrievedNode = order[i];
        proof {
            assert(told(order@)[i as int] == *node);
            assert(listed.take(i + 1).drop_last() =~= listed.take(i as int));
            assert(listed.take(i + 1).last() == *node);
        }
        match &node.a1 {
            Some(a1) => {
                let ghost so_far = had + citations_of(listed.take(i as int));
                out.citations.push(a1.clone());
                assert(had + citations_of(listed.take(i + 1)) =~= so_far.push(a1@));
            },
            None => {},
        }
        i += 1;
    }
    out.omitted = out.omitted + (order.len() - fits);
    (written + more as u128, true)
}

/// The first eight characters of a text.
fn first_eight(s: &str) -> (r: String)
    ensures
        r@ == (if s@.len() <= 8 {
            s@
        } else {
            s@.take(8)
        }),
{
    let chars: Vec<char> = chars_of(s);
    if chars.len() <= 8 {
        text::string_of(chars.as_slice())
    } else {
        let short: &[char] = &chars.as_slice()[0..8];
        assert(chars@.subrange(0, 8) =~= chars@.take(8));
        text::string_of(short)
    }
}

/// The notice that workbooks are missing. Under a ceiling too small for the
/// names, the names go and the fact does not.
fn notice_of(missing: &Vec<String>, max_chars: usize) -> (r: String)
    ensures
        r@ == missing_notice(missing@, max_chars as int),
{
    let count: usize = missing.len();
    if count == 0 {
        return String::new();
    }
    let few: usize = if count <= 8 {
        count
    } else {
        8
    };
    let ghost first = if count <= 8 {
        missing@
    } else {
        missing@.take(8)
    };
    let mut named: Vec<String> = Vec::new();
    let mut i: usize = 0;
    while i < few
        invariant
            few <= missing@.len(),
            first == missing@.take(few as int),
            i <= few,
            named@.len() == i,
            forall|k: int| 0 <= k < i ==> (#[trigger] named@[k])@ == shortened(first)[k],
        decreases few - i,
    {
        named.push(first_eight(missing[i].as_str()));
        i += 1;
    }
    assert(named@.map_values(|p: String| p@) =~= shortened(first));
    let mut full: String = String::new();
    push_decimal(&mut full, count as u64);
    full.push_str(" workbook(s) matched by the search are no longer in the corpus (");
    push_joined(&mut full, &named, ", ");
    let ghost before = full@;
    if count > 8 {
        full.push_str(", and ");
        push_decimal(&mut full, (count - 8) as u64);
        full.push_str(" more");
        assert(full@ =~= before + (", and "@ + text::decimal((count - 8) as nat) + " more"@));
    } else {
        assert(full@ =~= before + Seq::<char>::empty());
    }
    full.push_str("); their context is missing. Reindex to recover it.\n\n");
    proof {
        assert(Seq::<char>::empty() + text::decimal(count as nat) =~= text::decimal(count as nat));
    }
    if chars_of(full.as_str()).len() <= max_chars {
        full
    } else {
        let mut bare: String = String::new();
        push_decimal(&mut bare, count as u64);
        bare.push_str(" workbook(s) matched by the search are missing from the corpus.\n\n");
        bare
    }
}

/// Render an expansion.
pub fn render(found: &Retrieved, opts: &RenderOptions) -> (r: Rendered)
    requires
        expand::node_total(found.workbooks@) <= usize::MAX,
    ensures
        ({
            let p = passage(*found, *opts);
            &&& r.text@ == p.text + closing_text(p.omitted, p.omitted_workbooks)
            &&& r.citations@.map_values(|c: String| c@) == p.citations
            &&& r.omitted == p.omitted
            &&& r.omitted_workbooks == p.omitted_workbooks
        }),
{
    let mut out: Rendered = Rendered::default();
    let notice: String = notice_of(&found.missing_workbooks, opts.max_chars);
    let mut written: u128 = chars_of(notice.as_str()).len() as u128;
    out.text = notice;
    let mut any: bool = false;
    let ghost p0 = Passage {
        text: out.text@,
        citations: Seq::empty(),
        omitted: 0,
        omitted_workbooks: 0,
        any: false,
    };
    let ghost all = found.workbooks@;
    let mut i: usize = 0;
    assert(all.take(0) =~= Seq::empty());
    while i < found.workbooks.len()
        invariant
            all == found.workbooks@,
            expand::node_total(all) <= usize::MAX,
            i <= all.len(),
            out.stands(with_workbooks(p0, all.take(i as int), *opts)),
            written == with_workbooks(p0, all.take(i as int), *opts).text.len(),
            written <= (i + 1) * usize::MAX,
            any == with_workbooks(p0, all.take(i as int), *opts).any,
            out.omitted <= expand::node_total(all.take(i as int)),
            out.omitted_workbooks <= i,
        decreases all.len() - i,
    {
        let ghost p = with_workbooks(p0, all.take(i as int), *opts);
        proof {
            assert(all.take(i + 1).drop_last() =~= all.take(i as int));
            assert(all.take(i + 1).last() == all[i as int]);
            expand::lemma_node_total(all, i + 1);
            lemma_filters_split(all[i as int].nodes@);
            assert((i + 1) * usize::MAX <= usize::MAX * usize::MAX) by (nonlinear_arith)
                requires
                    i + 1 <= usize::MAX,
            ;
            assert(usize::MAX * usize::MAX <= u128::MAX - usize::MAX) by (nonlinear_arith)
                requires
                    usize::MAX <= 0xffff_ffff_ffff_ffff,
            ;
            assert((i + 2) * usize::MAX == (i + 1) * usize::MAX + usize::MAX) by (nonlinear_arith);
        }
        let (w, a): (u128, bool) = render_workbook(
            &found.workbooks[i],
            opts,
            &mut out,
            written,
            any,
            Ghost(p),
        );
        written = w;
        any = a;
        i += 1;
    }
    proof {
        assert(all.take(i as int) =~= all);
        assert(p0.text == missing_notice(found.missing_workbooks@, opts.max_chars as int));
    }
    let ghost p = passage(*found, *opts);
    let ghost before = out.text@;
    if out.omitted > 0 {
        let omitted: usize = out.omitted;
        let missed: usize = out.omitted_workbooks;
        let mut line: String = String::new();
        line.push_str("\n");
        push_decimal(&mut line, omitted as u64);
        line.push_str(" further node(s) were retrieved and left out to fit");
        let ghost first = line@;
        assert(first =~= "\n"@ + text::decimal(omitted as nat)
            + " further node(s) were retrieved and left out to fit"@);
        if missed > 0 {
            line.push_str(", including ");
            push_decimal(&mut line, missed as u64);
            line.push_str(" workbook(s) that do not appear above at all");
            assert(line@ =~= first + (", including "@ + text::decimal(missed as nat)
                + " workbook(s) that do not appear above at all"@));
        } else {
            assert(line@ =~= first + Seq::<char>::empty());
        }
        line.push_str(". Raise the character ceiling, or expand fewer hops.\n");
        out.text.push_str(line.as_str());
    } else {
        assert(before =~= before + Seq::<char>::empty());
    }
    assert(out.citations@.map_values(|c: String| c@) =~= p.citations);
    out
}

// ---------------------------------------------------------------------------
// What holds of every passage.

/// Seeds come before everything else in the listing.
pub proof fn seeds_come_first(nodes: Seq<RetrievedNode>, i: int, j: int)
    requires
        0 <= i < j < listing(nodes).len(),
        listing(nodes)[j].role is Seed,
    ensures
        listing(nodes)[i].role is Seed,
{
    let a = |n: RetrievedNode| n.role is Seed;
    let b = |n: RetrievedNode| !(n.role is Seed);
    let x = nodes.filter(a);
    let y = nodes.filter(b);
    if j >= x.len() {
        nodes.lemma_filter_pred(b, j - x.len());
        assert(listing(nodes)[j] == y[j - x.len()]);
    }
    nodes.lemma_filter_pred(a, i);
    assert(listing(nodes)[i] == x[i]);
}

proof fn lemma_dependencies_numbered(order: Seq<RetrievedNode>, nodes: Seq<RetrievedNode>)
    requires
        order.len() < usize::MAX,
    ensures
        forall|i: int|
            0 <= i < dependencies(order, nodes).len() ==> {
                let d = #[trigger] dependencies(order, nodes)[i];
                1 <= d.reader <= order.len() && 1 <= d.target <= order.len()
            },
    decreases nodes.len(),
{
    if nodes.len() > 0 {
        let n = nodes.last();
        lemma_dependencies_numbered(order, nodes.drop_last());
        lemma_last_place(order, n.node);
        match n.role {
            Role::Input { of, .. } => lemma_last_place(order, of),
            Role::Dependent { on, .. } => lemma_last_place(order, on),
            _ => {},
        }
    }
}

proof fn lemma_weighed_in(s: Seq<Relation>, x: Relation)
    ensures
        forall|i: int|
            0 <= i < weighed_in(s, x).len() ==> (#[trigger] weighed_in(s, x)[i]) == x || s.contains(
                weighed_in(s, x)[i],
            ),
    decreases s.len(),
{
    let p = weighed_in(s, x);
    if s.len() > 0 && !weighs_more(x, s[0]) {
        let rest = s.drop_first();
        lemma_weighed_in(rest, x);
        let q = weighed_in(rest, x);
        assert(p == seq![s[0]] + q);
        assert forall|i: int| 0 <= i < p.len() implies (#[trigger] p[i]) == x || s.contains(
            p[i],
        ) by {
            if i == 0 {
                assert(s[0] == p[0]);
            } else {
                assert(p[i] == q[i - 1]);
                if rest.contains(q[i - 1]) {
                    let k = choose|k: int| 0 <= k < rest.len() && rest[k] == q[i - 1];
                    assert(s[k + 1] == p[i]);
                }
            }
        }
    } else if s.len() > 0 {
        assert forall|i: int| 0 <= i < p.len() implies (#[trigger] p[i]) == x || s.contains(
            p[i],
        ) by {
            if i > 0 {
                assert(p[i] == s[i - 1]);
            }
        }
    }
}

proof fn lemma_relations_numbered(deps: Seq<Dependency>, number: int, reading: bool, count: int)
    requires
        forall|i: int|
            0 <= i < deps.len() ==> 1 <= (#[trigger] deps[i]).reader <= count && 1
                <= deps[i].target <= count,
    ensures
        forall|i: int|
            0 <= i < relations_of(deps, number, reading).len() ==> 1 <= (#[trigger] relations_of(
                deps,
                number,
                reading,
            )[i]).other <= count,
    decreases deps.len(),
{
    if deps.len() > 0 {
        let d = deps.last();
        let rest = deps.drop_last();
        assert(deps[deps.len() - 1] == d);
        assert forall|i: int| 0 <= i < rest.len() implies 1 <= (#[trigger] rest[i]).reader <= count
            && 1 <= rest[i].target <= count by {
            assert(rest[i] == deps[i]);
        }
        lemma_relations_numbered(rest, number, reading, count);
        let before = relations_of(rest, number, reading);
        let other = if reading {
            d.target
        } else {
            d.reader
        };
        lemma_weighed_in(before, Relation { other, weight: d.weight, kind: d.kind });
    }
}

/// No relation points at a number that is not there: every relation shown is to
/// an entry that is shown.
pub proof fn relations_point_at_entries_that_are_shown(
    nodes: Seq<RetrievedNode>,
    number: int,
    upto: int,
    reading: bool,
)
    requires
        listing(nodes).len() < usize::MAX,
    ensures
        ({
            let deps = dependencies(listing(nodes), nodes);
            let shown = shown_relations(relations_of(deps, number, reading), upto);
            forall|i: int| 0 <= i < shown.len() ==> 1 <= (#[trigger] shown[i]).other <= upto
        }),
{
    let order = listing(nodes);
    let deps = dependencies(order, nodes);
    lemma_dependencies_numbered(order, nodes);
    lemma_relations_numbered(deps, number, reading, order.len() as int);
    let list = relations_of(deps, number, reading);
    let keep = |r: Relation| r.other <= upto;
    let shown = shown_relations(list, upto);
    assert forall|i: int| 0 <= i < shown.len() implies 1 <= (#[trigger] shown[i]).other
        <= upto by {
        list.lemma_filter_pred(keep, i);
        assert(shown.contains(shown[i]));
        list.lemma_filter_contains_rev(keep, shown[i]);
        let k = choose|k: int| 0 <= k < list.len() && list[k] == shown[i];
        assert(list[k].other >= 1);
    }
}

/// How many entries the parts of some workbooks show, behind what is written.
pub open spec fn entries_of(
    p: Passage,
    workbooks: Seq<WorkbookContext>,
    opts: RenderOptions,
) -> nat
    decreases workbooks.len(),
{
    if workbooks.len() == 0 {
        0
    } else {
        let so_far = with_workbooks(p, workbooks.drop_last(), opts);
        entries_of(p, workbooks.drop_last(), opts) + (if workbooks.last().nodes@.len() == 0 {
            0
        } else {
            entries_shown(workbooks.last(), opts, so_far.text.len(), so_far.any)
        })
    }
}

proof fn lemma_shown_at_most(
    workbook: WorkbookContext,
    weights: bool,
    room: int,
    floor: nat,
    n: nat,
)
    ensures
        most_that_fit(workbook, weights, room, floor, n) <= (if n <= floor {
            floor
        } else {
            n
        }),
    decreases n,
{
    if n > floor {
        lemma_shown_at_most(workbook, weights, room, floor, (n - 1) as nat);
    }
}

proof fn lemma_entries_of(p: Passage, workbooks: Seq<WorkbookContext>, opts: RenderOptions)
    ensures
        p.omitted + expand::node_total(workbooks) == with_workbooks(p, workbooks, opts).omitted
            + entries_of(p, workbooks, opts),
    decreases workbooks.len(),
{
    if workbooks.len() > 0 {
        let last = workbooks.last();
        let before = workbooks.drop_last();
        lemma_entries_of(p, before, opts);
        every_node_is_listed(last.nodes@);
        let so_far = with_workbooks(p, before, opts);
        let total = listing(last.nodes@).len();
        if total > 0 {
            lemma_shown_at_most(
                last,
                opts.weights,
                opts.max_chars - so_far.text.len(),
                if so_far.any {
                    0
                } else {
                    1
                },
                (total - 1) as nat,
            );
            assert(entries_shown(last, opts, so_far.text.len(), so_far.any) <= total);
        }
    }
}

/// Nothing retrieved is passed over in silence: the entries of a passage and the
/// nodes that it says it left out make up all that was retrieved.
pub proof fn what_is_shown_and_what_is_omitted_is_everything(found: Retrieved, opts: RenderOptions)
    ensures
        ({
            let none = Passage {
                text: missing_notice(found.missing_workbooks@, opts.max_chars as int),
                citations: Seq::empty(),
                omitted: 0,
                omitted_workbooks: 0,
                any: false,
            };
            entries_of(none, found.workbooks@, opts) + passage(found, opts).omitted
                == expand::node_total(found.workbooks@)
        }),
{
    let none = Passage {
        text: missing_notice(found.missing_workbooks@, opts.max_chars as int),
        citations: Seq::empty(),
        omitted: 0,
        omitted_workbooks: 0,
        any: false,
    };
    lemma_entries_of(none, found.workbooks@, opts);
}

/// One text stands somewhere in another.
pub open spec fn occurs_in(part: Seq<char>, whole: Seq<char>) -> bool {
    exists|a: Seq<char>, b: Seq<char>| whole == #[trigger] (a + part + b)
}

pub proof fn lemma_occurs_wider(part: Seq<char>, whole: Seq<char>, before: Seq<char>, after: Seq<char>)
    requires
        occurs_in(part, whole),
    ensures
        occurs_in(part, before + whole + after),
{
    let (a, b) = choose|a: Seq<char>, b: Seq<char>| whole == #[trigger] (a + part + b);
    assert(before + whole + after =~= (before + a) + part + (b + after));
}

proof fn lemma_head_cites(nodes: Seq<RetrievedNode>, n: RetrievedNode, number: int, pad: nat)
    requires
        n.a1 is Some,
    ensures
        occurs_in(n.a1->Some_0@, entry_head_text(nodes, n, number, pad)),
{
    let digits = text::decimal(number as nat);
    let path = labels_up(nodes, n.parent, nodes.len()).reverse();
    let a1 = address::opt_view(n.a1);
    let a = n.a1->Some_0@;
    let first = "["@ + digits + "]"@ + blanks((pad - digits.len() + 1) as nat) + (
    if n.role is Seed {
        "*"@
    } else {
        " "@
    }) + " "@ + n.kind.shown() + " "@ + quoted_label(n.label@, a1);
    let last = if path.len() == 0 {
        Seq::<char>::empty()
    } else {
        blanks(pad + 5) + "in: "@ + joined(path, " > "@) + "\n"@
    };
    assert(entry_head_text(nodes, n, number, pad) =~= (first + "   "@) + a + ("\n"@ + last));
}

proof fn lemma_entries_cite(nodes: Seq<RetrievedNode>, n: nat, upto: nat, weights: bool)
    requires
        n <= listing(nodes).len(),
    ensures
        forall|k: int|
            0 <= k < citations_of(listing(nodes).take(n as int)).len() ==> occurs_in(
                #[trigger] citations_of(listing(nodes).take(n as int))[k],
                entries_text(nodes, n, upto, weights),
            ),
    decreases n,
{
    if n > 0 {
        let order = listing(nodes);
        let pad = number_width(order.len());
        let node = order[n - 1];
        let m = (n - 1) as nat;
        lemma_entries_cite(nodes, m, upto, weights);
        let so_far = entries_text(nodes, m, upto, weights);
        let head = entry_head_text(nodes, node, n as int, pad);
        let tail = entry_relations_text(
            dependencies(order, nodes),
            n as int,
            upto as int,
            weights,
            pad + 5,
        );
        let all = entries_text(nodes, n, upto, weights);
        assert(all == so_far + head + tail);
        assert(order.take(n as int).drop_last() =~= order.take(m as int));
        assert(order.take(n as int).last() == node);
        let before = citations_of(order.take(m as int));
        let now = citations_of(order.take(n as int));
        assert forall|k: int| 0 <= k < now.len() implies occurs_in(#[trigger] now[k], all) by {
            if k < before.len() {
                assert(now[k] == before[k]);
                lemma_occurs_wider(now[k], so_far, Seq::empty(), head + tail);
                assert(Seq::<char>::empty() + so_far + (head + tail) =~= all);
            } else {
                lemma_head_cites(nodes, node, n as int, pad);
                lemma_occurs_wider(now[k], head, so_far, tail);
            }
        }
    }
}

proof fn lemma_most_that_fit_bounds(
    workbook: WorkbookContext,
    weights: bool,
    room: int,
    floor: nat,
    n: nat,
)
    ensures
        ({
            let k = most_that_fit(workbook, weights, room, floor, n);
            floor <= k && (k <= n || k == floor) && (k > floor ==> assembled(
                workbook,
                k,
                weights,
            ).len() <= room)
        }),
    decreases n,
{
    if n > floor && assembled(workbook, n, weights).len() > room {
        lemma_most_that_fit_bounds(workbook, weights, room, floor, (n - 1) as nat);
    }
}

spec fn all_cited(p: Passage) -> bool {
    forall|k: int| 0 <= k < p.citations.len() ==> occurs_in(#[trigger] p.citations[k], p.text)
}

proof fn lemma_workbook_cites(p: Passage, workbook: WorkbookContext, opts: RenderOptions)
    requires
        all_cited(p),
    ensures
        all_cited(with_workbook(p, workbook, opts)),
{
    let nodes = workbook.nodes@;
    let order = listing(nodes);
    let fits = entries_shown(workbook, opts, p.text.len(), p.any);
    let q = with_workbook(p, workbook, opts);
    if order.len() > 0 && fits > 0 {
        lemma_most_that_fit_bounds(
            workbook,
            opts.weights,
            opts.max_chars - p.text.len(),
            if p.any {
                0
            } else {
                1
            },
            (order.len() - 1) as nat,
        );
        assert(fits <= order.len());
        let part = assembled(workbook, fits, opts.weights);
        let entries = entries_text(nodes, fits, fits, opts.weights);
        let head = heading_text(workbook.path@, workbook.truncated, fits, order.len());
        lemma_entries_cite(nodes, fits, fits, opts.weights);
        let new = citations_of(order.take(fits as int));
        assert forall|k: int| 0 <= k < q.citations.len() implies occurs_in(
            #[trigger] q.citations[k],
            q.text,
        ) by {
            if k < p.citations.len() {
                assert(q.citations[k] == p.citations[k]);
                lemma_occurs_wider(p.citations[k], p.text, Seq::empty(), part);
                assert(Seq::<char>::empty() + p.text + part =~= q.text);
            } else {
                let c = new[k - p.citations.len()];
                assert(q.citations[k] == c);
                lemma_occurs_wider(c, entries, p.text + head, "\n"@);
                assert((p.text + head) + entries + "\n"@ =~= q.text);
            }
        }
    }
}

proof fn lemma_passage_cites(p: Passage, workbooks: Seq<WorkbookContext>, opts: RenderOptions)
    requires
        all_cited(p),
    ensures
        all_cited(with_workbooks(p, workbooks, opts)),
    decreases workbooks.len(),
{
    if workbooks.len() > 0 {
        lemma_passage_cites(p, workbooks.drop_last(), opts);
        lemma_workbook_cites(
            with_workbooks(p, workbooks.drop_last(), opts),
            workbooks.last(),
            opts,
        );
    }
}

/// The citations handed back are in the text.
pub proof fn every_citation_is_in_the_text(found: Retrieved, opts: RenderOptions)
    ensures
        forall|k: int|
            0 <= k < passage(found, opts).citations.len() ==> occurs_in(
                #[trigger] passage(found, opts).citations[k],
                passage(found, opts).text,
            ),
{
    let p = Passage {
        text: missing_notice(found.missing_workbooks@, opts.max_chars as int),
        citations: Seq::empty(),
        omitted: 0,
        omitted_workbooks: 0,
        any: false,
    };
    lemma_passage_cites(p, found.workbooks@, opts);
}

/// The passage is the notice alone, or stays within the ceiling, or is the
/// notice and the first entry of one workbook under its heading.
pub open spec fn is_within_bounds(
    p: Passage,
    notice: Seq<char>,
    workbooks: Seq<WorkbookContext>,
    opts: RenderOptions,
) -> bool {
    if !p.any {
        p.text == notice
    } else {
        p.text.len() <= opts.max_chars || exists|i: int|
            0 <= i < workbooks.len() && p.text == notice + assembled(
                #[trigger] workbooks[i],
                1,
                opts.weights,
            )
    }
}

proof fn lemma_within_bounds(
    p: Passage,
    notice: Seq<char>,
    workbooks: Seq<WorkbookContext>,
    i: int,
    opts: RenderOptions,
)
    requires
        is_within_bounds(p, notice, workbooks, opts),
        0 <= i < workbooks.len(),
    ensures
        is_within_bounds(with_workbook(p, workbooks[i], opts), notice, workbooks, opts),
        workbooks[i].nodes@.len() > 0 ==> with_workbook(p, workbooks[i], opts).any,
        p.any ==> with_workbook(p, workbooks[i], opts).any,
{
    let workbook = workbooks[i];
    let order = listing(workbook.nodes@);
    lemma_filters_split(workbook.nodes@);
    if order.len() > 0 {
        lemma_most_that_fit_bounds(
            workbook,
            opts.weights,
            opts.max_chars - p.text.len(),
            if p.any {
                0
            } else {
                1
            },
            (order.len() - 1) as nat,
        );
    }
}

proof fn lemma_all_within_bounds(
    p: Passage,
    notice: Seq<char>,
    workbooks: Seq<WorkbookContext>,
    n: int,
    opts: RenderOptions,
)
    requires
        !p.any,
        p.text == notice,
        0 <= n <= workbooks.len(),
    ensures
        is_within_bounds(with_workbooks(p, workbooks.take(n), opts), notice, workbooks, opts),
        (exists|i: int| 0 <= i < n && (#[trigger] workbooks[i]).nodes@.len() > 0)
            ==> with_workbooks(p, workbooks.take(n), opts).any,
    decreases n,
{
    if n > 0 {
        lemma_all_within_bounds(p, notice, workbooks, n - 1, opts);
        assert(workbooks.take(n).drop_last() =~= workbooks.take(n - 1));
        assert(workbooks.take(n).last() == workbooks[n - 1]);
        lemma_within_bounds(
            with_workbooks(p, workbooks.take(n - 1), opts),
            notice,
            workbooks,
            n - 1,
            opts,
        );
    }
}

/// The ceiling holds for everything but the notice and the first entry with its
/// heading, which are written whatever it says.
pub proof fn only_the_first_entry_may_overrun(found: Retrieved, opts: RenderOptions)
    ensures
        is_within_bounds(
            passage(found, opts),
            missing_notice(found.missing_workbooks@, opts.max_chars as int),
            found.workbooks@,
            opts,
        ),
        (exists|i: int|
            0 <= i < found.workbooks@.len() && (#[trigger] found.workbooks@[i]).nodes@.len() > 0)
            ==> passage(found, opts).any,
{
    let notice = missing_notice(found.missing_workbooks@, opts.max_chars as int);
    let p = Passage {
        text: notice,
        citations: Seq::empty(),
        omitted: 0,
        omitted_workbooks: 0,
        any: false,
    };
    let all = found.workbooks@;
    lemma_all_within_bounds(p, notice, all, all.len() as int, opts);
    assert(all.take(all.len() as int) =~= all);
}

} // verus!
