//! Walking out from a hit to the nodes that explain it.
//!
//! A hit is a door, not an answer. "The Revenue column of BP136" is the right
//! node and still not enough to act on: which table is it in, what feeds it, and
//! what breaks if it is wrong. Expansion is what turns one node into that.
//!
//! Containment is followed inwards and dependencies outwards:
//!
//! - Up the containment tree, always, and unbounded: a column's region, its
//!   sheet, the workbook. That is what makes a node nameable.
//! - Down the containment tree, never by default. [`ExpandOptions::children`]
//!   opens it with a cap for callers who want the shape of a table.
//! - Along dependencies, both directions, so many hops, under a node budget:
//!   nearest first, and heaviest within a distance.
//!
//! The dependency layer connects regions and nothing else. Every node brought in
//! therefore contributes its dependencies, and so does everything above it, at
//! no cost in hops; and from a node that was asked about, the walk looks one
//! containment level down and takes any child that carries a dependency.

use crate::address;
use crate::address::RangeRef;
use crate::fx;
use crate::graph;
use crate::graph::{EdgeKind, Link, Node, NodeKind, WorkbookGraph};
use rustc_hash::{FxHashMap, FxHashSet};
use vstd::prelude::*;

verus! {

/// How far to walk, and how much to bring back.
#[derive(Debug, Clone, Copy, PartialEq, Eq)]
pub struct ExpandOptions {
    /// Dependency hops from a seed. Two is the useful default: one hop is what a
    /// node reads, two is what that reads in turn, which is where "the number is
    /// wrong because the rate table is stale" becomes visible.
    pub hops: usize,
    /// The most nodes to return per workbook, ancestry included. A cap and not a
    /// target: a well-aimed query on a sparse workbook returns far fewer.
    pub budget: usize,
    /// The most contained children to pull in, ranked by the cells they cover.
    ///
    /// Applies to every node in the result except the workbook root, whose
    /// children are every sheet in the file with no ranking among them.
    pub children: usize,
    /// Ignore dependency edges standing for fewer than this many references. One
    /// keeps everything: a single hand-written reference into another sheet is
    /// often the whole finding.
    pub min_weight: u64,
}

impl Default for ExpandOptions {
    fn default() -> (r: Self)
        ensures
            r.hops == 2,
            r.budget == 40,
            r.children == 0,
            r.min_weight == 1,
    {
        ExpandOptions { hops: 2, budget: 40, children: 0, min_weight: 1 }
    }
}

/// Why a node is in the result.
///
/// Kept per node, because an expansion nobody can check is an expansion nobody
/// should trust. Every node that is not a seed names the node that pulled it in
/// and the edge that did it.
#[derive(Debug, Clone, Copy, PartialEq, Eq, Structural)]
pub enum Role {
    /// The index returned it.
    Seed,
    /// It contains `of`, directly or transitively.
    Ancestor { of: u32 },
    /// It is contained by `of`.
    Child { of: u32 },
    /// `of` reads it: it is an input to `of`.
    Input { of: u32, kind: EdgeKind, weight: u64 },
    /// It reads `on`: it is a dependent of `on`.
    Dependent { on: u32, kind: EdgeKind, weight: u64 },
}

impl Role {
    pub open spec fn shown(self) -> Seq<char> {
        match self {
            Role::Seed => "seed"@,
            Role::Ancestor { .. } => "contains"@,
            Role::Child { .. } => "within"@,
            Role::Input { .. } => "feeds"@,
            Role::Dependent { .. } => "reads"@,
        }
    }

    /// The node this one was reached from, if it was reached from one.
    pub open spec fn origin(self) -> Option<u32> {
        match self {
            Role::Seed => None,
            Role::Ancestor { of } => Some(of),
            Role::Child { of } => Some(of),
            Role::Input { of, .. } => Some(of),
            Role::Dependent { on, .. } => Some(on),
        }
    }

    pub fn as_str(&self) -> (r: &'static str)
        ensures
            r@ == self.shown(),
    {
        match self {
            Role::Seed => "seed",
            Role::Ancestor { .. } => "contains",
            Role::Child { .. } => "within",
            Role::Input { .. } => "feeds",
            Role::Dependent { .. } => "reads",
        }
    }

    /// The node this one was reached from, if it was reached from one.
    pub fn from(&self) -> (r: Option<u32>)
        ensures
            r == self.origin(),
    {
        match self {
            Role::Seed => None,
            Role::Ancestor { of } => Some(*of),
            Role::Child { of } => Some(*of),
            Role::Input { of, .. } => Some(*of),
            Role::Dependent { on, .. } => Some(*on),
        }
    }
}

/// One node of an expansion.
#[derive(Debug, Clone, PartialEq, Eq)]
pub struct RetrievedNode {
    pub node: u32,
    pub kind: NodeKind,
    pub label: String,
    /// A fully-qualified citation, for the kinds that cover a rectangle.
    pub a1: Option<String>,
    pub sheet: Option<String>,
    /// The node containing this one, if it is in the result too.
    ///
    /// Structural, and kept apart from `role` on purpose. A node reached by two
    /// different children records one of them in its role, whichever arrived
    /// first, so a path rebuilt from roles alone is right for that child and
    /// truncated for every other.
    pub parent: Option<u32>,
    pub role: Role,
    /// Dependency hops from the nearest seed: the walk takes every node at one
    /// distance before any at the next. Ancestry does not count as a hop, since
    /// naming a node is not travelling away from it.
    pub hops: usize,
    /// The bit pattern of the seed's search score, carried on the seed only.
    pub score: Option<u32>,
}

impl RetrievedNode {
    pub fn is_seed(&self) -> (r: bool)
        ensures
            r == (self.role is Seed),
    {
        matches!(self.role, Role::Seed)
    }
}

/// What one workbook contributed.
#[derive(Debug, Clone, PartialEq, Eq)]
pub struct WorkbookContext {
    pub content_hash: String,
    pub path: String,
    pub nodes: Vec<RetrievedNode>,
    /// Whether the walk was stopped before it ran out of graph. A truncated
    /// expansion is a partial answer, and a caller that cannot tell will present
    /// it as a complete one.
    pub truncated: bool,
    /// The nodes that hits named and the stored graph does not have.
    pub stale_seeds: Vec<u32>,
}

/// An expansion, grouped by the workbook each node came from.
#[derive(Debug, Clone, PartialEq, Eq)]
pub struct Retrieved {
    pub workbooks: Vec<WorkbookContext>,
    /// The workbooks of seeds that are no longer in the corpus. Never silently
    /// dropped: the fix is to reindex rather than to return fewer results
    /// without saying so.
    pub missing_workbooks: Vec<String>,
}

/// One ranked result of a search.
#[derive(Debug, PartialEq, Eq)]
pub struct Hit {
    /// The bit pattern of the score.
    pub score: u32,
    /// The content hash of the workbook that the node is in.
    pub workbook: String,
    pub path: String,
    pub node: u32,
    pub kind: NodeKind,
    pub sheet: Option<String>,
    pub label: String,
    pub a1: Option<String>,
}

/// A workbook's graph as a corpus keeps it.
pub struct StoredGraph {
    pub content_hash: String,
    pub path: String,
    pub graph: WorkbookGraph,
}

// ---------------------------------------------------------------------------
// The walk.

/// One dependency step waiting to be taken.
#[derive(Debug, Clone, Copy, PartialEq, Eq, Structural)]
pub struct Step {
    pub weight: u64,
    pub hops: usize,
    pub from: u32,
    pub to: u32,
    pub kind: EdgeKind,
    /// Whether `to` reads `from`, rather than the other way round.
    pub inbound: bool,
}

/// A node waiting to be named and walked from. The flag says whether it was
/// asked about, or is there to name one that was; only the former is descended
/// from.
#[derive(Debug, Clone, Copy, PartialEq, Eq, Structural)]
pub struct Waiting {
    pub node: u32,
    pub hops: usize,
    pub asked: bool,
}

/// A node that the walk took, and why.
pub struct Reached {
    pub node: u32,
    pub role: Role,
    pub hops: usize,
    pub score: Option<u32>,
}

/// What a walk goes over.
pub struct Terrain {
    pub nodes: Seq<Node>,
    pub links: Seq<Link>,
    pub opts: ExpandOptions,
}

/// Where a walk stands.
pub struct Walk {
    pub reached: Seq<Reached>,
    /// The nodes whose own edges have been queued.
    pub walked: Set<u32>,
    pub queue: Seq<Step>,
    pub pending: Seq<Waiting>,
    /// The distance from the seeds that is being taken.
    pub level: usize,
    pub truncated: bool,
    pub over: bool,
}

/// An edge that a walk follows: a dependency, and heavy enough.
pub open spec fn followed(l: Link, min_weight: u64) -> bool {
    !(l.edge.kind is Contains) && l.edge.weight >= min_weight
}

/// The container at the first containment edge of some.
pub open spec fn first_container(s: Seq<Link>) -> Option<u32>
    decreases s.len(),
{
    if s.len() == 0 {
        None
    } else if s[0].edge.kind is Contains {
        Some(s[0].from)
    } else {
        first_container(s.drop_first())
    }
}

/// The node containing this one.
pub open spec fn container(links: Seq<Link>, at: u32) -> Option<u32> {
    first_container(graph::edges_at(links, at, true))
}

/// A node has a dependency edge that a walk follows.
pub open spec fn carries(links: Seq<Link>, at: u32, min_weight: u64) -> bool {
    exists|i: int|
        0 <= i < links.len() && followed(#[trigger] links[i], min_weight) && (links[i].from == at
            || links[i].to == at)
}

/// The nodes that a node contains, the one added last first.
pub open spec fn contained(links: Seq<Link>, at: u32) -> Seq<u32> {
    graph::edges_at(links, at, false).filter(|l: Link| l.edge.kind is Contains).map_values(
        |l: Link| l.to,
    )
}

/// The step along an edge from one of its ends.
pub open spec fn step_along(l: Link, at: u32, hops: usize, inbound: bool) -> Step {
    Step {
        weight: l.edge.weight,
        hops: (hops + 1) as usize,
        from: at,
        to: if inbound {
            l.from
        } else {
            l.to
        },
        kind: l.edge.kind,
        inbound,
    }
}

/// The steps from a node along its edges of one direction.
pub open spec fn steps_along(
    links: Seq<Link>,
    at: u32,
    hops: usize,
    min_weight: u64,
    inbound: bool,
) -> Seq<Step> {
    graph::edges_at(links, at, inbound).filter(|l: Link| followed(l, min_weight)).map_values(
        |l: Link| step_along(l, at, hops, inbound),
    )
}

/// The first of two steps to be taken: the nearer, then the heavier, then the
/// one to the lower node.
pub open spec fn goes_first(a: Step, b: Step) -> bool {
    a.hops < b.hops || (a.hops == b.hops && (a.weight > b.weight || (a.weight == b.weight && a.to
        < b.to)))
}

/// The place of the step to be taken next: none goes before it, and of several
/// such it was queued first.
pub open spec fn next_step(q: Seq<Step>) -> int
    decreases q.len(),
{
    if q.len() <= 1 {
        0
    } else {
        let b = next_step(q.drop_last());
        if goes_first(q.last(), q[b]) {
            q.len() - 1
        } else {
            b
        }
    }
}

/// A node has been taken.
pub open spec fn taken(reached: Seq<Reached>, node: u32) -> bool {
    exists|i: int| 0 <= i < reached.len() && (#[trigger] reached[i]).node == node
}

/// A list of children with one more put before the first that it outranks.
pub open spec fn placed(nodes: Seq<Node>, s: Seq<u32>, x: u32) -> Seq<u32>
    decreases s.len(),
{
    if s.len() == 0 {
        seq![x]
    } else if outranks(nodes, x, s[0]) {
        seq![x] + s
    } else {
        seq![s[0]] + placed(nodes, s.drop_first(), x)
    }
}

/// Formula groups come behind the rest: a group's size is an area and a column's
/// is its rows, so the two are not compared. Then the larger comes first, and of
/// two equal ones the lower node.
pub open spec fn outranks(nodes: Seq<Node>, a: u32, b: u32) -> bool {
    let x = nodes[a as int];
    let y = nodes[b as int];
    if x.kind is FormulaGroup != y.kind is FormulaGroup {
        y.kind is FormulaGroup
    } else if x.covered() != y.covered() {
        x.covered() > y.covered()
    } else {
        a < b
    }
}

/// Some children in the order of their rank.
pub open spec fn by_rank(nodes: Seq<Node>, s: Seq<u32>) -> Seq<u32>
    decreases s.len(),
{
    if s.len() == 0 {
        s
    } else {
        placed(nodes, by_rank(nodes, s.drop_last()), s.last())
    }
}

impl Terrain {
    /// The most nodes to take: what the caller allows, and one at least.
    pub open spec fn budget(self) -> nat {
        if self.opts.budget == 0 {
            1
        } else {
            self.opts.budget as nat
        }
    }

    pub open spec fn full(self, w: Walk) -> bool {
        w.reached.len() >= self.budget()
    }

    /// The children that carry a dependency of their own.
    pub open spec fn carrying_children(self, at: u32) -> Seq<u32> {
        contained(self.links, at).filter(|c: u32| carries(self.links, c, self.opts.min_weight))
    }

    /// The steps that a node's dependency edges offer: what it reads, then what
    /// reads it.
    pub open spec fn steps_from(self, at: u32, hops: usize) -> Seq<Step> {
        steps_along(self.links, at, hops, self.opts.min_weight, false) + steps_along(
            self.links,
            at,
            hops,
            self.opts.min_weight,
            true,
        )
    }

    /// The walk with one more node taken.
    pub open spec fn joined(self, w: Walk, r: Reached) -> Walk {
        Walk { reached: w.reached.push(r), ..w }
    }

    /// The walk with one more node taken and waiting.
    pub open spec fn queued(self, w: Walk, r: Reached, asked: bool) -> Walk {
        Walk {
            reached: w.reached.push(r),
            pending: w.pending.push(Waiting { node: r.node, hops: r.hops, asked }),
            ..w
        }
    }

    /// The seeds, in the order in which the index ranked them, so that a budget
    /// that runs out never costs a better-ranked hit for a worse one. A hit on a
    /// node that the graph does not have is passed over.
    pub open spec fn seeded(self, w: Walk, hits: Seq<Hit>) -> Walk
        decreases hits.len(),
    {
        if hits.len() == 0 {
            w
        } else if hits[0].node >= self.nodes.len() {
            self.seeded(w, hits.drop_first())
        } else if self.full(w) {
            Walk { truncated: true, ..w }
        } else if taken(w.reached, hits[0].node) {
            self.seeded(w, hits.drop_first())
        } else {
            let r = Reached {
                node: hits[0].node,
                role: Role::Seed,
                hops: 0,
                score: Some(hits[0].score),
            };
            self.seeded(self.queued(w, r, true), hits.drop_first())
        }
    }

    pub open spec fn start(self, hits: Seq<Hit>) -> Walk {
        let w = Walk {
            reached: Seq::empty(),
            walked: Set::empty(),
            queue: Seq::empty(),
            pending: Seq::empty(),
            level: 0,
            truncated: false,
            over: false,
        };
        self.seeded(w, hits)
    }

    /// The children that carry a dependency, taken and walked from in turn.
    pub open spec fn descended(self, w: Walk, children: Seq<u32>, of: u32, hops: usize) -> Walk
        decreases children.len(),
    {
        if children.len() == 0 {
            w
        } else if taken(w.reached, children[0]) {
            self.descended(w, children.drop_first(), of, hops)
        } else if self.full(w) {
            Walk { truncated: true, ..w }
        } else {
            let r = Reached { node: children[0], role: Role::Child { of }, hops, score: None };
            self.descended(self.queued(w, r, true), children.drop_first(), of, hops)
        }
    }

    /// The containers above a node, taken where they are not yet, each walked
    /// from in turn. More steps than there are nodes go round in a circle, and
    /// the path is then as incomplete as one that the budget stopped.
    pub open spec fn climbed(self, w: Walk, child: u32, hops: usize, left: nat) -> Walk
        decreases left,
    {
        match container(self.links, child) {
            None => w,
            Some(parent) => if left == 0 {
                Walk { truncated: true, ..w }
            } else if taken(w.reached, parent) {
                self.climbed(w, parent, hops, (left - 1) as nat)
            } else if self.full(w) {
                Walk { truncated: true, ..w }
            } else {
                let r = Reached {
                    node: parent,
                    role: Role::Ancestor { of: child },
                    hops,
                    score: None,
                };
                self.climbed(self.queued(w, r, false), parent, hops, (left - 1) as nat)
            },
        }
    }

    /// The contained children of a node that are not taken yet, largest first.
    pub open spec fn ranked_children(self, w: Walk, of: u32) -> Seq<u32> {
        by_rank(self.nodes, contained(self.links, of).filter(|c: u32| !taken(w.reached, c)))
    }

    /// Some children taken, as far as the budget goes.
    pub open spec fn enumerated(self, w: Walk, children: Seq<u32>, of: u32, hops: usize) -> Walk
        decreases children.len(),
    {
        if children.len() == 0 {
            w
        } else if self.full(w) {
            Walk { truncated: true, ..w }
        } else if taken(w.reached, children[0]) {
            self.enumerated(w, children.drop_first(), of, hops)
        } else {
            let r = Reached { node: children[0], role: Role::Child { of }, hops, score: None };
            self.enumerated(self.joined(w, r), children.drop_first(), of, hops)
        }
    }

    /// The largest children of a node taken, up to the cap. The workbook root is
    /// never enumerated: its children are the whole file.
    pub open spec fn with_children(self, w: Walk, of: u32, hops: usize) -> Walk {
        let cap = self.opts.children as int;
        let all = self.ranked_children(w, of);
        if self.nodes[of as int].kind is Workbook {
            w
        } else if all.len() <= cap {
            self.enumerated(w, all, of, hops)
        } else {
            self.enumerated(w, all.take(cap), of, hops)
        }
    }

    /// The node that has waited least is named and walked from.
    pub open spec fn attended(self, w: Walk) -> Walk {
        let e = w.pending.last();
        let fresh = !w.walked.contains(e.node) && e.hops < self.opts.hops;
        let w0 = Walk { pending: w.pending.drop_last(), ..w };
        let w1 = if fresh {
            Walk { queue: w0.queue + self.steps_from(e.node, e.hops), ..w0 }
        } else {
            w0
        };
        let w2 = if fresh && e.asked {
            self.descended(w1, self.carrying_children(e.node), e.node, e.hops)
        } else {
            w1
        };
        let w3 = self.climbed(w2, e.node, e.hops, self.nodes.len());
        let w4 = if self.opts.children > 0 {
            self.with_children(w3, e.node, e.hops)
        } else {
            w3
        };
        Walk { walked: w4.walked.insert(e.node), ..w4 }
    }

    /// What a step makes of the node that it leads to.
    pub open spec fn step_role(self, s: Step) -> Role {
        if s.inbound {
            Role::Dependent { on: s.from, kind: s.kind, weight: s.weight }
        } else {
            Role::Input { of: s.from, kind: s.kind, weight: s.weight }
        }
    }

    /// The next dependency step is taken.
    pub open spec fn stepped(self, w: Walk) -> Walk {
        if w.queue.len() == 0 {
            Walk { over: true, ..w }
        } else {
            let b = next_step(w.queue);
            let s = w.queue[b];
            let w0 = Walk { queue: w.queue.remove(b), level: s.hops, ..w };
            if taken(w0.reached, s.to) {
                w0
            } else if self.full(w0) {
                Walk { truncated: true, over: true, ..w0 }
            } else {
                let r = Reached {
                    node: s.to,
                    role: self.step_role(s),
                    hops: s.hops,
                    score: None,
                };
                self.queued(w0, r, true)
            }
        }
    }

    /// One move of the walk.
    pub open spec fn advanced(self, w: Walk) -> Walk {
        if w.over {
            w
        } else if w.pending.len() > 0 {
            self.attended(w)
        } else {
            self.stepped(w)
        }
    }

    /// The walk after some moves.
    pub open spec fn after(self, w: Walk, n: nat) -> Walk
        decreases n,
    {
        if n == 0 {
            w
        } else {
            self.advanced(self.after(w, (n - 1) as nat))
        }
    }

    /// Where the walk ends.
    pub open spec fn outcome(self, hits: Seq<Hit>) -> Walk {
        self.after(self.start(hits), choose|n: nat| self.after(self.start(hits), n).over)
    }
}

/// The names of the sheets by their number; of two nodes for one sheet the later
/// counts.
pub open spec fn sheet_labels(nodes: Seq<Node>) -> Map<u16, String>
    decreases nodes.len(),
{
    if nodes.len() == 0 {
        Map::empty()
    } else {
        let before = sheet_labels(nodes.drop_last());
        let n = nodes.last();
        match n.sheet {
            Some(id) if n.kind is Sheet => before.insert(id.0, n.label),
            _ => before,
        }
    }
}

/// A range with its sheet in front: the sheet's name where the graph has it, its
/// number otherwise.
pub open spec fn citation(labels: Map<u16, String>, range: RangeRef) -> Seq<char> {
    if labels.contains_key(range.sheet.0) {
        address::cited(labels[range.sheet.0]@, range.local_a1())
    } else {
        range.sheet.shown().push('!') + range.local_a1()
    }
}

/// The node containing another, where the walk took it too.
pub open spec fn parent_among(links: Seq<Link>, reached: Seq<Reached>, at: u32) -> Option<u32> {
    match container(links, at) {
        Some(p) if taken(reached, p) => Some(p),
        _ => None,
    }
}

/// What is told of a node that the walk took, under a parent.
pub open spec fn describes(
    d: RetrievedNode,
    nodes: Seq<Node>,
    r: Reached,
    parent: Option<u32>,
) -> bool {
    let n = nodes[r.node as int];
    let labels = sheet_labels(nodes);
    &&& d.node == r.node
    &&& d.kind == n.kind
    &&& d.label@ == n.label@
    &&& address::opt_view(d.a1) == (match n.range {
        Some(range) => Some(citation(labels, range)),
        None => None,
    })
    &&& address::opt_view(d.sheet) == (match n.sheet {
        Some(id) if labels.contains_key(id.0) => Some(labels[id.0]@),
        _ => None,
    })
    &&& d.parent == parent
    &&& d.role == r.role
    &&& d.hops == r.hops
    &&& d.score == r.score
}

// ---------------------------------------------------------------------------
// Reading the graph.

/// The node containing this one, following containment only.
fn containing(g: &WorkbookGraph, at: u32) -> (r: Option<u32>)
    requires
        at < g.nodes().len(),
    ensures
        r == container(g.links(), at),
        r matches Some(p) ==> p < g.nodes().len(),
{
    let edges: Vec<Link> = g.edges(at, true);
    let ghost s = edges@;
    proof {
        graph::lemma_edges_at(g.links(), at, true);
        assert(s.skip(0) =~= s);
    }
    let mut i: usize = 0;
    while i < edges.len()
        invariant
            s == edges@,
            s == graph::edges_at(g.links(), at, true),
            g.is_sound(),
            forall|k: int| 0 <= k < s.len() ==> g.links().contains(#[trigger] s[k]),
            i <= s.len(),
            first_container(s) == first_container(s.skip(i as int)),
        decreases s.len() - i,
    {
        if edges[i].edge.kind == EdgeKind::Contains {
            proof {
                assert(g.links().contains(s[i as int]));
                let j = choose|j: int| 0 <= j < g.links().len() && g.links()[j] == s[i as int];
                assert(g.links()[j].from < g.nodes().len());
            }
            return Some(edges[i].from);
        }
        assert(s.skip(i as int).drop_first() =~= s.skip(i + 1));
        i += 1;
    }
    None
}

/// The nodes that a node contains, the one added last first.
fn children_of(g: &WorkbookGraph, at: u32) -> (r: Vec<u32>)
    requires
        at < g.nodes().len(),
    ensures
        r@ == contained(g.links(), at),
        forall|i: int| 0 <= i < r@.len() ==> (#[trigger] r@[i]) < g.nodes().len(),
{
    let edges: Vec<Link> = g.edges(at, false);
    let ghost s = edges@;
    let ghost keep = |l: Link| l.edge.kind is Contains;
    let ghost far = |l: Link| l.to;
    let mut out: Vec<u32> = Vec::new();
    proof {
        graph::lemma_edges_at(g.links(), at, false);
        reveal(Seq::filter);
        assert(s.take(0).filter(keep).map_values(far) =~= Seq::<u32>::empty());
    }
    let mut i: usize = 0;
    while i < edges.len()
        invariant
            s == edges@,
            keep == (|l: Link| l.edge.kind is Contains),
            far == (|l: Link| l.to),
            g.is_sound(),
            forall|k: int| 0 <= k < s.len() ==> g.links().contains(#[trigger] s[k]),
            i <= s.len(),
            out@ == s.take(i as int).filter(keep).map_values(far),
            forall|k: int| 0 <= k < out@.len() ==> (#[trigger] out@[k]) < g.nodes().len(),
        decreases s.len() - i,
    {
        proof {
            reveal(Seq::filter);
            assert(s.take(i + 1).drop_last() =~= s.take(i as int));
            assert(s.take(i + 1).last() == s[i as int]);
            assert(g.links().contains(s[i as int]));
            let j = choose|j: int| 0 <= j < g.links().len() && g.links()[j] == s[i as int];
            assert(g.links()[j].to < g.nodes().len());
        }
        if edges[i].edge.kind == EdgeKind::Contains {
            out.push(edges[i].to);
            assert(out@ =~= s.take(i + 1).filter(keep).map_values(far));
        }
        i += 1;
    }
    assert(s.take(i as int) =~= s);
    out
}

/// Whether a node has a dependency edge that a walk follows.
fn carries_dependency(g: &WorkbookGraph, at: u32, min_weight: u64) -> (r: bool)
    requires
        at < g.nodes().len(),
    ensures
        r == carries(g.links(), at, min_weight),
{
    any_followed(g, at, min_weight, false) || any_followed(g, at, min_weight, true)
}

fn any_followed(g: &WorkbookGraph, at: u32, min_weight: u64, inbound: bool) -> (r: bool)
    requires
        at < g.nodes().len(),
    ensures
        r == exists|i: int|
            0 <= i < g.links().len() && followed(#[trigger] g.links()[i], min_weight) && (
            if inbound {
                g.links()[i].to == at
            } else {
                g.links()[i].from == at
            }),
{
    let edges: Vec<Link> = g.edges(at, inbound);
    let ghost s = edges@;
    let ghost links = g.links();
    proof {
        graph::lemma_edges_at(links, at, inbound);
    }
    let mut i: usize = 0;
    while i < edges.len()
        invariant
            s == edges@,
            links == g.links(),
            forall|k: int|
                0 <= k < s.len() ==> links.contains(#[trigger] s[k]) && (if inbound {
                    s[k].to == at
                } else {
                    s[k].from == at
                }),
            i <= s.len(),
            forall|k: int| 0 <= k < i ==> !followed(#[trigger] s[k], min_weight),
        decreases s.len() - i,
    {
        if !edges[i].edge.kind.is_structural() && edges[i].edge.weight >= min_weight {
            proof {
                assert(links.contains(s[i as int]));
                let j = choose|j: int| 0 <= j < links.len() && links[j] == s[i as int];
                assert(followed(links[j], min_weight));
            }
            return true;
        }
        i += 1;
    }
    proof {
        assert forall|j: int|
            0 <= j < links.len() && (if inbound {
                links[j].to == at
            } else {
                links[j].from == at
            }) implies !followed(#[trigger] links[j], min_weight) by {
            assert(links.contains(links[j]));
            let k = choose|k: int| 0 <= k < s.len() && s[k] == links[j];
            assert(!followed(s[k], min_weight));
        }
    }
    false
}

/// The children of a node that carry a dependency edge of their own.
///
/// Empty for a region, whose children are columns, and empty for a workbook,
/// whose children are sheets, so this reaches regions from a sheet and nothing
/// else, which is the level the edges live at.
fn dependency_carrying_children(g: &WorkbookGraph, of: u32, opts: &ExpandOptions) -> (r: Vec<u32>)
    requires
        of < g.nodes().len(),
    ensures
        r@ == (Terrain { nodes: g.nodes(), links: g.links(), opts: *opts }).carrying_children(of),
        forall|i: int| 0 <= i < r@.len() ==> (#[trigger] r@[i]) < g.nodes().len(),
{
    let all: Vec<u32> = children_of(g, of);
    let ghost keep = |c: u32| carries(g.links(), c, opts.min_weight);
    let mut out: Vec<u32> = Vec::new();
    proof {
        reveal(Seq::filter);
        assert(all@.take(0).filter(keep) =~= Seq::<u32>::empty());
    }
    let mut i: usize = 0;
    while i < all.len()
        invariant
            keep == (|c: u32| carries(g.links(), c, opts.min_weight)),
            forall|k: int| 0 <= k < all@.len() ==> (#[trigger] all@[k]) < g.nodes().len(),
            i <= all@.len(),
            out@ == all@.take(i as int).filter(keep),
            forall|k: int| 0 <= k < out@.len() ==> (#[trigger] out@[k]) < g.nodes().len(),
        decreases all@.len() - i,
    {
        proof {
            reveal(Seq::filter);
            assert(all@.take(i + 1).drop_last() =~= all@.take(i as int));
            assert(all@.take(i + 1).last() == all@[i as int]);
        }
        if carries_dependency(g, all[i], opts.min_weight) {
            out.push(all[i]);
        }
        i += 1;
    }
    assert(all@.take(i as int) =~= all@);
    out
}

/// Queue every dependency edge at a node, in one direction.
fn push_steps(
    g: &WorkbookGraph,
    at: u32,
    hops: usize,
    opts: &ExpandOptions,
    inbound: bool,
    queue: &mut Vec<Step>,
)
    requires
        at < g.nodes().len(),
        hops < opts.hops,
    ensures
        final(queue)@ == old(queue)@ + steps_along(
            g.links(),
            at,
            hops,
            opts.min_weight,
            inbound,
        ),
        forall|i: int|
            old(queue)@.len() <= i < final(queue)@.len() ==> (#[trigger] final(queue)@[i]).from == at
                && final(queue)@[i].to < g.nodes().len(),
{
    let edges: Vec<Link> = g.edges(at, inbound);
    let ghost s = edges@;
    let ghost keep = |l: Link| followed(l, opts.min_weight);
    let ghost along = |l: Link| step_along(l, at, hops, inbound);
    let ghost before = queue@;
    proof {
        graph::lemma_edges_at(g.links(), at, inbound);
        reveal(Seq::filter);
        assert(before + s.take(0).filter(keep).map_values(along) =~= before);
    }
    let mut i: usize = 0;
    while i < edges.len()
        invariant
            s == edges@,
            hops < opts.hops,
            keep == (|l: Link| followed(l, opts.min_weight)),
            along == (|l: Link| step_along(l, at, hops, inbound)),
            g.is_sound(),
            forall|k: int| 0 <= k < s.len() ==> g.links().contains(#[trigger] s[k]),
            i <= s.len(),
            queue@ == before + s.take(i as int).filter(keep).map_values(along),
            forall|k: int|
                before.len() <= k < queue@.len() ==> (#[trigger] queue@[k]).from == at
                    && queue@[k].to < g.nodes().len(),
        decreases s.len() - i,
    {
        let l: Link = edges[i];
        proof {
            reveal(Seq::filter);
            assert(s.take(i + 1).drop_last() =~= s.take(i as int));
            assert(s.take(i + 1).last() == s[i as int]);
            assert(g.links().contains(s[i as int]));
            let j = choose|j: int| 0 <= j < g.links().len() && g.links()[j] == s[i as int];
            assert(g.links()[j].to < g.nodes().len() && g.links()[j].from < g.nodes().len());
        }
        if !l.edge.kind.is_structural() && l.edge.weight >= opts.min_weight {
            let to: u32 = if inbound {
                l.from
            } else {
                l.to
            };
            queue.push(
                Step {
                    weight: l.edge.weight,
                    hops: hops + 1,
                    from: at,
                    to,
                    kind: l.edge.kind,
                    inbound,
                },
            );
            assert(queue@ =~= before + s.take(i + 1).filter(keep).map_values(along));
        }
        i += 1;
    }
    assert(s.take(i as int) =~= s);
}

/// Queue every dependency edge at a node, in both directions.
fn push_dependencies(
    g: &WorkbookGraph,
    at: u32,
    hops: usize,
    opts: &ExpandOptions,
    queue: &mut Vec<Step>,
)
    requires
        at < g.nodes().len(),
        hops < opts.hops,
    ensures
        final(queue)@ == old(queue)@ + (Terrain {
            nodes: g.nodes(),
            links: g.links(),
            opts: *opts,
        }).steps_from(at, hops),
        forall|i: int|
            old(queue)@.len() <= i < final(queue)@.len() ==> (#[trigger] final(queue)@[i]).from == at
                && final(queue)@[i].to < g.nodes().len(),
{
    let ghost before = queue@;
    push_steps(g, at, hops, opts, false, queue);
    push_steps(g, at, hops, opts, true, queue);
    assert(queue@ =~= before + (steps_along(g.links(), at, hops, opts.min_weight, false)
        + steps_along(g.links(), at, hops, opts.min_weight, true)));
}

/// The names of the sheets by their number.
fn sheet_names(g: &WorkbookGraph) -> (r: FxHashMap<u16, String>)
    ensures
        r@ == sheet_labels(g.nodes()),
{
    let mut out: FxHashMap<u16, String> = FxHashMap::default();
    let count: usize = g.node_count();
    let ghost nodes = g.nodes();
    let mut i: usize = 0;
    while i < count
        invariant
            nodes == g.nodes(),
            count == nodes.len(),
            count <= u32::MAX,
            i <= count,
            out@ == sheet_labels(nodes.take(i as int)),
        decreases count - i,
    {
        let n: &Node = g.node(i as u32);
        proof {
            assert(nodes.take(i + 1).drop_last() =~= nodes.take(i as int));
            assert(nodes.take(i + 1).last() == nodes[i as int]);
        }
        if n.kind == NodeKind::Sheet {
            if let Some(id) = n.sheet {
                fx::map_insert(&mut out, id.0, n.label.clone());
            }
        }
        i += 1;
    }
    assert(nodes.take(i as int) =~= nodes);
    out
}

fn cite(range: &RangeRef, sheets: &FxHashMap<u16, String>) -> (r: String)
    ensures
        r@ == citation(sheets@, *range),
{
    match fx::map_get(sheets, &range.sheet.0) {
        Some(name) => range.to_a1_with_sheet(name.as_str()),
        None => {
            let mut out: String = range.sheet.to_text();
            out.push('!');
            out.push_str(range.to_a1().as_str());
            out
        },
    }
}

fn describe(
    g: &WorkbookGraph,
    at: u32,
    sheets: &FxHashMap<u16, String>,
    role: Role,
    hops: usize,
    score: Option<u32>,
) -> (r: RetrievedNode)
    requires
        at < g.nodes().len(),
        sheets@ == sheet_labels(g.nodes()),
    ensures
        describes(
            r,
            g.nodes(),
            Reached { node: at, role, hops, score },
            container(g.links(), at),
        ),
{
    let n: &Node = g.node(at);
    let a1: Option<String> = match &n.range {
        Some(range) => Some(cite(range, sheets)),
        None => None,
    };
    let sheet: Option<String> = match n.sheet {
        Some(id) => match fx::map_get(sheets, &id.0) {
            Some(name) => Some(name.clone()),
            None => None,
        },
        None => None,
    };
    RetrievedNode {
        node: at,
        kind: n.kind,
        label: n.label.clone(),
        a1,
        sheet,
        parent: containing(g, at),
        role,
        hops,
        score,
    }
}

// ---------------------------------------------------------------------------
// Walking.

impl Terrain {
    /// Every node that a walk speaks of is one of the graph's.
    pub open spec fn within(self, w: Walk) -> bool {
        &&& forall|i: int|
            0 <= i < w.reached.len() ==> (#[trigger] w.reached[i]).node < self.nodes.len()
        &&& forall|i: int|
            0 <= i < w.pending.len() ==> (#[trigger] w.pending[i]).node < self.nodes.len()
        &&& forall|i: int|
            0 <= i < w.queue.len() ==> (#[trigger] w.queue[i]).to < self.nodes.len()
    }
}

/// What is noted of the nodes that a walk has taken while it goes on, each with
/// the node that contains it.
spec fn notes(
    told: Seq<RetrievedNode>,
    nodes: Seq<Node>,
    links: Seq<Link>,
    reached: Seq<Reached>,
) -> bool {
    told.len() == reached.len() && forall|i: int|
        0 <= i < told.len() ==> describes(
            #[trigger] told[i],
            nodes,
            reached[i],
            container(links, reached[i].node),
        )
}

/// What is told of all the nodes that a walk took. A node is said to be contained
/// only by one that is told of too.
pub open spec fn tells(
    told: Seq<RetrievedNode>,
    nodes: Seq<Node>,
    links: Seq<Link>,
    reached: Seq<Reached>,
) -> bool {
    told.len() == reached.len() && forall|i: int|
        0 <= i < told.len() ==> describes(
            #[trigger] told[i],
            nodes,
            reached[i],
            parent_among(links, reached, reached[i].node),
        )
}

/// Leave out every parent that was not taken.
fn settle_parents(
    told: Vec<RetrievedNode>,
    all: &FxHashSet<u32>,
    Ghost(t): Ghost<Terrain>,
    Ghost(reached): Ghost<Seq<Reached>>,
) -> (r: Vec<RetrievedNode>)
    requires
        notes(told@, t.nodes, t.links, reached),
        forall|n: u32| #[trigger] all@.contains(n) <==> taken(reached, n),
    ensures
        tells(r@, t.nodes, t.links, reached),
{
    let mut out: Vec<RetrievedNode> = told;
    let count: usize = out.len();
    let mut i: usize = 0;
    while i < count
        invariant
            count == out@.len(),
            count == reached.len(),
            i <= count,
            forall|n: u32| #[trigger] all@.contains(n) <==> taken(reached, n),
            forall|k: int|
                0 <= k < i ==> describes(
                    #[trigger] out@[k],
                    t.nodes,
                    reached[k],
                    parent_among(t.links, reached, reached[k].node),
                ),
            forall|k: int|
                i <= k < count ==> describes(
                    #[trigger] out@[k],
                    t.nodes,
                    reached[k],
                    container(t.links, reached[k].node),
                ),
        decreases count - i,
    {
        let kept: bool = match out[i].parent {
            Some(p) => fx::set_contains(all, &p),
            None => true,
        };
        if !kept {
            let ghost before = out@;
            out[i].parent = None;
            assert(out@ =~= before.update(
                i as int,
                RetrievedNode { parent: None, ..before[i as int] },
            ));
        }
        i += 1;
    }
    out
}

/// What a walk has collected so far.
struct Collected {
    budget: usize,
    taken: FxHashSet<u32>,
    nodes: Vec<RetrievedNode>,
    walked: FxHashSet<u32>,
    queue: Vec<Step>,
    pending: Vec<Waiting>,
    truncated: bool,
}

impl Collected {
    spec fn stands(self, t: Terrain, w: Walk) -> bool {
        &&& self.budget == t.budget()
        &&& notes(self.nodes@, t.nodes, t.links, w.reached)
        &&& forall|n: u32| #[trigger] self.taken@.contains(n) <==> taken(w.reached, n)
        &&& self.walked@ == w.walked
        &&& self.queue@ == w.queue
        &&& self.pending@ == w.pending
        &&& self.truncated == w.truncated
        &&& t.within(w)
    }

    fn full(&self, Ghost(t): Ghost<Terrain>, Ghost(w): Ghost<Walk>) -> (r: bool)
        requires
            self.stands(t, w),
        ensures
            r == t.full(w),
    {
        self.nodes.len() >= self.budget
    }

    /// Take a node that is not taken yet.
    fn join(
        &mut self,
        g: &WorkbookGraph,
        sheets: &FxHashMap<u16, String>,
        at: u32,
        role: Role,
        hops: usize,
        score: Option<u32>,
        Ghost(t): Ghost<Terrain>,
        Ghost(w): Ghost<Walk>,
    )
        requires
            old(self).stands(t, w),
            t.nodes == g.nodes(),
            t.links == g.links(),
            at < g.nodes().len(),
            sheets@ == sheet_labels(g.nodes()),
        ensures
            final(self).stands(t, t.joined(w, Reached { node: at, role, hops, score })),
    {
        let ghost r = Reached { node: at, role, hops, score };
        let told: RetrievedNode = describe(g, at, sheets, role, hops, score);
        fx::set_insert(&mut self.taken, at);
        self.nodes.push(told);
        proof {
            let next = w.reached.push(r);
            assert forall|n: u32| #[trigger] self.taken@.contains(n) <==> taken(next, n) by {
                lemma_taken_push(w.reached, r, n);
            }
        }
    }

    /// Take a node that is not taken yet, and let it wait to be walked from.
    fn queue_up(
        &mut self,
        g: &WorkbookGraph,
        sheets: &FxHashMap<u16, String>,
        at: u32,
        role: Role,
        hops: usize,
        score: Option<u32>,
        asked: bool,
        Ghost(t): Ghost<Terrain>,
        Ghost(w): Ghost<Walk>,
    )
        requires
            old(self).stands(t, w),
            t.nodes == g.nodes(),
            t.links == g.links(),
            at < g.nodes().len(),
            sheets@ == sheet_labels(g.nodes()),
        ensures
            final(self).stands(t, t.queued(w, Reached { node: at, role, hops, score }, asked)),
    {
        self.join(g, sheets, at, role, hops, score, Ghost(t), Ghost(w));
        self.pending.push(Waiting { node: at, hops, asked });
    }

    /// Seeds first, in the order the index ranked them.
    fn take_seeds(
        &mut self,
        g: &WorkbookGraph,
        sheets: &FxHashMap<u16, String>,
        hits: &Vec<Hit>,
        Ghost(t): Ghost<Terrain>,
        Ghost(w): Ghost<Walk>,
    )
        requires
            old(self).stands(t, w),
            t.nodes == g.nodes(),
            t.links == g.links(),
            sheets@ == sheet_labels(g.nodes()),
        ensures
            final(self).stands(t, t.seeded(w, hits@)),
    {
        let count: usize = g.node_count();
        let ghost mut v = w;
        assert(hits@.skip(0) =~= hits@);
        let mut i: usize = 0;
        while i < hits.len()
            invariant
                self.stands(t, v),
                t.nodes == g.nodes(),
                t.links == g.links(),
                count == g.nodes().len(),
                sheets@ == sheet_labels(g.nodes()),
                i <= hits@.len(),
                t.seeded(w, hits@) == t.seeded(v, hits@.skip(i as int)),
            decreases hits@.len() - i,
        {
            let hit: &Hit = &hits[i];
            proof {
                assert(hits@.skip(i as int).drop_first() =~= hits@.skip(i + 1));
                assert(hits@.skip(i as int)[0] == hits@[i as int]);
            }
            if (hit.node as usize) < count {
                if self.full(Ghost(t), Ghost(v)) {
                    self.truncated = true;
                    return;
                }
                if !fx::set_contains(&self.taken, &hit.node) {
                    let score: Option<u32> = Some(hit.score);
                    self.queue_up(g, sheets, hit.node, Role::Seed, 0, score, true, Ghost(t), Ghost(v));
                    proof {
                        v =
                        t.queued(v, Reached { node: hit.node, role: Role::Seed, hops: 0, score }, true);
                    }
                }
            }
            i += 1;
        }
    }

    /// Take the children that carry a dependency.
    fn descend(
        &mut self,
        g: &WorkbookGraph,
        sheets: &FxHashMap<u16, String>,
        children: &Vec<u32>,
        of: u32,
        hops: usize,
        Ghost(t): Ghost<Terrain>,
        Ghost(w): Ghost<Walk>,
    )
        requires
            old(self).stands(t, w),
            t.nodes == g.nodes(),
            t.links == g.links(),
            sheets@ == sheet_labels(g.nodes()),
            forall|i: int| 0 <= i < children@.len() ==> (#[trigger] children@[i]) < g.nodes().len(),
        ensures
            final(self).stands(t, t.descended(w, children@, of, hops)),
    {
        let ghost mut v = w;
        assert(children@.skip(0) =~= children@);
        let mut i: usize = 0;
        while i < children.len()
            invariant
                self.stands(t, v),
                t.nodes == g.nodes(),
                t.links == g.links(),
                sheets@ == sheet_labels(g.nodes()),
                forall|i: int|
                    0 <= i < children@.len() ==> (#[trigger] children@[i]) < g.nodes().len(),
                i <= children@.len(),
                t.descended(w, children@, of, hops) == t.descended(
                    v,
                    children@.skip(i as int),
                    of,
                    hops,
                ),
            decreases children@.len() - i,
        {
            let child: u32 = children[i];
            proof {
                assert(children@.skip(i as int).drop_first() =~= children@.skip(i + 1));
                assert(children@.skip(i as int)[0] == child);
            }
            if !fx::set_contains(&self.taken, &child) {
                if self.full(Ghost(t), Ghost(v)) {
                    self.truncated = true;
                    return;
                }
                let role: Role = Role::Child { of };
                self.queue_up(g, sheets, child, role, hops, None, true, Ghost(t), Ghost(v));
                proof {
                    v = t.queued(v, Reached { node: child, role, hops, score: None }, true);
                }
            }
            i += 1;
        }
    }

    /// Walk up the containment tree, taking whatever is not taken yet.
    fn add_ancestry(
        &mut self,
        g: &WorkbookGraph,
        sheets: &FxHashMap<u16, String>,
        from: u32,
        hops: usize,
        Ghost(t): Ghost<Terrain>,
        Ghost(w): Ghost<Walk>,
    )
        requires
            old(self).stands(t, w),
            t.nodes == g.nodes(),
            t.links == g.links(),
            sheets@ == sheet_labels(g.nodes()),
            from < g.nodes().len(),
        ensures
            final(self).stands(t, t.climbed(w, from, hops, t.nodes.len())),
    {
        let mut left: usize = g.node_count();
        let mut child: u32 = from;
        let ghost mut v = w;
        loop
            invariant
                self.stands(t, v),
                t.nodes == g.nodes(),
                t.links == g.links(),
                sheets@ == sheet_labels(g.nodes()),
                child < g.nodes().len(),
                t.climbed(w, from, hops, t.nodes.len()) == t.climbed(v, child, hops, left as nat),
            decreases left,
        {
            let parent: u32 = match containing(g, child) {
                Some(p) => p,
                None => return,
            };
            if left == 0 {
                self.truncated = true;
                return;
            }
            if !fx::set_contains(&self.taken, &parent) {
                if self.full(Ghost(t), Ghost(v)) {
                    self.truncated = true;
                    return;
                }
                let role: Role = Role::Ancestor { of: child };
                self.queue_up(g, sheets, parent, role, hops, None, false, Ghost(t), Ghost(v));
                proof {
                    v = t.queued(v, Reached { node: parent, role, hops, score: None }, false);
                }
            }
            left -= 1;
            child = parent;
        }
    }

    /// The contained children of a node that are not taken yet, largest first.
    fn untaken_children(
        &self,
        g: &WorkbookGraph,
        of: u32,
        Ghost(t): Ghost<Terrain>,
        Ghost(w): Ghost<Walk>,
    ) -> (r: Vec<u32>)
        requires
            self.stands(t, w),
            t.nodes == g.nodes(),
            t.links == g.links(),
            of < g.nodes().len(),
        ensures
            r@ == t.ranked_children(w, of),
            forall|i: int| 0 <= i < r@.len() ==> (#[trigger] r@[i]) < g.nodes().len(),
    {
        let all: Vec<u32> = children_of(g, of);
        let ghost keep = |c: u32| !taken(w.reached, c);
        let mut out: Vec<u32> = Vec::new();
        proof {
            reveal(Seq::filter);
            assert(all@.take(0).filter(keep) =~= Seq::<u32>::empty());
        }
        let mut i: usize = 0;
        while i < all.len()
            invariant
                self.stands(t, w),
                t.nodes == g.nodes(),
                keep == (|c: u32| !taken(w.reached, c)),
                forall|k: int| 0 <= k < all@.len() ==> (#[trigger] all@[k]) < g.nodes().len(),
                i <= all@.len(),
                out@ == by_rank(t.nodes, all@.take(i as int).filter(keep)),
                forall|k: int| 0 <= k < out@.len() ==> (#[trigger] out@[k]) < g.nodes().len(),
            decreases all@.len() - i,
        {
            let child: u32 = all[i];
            let ghost kept = all@.take(i as int).filter(keep);
            proof {
                reveal(Seq::filter);
                assert(all@.take(i + 1).drop_last() =~= all@.take(i as int));
                assert(all@.take(i + 1).last() == child);
            }
            if !fx::set_contains(&self.taken, &child) {
                place_child(g, &mut out, child);
                assert(kept.push(child).drop_last() =~= kept);
            }
            i += 1;
        }
        assert(all@.take(i as int) =~= all@);
        out
    }

    /// Take the largest contained children of a node, up to the cap. Running out
    /// of children is not truncation: that is the cap doing its job.
    fn add_children(
        &mut self,
        g: &WorkbookGraph,
        sheets: &FxHashMap<u16, String>,
        of: u32,
        hops: usize,
        opts: &ExpandOptions,
        Ghost(t): Ghost<Terrain>,
        Ghost(w): Ghost<Walk>,
    )
        requires
            old(self).stands(t, w),
            t.nodes == g.nodes(),
            t.links == g.links(),
            t.opts == *opts,
            sheets@ == sheet_labels(g.nodes()),
            of < g.nodes().len(),
        ensures
            final(self).stands(t, t.with_children(w, of, hops)),
    {
        if g.node(of).kind == NodeKind::Workbook {
            return;
        }
        let children: Vec<u32> = self.untaken_children(g, of, Ghost(t), Ghost(w));
        let cap: usize = if children.len() <= opts.children {
            children.len()
        } else {
            opts.children
        };
        let ghost s = children@.take(cap as int);
        let ghost mut v = w;
        proof {
            assert(s.skip(0) =~= s);
            assert(cap == children@.len() ==> s =~= children@);
        }
        let mut i: usize = 0;
        while i < cap
            invariant
                self.stands(t, v),
                t.nodes == g.nodes(),
                t.links == g.links(),
                sheets@ == sheet_labels(g.nodes()),
                cap <= children@.len(),
                s == children@.take(cap as int),
                forall|i: int|
                    0 <= i < children@.len() ==> (#[trigger] children@[i]) < g.nodes().len(),
                i <= cap,
                t.with_children(w, of, hops) == t.enumerated(w, s, of, hops),
                t.enumerated(w, s, of, hops) == t.enumerated(v, s.skip(i as int), of, hops),
            decreases cap - i,
        {
            let child: u32 = children[i];
            proof {
                assert(s.skip(i as int).drop_first() =~= s.skip(i + 1));
                assert(s.skip(i as int)[0] == child);
            }
            if self.full(Ghost(t), Ghost(v)) {
                self.truncated = true;
                return;
            }
            if !fx::set_contains(&self.taken, &child) {
                let role: Role = Role::Child { of };
                self.join(g, sheets, child, role, hops, None, Ghost(t), Ghost(v));
                proof {
                    v = t.joined(v, Reached { node: child, role, hops, score: None });
                }
            }
            i += 1;
        }
    }

    /// Name the node that has waited least, and queue what it leads to.
    fn attend(
        &mut self,
        g: &WorkbookGraph,
        sheets: &FxHashMap<u16, String>,
        opts: &ExpandOptions,
        Ghost(t): Ghost<Terrain>,
        Ghost(w): Ghost<Walk>,
    )
        requires
            old(self).stands(t, w),
            t.nodes == g.nodes(),
            t.links == g.links(),
            t.opts == *opts,
            sheets@ == sheet_labels(g.nodes()),
            w.pending.len() > 0,
        ensures
            final(self).stands(t, t.attended(w)),
    {
        let ghost mut v = Walk { pending: w.pending.drop_last(), ..w };
        let e: Waiting = match self.pending.pop() {
            Some(e) => e,
            None => return,
        };
        assert(e == w.pending.last());
        assert(e.node < t.nodes.len());
        let known: bool = fx::set_contains(&self.walked, &e.node);
        let fresh: bool = !known && e.hops < opts.hops;
        assert(self.stands(t, v));
        if fresh {
            push_dependencies(g, e.node, e.hops, opts, &mut self.queue);
            proof {
                v = Walk { queue: v.queue + t.steps_from(e.node, e.hops), ..v };
                assert(self.stands(t, v));
            }
            if e.asked {
                let below: Vec<u32> = dependency_carrying_children(g, e.node, opts);
                self.descend(g, sheets, &below, e.node, e.hops, Ghost(t), Ghost(v));
                proof {
                    v = t.descended(v, t.carrying_children(e.node), e.node, e.hops);
                }
            }
        }
        self.add_ancestry(g, sheets, e.node, e.hops, Ghost(t), Ghost(v));
        proof {
            v = t.climbed(v, e.node, e.hops, t.nodes.len());
        }
        if opts.children > 0 {
            self.add_children(g, sheets, e.node, e.hops, opts, Ghost(t), Ghost(v));
            proof {
                v = t.with_children(v, e.node, e.hops);
            }
        }
        fx::set_insert(&mut self.walked, e.node);
    }

    /// Take the next dependency step; false where the walk is over.
    fn step(
        &mut self,
        g: &WorkbookGraph,
        sheets: &FxHashMap<u16, String>,
        Ghost(t): Ghost<Terrain>,
        Ghost(w): Ghost<Walk>,
    ) -> (r: bool)
        requires
            old(self).stands(t, w),
            t.nodes == g.nodes(),
            t.links == g.links(),
            sheets@ == sheet_labels(g.nodes()),
            !w.over,
        ensures
            final(self).stands(t, t.stepped(w)),
            r == !t.stepped(w).over,
    {
        if self.queue.len() == 0 {
            return false;
        }
        let mut best: usize = 0;
        let mut i: usize = 1;
        while i < self.queue.len()
            invariant
                self.queue@ == w.queue,
                1 <= i <= w.queue.len(),
                best < i,
                best == next_step(w.queue.take(i as int)),
            decreases w.queue.len() - i,
        {
            proof {
                assert(w.queue.take(i + 1).drop_last() =~= w.queue.take(i as int));
                assert(w.queue.take(i as int)[best as int] == w.queue[best as int]);
            }
            if comes_first(&self.queue[i], &self.queue[best]) {
                best = i;
            }
            i += 1;
        }
        assert(w.queue.take(i as int) =~= w.queue);
        let ghost s0 = w.queue[best as int];
        assert(s0.to < t.nodes.len());
        let s: Step = self.queue.remove(best);
        let ghost v = Walk { queue: w.queue.remove(best as int), level: s.hops, ..w };
        assert(self.stands(t, v)) by {
            assert forall|k: int| 0 <= k < v.queue.len() implies (#[trigger] v.queue[k]).to
                < t.nodes.len() by {
                if k < best {
                    assert(v.queue[k] == w.queue[k]);
                } else {
                    assert(v.queue[k] == w.queue[k + 1]);
                }
            }
        }
        if fx::set_contains(&self.taken, &s.to) {
            return true;
        }
        if self.full(Ghost(t), Ghost(v)) {
            self.truncated = true;
            return false;
        }
        let role: Role = if s.inbound {
            Role::Dependent { on: s.from, kind: s.kind, weight: s.weight }
        } else {
            Role::Input { of: s.from, kind: s.kind, weight: s.weight }
        };
        self.queue_up(g, sheets, s.to, role, s.hops, None, true, Ghost(t), Ghost(v));
        true
    }
}

/// Whether a step is to be taken before another.
fn comes_first(a: &Step, b: &Step) -> (r: bool)
    ensures
        r == goes_first(*a, *b),
{
    a.hops < b.hops || (a.hops == b.hops && (a.weight > b.weight || (a.weight == b.weight && a.to
        < b.to)))
}

fn is_outranking(g: &WorkbookGraph, a: u32, b: u32) -> (r: bool)
    requires
        a < g.nodes().len(),
        b < g.nodes().len(),
    ensures
        r == outranks(g.nodes(), a, b),
{
    let x: &Node = g.node(a);
    let y: &Node = g.node(b);
    let x_group: bool = x.kind == NodeKind::FormulaGroup;
    let y_group: bool = y.kind == NodeKind::FormulaGroup;
    if x_group != y_group {
        y_group
    } else if x.cells() != y.cells() {
        x.cells() > y.cells()
    } else {
        a < b
    }
}

/// Put a child before the first that it outranks.
fn place_child(g: &WorkbookGraph, out: &mut Vec<u32>, child: u32)
    requires
        child < g.nodes().len(),
        forall|i: int| 0 <= i < old(out)@.len() ==> (#[trigger] old(out)@[i]) < g.nodes().len(),
    ensures
        final(out)@ == placed(g.nodes(), old(out)@, child),
        forall|i: int| 0 <= i < final(out)@.len() ==> (#[trigger] final(out)@[i]) < g.nodes().len(),
{
    let ghost s = out@;
    let ghost nodes = g.nodes();
    let mut p: usize = 0;
    assert(s.take(0) + placed(nodes, s.skip(0), child) =~= placed(nodes, s, child)) by {
        assert(s.skip(0) =~= s);
    }
    while p < out.len() && !is_outranking(g, child, out[p])
        invariant
            s == out@,
            nodes == g.nodes(),
            child < nodes.len(),
            forall|i: int| 0 <= i < s.len() ==> (#[trigger] s[i]) < nodes.len(),
            p <= s.len(),
            placed(nodes, s, child) == s.take(p as int) + placed(
                nodes,
                s.skip(p as int),
                child,
            ),
        decreases s.len() - p,
    {
        proof {
            let rest = s.skip(p as int);
            assert(rest.drop_first() =~= s.skip(p + 1));
            assert(s.take(p as int) + (seq![rest[0]] + placed(nodes, s.skip(p + 1), child))
                =~= s.take(p + 1) + placed(nodes, s.skip(p + 1), child));
        }
        p += 1;
    }
    out.insert(p, child);
    proof {
        assert(out@ =~= s.take(p as int) + (seq![child] + s.skip(p as int)));
        if p == s.len() {
            assert(seq![child] + s.skip(p as int) =~= seq![child]);
        }
        assert forall|i: int| 0 <= i < out@.len() implies (#[trigger] out@[i]) < nodes.len() by {
            if i < p {
                assert(out@[i] == s[i]);
            } else if i > p {
                assert(out@[i] == s[i - 1]);
            }
        }
    }
}

proof fn lemma_taken_push(reached: Seq<Reached>, r: Reached, n: u32)
    ensures
        taken(reached.push(r), n) <==> taken(reached, n) || r.node == n,
{
    let next = reached.push(r);
    if taken(reached, n) {
        let i = choose|i: int| 0 <= i < reached.len() && (#[trigger] reached[i]).node == n;
        assert(next[i].node == n);
    }
    if r.node == n {
        assert(next[reached.len() as int].node == n);
    }
    if taken(next, n) {
        let i = choose|i: int| 0 <= i < next.len() && (#[trigger] next[i]).node == n;
        if i < reached.len() {
            assert(reached[i].node == n);
        }
    }
}

/// What taking nodes leaves as it was, and how far it goes: within the budget,
/// and a node waits only if one was taken.
pub open spec fn grows(t: Terrain, w: Walk, v: Walk) -> bool {
    &&& v.walked == w.walked
    &&& v.queue == w.queue
    &&& v.level == w.level
    &&& v.over == w.over
    &&& w.truncated ==> v.truncated
    &&& w.reached.len() <= v.reached.len()
    &&& w.reached.len() <= t.budget() ==> v.reached.len() <= t.budget()
    &&& v.reached.len() == w.reached.len() ==> v.pending == w.pending
}

impl Terrain {
    proof fn lemma_seeded_grows(self, w: Walk, hits: Seq<Hit>)
        ensures
            grows(self, w, self.seeded(w, hits)),
        decreases hits.len(),
    {
        if hits.len() > 0 {
            let rest = hits.drop_first();
            self.lemma_seeded_grows(w, rest);
            let r = Reached {
                node: hits[0].node,
                role: Role::Seed,
                hops: 0,
                score: Some(hits[0].score),
            };
            self.lemma_seeded_grows(self.queued(w, r, true), rest);
        }
    }

    proof fn lemma_descended_grows(self, w: Walk, children: Seq<u32>, of: u32, hops: usize)
        ensures
            grows(self, w, self.descended(w, children, of, hops)),
        decreases children.len(),
    {
        if children.len() > 0 {
            let rest = children.drop_first();
            self.lemma_descended_grows(w, rest, of, hops);
            let r = Reached { node: children[0], role: Role::Child { of }, hops, score: None };
            self.lemma_descended_grows(self.queued(w, r, true), rest, of, hops);
        }
    }

    proof fn lemma_climbed_grows(self, w: Walk, child: u32, hops: usize, left: nat)
        ensures
            grows(self, w, self.climbed(w, child, hops, left)),
        decreases left,
    {
        if let Some(parent) = container(self.links, child) {
            if left > 0 {
                self.lemma_climbed_grows(w, parent, hops, (left - 1) as nat);
                let r = Reached {
                    node: parent,
                    role: Role::Ancestor { of: child },
                    hops,
                    score: None,
                };
                self.lemma_climbed_grows(
                    self.queued(w, r, false),
                    parent,
                    hops,
                    (left - 1) as nat,
                );
            }
        }
    }

    proof fn lemma_enumerated_grows(self, w: Walk, children: Seq<u32>, of: u32, hops: usize)
        ensures
            grows(self, w, self.enumerated(w, children, of, hops)),
            self.enumerated(w, children, of, hops).pending == w.pending,
        decreases children.len(),
    {
        if children.len() > 0 {
            let rest = children.drop_first();
            self.lemma_enumerated_grows(w, rest, of, hops);
            let r = Reached { node: children[0], role: Role::Child { of }, hops, score: None };
            self.lemma_enumerated_grows(self.joined(w, r), rest, of, hops);
        }
    }

    /// Every move takes a node, or lets fewer wait, or leaves fewer steps, or is
    /// the last.
    proof fn lemma_advanced_shrinks(self, w: Walk)
        requires
            !w.over,
            w.reached.len() <= self.budget(),
        ensures
            ({
                let v = self.advanced(w);
                &&& v.reached.len() <= self.budget()
                &&& w.pending.len() > 0 ==> !v.over
                &&& v.over || v.reached.len() > w.reached.len() || (v.reached.len()
                    == w.reached.len() && (v.pending.len() < w.pending.len() || (v.pending.len()
                    == w.pending.len() && v.queue.len() < w.queue.len())))
            }),
    {
        if w.pending.len() > 0 {
            let e = w.pending.last();
            let fresh = !w.walked.contains(e.node) && e.hops < self.opts.hops;
            let w0 = Walk { pending: w.pending.drop_last(), ..w };
            let w1 = if fresh {
                Walk { queue: w0.queue + self.steps_from(e.node, e.hops), ..w0 }
            } else {
                w0
            };
            let below = self.carrying_children(e.node);
            let w2 = if fresh && e.asked {
                self.descended(w1, below, e.node, e.hops)
            } else {
                w1
            };
            self.lemma_descended_grows(w1, below, e.node, e.hops);
            let w3 = self.climbed(w2, e.node, e.hops, self.nodes.len());
            self.lemma_climbed_grows(w2, e.node, e.hops, self.nodes.len());
            let all = self.ranked_children(w3, e.node);
            self.lemma_enumerated_grows(w3, all, e.node, e.hops);
            self.lemma_enumerated_grows(
                w3,
                all.take(self.opts.children as int),
                e.node,
                e.hops,
            );
        } else if w.queue.len() > 0 {
            lemma_next_step(w.queue);
        }
    }

    proof fn lemma_after_over(self, w: Walk, n: nat, m: nat)
        requires
            self.after(w, n).over,
            n <= m,
        ensures
            self.after(w, m) == self.after(w, n),
        decreases m,
    {
        if n < m {
            self.lemma_after_over(w, n, (m - 1) as nat);
        }
    }

    /// A walk has one end, whenever it is looked at.
    proof fn lemma_outcome(self, hits: Seq<Hit>, n: nat)
        requires
            self.after(self.start(hits), n).over,
        ensures
            self.outcome(hits) == self.after(self.start(hits), n),
    {
        let w = self.start(hits);
        let m = choose|m: nat| self.after(w, m).over;
        assert(self.after(w, m).over);
        if m <= n {
            self.lemma_after_over(w, m, n);
        } else {
            self.lemma_after_over(w, n, m);
        }
    }
}

/// The step to be taken next is one of the queue, and none goes before it.
pub proof fn lemma_next_step(q: Seq<Step>)
    requires
        q.len() > 0,
    ensures
        0 <= next_step(q) < q.len(),
        forall|i: int| 0 <= i < q.len() ==> !goes_first(#[trigger] q[i], q[next_step(q)]),
    decreases q.len(),
{
    if q.len() > 1 {
        let d = q.drop_last();
        lemma_next_step(d);
        assert forall|i: int| 0 <= i < q.len() implies !goes_first(
            #[trigger] q[i],
            q[next_step(q)],
        ) by {
            if i < d.len() {
                assert(q[i] == d[i]);
                assert(!goes_first(d[i], d[next_step(d)]));
            }
        }
    }
}

/// The nodes that hits name and a graph of so many nodes does not have.
pub open spec fn stale(hits: Seq<Hit>, count: nat) -> Seq<u32> {
    hits.filter(|h: Hit| h.node >= count).map_values(|h: Hit| h.node)
}

fn stale_nodes(hits: &Vec<Hit>, count: usize) -> (r: Vec<u32>)
    ensures
        r@ == stale(hits@, count as nat),
{
    let ghost keep = |h: Hit| h.node >= count as nat;
    let ghost named = |h: Hit| h.node;
    let mut out: Vec<u32> = Vec::new();
    proof {
        reveal(Seq::filter);
        assert(hits@.take(0).filter(keep).map_values(named) =~= Seq::<u32>::empty());
    }
    let mut i: usize = 0;
    while i < hits.len()
        invariant
            keep == (|h: Hit| h.node >= count as nat),
            named == (|h: Hit| h.node),
            i <= hits@.len(),
            out@ == hits@.take(i as int).filter(keep).map_values(named),
        decreases hits@.len() - i,
    {
        proof {
            reveal(Seq::filter);
            assert(hits@.take(i + 1).drop_last() =~= hits@.take(i as int));
            assert(hits@.take(i + 1).last() == hits@[i as int]);
        }
        if hits[i].node as usize >= count {
            out.push(hits[i].node);
            assert(out@ =~= hits@.take(i + 1).filter(keep).map_values(named));
        }
        i += 1;
    }
    assert(hits@.take(i as int) =~= hits@);
    out
}

/// What a workbook contributes: where the walk from its hits ends.
pub open spec fn expands_to(
    r: WorkbookContext,
    stored: StoredGraph,
    hits: Seq<Hit>,
    opts: ExpandOptions,
) -> bool {
    let t = Terrain { nodes: stored.graph.nodes(), links: stored.graph.links(), opts };
    let w = t.outcome(hits);
    &&& w.over
    &&& r.content_hash@ == stored.content_hash@
    &&& r.path@ == stored.path@
    &&& tells(r.nodes@, t.nodes, t.links, w.reached)
    &&& r.truncated == w.truncated
    &&& r.stale_seeds@ == stale(hits, t.nodes.len())
}

/// Expand the hits in one workbook into the context around them.
pub fn expand_one(stored: &StoredGraph, hits: &Vec<Hit>, opts: &ExpandOptions) -> (r: WorkbookContext)
    ensures
        expands_to(r, *stored, hits@, *opts),
{
    let g: &WorkbookGraph = &stored.graph;
    let sheets: FxHashMap<u16, String> = sheet_names(g);
    let ghost t = Terrain { nodes: g.nodes(), links: g.links(), opts: *opts };
    let ghost w0 = Walk {
        reached: Seq::empty(),
        walked: Set::empty(),
        queue: Seq::empty(),
        pending: Seq::empty(),
        level: 0,
        truncated: false,
        over: false,
    };
    let budget: usize = if opts.budget == 0 {
        1
    } else {
        opts.budget
    };
    let mut got: Collected = Collected {
        budget,
        taken: FxHashSet::default(),
        nodes: Vec::new(),
        walked: FxHashSet::default(),
        queue: Vec::new(),
        pending: Vec::new(),
        truncated: false,
    };
    proof {
        assert(got.queue@ =~= w0.queue);
        assert(got.pending@ =~= w0.pending);
        assert(got.stands(t, w0));
    }
    got.take_seeds(g, &sheets, hits, Ghost(t), Ghost(w0));
    let ghost first = t.start(hits@);
    proof {
        t.lemma_seeded_grows(w0, hits@);
    }
    let ghost mut w = first;
    let ghost mut n: nat = 0;
    let mut going: bool = true;
    while going
        invariant
            got.stands(t, w),
            t == (Terrain { nodes: g.nodes(), links: g.links(), opts: *opts }),
            sheets@ == sheet_labels(g.nodes()),
            w == t.after(first, n),
            going == !w.over,
            w.reached.len() <= t.budget(),
        decreases
                going as int,
                t.budget() - w.reached.len(),
                w.pending.len(),
                w.queue.len(),
    {
        proof {
            t.lemma_advanced_shrinks(w);
        }
        if got.pending.len() > 0 {
            got.attend(g, &sheets, opts, Ghost(t), Ghost(w));
        } else {
            going = got.step(g, &sheets, Ghost(t), Ghost(w));
        }
        proof {
            n = n + 1;
            w = t.advanced(w);
        }
    }
    proof {
        t.lemma_outcome(hits@, n);
    }
    let Collected { taken: all, nodes, truncated, .. } = got;
    WorkbookContext {
        content_hash: stored.content_hash.clone(),
        path: stored.path.clone(),
        nodes: settle_parents(nodes, &all, Ghost(t), Ghost(w.reached)),
        truncated,
        stale_seeds: stale_nodes(hits, g.node_count()),
    }
}

// ---------------------------------------------------------------------------
// What holds of every walk.

/// The other end of an edge.
pub open spec fn other_end(l: Link, at: u32) -> u32 {
    if l.from == at {
        l.to
    } else {
        l.from
    }
}

/// An edge along which a walk goes on from a node.
pub open spec fn leads_on(l: Link, at: u32, min_weight: u64) -> bool {
    followed(l, min_weight) && (l.from == at || l.to == at)
}

impl Terrain {
    /// Every edge joins two nodes.
    pub open spec fn is_sound(self) -> bool {
        forall|i: int|
            0 <= i < self.links.len() ==> (#[trigger] self.links[i]).from < self.nodes.len()
                && self.links[i].to < self.nodes.len()
    }

    /// Why a node was taken is a fact of the graph, and the node that it was
    /// taken for was there before it. Only a seed carries a score.
    pub open spec fn explains(self, before: Seq<Reached>, r: Reached) -> bool {
        &&& r.role is Seed <==> r.score is Some
        &&& r.role is Seed ==> r.hops == 0
        &&& r.role.origin() matches Some(from) ==> taken(before, from)
        &&& match r.role {
            Role::Seed => true,
            Role::Ancestor { of } => container(self.links, of) == Some(r.node),
            Role::Child { of } => contained(self.links, of).contains(r.node),
            Role::Input { of, kind, weight } => {
                let l = Link { from: of, to: r.node, edge: graph::Edge { kind, weight } };
                self.links.contains(l) && followed(l, self.opts.min_weight)
            },
            Role::Dependent { on, kind, weight } => {
                let l = Link { from: r.node, to: on, edge: graph::Edge { kind, weight } };
                self.links.contains(l) && followed(l, self.opts.min_weight)
            },
        }
    }

    /// A step stands for an edge that the walk follows.
    spec fn steps_truly(self, s: Step) -> bool {
        let l = if s.inbound {
            Link {
                from: s.to,
                to: s.from,
                edge: graph::Edge { kind: s.kind, weight: s.weight },
            }
        } else {
            Link {
                from: s.from,
                to: s.to,
                edge: graph::Edge { kind: s.kind, weight: s.weight },
            }
        };
        self.links.contains(l) && followed(l, self.opts.min_weight)
    }

    spec fn lists_once(self, w: Walk) -> bool {
        forall|i: int, j: int|
            0 <= i < j < w.reached.len() ==> (#[trigger] w.reached[i]).node != (
            #[trigger] w.reached[j]).node
    }

    spec fn explains_all(self, w: Walk) -> bool {
        forall|i: int|
            0 <= i < w.reached.len() ==> self.explains(
                w.reached.take(i),
                #[trigger] w.reached[i],
            )
    }

    spec fn nearest_first(self, w: Walk) -> bool {
        &&& w.level <= self.opts.hops
        &&& forall|i: int|
            0 <= i < w.reached.len() ==> (#[trigger] w.reached[i]).hops <= w.level
        &&& forall|i: int, j: int|
            0 <= i < j < w.reached.len() ==> (#[trigger] w.reached[i]).hops <= (
            #[trigger] w.reached[j]).hops
    }

    spec fn waits_well(self, w: Walk) -> bool {
        forall|i: int|
            0 <= i < w.pending.len() ==> (#[trigger] w.pending[i]).hops == w.level && taken_at(
                w.reached,
                w.pending[i].node,
                w.level,
            )
    }

    spec fn queues_well(self, w: Walk) -> bool {
        forall|i: int|
            0 <= i < w.queue.len() ==> {
                let s = #[trigger] w.queue[i];
                &&& w.level <= s.hops <= w.level + 1
                &&& s.hops <= self.opts.hops
                &&& taken(w.reached, s.from)
                &&& self.steps_truly(s)
            }
    }

    /// A node is at most so far away, or will be once the queue is worked off;
    /// or the budget ended the walk before it was taken.
    spec fn within_reach(self, w: Walk, x: u32, hops: int) -> bool {
        ||| exists|k: int|
            0 <= k < w.queue.len() && (#[trigger] w.queue[k]).to == x && w.queue[k].hops == hops
        ||| exists|j: int|
            0 <= j < w.reached.len() && (#[trigger] w.reached[j]).node == x && w.reached[j].hops
                <= hops
        ||| w.over && w.truncated && !taken(w.reached, x)
    }

    /// Everything next to a node that was walked from is within reach.
    spec fn spreads(self, w: Walk, i: int) -> bool {
        forall|l: Link| #[trigger]
            self.links.contains(l) && leads_on(l, w.reached[i].node, self.opts.min_weight)
                ==> self.within_reach(
                w,
                other_end(l, w.reached[i].node),
                w.reached[i].hops + 1,
            )
    }

    spec fn spreads_all(self, w: Walk) -> bool {
        &&& forall|y: u32| #[trigger] w.walked.contains(y) ==> taken(w.reached, y)
        &&& forall|i: int|
            0 <= i < w.reached.len() && w.walked.contains((#[trigger] w.reached[i]).node)
                && w.reached[i].hops < self.opts.hops ==> self.spreads(w, i)
    }

    /// A child that was asked for on its own account: it is shown, and not walked
    /// from.
    pub open spec fn is_leaf(self, r: Reached) -> bool {
        r.role is Child && self.opts.children > 0
    }

    /// Every node but such a child was walked from, waits to be, or is being
    /// walked from.
    spec fn accounts_for(self, w: Walk, busy: Option<u32>) -> bool {
        forall|i: int|
            0 <= i < w.reached.len() ==> {
                let n = (#[trigger] w.reached[i]).node;
                self.is_leaf(w.reached[i]) || w.walked.contains(n) || waits(w.pending, n) || busy
                    == Some(n)
            }
    }

    /// Unless the walk says otherwise, what was walked from has its container.
    spec fn named_all(self, w: Walk) -> bool {
        !w.truncated ==> forall|y: u32| #[trigger]
            w.walked.contains(y) ==> (container(self.links, y) matches Some(p) ==> taken(
                w.reached,
                p,
            ))
    }

    #[verifier::opaque]
    spec fn keeps(self, w: Walk, busy: Option<u32>) -> bool {
        &&& w.reached.len() <= self.budget()
        &&& self.within(w)
        &&& self.lists_once(w)
        &&& self.explains_all(w)
        &&& self.nearest_first(w)
        &&& self.waits_well(w)
        &&& self.queues_well(w)
        &&& self.spreads_all(w)
        &&& self.accounts_for(w, busy)
        &&& self.named_all(w)
    }
}

spec fn waits(pending: Seq<Waiting>, n: u32) -> bool {
    exists|i: int| 0 <= i < pending.len() && (#[trigger] pending[i]).node == n
}

spec fn taken_at(reached: Seq<Reached>, n: u32, hops: usize) -> bool {
    exists|i: int|
        0 <= i < reached.len() && (#[trigger] reached[i]).node == n && reached[i].hops == hops
}

/// Nothing that was taken is let go of.
spec fn extends(v: Seq<Reached>, w: Seq<Reached>) -> bool {
    v.len() >= w.len() && forall|i: int| 0 <= i < w.len() ==> #[trigger] v[i] == w[i]
}

proof fn lemma_extends(v: Seq<Reached>, w: Seq<Reached>)
    requires
        extends(v, w),
    ensures
        forall|n: u32| #[trigger] taken(w, n) ==> taken(v, n),
        forall|n: u32, h: usize| #[trigger] taken_at(w, n, h) ==> taken_at(v, n, h),
{
    assert forall|n: u32| #[trigger] taken(w, n) implies taken(v, n) by {
        let i = choose|i: int| 0 <= i < w.len() && (#[trigger] w[i]).node == n;
        assert(v[i].node == n);
    }
    assert forall|n: u32, h: usize| #[trigger] taken_at(w, n, h) implies taken_at(v, n, h) by {
        let i = choose|i: int|
            0 <= i < w.len() && (#[trigger] w[i]).node == n && w[i].hops == h;
        assert(v[i].node == n && v[i].hops == h);
    }
}

impl Terrain {
    /// What stays within reach when nodes are taken and steps queued.
    proof fn lemma_reach_grows(self, w: Walk, v: Walk)
        requires
            extends(v.reached, w.reached),
            v.queue.len() >= w.queue.len(),
            forall|k: int| 0 <= k < w.queue.len() ==> #[trigger] v.queue[k] == w.queue[k],
            !w.over,
        ensures
            forall|x: u32, h: int| #[trigger]
                self.within_reach(w, x, h) ==> self.within_reach(v, x, h),
    {
        assert forall|x: u32, h: int| #[trigger] self.within_reach(w, x, h) implies self.within_reach(
            v,
            x,
            h,
        ) by {
            if exists|k: int|
                0 <= k < w.queue.len() && (#[trigger] w.queue[k]).to == x && w.queue[k].hops == h {
                let k = choose|k: int|
                    0 <= k < w.queue.len() && (#[trigger] w.queue[k]).to == x && w.queue[k].hops
                        == h;
                assert(v.queue[k].to == x && v.queue[k].hops == h);
            } else {
                let j = choose|j: int|
                    0 <= j < w.reached.len() && (#[trigger] w.reached[j]).node == x
                        && w.reached[j].hops <= h;
                assert(v.reached[j].node == x && v.reached[j].hops <= h);
            }
        }
    }

    /// Taking a node that has its reason keeps everything.
    #[verifier::spinoff_prover]
    #[verifier::rlimit(60)]
    proof fn lemma_take(self, w: Walk, r: Reached, asked: bool, busy: Option<u32>)
        requires
            self.keeps(w, busy),
            !w.over,
            !self.full(w),
            !taken(w.reached, r.node),
            r.node < self.nodes.len(),
            r.hops == w.level,
            self.explains(w.reached, r),
        ensures
            self.keeps(self.queued(w, r, asked), busy),
            self.is_leaf(r) ==> self.keeps(self.joined(w, r), busy),
    {
        reveal(Terrain::keeps);
        let v = self.joined(w, r);
        let q = self.queued(w, r, asked);
        assert(extends(v.reached, w.reached));
        lemma_extends(v.reached, w.reached);
        self.lemma_reach_grows(w, v);
        self.lemma_reach_grows(w, q);
        assert(v.reached.take(w.reached.len() as int) =~= w.reached);
        assert forall|i: int| 0 <= i < w.reached.len() implies #[trigger] v.reached.take(i)
            == w.reached.take(i) by {
            assert(v.reached.take(i) =~= w.reached.take(i));
        }
        assert(self.explains_all(v)) by {
            assert forall|i: int| 0 <= i < v.reached.len() implies self.explains(
                v.reached.take(i),
                #[trigger] v.reached[i],
            ) by {
                if i < w.reached.len() {
                    assert(v.reached[i] == w.reached[i]);
                    assert(v.reached.take(i) == w.reached.take(i));
                }
            }
        }
        assert(self.lists_once(v)) by {
            assert forall|i: int, j: int| 0 <= i < j < v.reached.len() implies (
            #[trigger] v.reached[i]).node != (#[trigger] v.reached[j]).node by {
                if j == w.reached.len() {
                    assert(v.reached[i] == w.reached[i]);
                }
            }
        }
        assert(self.spreads_all(v) && self.spreads_all(q)) by {
            assert forall|i: int|
                0 <= i < v.reached.len() && w.walked.contains((#[trigger] v.reached[i]).node)
                    && v.reached[i].hops < self.opts.hops implies self.spreads(v, i)
                && self.spreads(q, i) by {
                if i < w.reached.len() {
                    assert(v.reached[i] == w.reached[i]);
                    assert(self.spreads(w, i));
                }
            }
        }
        assert(taken_at(v.reached, r.node, w.level)) by {
            assert(v.reached[w.reached.len() as int] == r);
        }
        assert(self.waits_well(q)) by {
            assert forall|i: int| 0 <= i < q.pending.len() implies (#[trigger] q.pending[i]).hops
                == q.level && taken_at(q.reached, q.pending[i].node, q.level) by {
                if i < w.pending.len() {
                    assert(q.pending[i] == w.pending[i]);
                    assert(taken_at(w.reached, w.pending[i].node, w.level));
                }
            }
        }
        assert forall|n: u32| #[trigger] waits(w.pending, n) implies waits(q.pending, n) by {
            let i = choose|i: int| 0 <= i < w.pending.len() && (#[trigger] w.pending[i]).node == n;
            assert(q.pending[i].node == n);
        }
        assert(waits(q.pending, r.node)) by {
            assert(q.pending[w.pending.len() as int].node == r.node);
        }
        assert(self.accounts_for(q, busy)) by {
            assert forall|i: int| 0 <= i < q.reached.len() implies {
                let n = (#[trigger] q.reached[i]).node;
                self.is_leaf(q.reached[i]) || q.walked.contains(n) || waits(q.pending, n) || busy
                    == Some(n)
            } by {
                if i < w.reached.len() {
                    assert(q.reached[i] == w.reached[i]);
                }
            }
        }
        if self.is_leaf(r) {
            assert(self.accounts_for(v, busy)) by {
                assert forall|i: int| 0 <= i < v.reached.len() implies {
                    let n = (#[trigger] v.reached[i]).node;
                    self.is_leaf(v.reached[i]) || v.walked.contains(n) || waits(v.pending, n)
                        || busy == Some(n)
                } by {
                    if i < w.reached.len() {
                        assert(v.reached[i] == w.reached[i]);
                    }
                }
            }
        }
        assert(self.queues_well(v)) by {
            assert forall|i: int| 0 <= i < v.queue.len() implies taken(
                v.reached,
                (#[trigger] v.queue[i]).from,
            ) by {
                assert(taken(w.reached, w.queue[i].from));
            }
        }
        assert(self.within(q)) by {
            assert forall|i: int| 0 <= i < q.pending.len() implies (#[trigger] q.pending[i]).node
                < self.nodes.len() by {
                if i < w.pending.len() {
                    assert(q.pending[i] == w.pending[i]);
                }
            }
            assert forall|i: int| 0 <= i < q.reached.len() implies (#[trigger] q.reached[i]).node
                < self.nodes.len() by {
                if i < w.reached.len() {
                    assert(q.reached[i] == w.reached[i]);
                }
            }
        }
    }

    proof fn lemma_cut_short(self, w: Walk, busy: Option<u32>)
        requires
            self.keeps(w, busy),
            !w.over,
        ensures
            self.keeps(Walk { truncated: true, ..w }, busy),
    {
        reveal(Terrain::keeps);
        let v = Walk { truncated: true, ..w };
        self.lemma_reach_grows(w, v);
        assert(self.spreads_all(v)) by {
            assert forall|i: int|
                0 <= i < v.reached.len() && v.walked.contains((#[trigger] v.reached[i]).node)
                    && v.reached[i].hops < self.opts.hops implies self.spreads(v, i) by {
                assert(self.spreads(w, i));
            }
        }
    }
}

impl Terrain {
    proof fn lemma_seeded_keeps(self, w: Walk, hits: Seq<Hit>)
        requires
            self.keeps(w, None),
            !w.over,
            w.level == 0,
        ensures
            self.keeps(self.seeded(w, hits), None),
        decreases hits.len(),
    {
        if hits.len() > 0 {
            let rest = hits.drop_first();
            if hits[0].node >= self.nodes.len() {
                self.lemma_seeded_keeps(w, rest);
            } else if self.full(w) {
                self.lemma_cut_short(w, None);
            } else if taken(w.reached, hits[0].node) {
                self.lemma_seeded_keeps(w, rest);
            } else {
                let r = Reached {
                    node: hits[0].node,
                    role: Role::Seed,
                    hops: 0,
                    score: Some(hits[0].score),
                };
                self.lemma_take(w, r, true, None);
                self.lemma_seeded_keeps(self.queued(w, r, true), rest);
            }
        }
    }

    proof fn lemma_descended_keeps(
        self,
        w: Walk,
        children: Seq<u32>,
        of: u32,
        hops: usize,
        busy: Option<u32>,
    )
        requires
            self.keeps(w, busy),
            !w.over,
            hops == w.level,
            taken(w.reached, of),
            forall|i: int|
                0 <= i < children.len() ==> (#[trigger] children[i]) < self.nodes.len()
                    && contained(self.links, of).contains(children[i]),
        ensures
            self.keeps(self.descended(w, children, of, hops), busy),
            extends(self.descended(w, children, of, hops).reached, w.reached),
        decreases children.len(),
    {
        if children.len() > 0 {
            let rest = children.drop_first();
            assert(children[0] < self.nodes.len());
            assert forall|i: int| 0 <= i < rest.len() implies (#[trigger] rest[i])
                < self.nodes.len() && contained(self.links, of).contains(rest[i]) by {
                assert(rest[i] == children[i + 1]);
            }
            if taken(w.reached, children[0]) {
                self.lemma_descended_keeps(w, rest, of, hops, busy);
            } else if self.full(w) {
                self.lemma_cut_short(w, busy);
            } else {
                let r = Reached { node: children[0], role: Role::Child { of }, hops, score: None };
                let v = self.queued(w, r, true);
                self.lemma_take(w, r, true, busy);
                assert(extends(v.reached, w.reached));
                lemma_extends(v.reached, w.reached);
                self.lemma_descended_keeps(v, rest, of, hops, busy);
            }
        }
    }

    proof fn lemma_enumerated_keeps(
        self,
        w: Walk,
        children: Seq<u32>,
        of: u32,
        hops: usize,
        busy: Option<u32>,
    )
        requires
            self.keeps(w, busy),
            !w.over,
            self.opts.children > 0,
            hops == w.level,
            taken(w.reached, of),
            forall|i: int|
                0 <= i < children.len() ==> (#[trigger] children[i]) < self.nodes.len()
                    && contained(self.links, of).contains(children[i]),
        ensures
            self.keeps(self.enumerated(w, children, of, hops), busy),
            extends(self.enumerated(w, children, of, hops).reached, w.reached),
        decreases children.len(),
    {
        if children.len() > 0 {
            let rest = children.drop_first();
            assert(children[0] < self.nodes.len());
            assert forall|i: int| 0 <= i < rest.len() implies (#[trigger] rest[i])
                < self.nodes.len() && contained(self.links, of).contains(rest[i]) by {
                assert(rest[i] == children[i + 1]);
            }
            if self.full(w) {
                self.lemma_cut_short(w, busy);
            } else if taken(w.reached, children[0]) {
                self.lemma_enumerated_keeps(w, rest, of, hops, busy);
            } else {
                let r = Reached { node: children[0], role: Role::Child { of }, hops, score: None };
                let v = self.joined(w, r);
                self.lemma_take(w, r, true, busy);
                assert(extends(v.reached, w.reached));
                lemma_extends(v.reached, w.reached);
                self.lemma_enumerated_keeps(v, rest, of, hops, busy);
            }
        }
    }

    proof fn lemma_climbed_keeps(
        self,
        w: Walk,
        child: u32,
        hops: usize,
        left: nat,
        busy: Option<u32>,
    )
        requires
            self.is_sound(),
            self.keeps(w, busy),
            !w.over,
            hops == w.level,
            taken(w.reached, child),
        ensures
            ({
                let v = self.climbed(w, child, hops, left);
                &&& self.keeps(v, busy)
                &&& extends(v.reached, w.reached)
                &&& !v.truncated ==> (container(self.links, child) matches Some(p) ==> taken(
                    v.reached,
                    p,
                ))
            }),
        decreases left,
    {
        let v = self.climbed(w, child, hops, left);
        if let Some(parent) = container(self.links, child) {
            lemma_container(self.links, child);
            assert(parent < self.nodes.len()) by {
                let l = choose|l: Link|
                    #[trigger] self.links.contains(l) && l.from == parent && l.to == child
                        && l.edge.kind is Contains;
                let i = choose|i: int| 0 <= i < self.links.len() && self.links[i] == l;
                assert(self.links[i].from < self.nodes.len());
            }
            if left == 0 {
                self.lemma_cut_short(w, busy);
            } else if taken(w.reached, parent) {
                self.lemma_climbed_keeps(w, parent, hops, (left - 1) as nat, busy);
                lemma_extends(v.reached, w.reached);
            } else if self.full(w) {
                self.lemma_cut_short(w, busy);
            } else {
                let r = Reached {
                    node: parent,
                    role: Role::Ancestor { of: child },
                    hops,
                    score: None,
                };
                let u = self.queued(w, r, false);
                self.lemma_take(w, r, false, busy);
                assert(extends(u.reached, w.reached));
                lemma_taken_push(w.reached, r, parent);
                self.lemma_climbed_keeps(u, parent, hops, (left - 1) as nat, busy);
                lemma_extends(v.reached, u.reached);
            }
        }
    }

    /// What a node contains are nodes of the graph.
    proof fn lemma_contained(self, of: u32)
        requires
            self.is_sound(),
        ensures
            forall|i: int|
                0 <= i < contained(self.links, of).len() ==> (#[trigger] contained(
                    self.links,
                    of,
                )[i]) < self.nodes.len(),
    {
        let s = graph::edges_at(self.links, of, false);
        let keep = |l: Link| l.edge.kind is Contains;
        let kept = s.filter(keep);
        let all = contained(self.links, of);
        graph::lemma_edges_at(self.links, of, false);
        assert forall|i: int| 0 <= i < all.len() implies (#[trigger] all[i]) < self.nodes.len() by {
            assert(all[i] == kept[i].to);
            assert(kept.contains(kept[i]));
            s.lemma_filter_contains_rev(keep, kept[i]);
            let k = choose|k: int| 0 <= k < s.len() && s[k] == kept[i];
            assert(self.links.contains(s[k]));
            let j = choose|j: int| 0 <= j < self.links.len() && self.links[j] == s[k];
            assert(self.links[j].to < self.nodes.len());
        }
    }

    /// Children in the order of their rank are the same children.
    proof fn lemma_children_kept(self, of: u32, keep: spec_fn(u32) -> bool)
        requires
            self.is_sound(),
        ensures
            ({
                let s = contained(self.links, of).filter(keep);
                &&& forall|i: int|
                    0 <= i < s.len() ==> (#[trigger] s[i]) < self.nodes.len() && contained(
                        self.links,
                        of,
                    ).contains(s[i])
                &&& forall|i: int|
                    0 <= i < by_rank(self.nodes, s).len() ==> (#[trigger] by_rank(
                        self.nodes,
                        s,
                    )[i]) < self.nodes.len() && contained(self.links, of).contains(
                        by_rank(self.nodes, s)[i],
                    )
            }),
    {
        let all = contained(self.links, of);
        let s = all.filter(keep);
        self.lemma_contained(of);
        assert forall|i: int| 0 <= i < s.len() implies (#[trigger] s[i]) < self.nodes.len()
            && all.contains(s[i]) by {
            assert(s.contains(s[i]));
            all.lemma_filter_contains_rev(keep, s[i]);
        }
        let t = by_rank(self.nodes, s);
        assert forall|i: int| 0 <= i < t.len() implies (#[trigger] t[i]) < self.nodes.len()
            && all.contains(t[i]) by {
            lemma_by_rank(self.nodes, s);
            assert(s.contains(t[i]));
        }
    }

    /// The steps that a node offers stand for its edges, and every edge that the
    /// walk follows is among them.
    proof fn lemma_steps_along(self, at: u32, hops: usize, inbound: bool)
        requires
            self.is_sound(),
            hops < self.opts.hops,
        ensures
            ({
                let s = steps_along(self.links, at, hops, self.opts.min_weight, inbound);
                &&& forall|i: int|
                    0 <= i < s.len() ==> {
                        let x = #[trigger] s[i];
                        x.hops == hops + 1 && x.from == at && x.to < self.nodes.len()
                            && self.steps_truly(x)
                    }
                &&& forall|l: Link| #[trigger]
                    self.links.contains(l) && followed(l, self.opts.min_weight) && (if inbound {
                        l.to == at
                    } else {
                        l.from == at
                    }) ==> exists|i: int|
                        0 <= i < s.len() && (#[trigger] s[i]).to == (if inbound {
                            l.from
                        } else {
                            l.to
                        })
            }),
    {
        let links = self.links;
        let min = self.opts.min_weight;
        let all = graph::edges_at(links, at, inbound);
        let keep = |l: Link| followed(l, min);
        let kept = all.filter(keep);
        let s = steps_along(links, at, hops, min, inbound);
        graph::lemma_edges_at(links, at, inbound);
        assert forall|i: int| 0 <= i < s.len() implies {
            let x = #[trigger] s[i];
            x.hops == hops + 1 && x.from == at && x.to < self.nodes.len() && self.steps_truly(x)
        } by {
            let l = kept[i];
            assert(s[i] == step_along(l, at, hops, inbound));
            all.lemma_filter_pred(keep, i);
            assert(kept.contains(l));
            all.lemma_filter_contains_rev(keep, l);
            let k = choose|k: int| 0 <= k < all.len() && all[k] == l;
            assert(links.contains(all[k]));
            let j = choose|j: int| 0 <= j < links.len() && links[j] == l;
            assert(links[j].to < self.nodes.len() && links[j].from < self.nodes.len());
        }
        assert forall|l: Link| #[trigger]
            links.contains(l) && followed(l, min) && (if inbound {
                l.to == at
            } else {
                l.from == at
            }) implies exists|i: int|
            0 <= i < s.len() && (#[trigger] s[i]).to == (if inbound {
                l.from
            } else {
                l.to
            }) by {
            assert(all.contains(l));
            let k = choose|k: int| 0 <= k < all.len() && all[k] == l;
            all.lemma_filter_contains(keep, k);
            let i = choose|i: int| 0 <= i < kept.len() && kept[i] == l;
            assert(s[i] == step_along(l, at, hops, inbound));
        }
    }

    /// Queueing what a node offers keeps everything, and puts all that is next
    /// to the node within reach.
    #[verifier::spinoff_prover]
    #[verifier::rlimit(60)]
    proof fn lemma_offered(self, w: Walk, at: u32, busy: Option<u32>)
        requires
            self.is_sound(),
            self.keeps(w, busy),
            !w.over,
            taken(w.reached, at),
            w.level < self.opts.hops,
        ensures
            ({
                let v = Walk { queue: w.queue + self.steps_from(at, w.level), ..w };
                &&& self.keeps(v, busy)
                &&& forall|l: Link| #[trigger]
                    self.links.contains(l) && leads_on(l, at, self.opts.min_weight)
                        ==> self.within_reach(v, other_end(l, at), w.level + 1)
            }),
    {
        reveal(Terrain::keeps);
        let v = Walk { queue: w.queue + self.steps_from(at, w.level), ..w };
        let out = steps_along(self.links, at, w.level, self.opts.min_weight, false);
        let inn = steps_along(self.links, at, w.level, self.opts.min_weight, true);
        self.lemma_steps_along(at, w.level, false);
        self.lemma_steps_along(at, w.level, true);
        assert(v.queue == w.queue + (out + inn));
        let n = w.queue.len() as int;
        assert forall|i: int| 0 <= i < v.queue.len() implies #[trigger] v.queue[i] == (if i < n {
            w.queue[i]
        } else if i < n + out.len() {
            out[i - n]
        } else {
            inn[i - n - out.len()]
        }) by {}
        self.lemma_reach_grows(w, v);
        assert(self.spreads_all(v)) by {
            assert forall|i: int|
                0 <= i < v.reached.len() && v.walked.contains((#[trigger] v.reached[i]).node)
                    && v.reached[i].hops < self.opts.hops implies self.spreads(v, i) by {
                assert(self.spreads(w, i));
            }
        }
        assert forall|l: Link| #[trigger]
            self.links.contains(l) && leads_on(
                l,
                at,
                self.opts.min_weight,
            ) implies self.within_reach(v, other_end(l, at), w.level + 1) by {
            if l.from == at {
                let i = choose|i: int| 0 <= i < out.len() && (#[trigger] out[i]).to == l.to;
                assert(v.queue[n + i] == out[i]);
            } else {
                let i = choose|i: int| 0 <= i < inn.len() && (#[trigger] inn[i]).to == l.from;
                assert(v.queue[n + out.len() + i] == inn[i]);
            }
        }
    }
}

proof fn lemma_container(links: Seq<Link>, at: u32)
    ensures
        container(links, at) matches Some(p) ==> exists|l: Link|
            #[trigger] links.contains(l) && l.from == p && l.to == at && l.edge.kind is Contains,
{
    let s = graph::edges_at(links, at, true);
    graph::lemma_edges_at(links, at, true);
    lemma_first_container(s);
    if let Some(p) = container(links, at) {
        let i = choose|i: int|
            0 <= i < s.len() && (#[trigger] s[i]).from == p && s[i].edge.kind is Contains;
        assert(links.contains(s[i]));
    }
}

proof fn lemma_first_container(s: Seq<Link>)
    ensures
        first_container(s) matches Some(p) ==> exists|i: int|
            0 <= i < s.len() && (#[trigger] s[i]).from == p && s[i].edge.kind is Contains,
    decreases s.len(),
{
    if s.len() > 0 {
        if s[0].edge.kind is Contains {
            assert(s[0].from == s[0].from);
        } else {
            let rest = s.drop_first();
            lemma_first_container(rest);
            if let Some(p) = first_container(rest) {
                let i = choose|i: int|
                    0 <= i < rest.len() && (#[trigger] rest[i]).from == p
                        && rest[i].edge.kind is Contains;
                assert(s[i + 1] == rest[i]);
            }
        }
    }
}

proof fn lemma_placed(nodes: Seq<Node>, s: Seq<u32>, x: u32)
    ensures
        forall|i: int|
            0 <= i < placed(nodes, s, x).len() ==> (#[trigger] placed(nodes, s, x)[i]) == x
                || s.contains(placed(nodes, s, x)[i]),
    decreases s.len(),
{
    if s.len() > 0 && !outranks(nodes, x, s[0]) {
        let rest = s.drop_first();
        lemma_placed(nodes, rest, x);
        let p = placed(nodes, s, x);
        let q = placed(nodes, rest, x);
        assert(p == seq![s[0]] + q);
        assert forall|i: int| 0 <= i < p.len() implies (#[trigger] p[i]) == x || s.contains(
            p[i],
        ) by {
            if i == 0 {
                assert(s[0] == p[0]);
            } else {
                assert(p[i] == q[i - 1]);
                if rest.contains(q[i - 1]) {
                    let k = choose|k: int| 0 <= k < rest.len() && rest[k] == q[i - 1];
                    assert(s[k + 1] == p[i]);
                }
            }
        }
    } else if s.len() > 0 {
        let p = placed(nodes, s, x);
        assert forall|i: int| 0 <= i < p.len() implies (#[trigger] p[i]) == x || s.contains(
            p[i],
        ) by {
            if i > 0 {
                assert(p[i] == s[i - 1]);
            }
        }
    }
}

proof fn lemma_by_rank(nodes: Seq<Node>, s: Seq<u32>)
    ensures
        forall|i: int|
            0 <= i < by_rank(nodes, s).len() ==> s.contains(#[trigger] by_rank(nodes, s)[i]),
    decreases s.len(),
{
    if s.len() > 0 {
        let d = s.drop_last();
        lemma_by_rank(nodes, d);
        lemma_placed(nodes, by_rank(nodes, d), s.last());
        let t = by_rank(nodes, s);
        assert forall|i: int| 0 <= i < t.len() implies s.contains(#[trigger] t[i]) by {
            if t[i] == s.last() {
                assert(s[s.len() - 1] == t[i]);
            } else {
                let b = by_rank(nodes, d);
                assert(b.contains(t[i]));
                let k = choose|k: int| 0 <= k < b.len() && b[k] == t[i];
                assert(d.contains(b[k]));
                let m = choose|m: int| 0 <= m < d.len() && d[m] == b[k];
                assert(s[m] == t[i]);
            }
        }
    }
}

impl Terrain {
    proof fn lemma_fewer_wait(self, w: Walk)
        requires
            self.within(w),
            self.waits_well(w),
            w.pending.len() > 0,
        ensures
            self.within(Walk { pending: w.pending.drop_last(), ..w }),
            self.waits_well(Walk { pending: w.pending.drop_last(), ..w }),
            w.pending.last().hops == w.level,
            taken_at(w.reached, w.pending.last().node, w.level),
    {
        let v = Walk { pending: w.pending.drop_last(), ..w };
        let k = w.pending.len() - 1;
        assert(w.pending[k] == w.pending.last());
        assert forall|i: int| 0 <= i < v.pending.len() implies (#[trigger] v.pending[i]).node
            < self.nodes.len() && v.pending[i].hops == v.level && taken_at(
            v.reached,
            v.pending[i].node,
            v.level,
        ) by {
            assert(v.pending[i] == w.pending[i]);
        }
    }

    proof fn lemma_one_is_busy(self, w: Walk)
        requires
            self.accounts_for(w, None),
            w.pending.len() > 0,
        ensures
            self.accounts_for(
                Walk { pending: w.pending.drop_last(), ..w },
                Some(w.pending.last().node),
            ),
    {
        let e = w.pending.last();
        let v = Walk { pending: w.pending.drop_last(), ..w };
        assert forall|i: int| 0 <= i < v.reached.len() implies {
            let n = (#[trigger] v.reached[i]).node;
            self.is_leaf(v.reached[i]) || v.walked.contains(n) || waits(v.pending, n) || e.node == n
        } by {
            let n = w.reached[i].node;
            if waits(w.pending, n) && n != e.node {
                let k = choose|k: int|
                    0 <= k < w.pending.len() && (#[trigger] w.pending[k]).node == n;
                assert(v.pending[k].node == n);
            }
        }
    }

    proof fn lemma_steps_still_wait(self, w: Walk)
        requires
            self.queues_well(w),
            self.spreads_all(w),
            self.named_all(w),
            !w.over,
        ensures
            self.queues_well(Walk { pending: w.pending.drop_last(), ..w }),
            self.spreads_all(Walk { pending: w.pending.drop_last(), ..w }),
            self.named_all(Walk { pending: w.pending.drop_last(), ..w }),
    {
        let v = Walk { pending: w.pending.drop_last(), ..w };
        self.lemma_reach_grows(w, v);
        self.lemma_spread_along(w, v);
    }

    /// The node that has waited least is taken up.
    proof fn lemma_taken_up(self, w: Walk)
        requires
            self.keeps(w, None),
            !w.over,
            w.pending.len() > 0,
        ensures
            ({
                let e = w.pending.last();
                &&& self.keeps(Walk { pending: w.pending.drop_last(), ..w }, Some(e.node))
                &&& taken_at(w.reached, e.node, w.level)
                &&& taken(w.reached, e.node)
                &&& e.hops == w.level
            }),
    {
        reveal(Terrain::keeps);
        let e = w.pending.last();
        let v = Walk { pending: w.pending.drop_last(), ..w };
        self.lemma_fewer_wait(w);
        self.lemma_one_is_busy(w);
        self.lemma_steps_still_wait(w);
        let at = choose|i: int|
            0 <= i < w.reached.len() && (#[trigger] w.reached[i]).node == e.node
                && w.reached[i].hops == w.level;
        assert(w.reached[at].node == e.node);
        assert(self.lists_once(v) && self.explains_all(v) && self.nearest_first(v));
    }

    /// The node that was taken up counts as walked from.
    #[verifier::spinoff_prover]
    #[verifier::rlimit(60)]
    proof fn lemma_set_down(self, w: Walk, at: u32)
        requires
            self.keeps(w, Some(at)),
            !w.over,
            taken_at(w.reached, at, w.level),
            w.level < self.opts.hops && !w.walked.contains(at) ==> forall|l: Link| #[trigger]
                self.links.contains(l) && leads_on(l, at, self.opts.min_weight)
                    ==> self.within_reach(w, other_end(l, at), w.level + 1),
            !w.truncated ==> (container(self.links, at) matches Some(p) ==> taken(w.reached, p)),
        ensures
            self.keeps(Walk { walked: w.walked.insert(at), ..w }, None),
    {
        reveal(Terrain::keeps);
        let v = Walk { walked: w.walked.insert(at), ..w };
        self.lemma_reach_grows(w, v);
        let k = choose|i: int|
            0 <= i < w.reached.len() && (#[trigger] w.reached[i]).node == at && w.reached[i].hops
                == w.level;
        assert(w.reached[k].node == at);
        assert(self.spreads_all(v)) by {
            assert forall|i: int|
                0 <= i < v.reached.len() && v.walked.contains((#[trigger] v.reached[i]).node)
                    && v.reached[i].hops < self.opts.hops implies self.spreads(v, i) by {
                if w.walked.contains(v.reached[i].node) {
                    assert(self.spreads(w, i));
                } else {
                    assert(w.reached[i].node == w.reached[k].node);
                    assert(i == k);
                }
            }
        }
    }

    /// Naming a node, with its children where they are asked for, keeps
    /// everything.
    proof fn lemma_named(self, w: Walk, at: u32)
        requires
            self.is_sound(),
            self.keeps(w, Some(at)),
            !w.over,
            taken(w.reached, at),
        ensures
            ({
                let u = self.climbed(w, at, w.level, self.nodes.len());
                let v = if self.opts.children > 0 {
                    self.with_children(u, at, w.level)
                } else {
                    u
                };
                &&& self.keeps(v, Some(at))
                &&& grows(self, w, u)
                &&& grows(self, u, v)
                &&& extends(v.reached, w.reached)
                &&& !v.truncated ==> (container(self.links, at) matches Some(p) ==> taken(
                    v.reached,
                    p,
                ))
            }),
    {
        let u = self.climbed(w, at, w.level, self.nodes.len());
        self.lemma_climbed_keeps(w, at, w.level, self.nodes.len(), Some(at));
        self.lemma_climbed_grows(w, at, w.level, self.nodes.len());
        lemma_extends(u.reached, w.reached);
        if self.opts.children > 0 && !(self.nodes[at as int].kind is Workbook) {
            let all = self.ranked_children(u, at);
            let cap = self.opts.children as int;
            let some = if all.len() <= cap {
                all
            } else {
                all.take(cap)
            };
            self.lemma_children_kept(at, |c: u32| !taken(u.reached, c));
            assert forall|i: int| 0 <= i < some.len() implies (#[trigger] some[i])
                < self.nodes.len() && contained(self.links, at).contains(some[i]) by {
                assert(some[i] == all[i]);
            }
            self.lemma_enumerated_keeps(u, some, at, w.level, Some(at));
            self.lemma_enumerated_grows(u, some, at, w.level);
            let v = self.enumerated(u, some, at, w.level);
            lemma_extends(v.reached, u.reached);
        }
    }

    proof fn lemma_attended_keeps(self, w: Walk)
        requires
            self.is_sound(),
            self.keeps(w, None),
            !w.over,
            w.pending.len() > 0,
        ensures
            self.keeps(self.attended(w), None),
            !self.attended(w).over,
            w.truncated ==> self.attended(w).truncated,
            extends(self.attended(w).reached, w.reached),
    {
        let e = w.pending.last();
        let at = e.node;
        let busy = Some(at);
        self.lemma_taken_up(w);
        let fresh = !w.walked.contains(at) && e.hops < self.opts.hops;
        let w0 = Walk { pending: w.pending.drop_last(), ..w };
        let w1 = if fresh {
            Walk { queue: w0.queue + self.steps_from(at, e.hops), ..w0 }
        } else {
            w0
        };
        if fresh {
            self.lemma_offered(w0, at, busy);
        }
        let below = self.carrying_children(at);
        let w2 = if fresh && e.asked {
            self.descended(w1, below, at, e.hops)
        } else {
            w1
        };
        self.lemma_children_kept(at, |c: u32| carries(self.links, c, self.opts.min_weight));
        self.lemma_descended_keeps(w1, below, at, e.hops, busy);
        self.lemma_descended_grows(w1, below, at, e.hops);
        lemma_extends(w2.reached, w.reached);
        self.lemma_named(w2, at);
        let w3 = self.climbed(w2, at, e.hops, self.nodes.len());
        let w4 = if self.opts.children > 0 {
            self.with_children(w3, at, e.hops)
        } else {
            w3
        };
        assert(extends(w4.reached, w.reached));
        lemma_extends(w4.reached, w.reached);
        self.lemma_reach_grows(w1, w4);
        self.lemma_set_down(w4, at);
    }

    /// The steps of the nearest distance left are the ones to take.
    #[verifier::spinoff_prover]
    #[verifier::rlimit(60)]
    proof fn lemma_raised(self, w: Walk)
        requires
            self.keeps(w, None),
            !w.over,
            w.pending.len() == 0,
            w.queue.len() > 0,
        ensures
            self.keeps(Walk { level: w.queue[next_step(w.queue)].hops, ..w }, None),
    {
        reveal(Terrain::keeps);
        lemma_next_step(w.queue);
        let s = w.queue[next_step(w.queue)];
        let v = Walk { level: s.hops, ..w };
        self.lemma_reach_grows(w, v);
        self.lemma_spread_along(w, v);
        assert(self.queues_well(v)) by {
            assert forall|i: int| 0 <= i < v.queue.len() implies {
                let x = #[trigger] v.queue[i];
                &&& v.level <= x.hops <= v.level + 1
                &&& x.hops <= self.opts.hops
                &&& taken(v.reached, x.from)
                &&& self.steps_truly(x)
            } by {
                assert(!goes_first(w.queue[i], s));
            }
        }
    }

    /// A queue with one step fewer is as sound as it was.
    proof fn lemma_queue_without(self, w: Walk, v: Walk, b: int)
        requires
            self.queues_well(w),
            self.within(w),
            0 <= b < w.queue.len(),
            v.queue == w.queue.remove(b),
            v.reached == w.reached,
            v.pending == w.pending,
            v.level == w.level,
        ensures
            self.queues_well(v),
            self.within(v),
            forall|x: u32, h: int|
                self.within_reach(w, x, h) && !w.over && x != w.queue[b].to ==> #[trigger]
                self.within_reach(v, x, h),
    {
        assert forall|i: int| 0 <= i < v.queue.len() implies {
            let x = #[trigger] v.queue[i];
            &&& v.level <= x.hops <= v.level + 1
            &&& x.hops <= self.opts.hops
            &&& taken(v.reached, x.from)
            &&& self.steps_truly(x)
            &&& x.to < self.nodes.len()
        } by {
            let j = if i < b {
                i
            } else {
                i + 1
            };
            assert(v.queue[i] == w.queue[j]);
        }
        assert forall|x: u32, h: int|
            self.within_reach(w, x, h) && !w.over && x != w.queue[b].to implies #[trigger]
        self.within_reach(v, x, h) by {
            if exists|j: int|
                0 <= j < w.reached.len() && (#[trigger] w.reached[j]).node == x
                    && w.reached[j].hops <= h {
                let j = choose|j: int|
                    0 <= j < w.reached.len() && (#[trigger] w.reached[j]).node == x
                        && w.reached[j].hops <= h;
                assert(v.reached[j].node == x);
            } else {
                let k = choose|k: int|
                    0 <= k < w.queue.len() && (#[trigger] w.queue[k]).to == x && w.queue[k].hops
                        == h;
                let m = if k < b {
                    k
                } else {
                    k - 1
                };
                assert(v.queue[m] == w.queue[k]);
            }
        }
    }

    /// A step to a node that was taken no later can be dropped.
    #[verifier::spinoff_prover]
    #[verifier::rlimit(60)]
    proof fn lemma_step_dropped(self, w: Walk, b: int)
        requires
            self.keeps(w, None),
            !w.over,
            0 <= b < w.queue.len(),
            exists|j: int|
                0 <= j < w.reached.len() && (#[trigger] w.reached[j]).node == w.queue[b].to
                    && w.reached[j].hops <= w.queue[b].hops,
        ensures
            self.keeps(Walk { queue: w.queue.remove(b), ..w }, None),
    {
        reveal(Terrain::keeps);
        let s = w.queue[b];
        let v = Walk { queue: w.queue.remove(b), ..w };
        self.lemma_queue_without(w, v, b);
        assert forall|x: u32, h: int| #[trigger] self.within_reach(w, x, h) implies self.within_reach(
            v,
            x,
            h,
        ) by {
            if x == s.to {
                if exists|j: int|
                    0 <= j < w.reached.len() && (#[trigger] w.reached[j]).node == x
                        && w.reached[j].hops <= h {
                    let j = choose|j: int|
                        0 <= j < w.reached.len() && (#[trigger] w.reached[j]).node == x
                            && w.reached[j].hops <= h;
                    assert(v.reached[j].node == x);
                } else {
                    let k = choose|k: int|
                        0 <= k < w.queue.len() && (#[trigger] w.queue[k]).to == x
                            && w.queue[k].hops == h;
                    assert(k != b);
                    let m = if k < b {
                        k
                    } else {
                        k - 1
                    };
                    assert(v.queue[m] == w.queue[k]);
                }
            }
        }
        self.lemma_spread_along(w, v);
    }

    /// The budget ends the walk at a step to a node that was not taken.
    #[verifier::spinoff_prover]
    #[verifier::rlimit(60)]
    proof fn lemma_step_refused(self, w: Walk, b: int)
        requires
            self.keeps(w, None),
            !w.over,
            0 <= b < w.queue.len(),
            !taken(w.reached, w.queue[b].to),
        ensures
            self.keeps(
                Walk { queue: w.queue.remove(b), truncated: true, over: true, ..w },
                None,
            ),
    {
        reveal(Terrain::keeps);
        let s = w.queue[b];
        let v = Walk { queue: w.queue.remove(b), truncated: true, over: true, ..w };
        self.lemma_queue_without(w, v, b);
        assert forall|x: u32, h: int| #[trigger] self.within_reach(w, x, h) implies self.within_reach(
            v,
            x,
            h,
        ) by {
            if x == s.to {
                assert(!taken(v.reached, x));
            }
        }
        self.lemma_spread_along(w, v);
    }

    /// With nothing waiting and no step left, the walk is over.
    proof fn lemma_no_step(self, w: Walk)
        requires
            self.keeps(w, None),
            !w.over,
        ensures
            self.keeps(Walk { over: true, ..w }, None),
    {
        reveal(Terrain::keeps);
        let v = Walk { over: true, ..w };
        self.lemma_reach_grows(w, v);
        self.lemma_spread_along(w, v);
    }

    /// The step to be taken next stands for an edge of the graph.
    proof fn lemma_step_is_true(self, w: Walk)
        requires
            self.keeps(w, None),
            w.queue.len() > 0,
        ensures
            ({
                let b = next_step(w.queue);
                let s = w.queue[b];
                &&& 0 <= b < w.queue.len()
                &&& s.to < self.nodes.len()
                &&& taken(w.reached, s.from)
                &&& self.explains(
                    w.reached,
                    Reached { node: s.to, role: self.step_role(s), hops: s.hops, score: None },
                )
                &&& forall|j: int|
                    0 <= j < w.reached.len() ==> (#[trigger] w.reached[j]).hops <= s.hops
            }),
    {
        reveal(Terrain::keeps);
        lemma_next_step(w.queue);
        let s = w.queue[next_step(w.queue)];
        assert(self.steps_truly(s));
    }

    proof fn lemma_stepped_keeps(self, w: Walk)
        requires
            self.is_sound(),
            self.keeps(w, None),
            !w.over,
            w.pending.len() == 0,
        ensures
            self.keeps(self.stepped(w), None),
            w.truncated ==> self.stepped(w).truncated,
            extends(self.stepped(w).reached, w.reached),
            self.ends_well(self.stepped(w)),
    {
        if w.queue.len() == 0 {
            self.lemma_no_step(w);
        } else {
            let b = next_step(w.queue);
            let s = w.queue[b];
            self.lemma_step_is_true(w);
            let u = Walk { level: s.hops, ..w };
            self.lemma_raised(w);
            if taken(w.reached, s.to) {
                let j = choose|j: int|
                    0 <= j < w.reached.len() && (#[trigger] w.reached[j]).node == s.to;
                assert(u.reached[j].node == s.to && u.reached[j].hops <= s.hops);
                self.lemma_step_dropped(u, b);
            } else if self.full(w) {
                self.lemma_step_refused(u, b);
            } else {
                let r = Reached {
                    node: s.to,
                    role: self.step_role(s),
                    hops: s.hops,
                    score: None,
                };
                self.lemma_take(u, r, true, None);
                let q = self.queued(u, r, true);
                assert(q.reached[w.reached.len() as int] == r);
                self.lemma_step_dropped(q, b);
            }
        }
    }

    /// Everything that is next to a node stays within reach where nothing that
    /// was falls out of it.
    proof fn lemma_spread_along(self, w: Walk, v: Walk)
        requires
            self.spreads_all(w),
            v.walked == w.walked,
            v.reached == w.reached,
            forall|x: u32, h: int| #[trigger]
                self.within_reach(w, x, h) ==> self.within_reach(v, x, h),
        ensures
            self.spreads_all(v),
    {
        assert forall|i: int|
            0 <= i < v.reached.len() && v.walked.contains((#[trigger] v.reached[i]).node)
                && v.reached[i].hops < self.opts.hops implies self.spreads(v, i) by {
            assert(self.spreads(w, i));
        }
    }

    /// A finished walk is either cut short or has nothing left to do.
    spec fn ends_well(self, w: Walk) -> bool {
        w.over ==> w.pending.len() == 0 && (!w.truncated ==> w.queue.len() == 0)
    }

    proof fn lemma_after_keeps(self, hits: Seq<Hit>, n: nat)
        requires
            self.is_sound(),
        ensures
            self.keeps(self.after(self.start(hits), n), None),
            self.ends_well(self.after(self.start(hits), n)),
            extends(self.after(self.start(hits), n).reached, self.start(hits).reached),
            self.start(hits).truncated ==> self.after(self.start(hits), n).truncated,
        decreases n,
    {
        let w = self.start(hits);
        if n == 0 {
            let w0 = Walk {
                reached: Seq::empty(),
                walked: Set::empty(),
                queue: Seq::empty(),
                pending: Seq::empty(),
                level: 0,
                truncated: false,
                over: false,
            };
            assert(self.keeps(w0, None)) by {
                reveal(Terrain::keeps);
            }
            self.lemma_seeded_keeps(w0, hits);
            self.lemma_seeded_grows(w0, hits);
        } else {
            let v = self.after(w, (n - 1) as nat);
            self.lemma_after_keeps(hits, (n - 1) as nat);
            if !v.over {
                if v.pending.len() > 0 {
                    self.lemma_attended_keeps(v);
                } else {
                    self.lemma_stepped_keeps(v);
                }
            }
        }
    }
}

impl Terrain {
    proof fn lemma_after_shifted(self, w: Walk, n: nat)
        ensures
            self.after(self.advanced(w), n) == self.after(w, n + 1),
        decreases n,
    {
        if n > 0 {
            self.lemma_after_shifted(w, (n - 1) as nat);
            assert(self.after(w, n + 1) == self.advanced(self.after(w, n)));
            assert(self.after(self.advanced(w), n) == self.advanced(
                self.after(self.advanced(w), (n - 1) as nat),
            ));
        } else {
            assert(self.after(w, 1) == self.advanced(self.after(w, 0)));
        }
    }

    proof fn lemma_walk_ends(self, w: Walk) -> (n: nat)
        requires
            w.reached.len() <= self.budget(),
        ensures
            self.after(w, n).over,
        decreases
                if w.over {
                    0int
                } else {
                    1
                },
                self.budget() - w.reached.len(),
                w.pending.len(),
                w.queue.len(),
    {
        if w.over {
            0
        } else {
            let v = self.advanced(w);
            self.lemma_advanced_shrinks(w);
            let m = self.lemma_walk_ends(v);
            self.lemma_after_shifted(w, m);
            m + 1
        }
    }

    /// Every walk ends, and what holds all along holds of its end.
    proof fn lemma_outcome_keeps(self, hits: Seq<Hit>)
        requires
            self.is_sound(),
        ensures
            self.outcome(hits).over,
            self.keeps(self.outcome(hits), None),
            self.ends_well(self.outcome(hits)),
            extends(self.outcome(hits).reached, self.start(hits).reached),
            self.start(hits).truncated ==> self.outcome(hits).truncated,
    {
        every_walk_ends(self, hits);
        let n = choose|n: nat| self.after(self.start(hits), n).over;
        self.lemma_after_keeps(hits, n);
    }

    proof fn lemma_seeded_extends(self, w: Walk, hits: Seq<Hit>)
        ensures
            extends(self.seeded(w, hits).reached, w.reached),
            !self.seeded(w, hits).truncated ==> forall|i: int|
                0 <= i < hits.len() && (#[trigger] hits[i]).node < self.nodes.len() ==> taken(
                    self.seeded(w, hits).reached,
                    hits[i].node,
                ),
        decreases hits.len(),
    {
        if hits.len() > 0 {
            let rest = hits.drop_first();
            let r = Reached {
                node: hits[0].node,
                role: Role::Seed,
                hops: 0,
                score: Some(hits[0].score),
            };
            let v = if hits[0].node < self.nodes.len() && !taken(w.reached, hits[0].node) {
                self.queued(w, r, true)
            } else {
                w
            };
            self.lemma_seeded_extends(v, rest);
            self.lemma_seeded_extends(w, rest);
            lemma_taken_push(w.reached, r, r.node);
            let end = self.seeded(w, hits);
            if !end.truncated {
                assert(end == self.seeded(v, rest));
                lemma_extends(end.reached, v.reached);
                assert forall|i: int|
                    0 <= i < hits.len() && (#[trigger] hits[i]).node
                        < self.nodes.len() implies taken(end.reached, hits[i].node) by {
                    if i > 0 {
                        assert(rest[i - 1] == hits[i]);
                    }
                }
            }
        }
    }

    proof fn lemma_seeds_in_order(self, w: Walk, hits: Seq<Hit>, i: int, j: int)
        requires
            0 <= i < j < hits.len(),
            hits[i].node < self.nodes.len(),
            forall|k: int| 0 <= k < j ==> (#[trigger] hits[k]).node != hits[j].node,
            !taken(w.reached, hits[j].node),
            taken(self.seeded(w, hits).reached, hits[j].node),
        ensures
            taken(self.seeded(w, hits).reached, hits[i].node),
        decreases hits.len(),
    {
        let rest = hits.drop_first();
        assert(hits[0].node != hits[j].node);
        let r = Reached {
            node: hits[0].node,
            role: Role::Seed,
            hops: 0,
            score: Some(hits[0].score),
        };
        let v = if hits[0].node < self.nodes.len() && !taken(w.reached, hits[0].node) {
            self.queued(w, r, true)
        } else {
            w
        };
        lemma_taken_push(w.reached, r, r.node);
        lemma_taken_push(w.reached, r, hits[j].node);
        let end = self.seeded(w, hits);
        assert(end == self.seeded(v, rest));
        self.lemma_seeded_extends(v, rest);
        lemma_extends(end.reached, v.reached);
        assert forall|k: int| 0 <= k < j - 1 implies (#[trigger] rest[k]).node != rest[j
            - 1].node by {
            assert(rest[k] == hits[k + 1]);
        }
        if i > 0 {
            self.lemma_seeds_in_order(v, rest, i - 1, j - 1);
        }
    }
}

/// Every walk ends.
pub proof fn every_walk_ends(t: Terrain, hits: Seq<Hit>)
    ensures
        t.outcome(hits).over,
{
    let w0 = Walk {
        reached: Seq::empty(),
        walked: Set::empty(),
        queue: Seq::empty(),
        pending: Seq::empty(),
        level: 0,
        truncated: false,
        over: false,
    };
    t.lemma_seeded_grows(w0, hits);
    let n = t.lemma_walk_ends(t.start(hits));
    t.lemma_outcome(hits, n);
}

/// A walk never takes more nodes than its budget, and takes no node twice.
pub proof fn the_budget_is_kept_and_no_node_is_taken_twice(t: Terrain, hits: Seq<Hit>)
    requires
        t.is_sound(),
    ensures
        t.outcome(hits).reached.len() <= t.budget(),
        forall|i: int, j: int|
            0 <= i < j < t.outcome(hits).reached.len() ==> (#[trigger] t.outcome(
                hits,
            ).reached[i]).node != (#[trigger] t.outcome(hits).reached[j]).node,
{
    t.lemma_outcome_keeps(hits);
    reveal(Terrain::keeps);
}

/// Every node of a walk says why it is there: a seed carries its score, and any
/// other names a node that was taken before it and the edge between the two.
pub proof fn every_node_says_why_it_is_there(t: Terrain, hits: Seq<Hit>, i: int)
    requires
        t.is_sound(),
        0 <= i < t.outcome(hits).reached.len(),
    ensures
        t.explains(t.outcome(hits).reached.take(i), t.outcome(hits).reached[i]),
{
    t.lemma_outcome_keeps(hits);
    reveal(Terrain::keeps);
}

/// Nodes come in the order of their distance from the seeds, and none is further
/// away than the walk was allowed to go.
pub proof fn nearer_nodes_come_first(t: Terrain, hits: Seq<Hit>, i: int, j: int)
    requires
        t.is_sound(),
        0 <= i <= j < t.outcome(hits).reached.len(),
    ensures
        t.outcome(hits).reached[i].hops <= t.outcome(hits).reached[j].hops <= t.opts.hops,
{
    t.lemma_outcome_keeps(hits);
    reveal(Terrain::keeps);
    let w = t.outcome(hits);
    assert(w.reached[j].hops <= w.level);
}

/// The distance of a node is the shortest: it is never more than one further
/// than that of a node that it shares a dependency with and that was walked
/// from.
pub proof fn no_dependency_makes_a_node_nearer(t: Terrain, hits: Seq<Hit>, i: int, j: int, l: Link)
    requires
        t.is_sound(),
        0 <= i < t.outcome(hits).reached.len(),
        0 <= j < t.outcome(hits).reached.len(),
        !t.is_leaf(t.outcome(hits).reached[i]),
        t.outcome(hits).reached[i].hops < t.opts.hops,
        t.links.contains(l),
        leads_on(l, t.outcome(hits).reached[i].node, t.opts.min_weight),
        other_end(l, t.outcome(hits).reached[i].node) == t.outcome(hits).reached[j].node,
    ensures
        t.outcome(hits).reached[j].hops <= t.outcome(hits).reached[i].hops + 1,
{
    t.lemma_outcome_keeps(hits);
    reveal(Terrain::keeps);
    let w = t.outcome(hits);
    let x = w.reached[j].node;
    assert(w.walked.contains(w.reached[i].node));
    assert(t.spreads(w, i));
    assert(t.within_reach(w, x, w.reached[i].hops + 1));
    assert(taken(w.reached, x)) by {
        assert(w.reached[j].node == x);
    }
    if exists|k: int|
        0 <= k < w.queue.len() && (#[trigger] w.queue[k]).to == x && w.queue[k].hops
            == w.reached[i].hops + 1 {
        let k = choose|k: int|
            0 <= k < w.queue.len() && (#[trigger] w.queue[k]).to == x && w.queue[k].hops
                == w.reached[i].hops + 1;
        assert(w.level <= w.queue[k].hops);
        assert(w.reached[j].hops <= w.level);
    } else {
        let m = choose|m: int|
            0 <= m < w.reached.len() && (#[trigger] w.reached[m]).node == x && w.reached[m].hops
                <= w.reached[i].hops + 1;
        if m != j {
            let a = if m < j {
                m
            } else {
                j
            };
            let b = if m < j {
                j
            } else {
                m
            };
            assert(w.reached[a].node != w.reached[b].node);
        }
    }
}

/// A walk that does not say it was cut short is complete: it has every hit that
/// the graph has, what contains each node that it walked from, and, up to the
/// last hop, everything that shares a dependency with one.
pub proof fn a_walk_that_was_not_cut_short_is_complete(t: Terrain, hits: Seq<Hit>)
    requires
        t.is_sound(),
        !t.outcome(hits).truncated,
    ensures
        forall|h: int|
            0 <= h < hits.len() && (#[trigger] hits[h]).node < t.nodes.len() ==> taken(
                t.outcome(hits).reached,
                hits[h].node,
            ),
        forall|i: int|
            0 <= i < t.outcome(hits).reached.len() && !t.is_leaf(
                #[trigger] t.outcome(hits).reached[i],
            ) ==> {
                let r = t.outcome(hits).reached[i];
                &&& container(t.links, r.node) matches Some(p) ==> taken(
                    t.outcome(hits).reached,
                    p,
                )
                &&& r.hops < t.opts.hops ==> forall|l: Link| #[trigger]
                    t.links.contains(l) && leads_on(l, r.node, t.opts.min_weight) ==> taken(
                        t.outcome(hits).reached,
                        other_end(l, r.node),
                    )
            },
{
    t.lemma_outcome_keeps(hits);
    reveal(Terrain::keeps);
    let w = t.outcome(hits);
    let w0 = Walk {
        reached: Seq::empty(),
        walked: Set::empty(),
        queue: Seq::empty(),
        pending: Seq::empty(),
        level: 0,
        truncated: false,
        over: false,
    };
    t.lemma_seeded_extends(w0, hits);
    lemma_extends(w.reached, t.start(hits).reached);
    assert forall|i: int|
        0 <= i < w.reached.len() && !t.is_leaf(#[trigger] w.reached[i]) implies {
        let r = w.reached[i];
        &&& container(t.links, r.node) matches Some(p) ==> taken(w.reached, p)
        &&& r.hops < t.opts.hops ==> forall|l: Link| #[trigger]
            t.links.contains(l) && leads_on(l, r.node, t.opts.min_weight) ==> taken(
                w.reached,
                other_end(l, r.node),
            )
    } by {
        let r = w.reached[i];
        assert(w.walked.contains(r.node));
        if r.hops < t.opts.hops {
            assert(t.spreads(w, i));
            assert forall|l: Link| #[trigger]
                t.links.contains(l) && leads_on(l, r.node, t.opts.min_weight) implies taken(
                w.reached,
                other_end(l, r.node),
            ) by {
                assert(t.within_reach(w, other_end(l, r.node), r.hops + 1));
            }
        }
    }
}

/// A budget is spent on better-ranked hits first: the seeds stand at the front,
/// and where a hit is one of them, so is every hit ranked before it that the
/// graph has.
pub proof fn better_ranked_hits_are_taken_first(t: Terrain, hits: Seq<Hit>, i: int, j: int)
    requires
        t.is_sound(),
        0 <= i < j < hits.len(),
        hits[i].node < t.nodes.len(),
        forall|k: int| 0 <= k < j ==> (#[trigger] hits[k]).node != hits[j].node,
        taken(t.start(hits).reached, hits[j].node),
    ensures
        taken(t.start(hits).reached, hits[i].node),
        t.start(hits).reached.is_prefix_of(t.outcome(hits).reached),
{
    t.lemma_outcome_keeps(hits);
    let w0 = Walk {
        reached: Seq::empty(),
        walked: Set::empty(),
        queue: Seq::empty(),
        pending: Seq::empty(),
        level: 0,
        truncated: false,
        over: false,
    };
    t.lemma_seeds_in_order(w0, hits, i, j);
    let a = t.start(hits).reached;
    let b = t.outcome(hits).reached;
    assert(b.subrange(0, a.len() as int) =~= a);
}

/// What a move adds to a walk, it adds behind what was there, and none of it is a
/// seed.
spec fn adds_no_seed(v: Seq<Reached>, w: Seq<Reached>) -> bool {
    &&& extends(v, w)
    &&& forall|i: int| w.len() <= i < v.len() ==> !((#[trigger] v[i]).role is Seed)
}

/// A node is among some hits, and another is not among those up to it.
pub open spec fn hit_before(hits: Seq<Hit>, a: u32, b: u32) -> bool {
    exists|h: int|
        0 <= h < hits.len() && (#[trigger] hits[h]).node == a && forall|g: int|
            0 <= g <= h ==> (#[trigger] hits[g]).node != b
}

impl Terrain {
    proof fn lemma_descended_adds(self, w: Walk, children: Seq<u32>, of: u32, hops: usize)
        ensures
            adds_no_seed(self.descended(w, children, of, hops).reached, w.reached),
        decreases children.len(),
    {
        if children.len() > 0 {
            let rest = children.drop_first();
            self.lemma_descended_adds(w, rest, of, hops);
            let r = Reached { node: children[0], role: Role::Child { of }, hops, score: None };
            let q = self.queued(w, r, true);
            self.lemma_descended_adds(q, rest, of, hops);
            let end = self.descended(q, rest, of, hops).reached;
            assert(forall|i: int| 0 <= i < w.reached.len() ==> q.reached[i] == w.reached[i]);
            assert(end[w.reached.len() as int] == q.reached[w.reached.len() as int]);
            assert(adds_no_seed(end, w.reached));
        }
    }

    proof fn lemma_climbed_adds(self, w: Walk, child: u32, hops: usize, left: nat)
        ensures
            adds_no_seed(self.climbed(w, child, hops, left).reached, w.reached),
        decreases left,
    {
        if let Some(parent) = container(self.links, child) {
            if left > 0 {
                self.lemma_climbed_adds(w, parent, hops, (left - 1) as nat);
                let r = Reached {
                    node: parent,
                    role: Role::Ancestor { of: child },
                    hops,
                    score: None,
                };
                let q = self.queued(w, r, false);
                self.lemma_climbed_adds(q, parent, hops, (left - 1) as nat);
                let end = self.climbed(q, parent, hops, (left - 1) as nat).reached;
                assert(forall|i: int| 0 <= i < w.reached.len() ==> q.reached[i] == w.reached[i]);
                assert(end[w.reached.len() as int] == q.reached[w.reached.len() as int]);
                assert(adds_no_seed(end, w.reached));
            }
        }
    }

    proof fn lemma_enumerated_adds(self, w: Walk, children: Seq<u32>, of: u32, hops: usize)
        ensures
            adds_no_seed(self.enumerated(w, children, of, hops).reached, w.reached),
        decreases children.len(),
    {
        if children.len() > 0 {
            let rest = children.drop_first();
            self.lemma_enumerated_adds(w, rest, of, hops);
            let r = Reached { node: children[0], role: Role::Child { of }, hops, score: None };
            let q = self.joined(w, r);
            self.lemma_enumerated_adds(q, rest, of, hops);
            let end = self.enumerated(q, rest, of, hops).reached;
            assert(forall|i: int| 0 <= i < w.reached.len() ==> q.reached[i] == w.reached[i]);
            assert(end[w.reached.len() as int] == q.reached[w.reached.len() as int]);
            assert(adds_no_seed(end, w.reached));
        }
    }

    proof fn lemma_adds_on(self, u: Seq<Reached>, v: Seq<Reached>, w: Seq<Reached>)
        requires
            adds_no_seed(v, w),
            adds_no_seed(u, v),
        ensures
            adds_no_seed(u, w),
    {
        assert forall|i: int| 0 <= i < w.len() implies #[trigger] u[i] == w[i] by {
            assert(v[i] == w[i]);
        }
        assert forall|i: int| w.len() <= i < u.len() implies !((#[trigger] u[i]).role is Seed) by {
            if i < v.len() {
                assert(u[i] == v[i]);
            }
        }
    }

    proof fn lemma_advanced_adds(self, w: Walk)
        ensures
            adds_no_seed(self.advanced(w).reached, w.reached),
    {
        if w.over {
        } else if w.pending.len() > 0 {
            let e = w.pending.last();
            let fresh = !w.walked.contains(e.node) && e.hops < self.opts.hops;
            let w0 = Walk { pending: w.pending.drop_last(), ..w };
            let w1 = if fresh {
                Walk { queue: w0.queue + self.steps_from(e.node, e.hops), ..w0 }
            } else {
                w0
            };
            let below = self.carrying_children(e.node);
            let w2 = if fresh && e.asked {
                self.descended(w1, below, e.node, e.hops)
            } else {
                w1
            };
            self.lemma_descended_adds(w1, below, e.node, e.hops);
            assert(adds_no_seed(w2.reached, w.reached));
            let w3 = self.climbed(w2, e.node, e.hops, self.nodes.len());
            self.lemma_climbed_adds(w2, e.node, e.hops, self.nodes.len());
            self.lemma_adds_on(w3.reached, w2.reached, w.reached);
            let all = self.ranked_children(w3, e.node);
            let some = all.take(self.opts.children as int);
            self.lemma_enumerated_adds(w3, all, e.node, e.hops);
            self.lemma_enumerated_adds(w3, some, e.node, e.hops);
            let w4 = if self.opts.children > 0 {
                self.with_children(w3, e.node, e.hops)
            } else {
                w3
            };
            assert(adds_no_seed(w4.reached, w3.reached));
            self.lemma_adds_on(w4.reached, w3.reached, w.reached);
        } else {
            assert(adds_no_seed(self.stepped(w).reached, w.reached));
        }
    }

    proof fn lemma_after_adds(self, w: Walk, n: nat)
        ensures
            adds_no_seed(self.after(w, n).reached, w.reached),
        decreases n,
    {
        if n > 0 {
            let v = self.after(w, (n - 1) as nat);
            self.lemma_after_adds(w, (n - 1) as nat);
            self.lemma_advanced_adds(v);
            self.lemma_adds_on(self.advanced(v).reached, v.reached, w.reached);
        }
    }

    /// The seeds taken from `done` are all seeds, in the order of those hits, and
    /// no node of the graph among them is left out.
    spec fn seeds_so_far(self, w: Walk, done: Seq<Hit>) -> bool {
        &&& forall|i: int| 0 <= i < w.reached.len() ==> (#[trigger] w.reached[i]).role is Seed
        &&& forall|i: int, j: int|
            0 <= i < j < w.reached.len() ==> hit_before(
                done,
                (#[trigger] w.reached[i]).node,
                (#[trigger] w.reached[j]).node,
            )
        &&& forall|i: int|
            0 <= i < w.reached.len() ==> exists|h: int|
                0 <= h < done.len() && (#[trigger] done[h]).node == (#[trigger] w.reached[i]).node
        &&& forall|h: int|
            0 <= h < done.len() && (#[trigger] done[h]).node < self.nodes.len() ==> taken(
                w.reached,
                done[h].node,
            )
    }

    proof fn lemma_hit_before_more(done: Seq<Hit>, all: Seq<Hit>, a: u32, b: u32)
        requires
            hit_before(done, a, b),
            done.is_prefix_of(all),
        ensures
            hit_before(all, a, b),
    {
        let h = choose|h: int|
            0 <= h < done.len() && (#[trigger] done[h]).node == a && forall|g: int|
                0 <= g <= h ==> (#[trigger] done[g]).node != b;
        assert(all[h] == done[h]);
        assert forall|g: int| 0 <= g <= h implies (#[trigger] all[g]).node != b by {
            assert(all[g] == done[g]);
        }
    }

    /// One hit more is looked at, and taken up as a seed where it is new.
    proof fn lemma_one_seed(self, w: Walk, done: Seq<Hit>, h: Hit)
        requires
            self.seeds_so_far(w, done),
        ensures
            h.node >= self.nodes.len() || taken(w.reached, h.node) ==> self.seeds_so_far(
                w,
                done.push(h),
            ),
            h.node < self.nodes.len() && !taken(w.reached, h.node) ==> self.seeds_so_far(
                self.queued(
                    w,
                    Reached { node: h.node, role: Role::Seed, hops: 0, score: Some(h.score) },
                    true,
                ),
                done.push(h),
            ),
    {
        let all = done.push(h);
        let n = done.len() as int;
        assert(all[n] == h);
        assert(forall|g: int| 0 <= g < n ==> #[trigger] all[g] == done[g]);
        let r = Reached { node: h.node, role: Role::Seed, hops: 0, score: Some(h.score) };
        let new = h.node < self.nodes.len() && !taken(w.reached, h.node);
        let v = if new {
            self.queued(w, r, true)
        } else {
            w
        };
        let m = w.reached.len() as int;
        assert forall|i: int, j: int| 0 <= i < j < v.reached.len() implies hit_before(
            all,
            (#[trigger] v.reached[i]).node,
            (#[trigger] v.reached[j]).node,
        ) by {
            assert(v.reached[i] == w.reached[i]);
            if j < m {
                assert(v.reached[j] == w.reached[j]);
                assert(hit_before(done, w.reached[i].node, w.reached[j].node));
                Self::lemma_hit_before_more(done, all, w.reached[i].node, w.reached[j].node);
            } else {
                let k = choose|k: int|
                    0 <= k < done.len() && (#[trigger] done[k]).node == w.reached[i].node;
                assert(all[k] == done[k]);
                assert forall|g: int| 0 <= g <= k implies (#[trigger] all[g]).node != h.node by {
                    assert(all[g] == done[g]);
                }
            }
        }
        assert forall|i: int| 0 <= i < v.reached.len() implies exists|k: int|
            0 <= k < all.len() && (#[trigger] all[k]).node == (#[trigger] v.reached[i]).node by {
            if i < m {
                assert(v.reached[i] == w.reached[i]);
                let k = choose|k: int|
                    0 <= k < done.len() && (#[trigger] done[k]).node == w.reached[i].node;
                assert(all[k].node == v.reached[i].node);
            } else {
                assert(all[n].node == v.reached[i].node);
            }
        }
        assert forall|k: int|
            0 <= k < all.len() && (#[trigger] all[k]).node < self.nodes.len() implies taken(
            v.reached,
            all[k].node,
        ) by {
            lemma_taken_push(w.reached, r, all[k].node);
            if k < n {
                assert(all[k] == done[k]);
                assert(taken(w.reached, done[k].node));
            }
        }
    }

    proof fn lemma_seeds_ordered(self, w: Walk, done: Seq<Hit>, hits: Seq<Hit>)
        requires
            self.seeds_so_far(w, done),
        ensures
            forall|i: int|
                0 <= i < self.seeded(w, hits).reached.len() ==> (#[trigger] self.seeded(
                    w,
                    hits,
                ).reached[i]).role is Seed,
            forall|i: int, j: int|
                0 <= i < j < self.seeded(w, hits).reached.len() ==> hit_before(
                    done + hits,
                    (#[trigger] self.seeded(w, hits).reached[i]).node,
                    (#[trigger] self.seeded(w, hits).reached[j]).node,
                ),
        decreases hits.len(),
    {
        let end = self.seeded(w, hits);
        if hits.len() == 0 || (hits[0].node < self.nodes.len() && self.full(w)) {
            assert(end.reached == w.reached);
            assert(done.is_prefix_of(done + hits));
            assert forall|i: int, j: int| 0 <= i < j < end.reached.len() implies hit_before(
                done + hits,
                (#[trigger] end.reached[i]).node,
                (#[trigger] end.reached[j]).node,
            ) by {
                Self::lemma_hit_before_more(
                    done,
                    done + hits,
                    w.reached[i].node,
                    w.reached[j].node,
                );
            }
        } else {
            let h = hits[0];
            let rest = hits.drop_first();
            self.lemma_one_seed(w, done, h);
            let r = Reached { node: h.node, role: Role::Seed, hops: 0, score: Some(h.score) };
            let v = if h.node < self.nodes.len() && !taken(w.reached, h.node) {
                self.queued(w, r, true)
            } else {
                w
            };
            assert(end == self.seeded(v, rest));
            self.lemma_seeds_ordered(v, done.push(h), rest);
            assert(done.push(h) + rest =~= done + hits);
        }
    }
}

/// A hit landed on a node.
spec fn is_hit(hits: Seq<Hit>, n: u32) -> bool {
    exists|h: int| 0 <= h < hits.len() && (#[trigger] hits[h]).node == n
}

impl Terrain {
    proof fn lemma_seeded_hits(self, w: Walk, done: Seq<Hit>, hits: Seq<Hit>)
        requires
            self.seeds_so_far(w, done),
        ensures
            forall|i: int|
                0 <= i < self.seeded(w, hits).reached.len() ==> is_hit(
                    done + hits,
                    (#[trigger] self.seeded(w, hits).reached[i]).node,
                ),
        decreases hits.len(),
    {
        let end = self.seeded(w, hits);
        let all = done + hits;
        if hits.len() == 0 || (hits[0].node < self.nodes.len() && self.full(w)) {
            assert(end.reached == w.reached);
            assert forall|i: int| 0 <= i < end.reached.len() implies is_hit(
                all,
                (#[trigger] end.reached[i]).node,
            ) by {
                let h = choose|h: int|
                    0 <= h < done.len() && (#[trigger] done[h]).node == w.reached[i].node;
                assert(all[h] == done[h]);
            }
        } else {
            let h = hits[0];
            let rest = hits.drop_first();
            self.lemma_one_seed(w, done, h);
            let r = Reached { node: h.node, role: Role::Seed, hops: 0, score: Some(h.score) };
            let v = if h.node < self.nodes.len() && !taken(w.reached, h.node) {
                self.queued(w, r, true)
            } else {
                w
            };
            self.lemma_seeded_hits(v, done.push(h), rest);
            assert(done.push(h) + rest =~= all);
        }
    }

    proof fn lemma_seeds_are_hits(self, hits: Seq<Hit>, i: int)
        requires
            0 <= i < self.outcome(hits).reached.len(),
            self.outcome(hits).reached[i].role is Seed,
        ensures
            exists|h: int|
                0 <= h < hits.len() && (#[trigger] hits[h]).node == self.outcome(
                    hits,
                ).reached[i].node,
    {
        let w = self.start(hits);
        let n = choose|n: nat| self.after(w, n).over;
        self.lemma_after_adds(w, n);
        let none = Walk {
            reached: Seq::empty(),
            walked: Set::empty(),
            queue: Seq::empty(),
            pending: Seq::empty(),
            level: 0,
            truncated: false,
            over: false,
        };
        self.lemma_seeded_hits(none, Seq::empty(), hits);
        assert(Seq::<Hit>::empty() + hits =~= hits);
        assert(i < w.reached.len());
        assert(self.outcome(hits).reached[i] == w.reached[i]);
    }
}

/// Seeds stand in front of every other node, in the order of the hits: where one
/// seed stands before another, its node was hit before the other's.
pub proof fn seeds_stand_in_front_in_the_order_of_the_hits(
    t: Terrain,
    hits: Seq<Hit>,
    i: int,
    j: int,
)
    requires
        0 <= i < j < t.outcome(hits).reached.len(),
        t.outcome(hits).reached[j].role is Seed,
    ensures
        t.outcome(hits).reached[i].role is Seed,
        hit_before(hits, t.outcome(hits).reached[i].node, t.outcome(hits).reached[j].node),
{
    let w = t.start(hits);
    let n = choose|n: nat| t.after(w, n).over;
    t.lemma_after_adds(w, n);
    let none = Walk {
        reached: Seq::empty(),
        walked: Set::empty(),
        queue: Seq::empty(),
        pending: Seq::empty(),
        level: 0,
        truncated: false,
        over: false,
    };
    t.lemma_seeds_ordered(none, Seq::empty(), hits);
    assert(Seq::<Hit>::empty() + hits =~= hits);
    let end = t.outcome(hits).reached;
    assert(j < w.reached.len());
    assert(end[i] == w.reached[i] && end[j] == w.reached[j]);
}

/// A node is said to be contained only by one that is in the result.
pub proof fn a_parent_is_in_the_result(
    r: WorkbookContext,
    stored: StoredGraph,
    hits: Seq<Hit>,
    opts: ExpandOptions,
    i: int,
)
    requires
        expands_to(r, stored, hits, opts),
        0 <= i < r.nodes@.len(),
    ensures
        r.nodes@[i].parent matches Some(p) ==> container(stored.graph.links(), r.nodes@[i].node)
            == Some(p) && exists|k: int|
            0 <= k < r.nodes@.len() && (#[trigger] r.nodes@[k]).node == p,
{
    let t = Terrain { nodes: stored.graph.nodes(), links: stored.graph.links(), opts };
    let w = t.outcome(hits);
    let parent = parent_among(t.links, w.reached, w.reached[i].node);
    assert(describes(r.nodes@[i], t.nodes, w.reached[i], parent));
    if let Some(p) = parent {
        let k = choose|k: int| 0 <= k < w.reached.len() && (#[trigger] w.reached[k]).node == p;
        assert(describes(
            r.nodes@[k],
            t.nodes,
            w.reached[k],
            parent_among(t.links, w.reached, w.reached[k].node),
        ));
        assert(r.nodes@[k].node == p);
    }
}

// ---------------------------------------------------------------------------
// What a result says of the graph, edge kind by edge kind.

/// A node is in the result.
pub open spec fn is_told(nodes: Seq<RetrievedNode>, n: u32) -> bool {
    exists|k: int| 0 <= k < nodes.len() && (#[trigger] nodes[k]).node == n
}

/// A node is in the result, at most so many hops away.
pub open spec fn is_told_within(nodes: Seq<RetrievedNode>, n: u32, hops: int) -> bool {
    exists|k: int| 0 <= k < nodes.len() && (#[trigger] nodes[k]).node == n && nodes[k].hops <= hops
}

pub proof fn lemma_told(
    r: WorkbookContext,
    stored: StoredGraph,
    hits: Seq<Hit>,
    opts: ExpandOptions,
) -> (w: Walk)
    requires
        expands_to(r, stored, hits, opts),
    ensures
        w == (Terrain { nodes: stored.graph.nodes(), links: stored.graph.links(), opts }).outcome(
            hits,
        ),
        r.truncated == w.truncated,
        r.nodes@.len() == w.reached.len(),
        forall|i: int|
            0 <= i < w.reached.len() ==> {
                let d = #[trigger] r.nodes@[i];
                let x = w.reached[i];
                d.node == x.node && d.role == x.role && d.hops == x.hops && d.score == x.score
                    && d.parent == parent_among(stored.graph.links(), w.reached, x.node)
            },
        forall|n: u32| #[trigger] taken(w.reached, n) <==> is_told(r.nodes@, n),
{
    let t = Terrain { nodes: stored.graph.nodes(), links: stored.graph.links(), opts };
    let w = t.outcome(hits);
    assert forall|i: int| 0 <= i < w.reached.len() implies {
        let d = #[trigger] r.nodes@[i];
        let x = w.reached[i];
        d.node == x.node && d.role == x.role && d.hops == x.hops && d.score == x.score && d.parent
            == parent_among(stored.graph.links(), w.reached, x.node)
    } by {
        assert(describes(
            r.nodes@[i],
            t.nodes,
            w.reached[i],
            parent_among(t.links, w.reached, w.reached[i].node),
        ));
    }
    assert forall|n: u32| #[trigger] taken(w.reached, n) <==> is_told(r.nodes@, n) by {
        if taken(w.reached, n) {
            let k = choose|k: int| 0 <= k < w.reached.len() && (#[trigger] w.reached[k]).node == n;
            assert(r.nodes@[k].node == n);
        }
        if is_told(r.nodes@, n) {
            let k = choose|k: int| 0 <= k < r.nodes@.len() && (#[trigger] r.nodes@[k]).node == n;
            assert(w.reached[k].node == n);
        }
    }
    w
}

/// In a result that was not cut short, both ends of every dependency are there
/// where one of them is fewer hops from a seed than were allowed: a reference on
/// the same sheet, to another sheet, to another workbook, or to a defined name,
/// with at least the least weight. The other end is one hop further at most. A
/// child that was asked for on its own account is shown and not walked from.
pub proof fn every_kind_of_dependency_is_followed(
    r: WorkbookContext,
    stored: StoredGraph,
    hits: Seq<Hit>,
    opts: ExpandOptions,
    i: int,
    l: Link,
)
    requires
        expands_to(r, stored, hits, opts),
        stored.graph.is_sound(),
        !r.truncated,
        0 <= i < r.nodes@.len(),
        r.nodes@[i].hops < opts.hops,
        opts.children == 0 || !(r.nodes@[i].role is Child),
        stored.graph.links().contains(l),
        l.from == r.nodes@[i].node || l.to == r.nodes@[i].node,
        l.edge.kind == EdgeKind::DependsOn || l.edge.kind == EdgeKind::CrossSheetRef || l.edge.kind
            == EdgeKind::CrossWorkbookRef || l.edge.kind == EdgeKind::ReferencesName,
        l.edge.weight >= opts.min_weight,
    ensures
        is_told_within(r.nodes@, l.from, r.nodes@[i].hops + 1),
        is_told_within(r.nodes@, l.to, r.nodes@[i].hops + 1),
{
    let t = Terrain { nodes: stored.graph.nodes(), links: stored.graph.links(), opts };
    let w = lemma_told(r, stored, hits, opts);
    let n = r.nodes@[i].node;
    assert(w.reached[i].node == n);
    a_walk_that_was_not_cut_short_is_complete(t, hits);
    let other = other_end(l, n);
    assert(leads_on(l, n, opts.min_weight));
    assert(taken(w.reached, other));
    let j = choose|j: int| 0 <= j < w.reached.len() && (#[trigger] w.reached[j]).node == other;
    no_dependency_makes_a_node_nearer(t, hits, i, j, l);
    assert(r.nodes@[j].node == other);
    assert(r.nodes@[i].node == n);
}

/// What the graph has of a hit is in a result that was not cut short, as a seed.
pub proof fn every_hit_is_a_seed(
    r: WorkbookContext,
    stored: StoredGraph,
    hits: Seq<Hit>,
    opts: ExpandOptions,
    h: int,
)
    requires
        expands_to(r, stored, hits, opts),
        stored.graph.is_sound(),
        !r.truncated,
        0 <= h < hits.len(),
        hits[h].node < stored.graph.nodes().len(),
    ensures
        exists|k: int|
            0 <= k < r.nodes@.len() && (#[trigger] r.nodes@[k]).node == hits[h].node
                && r.nodes@[k].role == Role::Seed && r.nodes@[k].hops == 0,
{
    let t = Terrain { nodes: stored.graph.nodes(), links: stored.graph.links(), opts };
    let w = lemma_told(r, stored, hits, opts);
    let none = Walk {
        reached: Seq::empty(),
        walked: Set::empty(),
        queue: Seq::empty(),
        pending: Seq::empty(),
        level: 0,
        truncated: false,
        over: false,
    };
    t.lemma_outcome_keeps(hits);
    t.lemma_seeded_extends(none, hits);
    t.lemma_seeds_ordered(none, Seq::empty(), hits);
    let first = t.start(hits).reached;
    assert(taken(first, hits[h].node));
    let k = choose|k: int| 0 <= k < first.len() && (#[trigger] first[k]).node == hits[h].node;
    assert(first[k].role is Seed);
    assert(w.reached[k] == first[k]);
    every_node_says_why_it_is_there(t, hits, k);
    assert(r.nodes@[k].node == hits[h].node);
}

/// Why a node is in the result is a fact of the graph. A seed is where a hit
/// landed; an ancestor directly contains, and a child is directly contained by, the
/// node that it is there for; an input is read by it and a dependent reads it, along
/// a reference of the kind and weight that the node records, which is no
/// containment and has at least the least weight.
pub proof fn every_role_is_a_fact_of_the_graph(
    r: WorkbookContext,
    stored: StoredGraph,
    hits: Seq<Hit>,
    opts: ExpandOptions,
    i: int,
)
    requires
        expands_to(r, stored, hits, opts),
        stored.graph.is_sound(),
        0 <= i < r.nodes@.len(),
    ensures
        ({
            let n = r.nodes@[i].node;
            let links = stored.graph.links();
            match r.nodes@[i].role {
                Role::Seed => exists|h: int|
                    0 <= h < hits.len() && (#[trigger] hits[h]).node == n,
                Role::Ancestor { of } => is_told(r.nodes@, of) && exists|l: Link| #[trigger]
                    links.contains(l) && l.from == n && l.to == of && l.edge.kind
                        == EdgeKind::Contains,
                Role::Child { of } => is_told(r.nodes@, of) && exists|l: Link| #[trigger]
                    links.contains(l) && l.from == of && l.to == n && l.edge.kind
                        == EdgeKind::Contains,
                Role::Input { of, kind, weight } => is_told(r.nodes@, of) && kind
                    != EdgeKind::Contains && weight >= opts.min_weight && exists|l: Link| #[trigger]
                    links.contains(l) && l.from == of && l.to == n && l.edge.kind == kind
                        && l.edge.weight == weight,
                Role::Dependent { on, kind, weight } => is_told(r.nodes@, on) && kind
                    != EdgeKind::Contains && weight >= opts.min_weight && exists|l: Link| #[trigger]
                    links.contains(l) && l.from == n && l.to == on && l.edge.kind == kind
                        && l.edge.weight == weight,
            }
        }),
{
    let t = Terrain { nodes: stored.graph.nodes(), links: stored.graph.links(), opts };
    let w = lemma_told(r, stored, hits, opts);
    every_node_says_why_it_is_there(t, hits, i);
    let x = w.reached[i];
    assert(r.nodes@[i].node == x.node && r.nodes@[i].role == x.role);
    let before = w.reached.take(i);
    if let Some(from) = x.role.origin() {
        let k = choose|k: int| 0 <= k < before.len() && (#[trigger] before[k]).node == from;
        assert(w.reached[k].node == from);
        assert(taken(w.reached, from));
    }
    match x.role {
        Role::Seed => {
            t.lemma_seeds_are_hits(hits, i);
        },
        Role::Ancestor { of } => {
            lemma_container(t.links, of);
        },
        Role::Child { of } => {
            t.lemma_contained(of);
            lemma_contained_link(t.links, of, x.node);
        },
        Role::Input { of, kind, weight } => {
            let l = Link { from: of, to: x.node, edge: graph::Edge { kind, weight } };
            assert(t.links.contains(l));
        },
        Role::Dependent { on, kind, weight } => {
            let l = Link { from: x.node, to: on, edge: graph::Edge { kind, weight } };
            assert(t.links.contains(l));
        },
    }
}

proof fn lemma_contained_link(links: Seq<Link>, of: u32, n: u32)
    requires
        contained(links, of).contains(n),
    ensures
        exists|l: Link| #[trigger]
            links.contains(l) && l.from == of && l.to == n && l.edge.kind == EdgeKind::Contains,
{
    let s = graph::edges_at(links, of, false);
    let keep = |l: Link| l.edge.kind is Contains;
    graph::lemma_edges_at(links, of, false);
    let all = contained(links, of);
    let k = choose|k: int| 0 <= k < all.len() && all[k] == n;
    let l = s.filter(keep)[k];
    s.lemma_filter_pred(keep, k);
    assert(s.filter(keep).contains(l));
    s.lemma_filter_contains_rev(keep, l);
    let j = choose|j: int| 0 <= j < s.len() && s[j] == l;
    assert(links.contains(s[j]));
    assert(l.from == of && l.to == n);
}

proof fn lemma_has_container(links: Seq<Link>, l: Link)
    requires
        links.contains(l),
        l.edge.kind == EdgeKind::Contains,
    ensures
        container(links, l.to) is Some,
{
    let s = graph::edges_at(links, l.to, true);
    graph::lemma_edges_at(links, l.to, true);
    assert(s.contains(l));
    let k = choose|k: int| 0 <= k < s.len() && s[k] == l;
    lemma_first_container_is(s, k);
}

proof fn lemma_first_container_is(s: Seq<Link>, k: int)
    requires
        0 <= k < s.len(),
        s[k].edge.kind == EdgeKind::Contains,
    ensures
        first_container(s) is Some,
    decreases s.len(),
{
    if !(s[0].edge.kind is Contains) {
        lemma_first_container_is(s.drop_first(), k - 1);
    }
}

/// Naming a node costs nothing and is never left undone: in a result that was not
/// cut short, a node that something contains comes with one that contains it, and
/// names it as its parent.
pub proof fn a_node_comes_with_what_contains_it(
    r: WorkbookContext,
    stored: StoredGraph,
    hits: Seq<Hit>,
    opts: ExpandOptions,
    i: int,
    l: Link,
)
    requires
        expands_to(r, stored, hits, opts),
        stored.graph.is_sound(),
        !r.truncated,
        0 <= i < r.nodes@.len(),
        opts.children == 0 || !(r.nodes@[i].role is Child),
        stored.graph.links().contains(l),
        l.to == r.nodes@[i].node,
        l.edge.kind == EdgeKind::Contains,
    ensures
        r.nodes@[i].parent matches Some(p) && is_told(r.nodes@, p) && exists|m: Link| #[trigger]
            stored.graph.links().contains(m) && m.from == p && m.to == r.nodes@[i].node
                && m.edge.kind == EdgeKind::Contains,
{
    let t = Terrain { nodes: stored.graph.nodes(), links: stored.graph.links(), opts };
    let w = lemma_told(r, stored, hits, opts);
    assert(w.reached[i].node == r.nodes@[i].node);
    a_walk_that_was_not_cut_short_is_complete(t, hits);
    lemma_has_container(t.links, l);
    lemma_container(t.links, l.to);
    let p = container(t.links, l.to)->0;
    assert(taken(w.reached, p));
}

/// The same graph and hits give the same nodes in the same order, for the same
/// reasons.
pub proof fn the_same_hits_give_the_same_walk(
    a: WorkbookContext,
    b: WorkbookContext,
    stored: StoredGraph,
    hits: Seq<Hit>,
    opts: ExpandOptions,
)
    requires
        expands_to(a, stored, hits, opts),
        expands_to(b, stored, hits, opts),
    ensures
        a.truncated == b.truncated,
        a.nodes@.len() == b.nodes@.len(),
        forall|i: int|
            0 <= i < a.nodes@.len() ==> {
                let x = #[trigger] a.nodes@[i];
                let y = b.nodes@[i];
                x.node == y.node && x.role == y.role && x.hops == y.hops && x.label@ == y.label@
                    && x.parent == y.parent
            },
{
    let t = Terrain { nodes: stored.graph.nodes(), links: stored.graph.links(), opts };
    let w = t.outcome(hits);
    assert forall|i: int| 0 <= i < a.nodes@.len() implies {
        let x = #[trigger] a.nodes@[i];
        let y = b.nodes@[i];
        x.node == y.node && x.role == y.role && x.hops == y.hops && x.label@ == y.label@
            && x.parent == y.parent
    } by {
        let parent = parent_among(t.links, w.reached, w.reached[i].node);
        assert(describes(a.nodes@[i], t.nodes, w.reached[i], parent));
        assert(describes(b.nodes@[i], t.nodes, w.reached[i], parent));
    }
}

// ---------------------------------------------------------------------------
// Reading a result back, and expanding over several workbooks.

/// The place of the first node of an index, the length where there is none.
pub open spec fn place_of(nodes: Seq<RetrievedNode>, index: u32) -> nat
    decreases nodes.len(),
{
    if nodes.len() == 0 || nodes[0].node == index {
        0
    } else {
        1 + place_of(nodes.drop_first(), index)
    }
}

/// The places of the containers from one on upwards, as far as they are in the
/// result; no longer than the result, which a path without a circle never is.
pub open spec fn path_up(nodes: Seq<RetrievedNode>, at: Option<u32>, left: nat) -> Seq<int>
    decreases left,
{
    match at {
        None => Seq::empty(),
        Some(index) => {
            let k = place_of(nodes, index);
            if k >= nodes.len() || left == 0 {
                Seq::empty()
            } else {
                seq![k as int] + path_up(nodes, nodes[k as int].parent, (left - 1) as nat)
            }
        },
    }
}

/// The containers above a node, outermost first.
pub open spec fn path_to(nodes: Seq<RetrievedNode>, of: u32) -> Seq<RetrievedNode> {
    let k = place_of(nodes, of);
    let at = if k < nodes.len() {
        nodes[k as int].parent
    } else {
        None
    };
    path_up(nodes, at, nodes.len()).reverse().map_values(|i: int| nodes[i])
}

proof fn lemma_path_up(nodes: Seq<RetrievedNode>, at: Option<u32>, left: nat)
    ensures
        path_up(nodes, at, left).len() <= left,
    decreases left,
{
    if let Some(index) = at {
        let k = place_of(nodes, index);
        if k < nodes.len() && left > 0 {
            lemma_path_up(nodes, nodes[k as int].parent, (left - 1) as nat);
        }
    }
}

/// The path above a node is never longer than the result, whatever the graph on
/// disk says contains what.
pub proof fn a_path_is_no_longer_than_the_result(nodes: Seq<RetrievedNode>, of: u32)
    ensures
        path_to(nodes, of).len() <= nodes.len(),
{
    let k = place_of(nodes, of);
    lemma_path_up(
        nodes,
        if k < nodes.len() {
            nodes[k as int].parent
        } else {
            None
        },
        nodes.len(),
    );
}

impl WorkbookContext {
    /// The nodes that the index returned, in order.
    pub fn seeds(&self) -> (r: Vec<&RetrievedNode>)
        ensures
            r@.map_values(|n: &RetrievedNode| *n) == self.nodes@.filter(
                |n: RetrievedNode| n.role is Seed,
            ),
    {
        let ghost keep = |n: RetrievedNode| n.role is Seed;
        let ghost plain = |n: &RetrievedNode| *n;
        let ghost all = self.nodes@;
        let mut out: Vec<&RetrievedNode> = Vec::new();
        proof {
            reveal(Seq::filter);
            assert(out@.map_values(plain) =~= all.take(0).filter(keep));
        }
        let mut i: usize = 0;
        while i < self.nodes.len()
            invariant
                all == self.nodes@,
                keep == (|n: RetrievedNode| n.role is Seed),
                plain == (|n: &RetrievedNode| *n),
                i <= all.len(),
                out@.map_values(plain) == all.take(i as int).filter(keep),
            decreases all.len() - i,
        {
            let node: &RetrievedNode = &self.nodes[i];
            let ghost before = out@;
            if node.is_seed() {
                out.push(node);
                assert(out@.map_values(plain) =~= before.map_values(plain).push(*node));
            }
            proof {
                reveal(Seq::filter);
                assert(all.take(i + 1).drop_last() =~= all.take(i as int));
                assert(all.take(i + 1).last() == *node);
            }
            i += 1;
        }
        assert(all.take(i as int) =~= all);
        out
    }

    fn place(&self, index: u32) -> (r: usize)
        ensures
            r == place_of(self.nodes@, index),
            r <= self.nodes@.len(),
    {
        let ghost all = self.nodes@;
        assert(all.skip(0) =~= all);
        let mut i: usize = 0;
        while i < self.nodes.len() && self.nodes[i].node != index
            invariant
                all == self.nodes@,
                i <= all.len(),
                place_of(all, index) == i + place_of(all.skip(i as int), index),
            decreases all.len() - i,
        {
            assert(all.skip(i as int).drop_first() =~= all.skip(i + 1));
            i += 1;
        }
        i
    }

    /// The node with this index, where it is in the result.
    pub fn node(&self, index: u32) -> (r: Option<&RetrievedNode>)
        ensures
            ({
                let k = place_of(self.nodes@, index);
                match r {
                    Some(n) => k < self.nodes@.len() && *n == self.nodes@[k as int],
                    None => k >= self.nodes@.len(),
                }
            }),
    {
        let k: usize = self.place(index);
        if k < self.nodes.len() {
            Some(&self.nodes[k])
        } else {
            None
        }
    }

    /// The containment path above a node, outermost first.
    ///
    /// Only the part of it that is in the result: a budget that stopped before
    /// the workbook root gives a shorter path, not a wrong one.
    pub fn ancestry(&self, of: u32) -> (r: Vec<&RetrievedNode>)
        ensures
            r@.map_values(|n: &RetrievedNode| *n) == path_to(self.nodes@, of),
    {
        let ghost all = self.nodes@;
        let first: usize = self.place(of);
        let mut at: Option<u32> = if first < self.nodes.len() {
            self.nodes[first].parent
        } else {
            None
        };
        let ghost whole = path_up(all, at, all.len());
        let mut left: usize = self.nodes.len();
        let mut up: Vec<usize> = Vec::new();
        let ghost mut places: Seq<int> = Seq::empty();
        assert(places + path_up(all, at, left as nat) =~= whole);
        while at.is_some() && left > 0
            invariant
                all == self.nodes@,
                whole == places + path_up(all, at, left as nat),
                up@.len() == places.len(),
                forall|i: int|
                    0 <= i < up@.len() ==> (#[trigger] up@[i]) == places[i] && up@[i] < all.len(),
            decreases
                    left,
                    if at is Some {
                        1int
                    } else {
                        0
                    },
        {
            let index: u32 = match at {
                Some(index) => index,
                None => 0,
            };
            let k: usize = self.place(index);
            if k >= self.nodes.len() {
                at = None;
            } else {
                up.push(k);
                at = self.nodes[k].parent;
                left -= 1;
                proof {
                    let rest = path_up(all, at, left as nat);
                    assert(places + (seq![k as int] + rest) =~= places.push(k as int) + rest);
                    places = places.push(k as int);
                }
            }
        }
        assert(whole =~= places);
        let mut out: Vec<&RetrievedNode> = Vec::new();
        let mut i: usize = up.len();
        while i > 0
            invariant
                all == self.nodes@,
                i <= up@.len(),
                up@.len() == places.len(),
                forall|i: int|
                    0 <= i < up@.len() ==> (#[trigger] up@[i]) == places[i] && up@[i] < all.len(),
                out@.len() == up@.len() - i,
                forall|k: int|
                    0 <= k < out@.len() ==> *(#[trigger] out@[k]) == all[places[places.len() - 1
                        - k]],
            decreases i,
        {
            i -= 1;
            out.push(&self.nodes[up[i]]);
        }
        assert(out@.map_values(|n: &RetrievedNode| *n) =~= path_to(all, of));
        out
    }
}

impl Default for Retrieved {
    fn default() -> (r: Self)
        ensures
            r.workbooks@.len() == 0,
            r.missing_workbooks@.len() == 0,
    {
        Retrieved { workbooks: Vec::new(), missing_workbooks: Vec::new() }
    }
}

/// How many nodes some workbooks contributed together.
pub open spec fn node_total(workbooks: Seq<WorkbookContext>) -> nat
    decreases workbooks.len(),
{
    if workbooks.len() == 0 {
        0
    } else {
        node_total(workbooks.drop_last()) + workbooks.last().nodes@.len()
    }
}

pub proof fn lemma_node_total(workbooks: Seq<WorkbookContext>, n: int)
    requires
        0 <= n <= workbooks.len(),
    ensures
        node_total(workbooks.take(n)) <= node_total(workbooks),
    decreases workbooks.len(),
{
    if n < workbooks.len() {
        let d = workbooks.drop_last();
        lemma_node_total(d, n);
        assert(d.take(n) =~= workbooks.take(n));
    } else {
        assert(workbooks.take(n) =~= workbooks);
    }
}

impl Retrieved {
    pub fn total_nodes(&self) -> (r: usize)
        requires
            node_total(self.workbooks@) <= usize::MAX,
        ensures
            r == node_total(self.workbooks@),
    {
        let ghost all = self.workbooks@;
        let mut total: usize = 0;
        let mut i: usize = 0;
        while i < self.workbooks.len()
            invariant
                all == self.workbooks@,
                node_total(all) <= usize::MAX,
                i <= all.len(),
                total == node_total(all.take(i as int)),
            decreases all.len() - i,
        {
            proof {
                assert(all.take(i + 1).drop_last() =~= all.take(i as int));
                lemma_node_total(all, i + 1);
            }
            total = total + self.workbooks[i].nodes.len();
            i += 1;
        }
        assert(all.take(i as int) =~= all);
        total
    }

    /// Whether any workbook's expansion was cut short.
    pub fn truncated(&self) -> (r: bool)
        ensures
            r == exists|i: int|
                0 <= i < self.workbooks@.len() && (#[trigger] self.workbooks@[i]).truncated,
    {
        let mut i: usize = 0;
        while i < self.workbooks.len()
            invariant
                i <= self.workbooks@.len(),
                forall|k: int| 0 <= k < i ==> !(#[trigger] self.workbooks@[k]).truncated,
            decreases self.workbooks@.len() - i,
        {
            if self.workbooks[i].truncated {
                return true;
            }
            i += 1;
        }
        false
    }
}

impl Clone for Hit {
    fn clone(&self) -> (r: Self)
        ensures
            r == *self,
    {
        let sheet: Option<String> = match &self.sheet {
            Some(s) => Some(s.clone()),
            None => None,
        };
        let a1: Option<String> = match &self.a1 {
            Some(s) => Some(s.clone()),
            None => None,
        };
        Hit {
            score: self.score,
            workbook: self.workbook.clone(),
            path: self.path.clone(),
            node: self.node,
            kind: self.kind,
            sheet,
            label: self.label.clone(),
            a1,
        }
    }
}

/// The hits that landed in one workbook, best first.
pub struct HitGroup {
    pub workbook: String,
    pub hits: Vec<Hit>,
}

/// The hits of each workbook, in the order of the best hit in each.
pub open spec fn grouped(seeds: Seq<Hit>) -> Seq<(Seq<char>, Seq<Hit>)>
    decreases seeds.len(),
{
    if seeds.len() == 0 {
        Seq::empty()
    } else {
        let g = grouped(seeds.drop_last());
        let h = seeds.last();
        let k = group_place(g, h.workbook@);
        if k < g.len() {
            g.update(k as int, (g[k as int].0, g[k as int].1.push(h)))
        } else {
            g.push((h.workbook@, seq![h]))
        }
    }
}

/// The place of the group of a workbook, the length where there is none.
pub open spec fn group_place(g: Seq<(Seq<char>, Seq<Hit>)>, workbook: Seq<char>) -> nat
    decreases g.len(),
{
    if g.len() == 0 || g[0].0 == workbook {
        0
    } else {
        1 + group_place(g.drop_first(), workbook)
    }
}

pub open spec fn group_views(g: Seq<HitGroup>) -> Seq<(Seq<char>, Seq<Hit>)> {
    g.map_values(|x: HitGroup| (x.workbook@, x.hits@))
}

proof fn lemma_group_place(g: Seq<(Seq<char>, Seq<Hit>)>, k: int)
    requires
        0 <= k < g.len(),
        forall|i: int| 0 <= i < k ==> (#[trigger] g[i]).0 != g[k].0,
    ensures
        group_place(g, g[k].0) == k,
    decreases g.len(),
{
    if k > 0 {
        assert(g[0].0 != g[k].0);
        let d = g.drop_first();
        assert forall|i: int| 0 <= i < k - 1 implies (#[trigger] d[i]).0 != d[k - 1].0 by {
            assert(d[i] == g[i + 1]);
        }
        lemma_group_place(d, k - 1);
    }
}

proof fn lemma_no_group_place(g: Seq<(Seq<char>, Seq<Hit>)>, workbook: Seq<char>)
    requires
        forall|i: int| 0 <= i < g.len() ==> (#[trigger] g[i]).0 != workbook,
    ensures
        group_place(g, workbook) == g.len(),
    decreases g.len(),
{
    if g.len() > 0 {
        assert(g[0].0 != workbook);
        let d = g.drop_first();
        assert forall|i: int| 0 <= i < d.len() implies (#[trigger] d[i]).0 != workbook by {
            assert(d[i] == g[i + 1]);
        }
        lemma_no_group_place(d, workbook);
    }
}

proof fn lemma_at_group_place(g: Seq<(Seq<char>, Seq<Hit>)>, workbook: Seq<char>)
    ensures
        group_place(g, workbook) <= g.len(),
        group_place(g, workbook) < g.len() ==> g[group_place(g, workbook) as int].0 == workbook,
        forall|i: int| 0 <= i < group_place(g, workbook) ==> (#[trigger] g[i]).0 != workbook,
    decreases g.len(),
{
    if g.len() > 0 && g[0].0 != workbook {
        let d = g.drop_first();
        lemma_at_group_place(d, workbook);
        assert forall|i: int| 0 <= i < group_place(g, workbook) implies (#[trigger] g[i]).0
            != workbook by {
            if i > 0 {
                assert(d[i - 1] == g[i]);
            }
        }
    }
}

/// The hits that landed in a workbook, in their order.
pub open spec fn hits_in(seeds: Seq<Hit>, workbook: Seq<char>) -> Seq<Hit> {
    seeds.filter(|h: Hit| h.workbook@ == workbook)
}

/// Every group is named after another workbook and holds every hit that landed
/// in it, in the order of the hits, and every hit is in a group.
pub proof fn a_workbook_is_read_once_for_all_its_hits(seeds: Seq<Hit>)
    ensures
        forall|i: int|
            0 <= i < grouped(seeds).len() ==> (#[trigger] grouped(seeds)[i]).1 == hits_in(
                seeds,
                grouped(seeds)[i].0,
            ),
        forall|i: int, k: int|
            0 <= i < k < grouped(seeds).len() ==> (#[trigger] grouped(seeds)[i]).0 != (
            #[trigger] grouped(seeds)[k]).0,
        forall|j: int|
            0 <= j < seeds.len() ==> group_place(
                grouped(seeds),
                (#[trigger] seeds[j]).workbook@,
            ) < grouped(seeds).len(),
    decreases seeds.len(),
{
    reveal(Seq::filter);
    if seeds.len() > 0 {
        let before = seeds.drop_last();
        let h = seeds.last();
        let g = grouped(before);
        let all = grouped(seeds);
        let k = group_place(g, h.workbook@) as int;
        a_workbook_is_read_once_for_all_its_hits(before);
        lemma_at_group_place(g, h.workbook@);
        assert forall|i: int| 0 <= i < all.len() implies (#[trigger] all[i]).1 == hits_in(
            seeds,
            all[i].0,
        ) by {
            if i < g.len() {
                assert(g[i].1 == hits_in(before, g[i].0));
                if i != k && k < g.len() {
                    assert(g[i].0 != g[k].0);
                }
            } else {
                if hits_in(before, h.workbook@).len() > 0 {
                    let here = |x: Hit| x.workbook@ == h.workbook@;
                    before.lemma_filter_pred(here, 0);
                    before.lemma_filter_contains_rev(here, hits_in(before, h.workbook@)[0]);
                    let j = choose|j: int|
                        0 <= j < before.len() && before[j] == hits_in(before, h.workbook@)[0];
                    assert(group_place(g, before[j].workbook@) < g.len());
                }
                assert(hits_in(before, h.workbook@).push(h) =~= seq![h]);
            }
        }
        assert forall|j: int| 0 <= j < seeds.len() implies group_place(
            all,
            (#[trigger] seeds[j]).workbook@,
        ) < all.len() by {
            let name = seeds[j].workbook@;
            lemma_at_group_place(all, name);
            if group_place(all, name) >= all.len() {
                if j < before.len() {
                    assert(before[j] == seeds[j]);
                    lemma_at_group_place(g, name);
                    let p = group_place(g, name) as int;
                    assert(all[p].0 == g[p].0);
                } else {
                    assert(all[k].0 == name);
                }
            }
        }
    }
}

/// The map holds the place of every group under its name.
spec fn indexes(places: Map<Seq<char>, usize>, g: Seq<(Seq<char>, Seq<Hit>)>) -> bool {
    &&& forall|i: int|
        0 <= i < g.len() ==> places.contains_key((#[trigger] g[i]).0) && places[g[i].0] == i
    &&& forall|name: Seq<char>| #[trigger]
        places.contains_key(name) ==> places[name] < g.len() && g[places[name] as int].0 == name
}

proof fn lemma_indexes(places: Map<Seq<char>, usize>, g: Seq<(Seq<char>, Seq<Hit>)>, name: Seq<char>)
    requires
        indexes(places, g),
    ensures
        places.contains_key(name) ==> group_place(g, name) == places[name],
        !places.contains_key(name) ==> group_place(g, name) == g.len(),
{
    if places.contains_key(name) {
        let k = places[name] as int;
        assert forall|i: int| 0 <= i < k implies (#[trigger] g[i]).0 != g[k].0 by {
            assert(places[g[i].0] == i);
        }
        lemma_group_place(g, k);
    } else {
        assert forall|i: int| 0 <= i < g.len() implies (#[trigger] g[i]).0 != name by {}
        lemma_no_group_place(g, name);
    }
}

/// The hits of each workbook, so that each stored graph is read once however
/// many hits landed in it, in the order of the best hit in each.
pub fn group_hits(seeds: &[Hit]) -> (r: Vec<HitGroup>)
    ensures
        group_views(r@) == grouped(seeds@),
{
    let mut places: FxHashMap<String, usize> = fx::places_new();
    let mut out: Vec<HitGroup> = Vec::new();
    proof {
        assert(group_views(out@) =~= grouped(seeds@.take(0)));
    }
    let mut i: usize = 0;
    while i < seeds.len()
        invariant
            i <= seeds@.len(),
            group_views(out@) == grouped(seeds@.take(i as int)),
            indexes(fx::places_held(places), group_views(out@)),
        decreases seeds@.len() - i,
    {
        let hit: &Hit = &seeds[i];
        let ghost g = group_views(out@);
        let ghost held = fx::places_held(places);
        proof {
            assert(seeds@.take(i + 1).drop_last() =~= seeds@.take(i as int));
            assert(seeds@.take(i + 1).last() == *hit);
            lemma_indexes(held, g, hit.workbook@);
        }
        match fx::places_get(&places, hit.workbook.as_str()) {
            Some(k) => {
                assert(k < g.len() && g[k as int] == (out@[k as int].workbook@, out@[k as int].hits@));
                let group: &mut HitGroup = &mut out[k];
                group.hits.push(hit.clone());
                proof {
                    assert(group_views(out@) =~= g.update(
                        k as int,
                        (g[k as int].0, g[k as int].1.push(*hit)),
                    ));
                    let next = group_views(out@);
                    assert forall|j: int| 0 <= j < next.len() implies (#[trigger] next[j]).0
                        == g[j].0 by {}
                }
            },
            None => {
                let k: usize = out.len();
                let mut hits: Vec<Hit> = Vec::new();
                hits.push(hit.clone());
                assert(hits@ =~= seq![*hit]);
                out.push(HitGroup { workbook: hit.workbook.clone(), hits });
                fx::places_insert(&mut places, hit.workbook.clone(), k);
                proof {
                    assert(group_views(out@) =~= g.push((hit.workbook@, seq![*hit])));
                }
            },
        }
        i += 1;
    }
    assert(seeds@.take(i as int) =~= seeds@);
    out
}

/// The workbooks that are in the corpus, each with the group of its hits.
pub open spec fn found_places(stored: Seq<Option<StoredGraph>>) -> Seq<int>
    decreases stored.len(),
{
    if stored.len() == 0 {
        Seq::empty()
    } else {
        let d = found_places(stored.drop_last());
        if stored.last() is Some {
            d.push(stored.len() - 1)
        } else {
            d
        }
    }
}

/// The workbooks that are not in the corpus.
pub open spec fn missing_places(stored: Seq<Option<StoredGraph>>) -> Seq<int>
    decreases stored.len(),
{
    if stored.len() == 0 {
        Seq::empty()
    } else {
        let d = missing_places(stored.drop_last());
        if stored.last() is None {
            d.push(stored.len() - 1)
        } else {
            d
        }
    }
}

/// Each workbook is expanded from the group at its place.
pub open spec fn all_expanded(
    workbooks: Seq<WorkbookContext>,
    places: Seq<int>,
    stored: Seq<Option<StoredGraph>>,
    groups: Seq<HitGroup>,
    opts: ExpandOptions,
) -> bool {
    forall|k: int|
        0 <= k < workbooks.len() ==> expands_to(
            #[trigger] workbooks[k],
            stored[places[k]]->Some_0,
            groups[places[k]].hits@,
            opts,
        )
}

/// Each missing workbook is named by the group at its place.
pub open spec fn all_named(missing: Seq<String>, places: Seq<int>, groups: Seq<HitGroup>) -> bool {
    forall|k: int|
        0 <= k < missing.len() ==> (#[trigger] missing[k])@ == groups[places[k]].workbook@
}

/// Expand groups of hits into the context around them, each against the stored
/// graph of its workbook.
///
/// The order of the workbooks follows that of the groups. A workbook that is no
/// longer in the corpus is reported.
pub fn expand(
    groups: &Vec<HitGroup>,
    stored: &Vec<Option<StoredGraph>>,
    opts: &ExpandOptions,
) -> (r: Retrieved)
    requires
        stored@.len() == groups@.len(),
    ensures
        r.workbooks@.len() == found_places(stored@).len(),
        all_expanded(r.workbooks@, found_places(stored@), stored@, groups@, *opts),
        r.missing_workbooks@.len() == missing_places(stored@).len(),
        all_named(r.missing_workbooks@, missing_places(stored@), groups@),
{
    let mut workbooks: Vec<WorkbookContext> = Vec::new();
    let mut missing: Vec<String> = Vec::new();
    let ghost all = stored@;
    let mut i: usize = 0;
    while i < stored.len()
        invariant
            all == stored@,
            all.len() == groups@.len(),
            i <= all.len(),
            workbooks@.len() == found_places(all.take(i as int)).len(),
            all_expanded(workbooks@, found_places(all.take(i as int)), all, groups@, *opts),
            missing@.len() == missing_places(all.take(i as int)).len(),
            all_named(missing@, missing_places(all.take(i as int)), groups@),
        decreases all.len() - i,
    {
        let ghost now = all.take(i as int);
        let ghost next = all.take(i + 1);
        proof {
            assert(next.drop_last() =~= now);
            assert(next.last() == all[i as int]);
        }
        let ghost some = workbooks@;
        let ghost none = missing@;
        match &stored[i] {
            Some(s) => {
                workbooks.push(expand_one(s, &groups[i].hits, opts));
            },
            None => {
                missing.push(groups[i].workbook.clone());
            },
        }
        proof {
            assert(all_expanded(workbooks@, found_places(next), all, groups@, *opts)) by {
                assert forall|k: int| 0 <= k < workbooks@.len() implies expands_to(
                    #[trigger] workbooks@[k],
                    all[found_places(next)[k]]->Some_0,
                    groups@[found_places(next)[k]].hits@,
                    *opts,
                ) by {
                    if k < some.len() {
                        assert(workbooks@[k] == some[k]);
                        assert(found_places(next)[k] == found_places(now)[k]);
                    }
                }
            }
            assert(all_named(missing@, missing_places(next), groups@)) by {
                assert forall|k: int| 0 <= k < missing@.len() implies (#[trigger] missing@[k])@
                    == groups@[missing_places(next)[k]].workbook@ by {
                    if k < none.len() {
                        assert(missing@[k] == none[k]);
                        assert(missing_places(next)[k] == missing_places(now)[k]);
                    }
                }
            }
        }
        i += 1;
    }
    assert(all.take(i as int) =~= all);
    Retrieved { workbooks, missing_workbooks: missing }
}

} // verus!
