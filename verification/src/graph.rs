//! The graph of a workbook: what it contains, and what reads what.
//!
//! Containment edges make a tree of workbook, sheets, regions, columns and
//! formula groups; the other edges are dependencies, from what reads to what is
//! read, weighted by the number of cell references behind each.

use crate::address::{RangeRef, SheetId};
use petgraph::graph::{DiGraph, NodeIndex};
use petgraph::visit::EdgeRef;
use petgraph::Direction;
use vstd::prelude::*;

verus! {

/// What a node stands for.
#[derive(Debug, Clone, Copy, PartialEq, Eq, Structural)]
pub enum NodeKind {
    Workbook,
    Sheet,
    Region,
    Column,
    FormulaGroup,
    DefinedName,
    ExternalWorkbook,
}

impl NodeKind {
    pub open spec fn shown(self) -> Seq<char> {
        match self {
            NodeKind::Workbook => "workbook"@,
            NodeKind::Sheet => "sheet"@,
            NodeKind::Region => "region"@,
            NodeKind::Column => "column"@,
            NodeKind::FormulaGroup => "formula_group"@,
            NodeKind::DefinedName => "defined_name"@,
            NodeKind::ExternalWorkbook => "external_workbook"@,
        }
    }

    pub fn as_str(self) -> (r: &'static str)
        ensures
            r@ == self.shown(),
    {
        match self {
            NodeKind::Workbook => "workbook",
            NodeKind::Sheet => "sheet",
            NodeKind::Region => "region",
            NodeKind::Column => "column",
            NodeKind::FormulaGroup => "formula_group",
            NodeKind::DefinedName => "defined_name",
            NodeKind::ExternalWorkbook => "external_workbook",
        }
    }
}

/// What an edge says of its two ends.
#[derive(Debug, Clone, Copy, PartialEq, Eq, Structural)]
pub enum EdgeKind {
    Contains,
    DependsOn,
    CrossSheetRef,
    CrossWorkbookRef,
    ReferencesName,
}

impl EdgeKind {
    /// Whether the edge is part of the containment tree rather than a
    /// dependency.
    pub fn is_structural(self) -> (r: bool)
        ensures
            r == (self is Contains),
    {
        matches!(self, EdgeKind::Contains)
    }
}

/// What is said along an edge.
#[derive(Debug, Clone, Copy, PartialEq, Eq, Structural)]
pub struct Edge {
    pub kind: EdgeKind,
    /// The number of cell references behind the edge.
    pub weight: u64,
}

/// One edge with its two ends.
#[derive(Debug, Clone, Copy, PartialEq, Eq, Structural)]
pub struct Link {
    pub from: u32,
    pub to: u32,
    pub edge: Edge,
}

/// One node.
#[derive(Debug, PartialEq, Eq)]
pub struct Node {
    pub kind: NodeKind,
    /// How a reader names it: a sheet by its name, a column by its header.
    pub label: String,
    /// The rectangle it covers, for the kinds that cover one.
    pub range: Option<RangeRef>,
    /// The sheet it is on, or is.
    pub sheet: Option<SheetId>,
    /// The populated cells of a sheet, a region or a formula group.
    pub cell_count: u64,
}

impl Clone for Node {
    fn clone(&self) -> (r: Self)
        ensures
            r == *self,
    {
        Node {
            kind: self.kind,
            label: self.label.clone(),
            range: self.range,
            sheet: self.sheet,
            cell_count: self.cell_count,
        }
    }
}

impl Node {
    /// How many cells the node covers: what it counts, or for a column its rows.
    pub open spec fn covered(self) -> int {
        match self.kind {
            NodeKind::Sheet | NodeKind::Region | NodeKind::FormulaGroup => self.cell_count as int,
            NodeKind::Column => match self.range {
                Some(r) => r.height() as int,
                None => 0,
            },
            NodeKind::Workbook | NodeKind::DefinedName | NodeKind::ExternalWorkbook => 0,
        }
    }

    /// How many cells the node covers: what it counts, or for a column its rows.
    pub fn cells(&self) -> (r: u64)
        ensures
            r == self.covered(),
    {
        match self.kind {
            NodeKind::Sheet | NodeKind::Region | NodeKind::FormulaGroup => self.cell_count,
            NodeKind::Column => match self.range {
                Some(r) => r.rows(),
                None => 0,
            },
            NodeKind::Workbook | NodeKind::DefinedName | NodeKind::ExternalWorkbook => 0,
        }
    }
}

#[verifier::external_type_specification]
#[verifier::external_body]
#[verifier::reject_recursive_types(N)]
#[verifier::reject_recursive_types(E)]
#[verifier::reject_recursive_types(Ty)]
#[verifier::reject_recursive_types(Ix)]
pub struct ExGraph<N, E, Ty, Ix>(petgraph::Graph<N, E, Ty, Ix>);

#[verifier::external_type_specification]
#[verifier::external_body]
pub struct ExDirected(petgraph::Directed);

/// How many nodes a drawing has.
pub uninterp spec fn drawn_nodes(g: DiGraph<(), Edge>) -> nat;

/// The edges of a drawing, in the order in which they were added.
pub uninterp spec fn drawn_links(g: DiGraph<(), Edge>) -> Seq<Link>;

/// `DiGraph::new`: no nodes and no edges.
#[verifier::external_body]
fn drawing_new() -> (r: DiGraph<(), Edge>)
    ensures
        drawn_nodes(r) == 0,
        drawn_links(r) == Seq::<Link>::empty(),
{
    DiGraph::new()
}

/// `Graph::add_node`: one more node, and no other change. It panics where the
/// number of nodes has reached the largest index.
#[verifier::external_body]
fn drawing_add_node(g: &mut DiGraph<(), Edge>)
    requires
        drawn_nodes(*old(g)) < u32::MAX,
    ensures
        drawn_nodes(*final(g)) == drawn_nodes(*old(g)) + 1,
        drawn_links(*final(g)) == drawn_links(*old(g)),
{
    g.add_node(());
}

/// `Graph::add_edge`: one more edge, behind the others, and no other change. It
/// panics where an end is not a node or the number of edges has reached the
/// largest index.
#[verifier::external_body]
fn drawing_add_edge(g: &mut DiGraph<(), Edge>, link: Link)
    requires
        link.from < drawn_nodes(*old(g)),
        link.to < drawn_nodes(*old(g)),
        drawn_links(*old(g)).len() < u32::MAX,
    ensures
        drawn_nodes(*final(g)) == drawn_nodes(*old(g)),
        drawn_links(*final(g)) == drawn_links(*old(g)).push(link),
{
    g.add_edge(
        NodeIndex::new(link.from as usize),
        NodeIndex::new(link.to as usize),
        link.edge,
    );
}

/// `Graph::node_count`: the number of nodes added.
#[verifier::external_body]
fn drawing_node_count(g: &DiGraph<(), Edge>) -> (r: usize)
    ensures
        r == drawn_nodes(*g),
{
    g.node_count()
}

/// `Graph::edges_directed` on a directed graph: the edges into a node, or out of
/// it, the one added last first.
#[verifier::external_body]
fn drawing_edges(g: &DiGraph<(), Edge>, at: u32, inbound: bool) -> (r: Vec<Link>)
    requires
        at < drawn_nodes(*g),
    ensures
        r@ == edges_at(drawn_links(*g), at, inbound),
{
    let direction = if inbound { Direction::Incoming } else { Direction::Outgoing };
    g.edges_directed(NodeIndex::new(at as usize), direction)
        .map(
            |e| Link {
                from: e.source().index() as u32,
                to: e.target().index() as u32,
                edge: *e.weight(),
            },
        )
        .collect()
}

/// The edges into a node, or out of it, the one added last first.
pub open spec fn edges_at(links: Seq<Link>, at: u32, inbound: bool) -> Seq<Link> {
    links.filter(
        |l: Link|
            if inbound {
                l.to == at
            } else {
                l.from == at
            },
    ).reverse()
}

/// The edges at a node are those of the graph that have it as that end.
pub proof fn lemma_edges_at(links: Seq<Link>, at: u32, inbound: bool)
    ensures
        forall|i: int|
            0 <= i < edges_at(links, at, inbound).len() ==> links.contains(
                #[trigger] edges_at(links, at, inbound)[i],
            ) && (if inbound {
                edges_at(links, at, inbound)[i].to == at
            } else {
                edges_at(links, at, inbound)[i].from == at
            }),
        forall|l: Link|
            #![trigger links.contains(l)]
            links.contains(l) && (if inbound {
                l.to == at
            } else {
                l.from == at
            }) ==> edges_at(links, at, inbound).contains(l),
{
    let keep = |l: Link|
        if inbound {
            l.to == at
        } else {
            l.from == at
        };
    let kept = links.filter(keep);
    let all = edges_at(links, at, inbound);
    assert(all == kept.reverse());
    assert forall|i: int| 0 <= i < all.len() implies links.contains(#[trigger] all[i]) && keep(
        all[i],
    ) by {
        let k = kept.len() - 1 - i;
        assert(all[i] == kept[k]);
        links.lemma_filter_pred(keep, k);
        assert(kept.contains(kept[k]));
        links.lemma_filter_contains_rev(keep, kept[k]);
    }
    assert forall|l: Link| #[trigger] links.contains(l) && keep(l) implies all.contains(l) by {
        let j = choose|j: int| 0 <= j < links.len() && links[j] == l;
        links.lemma_filter_contains(keep, j);
        let k = choose|k: int| 0 <= k < kept.len() && kept[k] == l;
        assert(all[kept.len() - 1 - k] == l);
    }
}

/// The graph of a workbook.
pub struct WorkbookGraph {
    nodes: Vec<Node>,
    drawing: DiGraph<(), Edge>,
}

impl WorkbookGraph {
    /// The nodes in the order in which they were added; a node is named by its
    /// place.
    pub closed spec fn nodes(&self) -> Seq<Node> {
        self.nodes@
    }

    /// The edges in the order in which they were added.
    pub closed spec fn links(&self) -> Seq<Link> {
        drawn_links(self.drawing)
    }

    /// Every edge joins two nodes, and indexes are small enough to name them.
    pub open spec fn is_sound(&self) -> bool {
        &&& self.nodes().len() <= u32::MAX
        &&& forall|i: int|
            0 <= i < self.links().len() ==> (#[trigger] self.links()[i]).from < self.nodes().len()
                && self.links()[i].to < self.nodes().len()
    }

    #[verifier::type_invariant]
    spec fn joined(self) -> bool {
        self.is_sound() && drawn_nodes(self.drawing) == self.nodes@.len()
    }

    pub fn new() -> (r: WorkbookGraph)
        ensures
            r.nodes().len() == 0,
            r.links().len() == 0,
    {
        WorkbookGraph { nodes: Vec::new(), drawing: drawing_new() }
    }

    /// Add a node and say its place.
    pub fn add_node(&mut self, node: Node) -> (r: u32)
        requires
            old(self).nodes().len() < u32::MAX,
        ensures
            r == old(self).nodes().len(),
            final(self).nodes() == old(self).nodes().push(node),
            final(self).links() == old(self).links(),
    {
        proof {
            use_type_invariant(&*self);
        }
        let place: u32 = self.nodes.len() as u32;
        let mut whole: WorkbookGraph = WorkbookGraph::new();
        core::mem::swap(&mut whole, self);
        let WorkbookGraph { mut nodes, mut drawing } = whole;
        nodes.push(node);
        drawing_add_node(&mut drawing);
        *self = WorkbookGraph { nodes, drawing };
        place
    }

    /// Add an edge.
    pub fn add_edge(&mut self, from: u32, to: u32, edge: Edge)
        requires
            from < old(self).nodes().len(),
            to < old(self).nodes().len(),
            old(self).links().len() < u32::MAX,
        ensures
            final(self).nodes() == old(self).nodes(),
            final(self).links() == old(self).links().push(Link { from, to, edge }),
    {
        proof {
            use_type_invariant(&*self);
        }
        let mut whole: WorkbookGraph = WorkbookGraph::new();
        core::mem::swap(&mut whole, self);
        let WorkbookGraph { nodes, mut drawing } = whole;
        drawing_add_edge(&mut drawing, Link { from, to, edge });
        *self = WorkbookGraph { nodes, drawing };
    }

    /// How many nodes there are.
    pub fn node_count(&self) -> (r: usize)
        ensures
            r == self.nodes().len(),
            self.is_sound(),
    {
        proof {
            use_type_invariant(self);
        }
        drawing_node_count(&self.drawing)
    }

    /// The node at a place.
    pub fn node(&self, at: u32) -> (r: &Node)
        requires
            at < self.nodes().len(),
        ensures
            *r == self.nodes()[at as int],
    {
        &self.nodes[at as usize]
    }

    /// The edges into a node, or out of it, the one added last first.
    pub fn edges(&self, at: u32, inbound: bool) -> (r: Vec<Link>)
        requires
            at < self.nodes().len(),
        ensures
            r@ == edges_at(self.links(), at, inbound),
            self.is_sound(),
    {
        proof {
            use_type_invariant(self);
        }
        drawing_edges(&self.drawing, at, inbound)
    }
}

} // verus!
