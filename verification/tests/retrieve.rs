use excelgrag::address::{RangeRef, SheetId};
use excelgrag::cell::{Cell, CellValue, Number};
use excelgrag::context::{
    is_the_citation, quoted, render, thousands, RenderOptions, Rendered,
};
use excelgrag::expand::{
    expand, group_hits, ExpandOptions, Hit, Retrieved, RetrievedNode, Role, StoredGraph,
    WorkbookContext,
};
use excelgrag::formula::scan_references;
use excelgrag::formula_group::group_formulas;
use excelgrag::graph::{Edge, EdgeKind, Node, NodeKind, WorkbookGraph};
use excelgrag::region::{detect_regions, Region};
use excelgrag::workbook::{Sheet, Workbook, WorkbookFormat};

// ---- workbooks small enough to know the right answer for ----------------

fn number(n: f64) -> CellValue {
    CellValue::Number(Number { bits: n.to_bits(), text: format!("{n}") })
}

fn grid(id: u16, name: &str, rows: &[&str]) -> Sheet {
    let mut sheet = Sheet::new(SheetId(id), name);
    for (r, line) in rows.iter().enumerate() {
        for (c, tok) in line.split_whitespace().enumerate() {
            if tok == "." {
                continue;
            }
            let cell = match tok.strip_prefix('=') {
                Some(f) => Cell {
                    value: number(0.0),
                    formula: Some(f.to_string()),
                    format: Default::default(),
                },
                None => match tok.parse::<f64>() {
                    Ok(n) => Cell::literal(number(n)),
                    Err(_) => Cell::literal(CellValue::Text(tok.to_string())),
                },
            };
            sheet.set(r as u32, c as u16, cell);
        }
    }
    sheet
}

fn workbook(path: &str, hash: &str, sheets: Vec<Sheet>) -> Workbook {
    let mut wb = Workbook::default();
    wb.path = path.into();
    wb.format = Some(WorkbookFormat::Xlsx);
    wb.content_hash = hash.into();
    wb.sheets = sheets;
    wb
}

/// Three sheets in a chain: Report reads Sales, Sales reads Rates. Two
/// dependency hops from the report is the whole model.
fn chain() -> Workbook {
    workbook(
        "chain.xlsx",
        "hash-chain",
        vec![
            grid(0, "Report", &["Line Total", "North =Sales!B2", "South =Sales!B3"]),
            grid(1, "Sales", &["Region Net", "North =Rates!B2", "South =Rates!B3"]),
            grid(2, "Rates", &["Country Tariff", "ZA 0.15", "UK 0.2"]),
        ],
    )
}

/// One table with many columns.
fn wide() -> Workbook {
    let header: Vec<String> = (0..40).map(|i| format!("Col{i}")).collect();
    let body: Vec<String> = (0..40).map(|i| format!("{i}")).collect();
    let rows = [header.join(" "), body.join(" "), body.join(" ")];
    let borrowed: Vec<&str> = rows.iter().map(String::as_str).collect();
    workbook("wide.xlsx", "hash-wide", vec![grid(0, "Wide", &borrowed)])
}

fn node(kind: NodeKind, label: &str, range: Option<RangeRef>, sheet: Option<SheetId>, cells: u64) -> Node {
    Node { kind, label: label.to_string(), range, sheet, cell_count: cells }
}

fn contains() -> Edge {
    Edge { kind: EdgeKind::Contains, weight: 1 }
}

/// The graph of a workbook: sheets, their regions, the columns and formula
/// groups of those, and every reference lifted to the regions it joins.
fn build(wb: &Workbook) -> WorkbookGraph {
    let mut g = WorkbookGraph::new();
    let root = g.add_node(node(NodeKind::Workbook, &wb.path, None, None, 0));
    let mut regions: Vec<(u32, Region)> = Vec::new();
    for sheet in &wb.sheets {
        let at = g.add_node(node(
            NodeKind::Sheet,
            &sheet.name,
            None,
            Some(sheet.id),
            sheet.len() as u64,
        ));
        g.add_edge(root, at, contains());
        let (groups, _) = group_formulas(sheet);
        for region in detect_regions(sheet) {
            let label = region.title.clone().unwrap_or_else(|| region.range.to_a1());
            let here = g.add_node(node(
                NodeKind::Region,
                &label,
                Some(region.range),
                Some(sheet.id),
                region.cell_count,
            ));
            g.add_edge(at, here, contains());
            if let Some(body) = region.body() {
                for (i, header) in region.headers.iter().enumerate() {
                    let col = body.left + i as u16;
                    let range = RangeRef::new(sheet.id, body.top, col, body.bottom, col);
                    let column =
                        g.add_node(node(NodeKind::Column, header, Some(range), Some(sheet.id), 0));
                    g.add_edge(here, column, contains());
                }
            }
            for group in &groups {
                if region.range.contains(group.range.top_left()) {
                    let at = g.add_node(node(
                        NodeKind::FormulaGroup,
                        &group.shape,
                        Some(group.range),
                        Some(sheet.id),
                        group.cell_count,
                    ));
                    g.add_edge(here, at, contains());
                }
            }
            regions.push((here, region));
        }
    }
    let mut lifted: Vec<(u32, u32, EdgeKind, u64)> = Vec::new();
    for sheet in &wb.sheets {
        for (at, cell) in sheet.iter() {
            let Some(formula) = &cell.formula else { continue };
            let Some((from, _)) = regions.iter().find(|(_, r)| r.range.contains(at)) else {
                continue;
            };
            for found in scan_references(formula) {
                let parsed = &found.parsed;
                let id = match &parsed.sheet_name {
                    Some(name) => wb.sheet_id_by_name(name).unwrap(),
                    None => sheet.id,
                };
                let target = parsed.resolve(id).top_left();
                let Some((to, _)) = regions.iter().find(|(_, r)| r.range.contains(target)) else {
                    continue;
                };
                if from == to {
                    continue;
                }
                let kind = if id == sheet.id {
                    EdgeKind::DependsOn
                } else {
                    EdgeKind::CrossSheetRef
                };
                match lifted.iter_mut().find(|l| l.0 == *from && l.1 == *to) {
                    Some(l) => l.3 += 1,
                    None => lifted.push((*from, *to, kind, 1)),
                }
            }
        }
    }
    for (from, to, kind, weight) in lifted {
        g.add_edge(from, to, Edge { kind, weight });
    }
    g
}

fn stored(wb: &Workbook) -> StoredGraph {
    StoredGraph { content_hash: wb.content_hash.clone(), path: wb.path.clone(), graph: build(wb) }
}

/// Expand hits against a corpus of these workbooks.
fn walk(corpus: &[Workbook], seeds: &[Hit], opts: &ExpandOptions) -> Retrieved {
    let groups = group_hits(seeds);
    let found: Vec<Option<StoredGraph>> = groups
        .iter()
        .map(|g| corpus.iter().find(|w| w.content_hash == g.workbook).map(stored))
        .collect();
    expand(&groups, &found, opts)
}

/// A hit standing for the node whose label matches.
fn hit_for(wb: &Workbook, label: &str, kind: NodeKind) -> Hit {
    let g = build(wb);
    let index = (0..g.node_count() as u32)
        .find(|i| g.node(*i).kind == kind && g.node(*i).label == label)
        .unwrap_or_else(|| panic!("no {kind:?} labelled {label}"));
    hit_at(wb, &g, index)
}

fn hit_at(wb: &Workbook, g: &WorkbookGraph, index: u32) -> Hit {
    Hit {
        score: 1.0f32.to_bits(),
        workbook: wb.content_hash.clone(),
        path: wb.path.clone(),
        node: index,
        kind: g.node(index).kind,
        sheet: None,
        label: g.node(index).label.clone(),
        a1: None,
    }
}

fn labels(found: &Retrieved) -> Vec<&str> {
    found.workbooks[0].nodes.iter().map(|n| n.label.as_str()).collect()
}

fn find<'a>(found: &'a Retrieved, label: &str) -> &'a RetrievedNode {
    found.workbooks[0]
        .nodes
        .iter()
        .find(|n| n.label == label)
        .unwrap_or_else(|| panic!("{label} is not in {:?}", labels(found)))
}

// ---- expansion ------------------------------------------------------------

#[test]
fn a_seed_arrives_with_the_table_and_sheet_that_name_it() {
    let seed = hit_for(&chain(), "Net", NodeKind::Column);
    let found = walk(&[chain()], &[seed], &ExpandOptions::default());

    let net = find(&found, "Net");
    assert_eq!(net.role, Role::Seed);
    assert_eq!(net.sheet.as_deref(), Some("Sales"));

    let sheet = find(&found, "Sales");
    assert_eq!(sheet.kind, NodeKind::Sheet);
    assert!(matches!(sheet.role, Role::Ancestor { .. }));
    assert!(found.workbooks[0].nodes.iter().any(|n| n.kind == NodeKind::Workbook));
}

#[test]
fn ancestry_does_not_count_as_a_hop() {
    let seed = hit_for(&chain(), "Net", NodeKind::Column);
    let found =
        walk(&[chain()], &[seed], &ExpandOptions { hops: 0, ..ExpandOptions::default() });

    assert!(found.workbooks[0].nodes.iter().all(|n| n.hops == 0));
    assert!(found.workbooks[0].nodes.iter().any(|n| n.kind == NodeKind::Sheet));
}

#[test]
fn one_hop_reaches_what_a_column_reads_and_two_reaches_what_that_reads() {
    let seed = hit_for(&chain(), "Total", NodeKind::Column);

    let one = walk(
        &[chain()],
        std::slice::from_ref(&seed),
        &ExpandOptions { hops: 1, ..ExpandOptions::default() },
    );
    assert!(
        one.workbooks[0].nodes.iter().any(|n| n.sheet.as_deref() == Some("Sales")),
        "one hop should reach Sales: {:?}",
        labels(&one)
    );
    assert!(
        !one.workbooks[0].nodes.iter().any(|n| n.sheet.as_deref() == Some("Rates")),
        "one hop should not reach Rates: {:?}",
        labels(&one)
    );

    let two = walk(
        &[chain()],
        std::slice::from_ref(&seed),
        &ExpandOptions { hops: 2, ..ExpandOptions::default() },
    );
    assert!(
        two.workbooks[0].nodes.iter().any(|n| n.sheet.as_deref() == Some("Rates")),
        "two hops should reach Rates: {:?}",
        labels(&two)
    );
}

#[test]
fn an_input_and_a_dependent_are_told_apart() {
    let seed = hit_for(&chain(), "Sales", NodeKind::Sheet);
    let found = walk(&[chain()], &[seed], &ExpandOptions::default());

    let inputs: Vec<&str> = found.workbooks[0]
        .nodes
        .iter()
        .filter(|n| matches!(n.role, Role::Input { .. }))
        .map(|n| n.sheet.as_deref().unwrap_or_default())
        .collect();
    let dependents: Vec<&str> = found.workbooks[0]
        .nodes
        .iter()
        .filter(|n| matches!(n.role, Role::Dependent { .. }))
        .map(|n| n.sheet.as_deref().unwrap_or_default())
        .collect();

    assert!(inputs.contains(&"Rates"), "inputs were {inputs:?}");
    assert!(dependents.contains(&"Report"), "dependents were {dependents:?}");
    assert!(!inputs.contains(&"Report"));
    assert!(!dependents.contains(&"Rates"));
}

#[test]
fn a_wide_table_does_not_flood_the_result() {
    let seed = hit_for(&wide(), "Col7", NodeKind::Column);
    let found = walk(&[wide()], &[seed], &ExpandOptions::default());

    let columns =
        found.workbooks[0].nodes.iter().filter(|n| n.kind == NodeKind::Column).count();
    assert_eq!(columns, 1, "pulled in {:?}", labels(&found));
    assert!(!found.truncated());
}

#[test]
fn children_are_opt_in_and_capped() {
    let seed = hit_for(&wide(), "Col7", NodeKind::Column);
    let found =
        walk(&[wide()], &[seed], &ExpandOptions { children: 5, ..ExpandOptions::default() });

    let children = found.workbooks[0]
        .nodes
        .iter()
        .filter(|n| matches!(n.role, Role::Child { .. }))
        .count();
    assert_eq!(children, 5, "got {:?}", labels(&found));
}

#[test]
fn a_sheet_that_only_names_a_seed_does_not_bring_its_other_tables() {
    let wb = workbook(
        "many.xlsx",
        "hash-many",
        vec![
            grid(
                0,
                "Hub",
                &[
                    "A B",
                    "x =Far!B2",
                    ". .",
                    "C D",
                    "y =Far!B3",
                    ". .",
                    "E F",
                    "z =Far!B4",
                ],
            ),
            grid(1, "Far", &["K V", "p 1", "q 2", "r 3"]),
        ],
    );
    let g = build(&wb);
    let regions: Vec<u32> = (0..g.node_count() as u32)
        .filter(|i| g.node(*i).kind == NodeKind::Region)
        .collect();
    assert!(regions.len() >= 3, "fixture needs several regions");
    let seed = hit_at(&wb, &g, regions[0]);

    let found = walk(&[wb], &[seed], &ExpandOptions::default());
    let siblings = found.workbooks[0]
        .nodes
        .iter()
        .filter(|n| n.kind == NodeKind::Region && matches!(n.role, Role::Child { .. }))
        .count();
    assert_eq!(siblings, 0, "the sheet's other tables came along: {:?}", labels(&found));
}

#[test]
fn the_workbook_root_is_never_enumerated() {
    let seed = hit_for(&chain(), "Net", NodeKind::Column);
    let found = walk(
        &[chain()],
        &[seed],
        &ExpandOptions { children: 3, hops: 0, ..ExpandOptions::default() },
    );

    let sheets_pulled_in = found.workbooks[0]
        .nodes
        .iter()
        .filter(|n| n.kind == NodeKind::Sheet && matches!(n.role, Role::Child { .. }))
        .count();
    assert_eq!(sheets_pulled_in, 0, "the workbook root's sheets came along: {:?}", labels(&found));
}

#[test]
fn the_budget_caps_the_result_and_says_that_it_did() {
    let seed = hit_for(&wide(), "Col7", NodeKind::Column);
    let found = walk(
        &[wide()],
        &[seed],
        &ExpandOptions { children: 100, budget: 6, ..ExpandOptions::default() },
    );

    assert_eq!(found.total_nodes(), 6);
    assert!(
        found.truncated(),
        "a capped expansion that does not say so reads as a complete one"
    );
}

#[test]
fn a_node_reached_from_two_children_still_names_the_path_to_each() {
    let a = hit_for(&chain(), "Net", NodeKind::Column);
    let b = hit_for(&chain(), "Tariff", NodeKind::Column);
    let found = walk(&[chain()], &[a, b], &ExpandOptions::default());
    let workbook = &found.workbooks[0];

    for label in ["Net", "Tariff"] {
        let node = workbook.nodes.iter().find(|n| n.label == label).unwrap();
        let path: Vec<&str> =
            workbook.ancestry(node.node).iter().map(|n| n.label.as_str()).collect();
        assert_eq!(path.len(), 3, "{label} came back with {path:?}");
        assert_eq!(path[0], "chain.xlsx");
    }
}

#[test]
fn ancestry_stops_at_what_the_budget_allowed_rather_than_inventing_it() {
    let seed = hit_for(&chain(), "Net", NodeKind::Column);
    let found =
        walk(&[chain()], &[seed], &ExpandOptions { budget: 2, ..ExpandOptions::default() });
    let workbook = &found.workbooks[0];

    let net = workbook.nodes.iter().find(|n| n.label == "Net").unwrap();
    assert!(workbook.ancestry(net.node).len() < 3);
    assert!(found.truncated());
}

#[test]
fn every_node_but_a_seed_names_what_reached_it() {
    let seed = hit_for(&chain(), "Net", NodeKind::Column);
    let found = walk(&[chain()], &[seed], &ExpandOptions::default());

    let present: Vec<u32> = found.workbooks[0].nodes.iter().map(|n| n.node).collect();
    for node in &found.workbooks[0].nodes {
        match node.role.from() {
            None => assert_eq!(node.role, Role::Seed, "{} has no origin", node.label),
            Some(from) => assert!(
                present.contains(&from),
                "{} was reached from a node that is not in the result",
                node.label
            ),
        }
    }
}

#[test]
fn heavier_edges_are_followed_first() {
    let wb = workbook(
        "weights.xlsx",
        "hash-weights",
        vec![
            grid(
                0,
                "Main",
                &["Row Value", "a =Heavy!B2", "b =Heavy!B3", "c =Heavy!B4", "d =Light!B2"],
            ),
            grid(1, "Heavy", &["K V", "x 1", "y 2", "z 3"]),
            grid(2, "Light", &["K V", "x 1"]),
        ],
    );
    let seed = hit_for(&wb, "Main", NodeKind::Sheet);
    let found =
        walk(&[wb], &[seed], &ExpandOptions { hops: 1, budget: 4, ..ExpandOptions::default() });

    let sheets: Vec<&str> =
        found.workbooks[0].nodes.iter().filter_map(|n| n.sheet.as_deref()).collect();
    assert!(sheets.contains(&"Heavy"), "reached {sheets:?}");
}

#[test]
fn a_heavy_detour_does_not_hide_what_is_closer() {
    let wb = workbook(
        "detour.xlsx",
        "hash-detour",
        vec![
            grid(
                0,
                "Main",
                &["Row Value", "a =Heavy!B2", "b =Heavy!B3", "c =Heavy!B4", "d =Light!B2"],
            ),
            grid(1, "Heavy", &["K V", "x =Light!B3", "y 2", "z 3"]),
            grid(2, "Light", &["K V", "p =Deep!B2", "q =Deep!B3"]),
            grid(3, "Deep", &["K V", "m 1", "n 2"]),
        ],
    );
    let seed = hit_for(&wb, "Main", NodeKind::Sheet);
    let found = walk(&[wb], &[seed], &ExpandOptions { hops: 2, ..ExpandOptions::default() });

    let sheets: Vec<&str> =
        found.workbooks[0].nodes.iter().filter_map(|n| n.sheet.as_deref()).collect();
    assert!(sheets.contains(&"Deep"), "reached only {sheets:?}");

    let light = found.workbooks[0]
        .nodes
        .iter()
        .filter(|n| n.sheet.as_deref() == Some("Light"))
        .map(|n| n.hops)
        .min()
        .expect("Light was not reached");
    assert_eq!(light, 1, "Light is one hop from Main, recorded as {light}");
}

#[test]
fn a_seed_whose_workbook_is_gone_is_reported_rather_than_dropped() {
    let mut seed = hit_for(&chain(), "Net", NodeKind::Column);
    seed.workbook = "hash-that-is-not-there".into();

    let found = walk(&[chain()], &[seed], &ExpandOptions::default());
    assert!(found.workbooks.is_empty());
    assert_eq!(found.missing_workbooks, vec!["hash-that-is-not-there"]);
}

/// A stored graph whose containment edges form a cycle.
fn cyclic_containment() -> (StoredGraph, u32) {
    let mut graph = WorkbookGraph::new();
    let root = graph.add_node(node(NodeKind::Workbook, "cycle.xlsx", None, None, 0));
    let a = graph.add_node(node(NodeKind::Sheet, "A", None, Some(SheetId(0)), 1));
    let b = graph.add_node(node(NodeKind::Sheet, "B", None, Some(SheetId(1)), 1));
    graph.add_edge(root, a, contains());
    graph.add_edge(a, b, contains());
    graph.add_edge(b, a, contains());
    let stored = StoredGraph {
        content_hash: "hash-cycle".into(),
        path: "cycle.xlsx".into(),
        graph,
    };
    (stored, b)
}

#[test]
fn a_containment_cycle_on_disk_gives_a_short_answer_not_a_hung_process() {
    let (stored, seed_node) = cyclic_containment();
    let seed = Hit {
        score: 1.0f32.to_bits(),
        workbook: "hash-cycle".into(),
        path: "cycle.xlsx".into(),
        node: seed_node,
        kind: NodeKind::Sheet,
        sheet: None,
        label: "B".into(),
        a1: None,
    };

    let found = expand(&group_hits(&[seed]), &vec![Some(stored)], &ExpandOptions::default());
    assert!(found.total_nodes() > 0);
    for node in &found.workbooks[0].nodes {
        let path = found.workbooks[0].ancestry(node.node);
        assert!(path.len() <= found.workbooks[0].nodes.len());
    }
    assert!(
        found.truncated(),
        "a cycle-shortened ancestry was reported as complete"
    );
}

#[test]
fn a_budget_that_runs_out_spends_it_on_the_better_ranked_seed() {
    let first = hit_for(&chain(), "Net", NodeKind::Column);
    let second = hit_for(&chain(), "Tariff", NodeKind::Column);
    let found = walk(
        &[chain()],
        &[first.clone(), second.clone()],
        &ExpandOptions { budget: 1, hops: 0, ..ExpandOptions::default() },
    );

    assert_eq!(found.total_nodes(), 1);
    assert_eq!(found.workbooks[0].nodes[0].node, first.node);
    assert!(found.truncated());
}

#[test]
fn only_a_seed_carries_a_search_score() {
    let seed = hit_for(&chain(), "Net", NodeKind::Column);
    let found = walk(&[chain()], &[seed], &ExpandOptions::default());

    for node in &found.workbooks[0].nodes {
        if node.role == Role::Seed {
            assert!(node.score.is_some(), "{} lost its score", node.label);
        } else {
            assert!(node.score.is_none(), "{} carries a score it was never given", node.label);
        }
    }
}

#[test]
fn the_same_graph_and_seeds_give_the_same_walk_every_time() {
    let seed = hit_for(&chain(), "Net", NodeKind::Column);
    let opts = ExpandOptions { budget: 6, ..ExpandOptions::default() };
    let walked = || -> Vec<u32> {
        walk(&[chain()], std::slice::from_ref(&seed), &opts).workbooks[0]
            .nodes
            .iter()
            .map(|n| n.node)
            .collect()
    };

    let first: Vec<u32> = walked();
    for _ in 0..8 {
        let again: Vec<u32> = walked();
        assert_eq!(first, again);
    }
}

#[test]
fn a_hit_pointing_past_the_end_of_the_graph_is_skipped_not_panicked_on() {
    let mut seed = hit_for(&chain(), "Net", NodeKind::Column);
    seed.node = 100_000;

    let found = walk(&[chain()], &[seed], &ExpandOptions::default());
    assert_eq!(found.total_nodes(), 0);
    assert_eq!(found.workbooks[0].stale_seeds, vec![100_000]);
}

#[test]
fn two_hits_in_one_workbook_read_the_graph_once_and_share_their_context() {
    let a = hit_for(&chain(), "Net", NodeKind::Column);
    let b = hit_for(&chain(), "Tariff", NodeKind::Column);
    let found = walk(&[chain()], &[a, b], &ExpandOptions::default());

    assert_eq!(found.workbooks.len(), 1);
    assert_eq!(found.workbooks[0].seeds().len(), 2);

    let roots =
        found.workbooks[0].nodes.iter().filter(|n| n.kind == NodeKind::Workbook).count();
    assert_eq!(roots, 1);
}

#[test]
fn min_weight_drops_the_lightest_dependencies() {
    let seed = hit_for(&chain(), "Sales", NodeKind::Sheet);
    let found = walk(
        &[chain()],
        &[seed],
        &ExpandOptions { min_weight: u64::MAX, ..ExpandOptions::default() },
    );

    assert!(
        found.workbooks[0]
            .nodes
            .iter()
            .all(|n| !matches!(n.role, Role::Input { .. } | Role::Dependent { .. })),
        "a dependency survived an impossible weight floor: {:?}",
        labels(&found)
    );
}

#[test]
fn the_edge_kind_that_reached_a_node_is_recorded() {
    let seed = hit_for(&chain(), "Sales", NodeKind::Sheet);
    let found = walk(&[chain()], &[seed], &ExpandOptions::default());

    let crossed = found.workbooks[0].nodes.iter().any(|n| {
        matches!(
            n.role,
            Role::Input { kind: EdgeKind::CrossSheetRef, .. }
                | Role::Dependent { kind: EdgeKind::CrossSheetRef, .. }
        )
    });
    assert!(crossed, "no cross-sheet edge recorded: {:?}", labels(&found));
}

#[test]
fn a_regions_children_are_its_columns_before_its_formula_groups() {
    let wb = workbook(
        "mixed.xlsx",
        "hash-mixed",
        vec![grid(
            0,
            "Mixed",
            &[
                "Region Base W X Y Z",
                "North 10 =B2*2 =C2*2 =D2*2 =E2*2",
                "South 20 =B3*2 =C3*2 =D3*2 =E3*2",
                "East 30 =B4*2 =C4*2 =D4*2 =E4*2",
            ],
        )],
    );
    let seed = hit_for(&wb, "Base", NodeKind::Column);
    let found =
        walk(&[wb], &[seed], &ExpandOptions { children: 2, ..ExpandOptions::default() });

    let kinds: Vec<NodeKind> = found.workbooks[0]
        .nodes
        .iter()
        .filter(|n| matches!(n.role, Role::Child { .. }))
        .map(|n| n.kind)
        .collect();
    assert_eq!(kinds, vec![NodeKind::Column, NodeKind::Column], "got {:?}", labels(&found));
}

#[test]
fn hits_are_grouped_by_workbook_in_the_order_of_the_best_of_each() {
    let mut a = hit_for(&chain(), "Net", NodeKind::Column);
    let mut b = a.clone();
    let mut c = a.clone();
    a.workbook = "one".into();
    b.workbook = "two".into();
    c.workbook = "one".into();
    c.node = 0;
    let groups = group_hits(&[a.clone(), b.clone(), c.clone()]);
    assert_eq!(groups.len(), 2);
    assert_eq!(groups[0].workbook, "one");
    assert_eq!(groups[0].hits, vec![a, c]);
    assert_eq!(groups[1].workbook, "two");
    assert_eq!(groups[1].hits, vec![b]);
}

#[test]
fn nodes_come_nearest_first_and_within_the_hops_allowed() {
    let seed = hit_for(&chain(), "Total", NodeKind::Column);
    let found = walk(&[chain()], &[seed], &ExpandOptions::default());
    let hops: Vec<usize> = found.workbooks[0].nodes.iter().map(|n| n.hops).collect();
    let mut sorted = hops.clone();
    sorted.sort();
    assert_eq!(hops, sorted);
    assert_eq!(hops.last(), Some(&2));
    assert!(!found.truncated());
    let cited: Vec<&str> =
        found.workbooks[0].nodes.iter().filter_map(|n| n.a1.as_deref()).collect();
    assert_eq!(cited[0], "Report!B2:B3");
}

#[test]
fn the_graph_lists_the_edge_added_last_first() {
    let mut g = WorkbookGraph::new();
    let a = g.add_node(node(NodeKind::Sheet, "a", None, None, 0));
    let b = g.add_node(node(NodeKind::Region, "b", None, None, 3));
    let c = g.add_node(node(NodeKind::Region, "c", None, None, 4));
    g.add_edge(a, b, contains());
    g.add_edge(a, c, Edge { kind: EdgeKind::DependsOn, weight: 7 });
    g.add_edge(b, b, contains());
    assert_eq!(g.node_count(), 3);
    let out = g.edges(a, false);
    assert_eq!(out.iter().map(|l| l.to).collect::<Vec<_>>(), vec![c, b]);
    assert_eq!(out[0].edge.weight, 7);
    let into = g.edges(b, true);
    assert_eq!(into.iter().map(|l| l.from).collect::<Vec<_>>(), vec![b, a]);
    assert_eq!(g.node(c).cells(), 4);
    assert!(EdgeKind::Contains.is_structural() && !EdgeKind::DependsOn.is_structural());
}

// ---- rendering --------------------------------------------------------------

fn retrieved(label: &str, kind: NodeKind, opts: &ExpandOptions) -> Retrieved {
    let wb = chain();
    let seed = hit_for(&wb, label, kind);
    walk(&[wb], &[seed], opts)
}

/// The `[n]` markers that open an entry, in order.
fn entries(text: &str) -> Vec<usize> {
    text.lines()
        .filter_map(|l| l.strip_prefix('['))
        .filter_map(|l| l.split(']').next())
        .filter_map(|n| n.parse().ok())
        .collect()
}

/// Every `[n]` mentioned anywhere, entries and relations alike.
fn referenced(text: &str) -> Vec<usize> {
    let mut out = Vec::new();
    let mut rest = text;
    while let Some(at) = rest.find('[') {
        rest = &rest[at + 1..];
        if let Some(end) = rest.find(']') {
            if let Ok(n) = rest[..end].parse() {
                out.push(n);
            }
        }
    }
    out
}

#[test]
fn every_retrieved_node_appears_exactly_once() {
    let found = retrieved("Net", NodeKind::Column, &ExpandOptions::default());
    let rendered = render(&found, &RenderOptions::default());

    let numbers = entries(&rendered.text);
    assert_eq!(
        numbers.len(),
        found.total_nodes(),
        "{} nodes rendered as {} entries",
        found.total_nodes(),
        numbers.len()
    );
    assert_eq!(
        numbers,
        (1..=found.total_nodes()).collect::<Vec<_>>(),
        "the numbering has a gap or a repeat"
    );
    assert_eq!(rendered.omitted, 0);
}

#[test]
fn no_relation_points_at_a_number_that_is_not_there() {
    let found = retrieved("Net", NodeKind::Column, &ExpandOptions::default());
    let rendered = render(&found, &RenderOptions::default());

    let highest = entries(&rendered.text).len();
    for n in referenced(&rendered.text) {
        assert!(
            n >= 1 && n <= highest,
            "the passage refers to [{n}] and only has {highest} entries"
        );
    }
}

#[test]
fn a_relation_survives_only_if_both_its_ends_do() {
    let found =
        retrieved("Net", NodeKind::Column, &ExpandOptions { budget: 4, ..ExpandOptions::default() });
    let rendered =
        render(&found, &RenderOptions { max_chars: 400, ..RenderOptions::default() });

    let highest = entries(&rendered.text).len();
    assert!(highest > 0, "nothing was rendered at all");
    assert!(rendered.omitted > 0, "this budget should have cut something");
    for n in referenced(&rendered.text) {
        assert!(n <= highest, "[{n}] points past the end of the passage");
    }
}

#[test]
fn a_cut_passage_says_it_was_cut_and_by_how_much() {
    let found = retrieved("Net", NodeKind::Column, &ExpandOptions::default());
    let rendered =
        render(&found, &RenderOptions { max_chars: 300, ..RenderOptions::default() });

    assert!(rendered.omitted > 0);
    assert!(
        rendered.text.contains("left out to fit"),
        "a cut passage that does not say so reads as a complete one"
    );
    assert!(rendered.text.ends_with('\n'));
}

#[test]
fn the_citations_handed_back_are_the_ones_in_the_text() {
    let found = retrieved("Net", NodeKind::Column, &ExpandOptions::default());
    let rendered = render(&found, &RenderOptions::default());

    assert!(!rendered.citations.is_empty());
    for citation in &rendered.citations {
        assert!(
            rendered.text.contains(citation),
            "{citation} is offered as a citation and is not in the passage"
        );
    }
    let known: Vec<&str> =
        found.workbooks[0].nodes.iter().filter_map(|n| n.a1.as_deref()).collect();
    for citation in &rendered.citations {
        assert!(known.contains(&citation.as_str()));
    }
}

#[test]
fn seeds_are_marked_and_come_first() {
    let found = retrieved("Net", NodeKind::Column, &ExpandOptions::default());
    let rendered = render(&found, &RenderOptions::default());

    let first = rendered.text.lines().find(|l| l.starts_with('[')).unwrap();
    assert!(first.contains('*'), "the first entry is not the seed: {first}");
    assert!(first.contains("Net"));

    let marked =
        rendered.text.lines().filter(|l| l.starts_with('[') && l.contains('*')).count();
    assert_eq!(marked, found.workbooks[0].seeds().len());
}

#[test]
fn weights_can_be_turned_off() {
    let found = retrieved("Net", NodeKind::Column, &ExpandOptions::default());
    let with = render(&found, &RenderOptions::default());
    let without =
        render(&found, &RenderOptions { weights: false, ..RenderOptions::default() });

    assert!(with.text.contains("refs"));
    assert!(!without.text.contains("refs"));
    assert!(without.text.len() < with.text.len());
    assert_eq!(entries(&with.text).len(), entries(&without.text).len());
}

#[test]
fn a_workbook_that_left_the_corpus_is_said_out_loud() {
    let mut found = retrieved("Net", NodeKind::Column, &ExpandOptions::default());
    found.workbooks.clear();
    found.missing_workbooks.push("deadbeefcafe".into());

    let rendered = render(&found, &RenderOptions::default());
    assert!(rendered.text.contains("deadbeef"));
    assert!(rendered.text.contains("Reindex"));
}

#[test]
fn the_best_hit_survives_a_budget_too_small_for_the_preamble() {
    let found = retrieved("Net", NodeKind::Column, &ExpandOptions::default());
    let rendered = render(&found, &RenderOptions { max_chars: 1, ..RenderOptions::default() });

    assert_eq!(entries(&rendered.text).len(), 1);
    assert!(rendered.text.contains("Net"));
    assert_eq!(rendered.omitted, found.total_nodes() - 1);
}

#[test]
fn an_empty_expansion_renders_to_nothing_rather_than_a_confident_heading() {
    let rendered = render(&Retrieved::default(), &RenderOptions::default());
    assert!(rendered.text.is_empty());
    assert!(rendered.citations.is_empty());
    assert_eq!(rendered.omitted, 0);
}

#[test]
fn the_workbook_is_named_once_and_not_on_every_line() {
    let found = retrieved("Net", NodeKind::Column, &ExpandOptions::default());
    let rendered = render(&found, &RenderOptions::default());

    let mentions = rendered.text.matches("chain.xlsx").count();
    assert!(
        mentions <= 2,
        "the workbook path appears {mentions} times:\n{}",
        rendered.text
    );
}

#[test]
fn thousands_separates_every_three_digits() {
    assert_eq!(thousands(0), "0");
    assert_eq!(thousands(999), "999");
    assert_eq!(thousands(1_000), "1,000");
    assert_eq!(thousands(115_003), "115,003");
    assert_eq!(thousands(1_048_576), "1,048,576");
}

#[test]
fn a_label_that_is_its_own_citation_is_not_printed_twice() {
    assert!(is_the_citation("A1:BM115004", Some("Sheet1!A1:BM115004")));
    assert!(is_the_citation("B7", Some("\'Q3 Sales\'!B7")));
    assert!(!is_the_citation("RATES", Some("LOOKUP!AE53:AG89")));
    assert!(!is_the_citation("A1:B2", None));
}

#[test]
fn a_header_shaped_like_a_reference_keeps_its_name() {
    for header in ["FY2024", "Q1", "H2", "2024"] {
        assert_eq!(
            quoted(header, Some("Sales!C2:C99")),
            format!("{header:?}"),
            "{header} lost its name"
        );
    }
}

fn told(node: u32, label: &str, a1: Option<&str>, parent: Option<u32>, role: Role) -> RetrievedNode {
    RetrievedNode {
        node,
        kind: NodeKind::Region,
        label: label.into(),
        a1: a1.map(str::to_string),
        sheet: None,
        parent,
        role,
        hops: 0,
        score: None,
    }
}

#[test]
fn a_passage_reads_exactly_so() {
    let found = Retrieved {
        workbooks: vec![WorkbookContext {
            content_hash: "h".into(),
            path: "book.xlsx".into(),
            nodes: vec![
                told(4, "Rates", Some("R!A1:B2"), None, Role::Input {
                    of: 7,
                    kind: EdgeKind::CrossSheetRef,
                    weight: 1200,
                }),
                told(7, "A1:B9", Some("S!A1:B9"), Some(4), Role::Seed),
            ],
            truncated: true,
            stale_seeds: Vec::new(),
        }],
        missing_workbooks: Vec::new(),
    };
    let rendered: Rendered = render(&found, &RenderOptions::default());
    assert_eq!(
        rendered.text,
        "# book.xlsx\n\
         \n\
         The walk hit its budget: this is part of the context around the match, not all of it.\n\
         \n\
         2 node(s). A `*` marks something the search matched; the rest were reached from it. \
         Every range below is a live location in this workbook, not a value.\n\
         \n\
         [1] * region    S!A1:B9\n      in: Rates\n      reads: [2] (1,200 refs, another sheet)\n\
         [2]   region \"Rates\"   R!A1:B2\n      read by: [1] (1,200 refs, another sheet)\n\
         \n"
    );
    assert_eq!(rendered.citations, vec!["S!A1:B9", "R!A1:B2"]);
}

#[test]
fn a_workbook_without_room_is_counted_apart() {
    let one = retrieved("Net", NodeKind::Column, &ExpandOptions::default());
    let mut found = one.clone();
    found.workbooks.extend(one.workbooks.clone());
    let rendered = render(&found, &RenderOptions { max_chars: 1, ..RenderOptions::default() });
    assert_eq!(rendered.omitted_workbooks, 1);
    assert_eq!(rendered.omitted, found.total_nodes() - 1);
    assert!(rendered.text.contains("including 1 workbook(s) that do not appear above at all"));
}

#[test]
fn a_cut_passage_stays_within_its_ceiling() {
    let found = retrieved("Net", NodeKind::Column, &ExpandOptions::default());
    let whole = render(&found, &RenderOptions::default());
    for max_chars in 350..whole.text.chars().count() {
        let cut = render(&found, &RenderOptions { max_chars, ..RenderOptions::default() });
        let closing = cut.text.find("\n\n\n").map(|i| i + 2).unwrap_or(cut.text.len());
        assert!(cut.omitted > 0);
        if entries(&cut.text).len() > 1 {
            assert!(cut.text[..closing].chars().count() <= max_chars);
        }
    }
}

#[test]
fn many_missing_workbooks_are_named_up_to_eight() {
    let found = Retrieved {
        workbooks: Vec::new(),
        missing_workbooks: (0..10).map(|i| format!("{i}23456789abc")).collect(),
    };
    let rendered = render(&found, &RenderOptions::default());
    assert!(rendered.text.starts_with("10 workbook(s) matched by the search are no longer in"));
    assert!(rendered.text.contains("(02345678, 12345678"));
    assert!(rendered.text.contains("72345678, and 2 more)"));
    let bare = render(&found, &RenderOptions { max_chars: 10, ..RenderOptions::default() });
    assert_eq!(
        bare.text,
        "10 workbook(s) matched by the search are missing from the corpus.\n\n"
    );
}

#[test]
fn seeds_come_in_the_order_of_the_hits() {
    let hits: Vec<Hit> = ["Tariff", "Total", "Net"]
        .iter()
        .map(|l| hit_for(&chain(), l, NodeKind::Column))
        .collect();
    let found = walk(&[chain()], &hits, &ExpandOptions::default());
    assert_eq!(labels(&found)[..3], ["Tariff", "Total", "Net"]);
    assert!(found.workbooks[0].nodes[3..].iter().all(|n| n.role != Role::Seed));
}

#[test]
fn what_is_shown_and_what_is_left_out_add_up() {
    let found = retrieved("Net", NodeKind::Column, &ExpandOptions::default());
    for max_chars in [1, 300, 400, 600, 8000] {
        let rendered = render(&found, &RenderOptions { max_chars, ..RenderOptions::default() });
        assert_eq!(entries(&rendered.text).len() + rendered.omitted, found.total_nodes());
    }
}

#[test]
fn a_parent_is_named_only_where_it_is_in_the_result() {
    let seed = hit_for(&chain(), "Net", NodeKind::Column);
    let whole = walk(&[chain()], &[seed.clone()], &ExpandOptions::default());
    let region = find(&whole, "Net").parent.expect("the table is there");
    assert!(whole.workbooks[0].node(region).is_some());

    let alone =
        walk(&[chain()], &[seed.clone()], &ExpandOptions { budget: 1, ..ExpandOptions::default() });
    assert_eq!(alone.workbooks[0].nodes[0].parent, None);

    let two =
        walk(&[chain()], &[seed], &ExpandOptions { budget: 2, ..ExpandOptions::default() });
    assert_eq!(find(&two, "Net").parent, Some(region));
    assert_eq!(two.workbooks[0].node(region).unwrap().parent, None);
}
