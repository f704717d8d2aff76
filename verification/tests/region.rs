use excelgrag::address::{RangeRef, SheetId};
use excelgrag::cell::{Cell, CellValue, Number};
use excelgrag::region::{
    detect_regions, detect_regions_with, detect_workbook_regions, RegionKind, RegionOptions,
    RegionSource,
};
use excelgrag::workbook::{ExcelTable, Sheet, Workbook};

/// A number as a cell holds it.
fn num(n: f64) -> CellValue {
    CellValue::Number(Number { bits: n.to_bits(), text: format!("{n}") })
}

/// Build a sheet from a compact text grid.
///
/// `.` is an empty cell, a bare number is numeric, anything else is text.
fn grid(rows: &[&str]) -> Sheet {
    let mut sheet = Sheet::new(SheetId(0), "Sheet1");
    for (r, line) in rows.iter().enumerate() {
        for (c, tok) in line.split_whitespace().enumerate() {
            if tok == "." {
                continue;
            }
            let value = match tok.parse::<f64>() {
                Ok(n) => num(n),
                Err(_) => CellValue::Text(tok.to_string()),
            };
            sheet.set(r as u32, c as u16, Cell::literal(value));
        }
    }
    sheet
}

#[test]
fn a_single_table_is_one_region_with_its_header() {
    let sheet = grid(&[
        "Region Q1 Q2",
        "North  10 20",
        "South  30 40",
        "East   50 60",
    ]);
    let regions = detect_regions(&sheet);
    assert_eq!(regions.len(), 1, "{regions:#?}");
    let r = &regions[0];
    assert_eq!(r.range.to_a1(), "A1:C4");
    assert_eq!(r.kind, RegionKind::Table);
    assert_eq!(r.header_rows, 1);
    assert_eq!(r.header_cols, 1, "the Region column labels rows");
    assert_eq!(r.headers, ["Q1", "Q2"]);
    assert_eq!(r.body().unwrap().to_a1(), "B2:C4");
}

#[test]
fn a_blank_row_separates_two_blocks() {
    let sheet = grid(&[
        "Region Q1",
        "North  10",
        ".      .",
        "Region Q2",
        "South  30",
    ]);
    let regions = detect_regions(&sheet);
    assert_eq!(regions.len(), 2, "{regions:#?}");
    assert_eq!(regions[0].range.to_a1(), "A1:B2");
    assert_eq!(regions[1].range.to_a1(), "A4:B5");
}

#[test]
fn a_blank_column_separates_side_by_side_tables() {
    let sheet = grid(&["Region Q1 . Region Q2", "North  10 . South  30"]);
    let regions = detect_regions(&sheet);
    assert_eq!(regions.len(), 2, "{regions:#?}");
    assert_eq!(regions[0].range.to_a1(), "A1:B2");
    assert_eq!(regions[1].range.to_a1(), "D1:E2");
}

#[test]
fn blocks_stacked_and_side_by_side_all_separate() {
    // Alternating row/column splitting has to recurse to get all four.
    let sheet = grid(&["a 1 . b 2", ". . . . .", "c 3 . d 4"]);
    let regions = detect_regions(&sheet);
    assert_eq!(regions.len(), 4, "{regions:#?}");
    let mut spans: Vec<String> = regions.iter().map(|r| r.range.to_a1()).collect();
    spans.sort();
    assert_eq!(spans, ["A1:B1", "A3:B3", "D1:E1", "D3:E3"]);
}

#[test]
fn a_numeric_block_with_no_header_is_a_block() {
    let sheet = grid(&["1 2 3", "4 5 6"]);
    let regions = detect_regions(&sheet);
    assert_eq!(regions.len(), 1);
    assert_eq!(regions[0].kind, RegionKind::Block);
    assert_eq!(regions[0].header_rows, 0);
    assert!(regions[0].headers.is_empty());
}

#[test]
fn a_lone_text_strip_is_a_note() {
    let sheet = grid(&["Prepared by the finance team"]);
    let regions = detect_regions(&sheet);
    assert_eq!(regions.len(), 1);
    assert_eq!(regions[0].kind, RegionKind::Note);
}

#[test]
fn a_text_only_table_is_not_mistaken_for_a_header() {
    // Text over text is not evidence of a header, so this stays a block.
    let sheet = grid(&["alpha beta", "gamma delta", "epsilon zeta"]);
    let regions = detect_regions(&sheet);
    assert_eq!(regions[0].header_rows, 0, "{:#?}", regions[0]);
}

#[test]
fn stacked_headers_join_into_paths() {
    let sheet = grid(&[
        "Q3    Q3      Q4",
        "Gross Net     Net",
        "1     2       3",
        "4     5       6",
    ]);
    let regions = detect_regions(&sheet);
    assert_eq!(regions.len(), 1);
    let r = &regions[0];
    assert_eq!(r.header_rows, 2, "{r:#?}");
    assert_eq!(r.headers, ["Q3.Gross", "Q3.Net", "Q4.Net"]);
}

#[test]
fn detected_blocks_never_span_a_declared_table() {
    // The table's own cells are filtered out before partitioning, but the
    // cells around it still bound a rectangle that encloses it. Without the
    // cut at the table's edges, `A1:C2` and the table at `B2` would both
    // claim B2, and any answer citing it would have two header contexts.
    let mut sheet = grid(&["x y z", "p . q"]);
    sheet.tables.push(ExcelTable {
        name: "Inner".into(),
        range: RangeRef::parse_local("B2:B2", SheetId(0)).unwrap(),
        columns: vec!["Inner".into()],
        has_header_row: false,
        has_totals_row: false,
    });
    let regions = detect_regions(&sheet);
    for (i, a) in regions.iter().enumerate() {
        for b in &regions[i + 1..] {
            assert!(
                !a.range.intersects(&b.range),
                "{} overlaps {}",
                a.range.to_a1(),
                b.range.to_a1()
            );
        }
    }
}

#[test]
fn declared_tables_are_used_verbatim() {
    let mut sheet = grid(&["Region Q1", "North 10", "South 20"]);
    sheet.tables.push(ExcelTable {
        name: "Sales".into(),
        range: RangeRef::parse_local("A1:B3", SheetId(0)).unwrap(),
        columns: vec!["Region".into(), "Q1".into()],
        has_header_row: true,
        has_totals_row: false,
    });
    let regions = detect_regions(&sheet);
    assert_eq!(regions.len(), 1, "declared table must not be re-detected");
    assert_eq!(regions[0].source, RegionSource::Declared);
    assert_eq!(regions[0].headers, ["Region", "Q1"]);
    // The table's name is not a row, so the body starts directly under the
    // header row rather than one row further down.
    assert_eq!(regions[0].body().unwrap().to_a1(), "A2:B3");
}

#[test]
fn a_lone_text_cell_above_a_block_becomes_its_title() {
    let sheet = grid(&["Impairment_summary . .", "1 2 3", "4 5 6"]);
    let regions = detect_regions(&sheet);
    assert_eq!(regions.len(), 1, "{regions:#?}");
    assert_eq!(regions[0].title.as_deref(), Some("Impairment_summary"));
    assert_eq!(regions[0].header_rows, 0);
    // The title row is not data.
    assert_eq!(regions[0].body().unwrap().to_a1(), "A2:C3");
}

#[test]
fn a_title_does_not_hide_the_header_below_it() {
    let sheet = grid(&[
        "Sales_by_region . .",
        "Region Q1 Q2",
        "North  10 20",
        "South  30 40",
    ]);
    let regions = detect_regions(&sheet);
    assert_eq!(regions.len(), 1, "{regions:#?}");
    let r = &regions[0];
    assert_eq!(r.title.as_deref(), Some("Sales_by_region"));
    assert_eq!(r.header_rows, 1, "{r:#?}");
    assert_eq!(r.headers, ["Q1", "Q2"]);
    assert_eq!(r.body().unwrap().to_a1(), "B3:C4");
}

#[test]
fn a_header_row_is_not_mistaken_for_a_title() {
    // More than one populated cell means it labels columns, not the block.
    let sheet = grid(&["Region Q1 Q2", "North 10 20", "South 30 40"]);
    let regions = detect_regions(&sheet);
    assert_eq!(regions[0].title, None);
    assert_eq!(regions[0].header_rows, 1);
}

#[test]
fn a_single_column_keeps_its_header_rather_than_gaining_a_title() {
    // One populated cell in the top row is a header here, not a title.
    let sheet = grid(&["Amount", "100", "200"]);
    let regions = detect_regions(&sheet);
    assert_eq!(regions[0].title, None, "{:#?}", regions[0]);
    assert_eq!(regions[0].header_rows, 1);
    assert_eq!(regions[0].headers, ["Amount"]);
    assert_eq!(regions[0].kind, RegionKind::Table);
}

#[test]
fn a_numeric_first_row_is_not_a_title() {
    let sheet = grid(&["7 . .", "1 2 3", "4 5 6"]);
    let regions = detect_regions(&sheet);
    assert_eq!(regions[0].title, None);
}

#[test]
fn a_single_row_region_has_no_title() {
    // With nothing under it there is no block for it to be the title of.
    let sheet = grid(&["Just a note"]);
    let regions = detect_regions(&sheet);
    assert_eq!(regions[0].title, None);
    assert_eq!(regions[0].kind, RegionKind::Note);
}

#[test]
fn an_empty_sheet_has_no_regions() {
    assert!(detect_regions(&Sheet::new(SheetId(0), "Sheet1")).is_empty());
}

#[test]
fn regions_never_overlap() {
    let sheet = grid(&["a 1 . b 2", ". . . . .", "c 3 . d 4"]);
    let regions = detect_regions(&sheet);
    for (i, a) in regions.iter().enumerate() {
        for b in &regions[i + 1..] {
            assert!(!a.range.intersects(&b.range), "{a:?} overlaps {b:?}");
        }
    }
}

#[test]
fn density_reports_how_solid_a_region_is() {
    let sheet = grid(&["1 2", "3 ."]);
    let regions = detect_regions(&sheet);
    assert_eq!(regions.len(), 1);
    let density = regions[0].density();
    assert!((density.part as f64 / density.whole as f64 - 0.75).abs() < 1e-9);
}

#[test]
fn a_wide_gap_is_needed_when_configured() {
    // With row_gap 2, a single blank row no longer separates.
    let sheet = grid(&["a 1", ". .", "b 2"]);
    let opts = RegionOptions {
        row_gap: 2,
        ..Default::default()
    };
    assert_eq!(detect_regions_with(&sheet, &opts).len(), 1);
    assert_eq!(detect_regions(&sheet).len(), 2);
}

#[test]
fn regions_come_in_reading_order_and_count_every_cell() {
    let sheet = grid(&["a 1 . b 2", ". . . . .", "c 3 . d 4"]);
    let regions = detect_regions(&sheet);
    let spans: Vec<String> = regions.iter().map(|r| r.range.to_a1()).collect();
    assert_eq!(spans, ["A1:B1", "D1:E1", "A3:B3", "D3:E3"]);
    let counted: u64 = regions.iter().map(|r| r.cell_count).sum();
    assert_eq!(counted, sheet.len() as u64);
    for (at, _) in sheet.iter() {
        assert_eq!(regions.iter().filter(|r| r.range.contains(at)).count(), 1);
    }
}

#[test]
fn the_regions_of_a_workbook_are_those_of_its_sheets() {
    let mut workbook = Workbook::default();
    workbook.sheets.push(grid(&["Amount", "100", "200"]));
    let found = detect_workbook_regions(&workbook);
    assert_eq!(found.len(), 1);
    assert_eq!(found[0].0, SheetId(0));
    assert_eq!(found[0].1, detect_regions(&workbook.sheets[0]));
}

#[test]
fn a_header_alone_has_no_body() {
    let mut sheet = grid(&["Region Q1"]);
    sheet.tables.push(ExcelTable {
        name: "Sales".into(),
        range: RangeRef::parse_local("A1:B1", SheetId(0)).unwrap(),
        columns: vec!["Region".into(), "Q1".into()],
        has_header_row: true,
        has_totals_row: false,
    });
    let regions = detect_regions(&sheet);
    assert_eq!(regions.len(), 1);
    assert!(regions[0].body().is_none());
    assert!(regions[0].has_header());
}
