use excelgrag::address::{RangeRef, SheetId};
use excelgrag::cell::{Cell, CellValue, ErrorKind, Number};
use excelgrag::region::{detect_regions, Region, RegionKind, RegionSource};
use excelgrag::table::{read_table, ColumnKind, Table};
use excelgrag::workbook::Sheet;

/// A number as a cell holds it.
fn num(n: f64) -> CellValue {
    CellValue::Number(Number { bits: n.to_bits(), text: format!("{n}") })
}

/// `.` is empty, a bare number is numeric, `TRUE`/`FALSE` are booleans,
/// anything else is text.
fn grid(rows: &[&str]) -> Sheet {
    let mut sheet = Sheet::new(SheetId(0), "Sheet1");
    for (r, line) in rows.iter().enumerate() {
        for (c, tok) in line.split_whitespace().enumerate() {
            if tok == "." {
                continue;
            }
            let value = match tok {
                "TRUE" => CellValue::Bool(true),
                "FALSE" => CellValue::Bool(false),
                _ => match tok.parse::<f64>() {
                    Ok(n) => num(n),
                    Err(_) => CellValue::Text(tok.to_string()),
                },
            };
            sheet.set(r as u32, c as u16, Cell::literal(value));
        }
    }
    sheet
}

fn only_table(sheet: &Sheet) -> Table {
    let regions = detect_regions(sheet);
    assert_eq!(
        regions.len(),
        1,
        "fixture should be one region: {regions:?}"
    );
    read_table(sheet, &regions[0]).expect("the region has a body")
}

#[test]
fn a_table_carries_its_headers_and_the_cells_under_them() {
    let sheet = grid(&["Customer Debt Rate", "North 1200 8", "South 3400 11"]);
    let table = only_table(&sheet);

    let headers: Vec<&str> = table.columns.iter().map(|c| c.header.as_str()).collect();
    assert_eq!(headers, vec!["Debt", "Rate"], "the row labels are not data");
    assert_eq!(table.rows(), 2);
    // Column B, rows 2 and 3 — the body, with the header row excluded.
    assert_eq!(table.columns[0].range.top, 1);
    assert_eq!(table.columns[0].range.bottom, 2);
    assert_eq!(table.columns[0].range.left, 1);
}

#[test]
fn a_block_with_no_header_still_reads_as_columns() {
    // Region detection needs a value-kind contrast to call a row a header,
    // and a grid that is text throughout gives it none. That is a block,
    // and its columns are real columns with nothing to call them — which a
    // caller must be able to tell from a column whose header is blank.
    let sheet = grid(&["North Residential 1200", "South Business 3400"]);
    let regions = detect_regions(&sheet);
    let table = read_table(&sheet, &regions[0]).unwrap();
    assert!(table.columns.iter().all(|c| c.header.is_empty()));
    assert_eq!(table.rows(), 2, "no header row is consumed");
}

#[test]
fn a_column_takes_the_kind_the_majority_of_its_cells_have() {
    let sheet = grid(&[
        "Customer Debt Flag Note",
        "North 1200 TRUE ok",
        "South 3400 TRUE ok",
        "East 900 FALSE .",
    ]);
    let table = only_table(&sheet);
    let kind = |header: &str| table.column(header).unwrap().kind;

    assert_eq!(kind("Debt"), ColumnKind::Number);
    assert_eq!(kind("Flag"), ColumnKind::Bool);
    assert_eq!(kind("Note"), ColumnKind::Text);
    assert_eq!(
        table.column("Note").unwrap().populated,
        2,
        "the gap is not a cell"
    );
}

#[test]
fn a_column_with_no_majority_is_mixed_rather_than_guessed_at() {
    // Half numbers and half "n/a" is the ordinary shape of a hand-kept
    // column. Summing it and reading it as text are both wrong, so it says
    // so instead of picking whichever kind was counted first.
    //
    // The region is built by hand: that ragged column is exactly what stops
    // detection seeing a header row, and this is a test about reading a
    // table rather than about finding one.
    let sheet = grid(&[
        "Customer Rate",
        "North 1",
        "South n/a",
        "East 3",
        "West n/a",
    ]);
    let region = Region {
        range: RangeRef::new(SheetId(0), 0, 0, 4, 1),
        kind: RegionKind::Table,
        source: RegionSource::Declared,
        title: None,
        header_rows: 1,
        header_cols: 1,
        headers: vec!["Rate".to_string()],
        cell_count: 9,
    };
    let table = read_table(&sheet, &region).unwrap();
    assert_eq!(table.column("Rate").unwrap().kind, ColumnKind::Mixed);
    assert_eq!(table.column("Rate").unwrap().populated, 4);
}

#[test]
fn a_row_keeps_its_columns_aligned_across_a_gap() {
    // A sheet holds only its populated cells, so the middle column of the
    // second row is absent rather than blank. A reader that skipped it
    // would shift every column after the gap by one for that row only.
    let sheet = grid(&["Customer A B C", "North 1 2 3", "South 4 . 6"]);
    let table = only_table(&sheet);
    let rows: Vec<Vec<CellValue>> = table.read(&sheet);

    assert_eq!(rows.len(), 2);
    assert_eq!(rows[1].len(), 3, "three columns, gap included");
    assert_eq!(rows[1][1], CellValue::Empty);
    assert_eq!(rows[1][2], num(6.0), "still the third column");
}

#[test]
fn the_row_labels_are_kept_apart_from_the_data() {
    let sheet = grid(&["Customer Debt", "North 1200", "South 3400"]);
    let table = only_table(&sheet);
    let labels = table.labels.expect("column A labels the rows");
    assert_eq!(labels.left, 0);
    assert_eq!(
        table.label_of(&sheet, 1),
        Some(CellValue::Text("North".into()))
    );
    assert!(
        !table.columns.iter().any(|c| c.header == "Customer"),
        "and are not a column of it"
    );
}

#[test]
fn two_columns_with_one_header_are_refused_rather_than_picked_between() {
    // Real workbooks do this: `Total` under both `Q3` and `Q4`. Answering
    // with either is a coin toss.
    let sheet = grid(&["Region Total Total", "North 1 2", "South 3 4"]);
    let table = only_table(&sheet);
    assert!(table.column("Total").is_none());
    assert_eq!(table.columns.len(), 2);
}

#[test]
fn a_header_is_found_whatever_its_case() {
    let sheet = grid(&["Customer Debt", "North 1200", "South 3400"]);
    let table = only_table(&sheet);
    assert_eq!(table.column("dEBT").unwrap().header, "Debt");
    assert!(table.column("Rate").is_none());
}

#[test]
fn a_column_of_errors_and_an_empty_one_say_so() {
    let mut sheet = grid(&["Customer A B", "North 1 .", "South 2 ."]);
    sheet.set(1, 1, Cell::literal(CellValue::Error(ErrorKind::Ref)));
    sheet.set(2, 1, Cell::literal(CellValue::Error(ErrorKind::Ref)));
    let region = Region {
        range: RangeRef::new(SheetId(0), 0, 0, 2, 2),
        kind: RegionKind::Table,
        source: RegionSource::Declared,
        title: None,
        header_rows: 1,
        header_cols: 1,
        headers: vec!["A".to_string(), "B".to_string()],
        cell_count: 7,
    };
    let table = read_table(&sheet, &region).unwrap();
    assert_eq!(table.columns[0].kind, ColumnKind::Error);
    assert_eq!(table.columns[1].kind, ColumnKind::Empty);
    assert_eq!(table.columns[1].populated, 0);
    assert!(ColumnKind::Number.is_numeric() && !ColumnKind::Mixed.is_numeric());
    assert_eq!(ColumnKind::Mixed.as_str(), "mixed");
}

#[test]
fn a_region_that_is_all_header_is_no_table() {
    let sheet = grid(&["Customer Debt"]);
    let region = Region {
        range: RangeRef::new(SheetId(0), 0, 0, 0, 1),
        kind: RegionKind::Table,
        source: RegionSource::Declared,
        title: None,
        header_rows: 1,
        header_cols: 0,
        headers: vec!["Customer".to_string(), "Debt".to_string()],
        cell_count: 2,
    };
    assert!(read_table(&sheet, &region).is_none());
}
