use excelgrag::address::{CellRef, RangeRef, SheetId};
use excelgrag::cell::{Cell, CellFormat, CellValue, ValueKind};
use excelgrag::workbook::{Sheet, Visibility, Workbook, WorkbookFormat};

fn sheet_with(cells: &[(u32, u16, &str)]) -> Sheet {
    let mut s = Sheet::new(SheetId(0), "Sheet1");
    for &(r, c, v) in cells {
        s.set(r, c, Cell::literal(CellValue::Text(v.to_string())));
    }
    s
}

#[test]
fn xlsb_is_read_only() {
    assert!(!WorkbookFormat::Xlsb.is_writable());
    assert!(!WorkbookFormat::Xls.is_writable());
    assert!(!WorkbookFormat::Ods.is_writable());
    assert!(WorkbookFormat::Xlsx.is_writable());
}

#[test]
fn format_detected_from_extension() {
    assert_eq!(
        WorkbookFormat::from_extension("XLSB"),
        Some(WorkbookFormat::Xlsb)
    );
    assert_eq!(WorkbookFormat::from_extension("csv"), None);
}

#[test]
fn used_range_tracks_inserts() {
    let s = sheet_with(&[(2, 1, "a"), (5, 3, "b"), (0, 7, "c")]);
    let u = s.used_range().unwrap();
    assert_eq!(u.to_a1(), "B1:H6");
}

#[test]
fn empty_sheet_has_no_used_range() {
    let s = Sheet::new(SheetId(0), "Sheet1");
    assert!(s.used_range().is_none());
    assert!(s.is_empty());
}

#[test]
fn vacant_unformatted_cells_are_not_stored() {
    let mut s = Sheet::new(SheetId(0), "Sheet1");
    s.set(0, 0, Cell::literal(CellValue::Empty));
    assert_eq!(s.len(), 0);

    // A blank cell that is *formatted* still carries structural signal.
    s.set(
        1,
        1,
        Cell {
            value: CellValue::Empty,
            formula: None,
            format: CellFormat {
                has_fill: true,
                ..Default::default()
            },
        },
    );
    assert_eq!(s.len(), 1);
}

#[test]
fn setting_a_vacant_cell_removes_an_existing_one() {
    let mut s = sheet_with(&[(0, 0, "x")]);
    assert_eq!(s.len(), 1);
    s.set(0, 0, Cell::literal(CellValue::Empty));
    assert_eq!(s.len(), 0);
    assert!(s.used_range().is_none());
}

#[test]
fn removing_a_boundary_cell_shrinks_the_used_range() {
    let mut s = sheet_with(&[(0, 4, "top"), (2, 1, "left"), (3, 3, "bottom")]);
    assert_eq!(s.used_range().unwrap().to_a1(), "B1:E4");
    s.set(0, 4, Cell::literal(CellValue::Empty));
    assert_eq!(s.used_range().unwrap().to_a1(), "B3:D4");
}

#[test]
fn iteration_is_row_major() {
    let s = sheet_with(&[(1, 1, "d"), (0, 1, "b"), (1, 0, "c"), (0, 0, "a")]);
    let got: Vec<&str> = s.iter().iter().map(|(_, c)| c.value.as_text().unwrap()).collect();
    assert_eq!(got, ["a", "b", "c", "d"]);
}

#[test]
fn row_scan_returns_only_that_row() {
    let s = sheet_with(&[(0, 0, "a"), (0, 5, "b"), (1, 0, "c")]);
    let got: Vec<u16> = s.iter_row(0).iter().map(|(c, _)| *c).collect();
    assert_eq!(got, [0, 5]);
    assert_eq!(s.iter_row(2).len(), 0);
}

#[test]
fn range_scan_clips_to_the_box() {
    let s = sheet_with(&[(0, 0, "a"), (0, 5, "b"), (1, 1, "c"), (9, 9, "d")]);
    let r = RangeRef::parse_local("A1:C3", SheetId(0)).unwrap();
    let got: Vec<String> = s.iter_range(r).iter().map(|(a, _)| a.to_a1()).collect();
    assert_eq!(got, ["A1", "B2"]);
}

#[test]
fn cell_and_range_access_refuse_a_different_sheet() {
    let s = sheet_with(&[(0, 0, "a")]);
    assert!(s.get_ref(CellRef::new(SheetId(1), 0, 0)).is_none());
    let other = RangeRef::new(SheetId(1), 0, 0, 0, 0);
    assert_eq!(s.iter_range(other).len(), 0);
}

#[test]
fn merges_are_looked_up_by_cell() {
    let mut s = Sheet::new(SheetId(0), "Sheet1");
    s.merges
        .push(RangeRef::parse_local("B2:D2", SheetId(0)).unwrap());
    assert_eq!(s.merge_at(1, 2).unwrap().to_a1(), "B2:D2");
    assert!(s.merge_at(0, 0).is_none());
}

#[test]
fn sheet_lookup_is_case_insensitive() {
    let wb = Workbook {
        sheets: vec![Sheet::new(SheetId(0), "Q3 Sales")],
        ..Default::default()
    };
    assert!(wb.sheet_by_name("q3 sales").is_some());
    assert_eq!(wb.sheet_id_by_name("Q3 SALES"), Some(SheetId(0)));
    assert!(wb.sheet_by_name("Missing").is_none());
}

#[test]
fn citations_quote_sheet_names_and_survive_unknown_sheets() {
    let wb = Workbook {
        sheets: vec![Sheet::new(SheetId(0), "Q3 Sales")],
        ..Default::default()
    };
    assert_eq!(wb.cite(CellRef::new(SheetId(0), 6, 1)), "'Q3 Sales'!B7");
    // A dangling sheet id must still yield something traceable.
    assert_eq!(wb.cite(CellRef::new(SheetId(9), 0, 0)), "#9!A1");
}

#[test]
fn what_is_set_is_what_is_read() {
    let mut s = sheet_with(&[(4, 4, "x"), (2, 9, "y")]);
    s.set(4, 4, Cell::literal(CellValue::Bool(true)));
    assert_eq!(s.value(4, 4), CellValue::Bool(true));
    assert_eq!(s.value(2, 9), CellValue::Text("y".to_string()));
    assert_eq!(s.value(0, 0), CellValue::Empty);
    assert_eq!(s.kind(4, 4), ValueKind::Bool);
    assert_eq!(s.kind(0, 0), ValueKind::Empty);
    assert!(s.is_populated(2, 9));
    assert!(!s.is_populated(2, 8));
    assert_eq!(s.len(), 2);
    assert_eq!(s.get_ref(CellRef::new(SheetId(0), 2, 9)), s.get(2, 9));
}

#[test]
fn removing_an_inner_cell_keeps_the_used_range() {
    let mut s = sheet_with(&[(0, 0, "a"), (5, 5, "b"), (2, 2, "c")]);
    s.set(2, 2, Cell::literal(CellValue::Empty));
    assert_eq!(s.used_range().unwrap().to_a1(), "A1:F6");
    assert_eq!(s.len(), 2);
}

#[test]
fn a_workbook_answers_for_its_sheets() {
    let mut wb = Workbook {
        format: Some(WorkbookFormat::Xlsx),
        sheets: vec![sheet_with(&[(0, 0, "a")]), Sheet::new(SheetId(1), "Two")],
        ..Default::default()
    };
    assert_eq!(wb.total_cells(), 1);
    assert!(wb.is_writable());
    assert!(!Workbook::default().is_writable());
    assert_eq!(wb.sheet_name(SheetId(1)), Some("Two"));
    assert_eq!(wb.sheet_name(SheetId(2)), None);
    wb.sheet_mut(SheetId(1))
        .unwrap()
        .set(0, 0, Cell::literal(CellValue::Bool(true)));
    assert!(wb.sheet_mut(SheetId(2)).is_none());
    assert_eq!(wb.total_cells(), 2);
    assert_eq!(wb.sheet(SheetId(1)).unwrap().len(), 1);
    assert_eq!(
        wb.cite_range(RangeRef::new(SheetId(1), 0, 0, 1, 1)),
        "Two!A1:B2"
    );
    assert_eq!(wb.cite_range(RangeRef::new(SheetId(7), 0, 0, 1, 1)), "#7!A1:B2");
    assert!(Visibility::default().is_visible());
    assert!(!Visibility::VeryHidden.is_visible());
}

#[test]
fn every_format_is_known_by_its_own_extension() {
    for f in [
        WorkbookFormat::Xlsx,
        WorkbookFormat::Xlsm,
        WorkbookFormat::Xlsb,
        WorkbookFormat::Xls,
        WorkbookFormat::Ods,
    ] {
        assert_eq!(WorkbookFormat::from_extension(f.as_str()), Some(f));
    }
}
