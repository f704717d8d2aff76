use excelgrag::address::{col_to_letters, SheetId};
use excelgrag::cell::{Cell, CellValue, Number};
use excelgrag::formula_group::{find_shape_exceptions, group_formulas};
use excelgrag::workbook::Sheet;

/// A number as a cell holds it.
fn num(n: f64) -> CellValue {
    CellValue::Number(Number { bits: n.to_bits(), text: format!("{n}") })
}

/// Build a sheet from `(row, col, formula)` triples.
fn sheet_with(formulas: &[(u32, u16, &str)]) -> Sheet {
    let mut s = Sheet::new(SheetId(0), "Sheet1");
    for &(row, col, f) in formulas {
        s.set(
            row,
            col,
            Cell {
                value: num(0.0),
                formula: Some(f.to_string()),
                format: Default::default(),
            },
        );
    }
    s
}

/// A column of `=A<n>*2` filled from row 0 down.
fn filled_column(rows: u32, col: u16) -> Sheet {
    let f: Vec<(u32, u16, String)> = (0..rows)
        .map(|r| (r, col, format!("A{}*2", r + 1)))
        .collect();
    sheet_with(
        &f.iter()
            .map(|(r, c, s)| (*r, *c, s.as_str()))
            .collect::<Vec<_>>(),
    )
}

#[test]
fn a_filled_column_collapses_to_one_group() {
    let sheet = filled_column(1000, 1);
    let (groups, stats) = group_formulas(&sheet);
    assert_eq!(groups.len(), 1);
    assert_eq!(stats.formula_cells, 1000);
    assert_eq!(groups[0].range.to_a1(), "B1:B1000");
    assert_eq!(groups[0].shape, "RC[-1]*2");
    assert_eq!(groups[0].representative, "A1*2");
    assert_eq!(groups[0].cell_count, 1000);
    let compression = stats.compression().expect("there is a group");
    assert_eq!(compression.part as f64 / compression.whole as f64, 1000.0);
}

#[test]
fn a_filled_block_collapses_across_columns_too() {
    // Three columns each filled down five rows, all the same shape.
    let mut cells = Vec::new();
    for col in 1..4u16 {
        for row in 0..5u32 {
            cells.push((row, col, format!("A{}*2", row + 1)));
        }
    }
    let sheet = sheet_with(
        &cells
            .iter()
            .map(|(r, c, s)| (*r, *c, s.as_str()))
            .collect::<Vec<_>>(),
    );
    let (groups, stats) = group_formulas(&sheet);

    // Each column references column A absolutely-different offsets, so the
    // shapes differ per column and they must NOT merge.
    assert_eq!(stats.formula_cells, 15);
    assert!(groups.len() >= 3, "differing offsets must not merge");
}

#[test]
fn identical_shapes_side_by_side_merge_into_a_rectangle() {
    // Each column doubles the cell to its own left, so all three share the
    // shape RC[-1]*2 and should become one rectangle.
    let mut cells = Vec::new();
    for col in 1..4u16 {
        for row in 0..5u32 {
            let left = col_to_letters(col as u32 - 1);
            cells.push((row, col, format!("{left}{}*2", row + 1)));
        }
    }
    let sheet = sheet_with(
        &cells
            .iter()
            .map(|(r, c, s)| (*r, *c, s.as_str()))
            .collect::<Vec<_>>(),
    );
    let (groups, _) = group_formulas(&sheet);
    assert_eq!(groups.len(), 1, "got {groups:#?}");
    assert_eq!(groups[0].range.to_a1(), "B1:D5");
    assert_eq!(groups[0].cell_count, 15);
}

#[test]
fn a_gap_splits_a_run() {
    // Same shape either side of a blank row: two groups, not one.
    let sheet = sheet_with(&[(0, 1, "A1*2"), (1, 1, "A2*2"), (3, 1, "A4*2")]);
    let (groups, _) = group_formulas(&sheet);
    assert_eq!(groups.len(), 2);
    assert_eq!(groups[0].range.to_a1(), "B1:B2");
    assert_eq!(groups[1].range.to_a1(), "B4");
    assert!(groups[1].is_singleton());
}

#[test]
fn different_shapes_split_a_run() {
    let sheet = sheet_with(&[(0, 1, "A1*2"), (1, 1, "A2*3"), (2, 1, "A3*2")]);
    let (groups, stats) = group_formulas(&sheet);
    assert_eq!(groups.len(), 3);
    assert_eq!(stats.singletons, 3);
}

#[test]
fn absolute_references_keep_their_own_group() {
    // `$A$1` is the same cell from every row, so these rows share a shape
    // with each other but not with a filled-down relative reference.
    let sheet = sheet_with(&[(0, 1, "$A$1*2"), (1, 1, "$A$1*2"), (2, 1, "$A$1*2")]);
    let (groups, _) = group_formulas(&sheet);
    assert_eq!(groups.len(), 1);
    assert_eq!(groups[0].shape, "R1C1*2");
}

#[test]
fn an_empty_sheet_yields_nothing() {
    let sheet = Sheet::new(SheetId(0), "Sheet1");
    let (groups, stats) = group_formulas(&sheet);
    assert!(groups.is_empty());
    assert_eq!(stats.formula_cells, 0);
    assert!(stats.compression().is_none(), "no groups to divide by");
}

#[test]
fn a_hand_edited_row_is_reported_as_an_exception() {
    // The classic bug: one row of a filled column edited by hand.
    let sheet = sheet_with(&[
        (0, 1, "A1*2"),
        (1, 1, "A2*2"),
        (2, 1, "A3*3"), // <- the odd one
        (3, 1, "A4*2"),
        (4, 1, "A5*2"),
    ]);
    let exceptions = find_shape_exceptions(&sheet);
    assert_eq!(exceptions.len(), 1);
    assert_eq!(exceptions[0].cell.to_a1(), "B3");
    assert_eq!(exceptions[0].formula, "A3*3");
    assert_eq!(exceptions[0].expected_shape, "RC[-1]*2");
}

#[test]
fn a_hardcoded_constant_in_a_formula_column_is_an_exception() {
    let sheet = sheet_with(&[(0, 1, "A1*2"), (2, 1, "A3*2")]);
    let mut sheet = sheet;
    // A literal value where a formula was expected.
    sheet.set(1, 1, Cell::literal(num(99.0)));
    let exceptions = find_shape_exceptions(&sheet);
    assert_eq!(exceptions.len(), 1);
    assert_eq!(exceptions[0].cell.to_a1(), "B2");
    assert_eq!(exceptions[0].actual_shape, None);
}

#[test]
fn a_boundary_between_two_blocks_is_not_an_exception() {
    // Disagreement on one side only: a section change, not a mistake.
    let sheet = sheet_with(&[
        (0, 1, "A1*2"),
        (1, 1, "A2*2"),
        (2, 1, "A3*3"),
        (3, 1, "A4*3"),
    ]);
    assert!(find_shape_exceptions(&sheet).is_empty());
}

#[test]
fn a_uniform_column_has_no_exceptions() {
    assert!(find_shape_exceptions(&filled_column(50, 1)).is_empty());
}

#[test]
fn every_formula_is_in_one_group_and_groups_are_row_major() {
    let sheet = sheet_with(&[
        (0, 1, "A1*2"),
        (1, 1, "A2*2"),
        (0, 3, "A1+1"),
        (5, 0, "B6"),
        (5, 1, "C6"),
    ]);
    let (groups, stats) = group_formulas(&sheet);
    assert_eq!(stats.formula_cells, 5);
    let spans: Vec<String> = groups.iter().map(|g| g.range.to_a1()).collect();
    assert_eq!(spans, ["B1:B2", "D1", "A6:B6"]);
    assert_eq!(groups[2].anchor().to_a1(), "A6");
    let covered: u64 = groups.iter().map(|g| g.cell_count).sum();
    assert_eq!(covered, 5);
    assert_eq!(stats.largest_group, 2);
    assert_eq!(stats.singletons, 1);
}

#[test]
fn the_cells_of_the_groups_add_up_to_the_formulas() {
    let sheet = sheet_with(&[
        (0, 1, "A1*2"),
        (0, 2, "B1*2"),
        (1, 1, "A2*2"),
        (1, 2, "B2*2"),
        (2, 1, "A3*3"),
        (4, 4, "SUM(A1:A9)"),
    ]);
    let (groups, stats) = group_formulas(&sheet);
    assert_eq!(stats.formula_cells, 6);
    assert_eq!(groups.iter().map(|g| g.cell_count).sum::<u64>(), stats.formula_cells);
}
