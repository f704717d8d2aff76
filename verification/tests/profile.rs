use excelgrag::address::{RangeRef, SheetId};
use excelgrag::cell::{Cell, CellValue, ErrorKind, Number};
use excelgrag::profile::{
    profile_table, ColumnProfile, NumericSummary, ProfileOptions, Profiles,
};
use excelgrag::region::{Region, RegionKind, RegionSource};
use excelgrag::table::{read_table, ColumnKind};
use excelgrag::workbook::Sheet;

/// A number as a cell holds it.
fn num(n: f64) -> CellValue {
    CellValue::Number(Number { bits: n.to_bits(), text: format!("{n}") })
}

/// The least, the greatest and the sum of a numeric column.
fn folded(summary: &NumericSummary) -> (f64, f64, f64) {
    let numbers: Vec<f64> = summary.numbers.iter().map(|b| f64::from_bits(*b)).collect();
    let min = numbers.iter().copied().fold(f64::INFINITY, f64::min);
    let max = numbers.iter().copied().fold(f64::NEG_INFINITY, f64::max);
    (min, max, numbers.iter().sum())
}

fn grid(rows: &[&str]) -> Sheet {
    let mut sheet = Sheet::new(SheetId(0), "Sheet1");
    for (r, line) in rows.iter().enumerate() {
        for (c, tok) in line.split_whitespace().enumerate() {
            if tok == "." {
                continue;
            }
            let value = match tok.parse::<f64>() {
                Ok(n) => num(n),
                Err(_) => CellValue::Text(tok.to_string()),
            };
            sheet.set(r as u32, c as u16, Cell::literal(value));
        }
    }
    sheet
}

/// A region over the whole grid, one header row and one label column.
fn region(bottom: u32, right: u16, headers: &[&str]) -> Region {
    Region {
        range: RangeRef::new(SheetId(0), 0, 0, bottom, right),
        kind: RegionKind::Table,
        source: RegionSource::Declared,
        title: None,
        header_rows: 1,
        header_cols: 1,
        headers: headers.iter().map(|h| h.to_string()).collect(),
        cell_count: 0,
    }
}

fn profiles(sheet: &Sheet, region: &Region, opts: &ProfileOptions) -> Vec<ColumnProfile> {
    let table = read_table(sheet, region).expect("the region has a body");
    profile_table(sheet, &table, opts)
}

#[test]
fn a_categorical_column_keeps_its_values_and_their_counts() {
    // The whole point: nothing in the index knew that this column holds
    // "Residential" until now, so a question naming it could match nothing.
    let sheet = grid(&[
        "Customer Type Debt",
        "North Residential 1200",
        "South Business 3400",
        "East Residential 900",
        "West Residential 700",
    ]);
    let found = profiles(
        &sheet,
        &region(4, 2, &["Type", "Debt"]),
        &ProfileOptions::default(),
    );
    let types = &found[0];

    assert_eq!(types.header, "Type");
    assert_eq!(types.distinct_count, Some(2));
    let values = types.distinct.as_ref().expect("few enough to keep");
    // Most frequent first, so a reader sees the shape of the column.
    assert_eq!(values[0].value, "Residential");
    assert_eq!(values[0].count, 3);
    assert_eq!(values[1].value, "Business");
    assert!(types.is_categorical(), "three rows over two values");
}

#[test]
fn a_column_with_a_value_per_row_is_counted_and_not_copied() {
    // A key column has as many distinct values as rows. Listing it would be
    // storing the column, which is the thing a profile must not become.
    let rows: Vec<String> = (0..40)
        .map(|i| format!("cust{i} id{i} {}", i * 10))
        .collect();
    let mut lines = vec!["Customer Ref Debt".to_string()];
    lines.extend(rows);
    let refs: Vec<&str> = lines.iter().map(String::as_str).collect();
    let sheet = grid(&refs);

    let opts = ProfileOptions {
        max_distinct: 8,
        ..ProfileOptions::default()
    };
    let found = profiles(&sheet, &region(40, 2, &["Ref", "Debt"]), &opts);
    let ids = &found[0];
    assert!(ids.distinct.is_none(), "no list for 40 distinct values");
    assert_eq!(ids.distinct_count, Some(40), "but it still knows how many");
    assert!(!ids.is_categorical());
}

#[test]
fn counting_gives_up_rather_than_holding_the_column() {
    let rows: Vec<String> = (0..40).map(|i| format!("c{i} id{i} 1")).collect();
    let mut lines = vec!["Customer Ref Debt".to_string()];
    lines.extend(rows);
    let refs: Vec<&str> = lines.iter().map(String::as_str).collect();
    let sheet = grid(&refs);

    let opts = ProfileOptions {
        abandon_distinct_after: 10,
        ..ProfileOptions::default()
    };
    let found = profiles(&sheet, &region(40, 2, &["Ref", "Debt"]), &opts);
    assert_eq!(
        found[0].distinct_count, None,
        "None means more than we were willing to count, not unknown"
    );
    assert_eq!(found[0].populated, 40, "the counting still happened");
}

#[test]
fn a_numeric_column_carries_arithmetic_the_workbook_never_wrote_down() {
    let sheet = grid(&[
        "Customer Type Debt",
        "North Residential 1200",
        "South Business 3400",
        "East Residential 900",
    ]);
    let found = profiles(
        &sheet,
        &region(3, 2, &["Type", "Debt"]),
        &ProfileOptions::default(),
    );
    let debt = folded(found[1].numeric.as_ref().expect("a numeric column"));

    assert_eq!(debt.0, 900.0);
    assert_eq!(debt.1, 3400.0);
    assert_eq!(debt.2, 5500.0);
    assert!(found[0].numeric.is_none(), "and a text column has none");
}

#[test]
fn refusing_values_leaves_the_counts_and_takes_the_data() {
    // The corpus otherwise holds only structure. This is the switch that
    // keeps it that way, and what it must leave behind is everything a
    // reader needs to know the column exists.
    let sheet = grid(&[
        "Customer Type Debt",
        "North Residential 1200",
        "South Business 3400",
    ]);
    let opts = ProfileOptions {
        values: false,
        ..ProfileOptions::default()
    };
    let found = profiles(&sheet, &region(2, 2, &["Type", "Debt"]), &opts);

    assert!(found[0].distinct.is_none());
    assert_eq!(found[0].distinct_count, None);
    assert!(found[1].numeric.is_none(), "a sum is a value too");
    assert_eq!(found[0].populated, 2, "the shape is still there");
    assert_eq!(found[1].kind, ColumnKind::Number);
    assert!(!found[0].is_categorical());
}

#[test]
fn a_long_value_is_cut_and_says_that_it_was() {
    let long = "x".repeat(200);
    let sheet = grid(&[
        "Customer Note Debt",
        &format!("North {long} 1"),
        &format!("South {long} 2"),
    ]);
    let opts = ProfileOptions {
        max_value_chars: 10,
        ..ProfileOptions::default()
    };
    let found = profiles(&sheet, &region(2, 2, &["Note", "Debt"]), &opts);
    let value = &found[0].distinct.as_ref().unwrap()[0];
    assert_eq!(value.value.chars().count(), 10);
    assert!(value.truncated);
}

#[test]
fn errors_are_counted_apart_from_the_type() {
    // A column that is 3% #REF! is a finding, not a type.
    let mut sheet = grid(&["Customer Debt", "North 1", "South 2", "East 3"]);
    sheet.set(
        3,
        1,
        Cell::literal(CellValue::Error(ErrorKind::Ref)),
    );
    let found = profiles(&sheet, &region(3, 1, &["Debt"]), &ProfileOptions::default());
    assert_eq!(found[0].errors, 1);
    assert_eq!(
        found[0].kind,
        ColumnKind::Number,
        "two of three is a majority"
    );
    assert_eq!(
        folded(found[0].numeric.as_ref().unwrap()).2,
        3.0,
        "the error is not a zero"
    );
}

#[test]
fn a_value_of_exactly_the_longest_length_was_not_cut() {
    let sheet = grid(&["Customer Note Debt", "North abcde 1", "South abcdef 2"]);
    let opts = ProfileOptions {
        max_value_chars: 6,
        ..ProfileOptions::default()
    };
    let found = profiles(&sheet, &region(2, 2, &["Note", "Debt"]), &opts);
    let values = found[0].distinct.as_ref().unwrap();
    assert!(values.iter().all(|v| !v.truncated));
    let cut = ProfileOptions {
        max_value_chars: 5,
        ..ProfileOptions::default()
    };
    let found = profiles(&sheet, &region(2, 2, &["Note", "Debt"]), &cut);
    let values = found[0].distinct.as_ref().unwrap();
    assert_eq!(values.len(), 1, "the two texts begin alike");
    assert_eq!(values[0].count, 2);
    assert!(values[0].truncated);
}

#[test]
fn values_come_most_frequent_first_and_then_in_order() {
    let sheet = grid(&["K T", "a b", "a c", "a a", "a c"]);
    let found = profiles(&sheet, &region(4, 1, &["T"]), &ProfileOptions::default());
    let values: Vec<&str> = found[0]
        .distinct
        .as_ref()
        .unwrap()
        .iter()
        .map(|v| v.value.as_str())
        .collect();
    assert_eq!(values, ["c", "a", "b"]);
    assert_eq!(found[0].empty, 0);
}

#[test]
fn one_number_is_one_value_however_zero_is_signed() {
    let mut sheet = grid(&["K N", "a 0", "b 0", "c 1"]);
    sheet.set(2, 1, Cell::literal(num(-0.0)));
    sheet.set(3, 1, Cell::literal(CellValue::Bool(true)));
    let found = profiles(&sheet, &region(3, 1, &["N"]), &ProfileOptions::default());
    let values = found[0].distinct.as_ref().unwrap();
    assert_eq!(values[0].value, "0");
    assert_eq!(values[0].count, 2);
    assert_eq!(values[1].value, "true");
}

#[test]
fn a_profile_set_lists_its_categorical_columns() {
    let sheet = grid(&["Customer Type Id", "North R 1", "South R 2", "East R 3", "West R 4"]);
    let set = Profiles {
        columns: profiles(&sheet, &region(4, 2, &["Type", "Id"]), &ProfileOptions::default()),
        values: true,
    };
    assert_eq!(set.len(), 2);
    assert!(!set.is_empty());
    let categorical: Vec<&str> = set.categorical().iter().map(|c| c.header.as_str()).collect();
    assert_eq!(categorical, ["Type"]);
    assert!(Profiles::default().is_empty());
}
