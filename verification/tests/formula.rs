use excelgrag::address::{CellRef, SheetId};
use excelgrag::formula::{
    redact_formula_literals, scan_names, scan_names_into, scan_references, scan_references_into,
    to_r1c1_shape, write_r1c1_shape,
};

const S: SheetId = SheetId(0);

fn texts(formula: &str) -> Vec<&str> {
    scan_references(formula)
        .iter()
        .map(|r| r.text(formula))
        .collect()
}

#[test]
fn finds_plain_references() {
    assert_eq!(texts("A1+B2"), ["A1", "B2"]);
    assert_eq!(texts("SUM(A1:A9)"), ["A1:A9"]);
    assert_eq!(texts("$A$1"), ["$A$1"]);
    assert_eq!(texts("42"), Vec::<&str>::new());
}

#[test]
fn function_names_are_not_references() {
    // The classic false positive: a call whose name parses as a column.
    assert_eq!(texts("LOG10(A1)"), ["A1"]);
    assert_eq!(texts("SUM(A1)"), ["A1"]);
    assert_eq!(texts("IF(A1>0,B1,C1)"), ["A1", "B1", "C1"]);
}

#[test]
fn scientific_notation_is_not_a_reference() {
    // `1E5` must not yield `E5`.
    assert_eq!(texts("1E5"), Vec::<&str>::new());
    assert_eq!(texts("A1*1E5"), ["A1"]);
    assert_eq!(texts("1.5E10+B2"), ["B2"]);
}

#[test]
fn defined_names_are_not_references() {
    // Four letters cannot be a column, so this is a name.
    assert_eq!(texts("Data2023"), Vec::<&str>::new());
    assert_eq!(texts("Data2023+A1"), ["A1"]);
    assert_eq!(texts("_tax*B2"), ["B2"]);
    assert_eq!(texts("my.name1"), Vec::<&str>::new());
}

#[test]
fn unicode_defined_names_are_one_name_and_not_a_reference_suffix() {
    let formula = "éA1+税率A1";
    assert!(scan_references(formula).is_empty());
    let names: Vec<&str> = scan_names(formula)
        .iter()
        .map(|n| &formula[n.span.clone()])
        .collect();
    assert_eq!(names, ["éA1", "税率A1"]);
}

#[test]
fn unicode_sheet_qualifiers_are_scanned_as_a_whole() {
    let formula = "État!A1+État!Taxe";
    assert_eq!(texts(formula), ["État!A1"]);
    let names = scan_names(formula);
    assert_eq!(&formula[names[0].span.clone()], "Taxe");
    assert_eq!(names[0].sheet_name.as_deref(), Some("État"));
}

#[test]
fn string_literals_are_never_scanned() {
    assert_eq!(texts("IF(A1,\"B2\",\"C3\")"), ["A1"]);
    assert_eq!(texts("CONCATENATE(\"A1\",B2)"), ["B2"]);
    // A doubled quote escapes and keeps the literal open.
    assert_eq!(texts("\"a\"\"A1\"\"b\"&C3"), ["C3"]);
}

#[test]
fn sheet_qualified_references_are_whole() {
    assert_eq!(texts("Sheet1!A1"), ["Sheet1!A1"]);
    assert_eq!(texts("'Q3 Sales'!B7"), ["'Q3 Sales'!B7"]);
    assert_eq!(
        texts("Sheet1!A1+'Q3 Sales'!B7"),
        ["Sheet1!A1", "'Q3 Sales'!B7"]
    );
    assert!(scan_references("Sheet1!A1")[0].qualified);
    assert!(!scan_references("A1")[0].qualified);
}

#[test]
fn sheet_name_containing_a_bang_stays_intact() {
    assert_eq!(texts("'Hey! Sales'!B2"), ["'Hey! Sales'!B2"]);
}

#[test]
fn external_workbook_references() {
    assert_eq!(texts("[1]Sheet1!A1"), ["[1]Sheet1!A1"]);
    let r = &scan_references("[1]Sheet1!A1")[0];
    assert_eq!(r.parsed.workbook.as_deref(), Some("1"));
}

#[test]
fn qualifier_followed_by_a_name_is_not_a_reference() {
    // `Sheet1!Total` names a range, not a cell.
    assert_eq!(texts("Sheet1!Total"), Vec::<&str>::new());
}

#[test]
fn out_of_range_tokens_are_rejected() {
    // XFE is past the last column; A0 is not a row.
    assert_eq!(texts("XFE1"), Vec::<&str>::new());
    assert_eq!(texts("A0"), Vec::<&str>::new());
    assert_eq!(texts("XFD1048576"), ["XFD1048576"]);
}

#[test]
fn error_values_are_not_references() {
    assert_eq!(texts("#REF!+A1"), ["A1"]);
    assert_eq!(texts("#N/A"), Vec::<&str>::new());
}

#[test]
fn unterminated_literal_does_not_hang() {
    assert_eq!(texts("CONCAT(\"unclosed"), Vec::<&str>::new());
    assert_eq!(texts("'unclosed"), Vec::<&str>::new());
}

#[test]
fn shape_is_identical_down_a_filled_column() {
    // The whole point: one shape for a whole filled-down column.
    let shapes: Vec<String> = (0..5)
        .map(|row| to_r1c1_shape(&format!("A{}*2", row + 1), CellRef::new(S, row, 1)))
        .collect();
    assert!(shapes.iter().all(|s| *s == shapes[0]), "{shapes:?}");
    assert_eq!(shapes[0], "RC[-1]*2");
}

#[test]
fn shape_distinguishes_genuinely_different_formulas() {
    let a = to_r1c1_shape("A1*2", CellRef::new(S, 0, 1));
    let b = to_r1c1_shape("A1*3", CellRef::new(S, 0, 1));
    let c = to_r1c1_shape("B1*2", CellRef::new(S, 0, 1));
    assert_ne!(a, b, "different constants are different shapes");
    assert_ne!(a, c, "different offsets are different shapes");
}

#[test]
fn shape_keeps_absolute_references_pinned() {
    // An absolute reference is the same cell from every row, so rows that
    // point at it do *not* share a shape with rows that walk down.
    let a = to_r1c1_shape("$A$1*2", CellRef::new(S, 0, 1));
    let b = to_r1c1_shape("$A$1*2", CellRef::new(S, 9, 1));
    assert_eq!(a, b);
    assert_eq!(a, "R1C1*2");
}

#[test]
fn shape_preserves_everything_that_is_not_a_reference() {
    assert_eq!(
        to_r1c1_shape("IF(A1>0,\"yes A1\",SUM(B1:B9))", CellRef::new(S, 0, 3)),
        "IF(RC[-3]>0,\"yes A1\",SUM(RC[-2]:R[8]C[-2]))"
    );
}

#[test]
fn shape_handles_sheet_qualified_references() {
    let s = to_r1c1_shape("Sheet2!A1*2", CellRef::new(S, 4, 1));
    assert_eq!(s, "Sheet2!R[-4]C[-1]*2");
}

#[test]
fn shape_of_a_constant_formula_is_itself() {
    assert_eq!(to_r1c1_shape("1+2", CellRef::new(S, 0, 0)), "1+2");
}

#[test]
fn shape_round_trips_through_scanning_unchanged_text() {
    // Non-reference bytes must survive byte-for-byte, including unicode.
    let f = "IF(A1,\"café — ok\",B1)";
    let out = to_r1c1_shape(f, CellRef::new(S, 0, 2));
    assert!(out.contains("café — ok"), "{out}");
}

fn names(formula: &str) -> Vec<String> {
    scan_names(formula)
        .iter()
        .map(|n| n.text(formula).to_string())
        .collect()
}

#[test]
fn names_are_what_reference_scanning_discards() {
    assert_eq!(names("Tax_Rate*A1"), ["Tax_Rate"]);
    // A function is not a name, and neither is anything that would parse
    // as a reference.
    assert_eq!(names("SUM(A1:A9)"), Vec::<String>::new());
    assert_eq!(names("SUM(Sales)*Rate"), ["Sales", "Rate"]);
}

#[test]
fn names_inside_literals_are_not_names() {
    assert_eq!(names("IF(A1=\"Tax_Rate\",Tax_Rate,0)"), ["Tax_Rate"]);
}

#[test]
fn a_sheet_scoped_name_keeps_its_sheet() {
    let f = "Sheet1!Tax_Rate+1";
    let found = scan_names(f);
    assert_eq!(found.len(), 1, "{found:#?}");
    assert_eq!(found[0].text(f), "Tax_Rate");
    assert_eq!(found[0].sheet_name.as_deref(), Some("Sheet1"));

    let f = "'My Sheet'!Tax_Rate";
    let found = scan_names(f);
    assert_eq!(found.len(), 1, "{found:#?}");
    assert_eq!(found[0].text(f), "Tax_Rate");
    assert_eq!(found[0].sheet_name.as_deref(), Some("My Sheet"));
}

#[test]
fn a_qualified_reference_names_nothing() {
    // The sheet part names a sheet, not a value, and the cell part is a
    // reference. Neither is a defined name.
    assert_eq!(names("Sheet1!A1+'My Sheet'!B2"), Vec::<String>::new());
    assert_eq!(names("[1]Sheet1!A1"), Vec::<String>::new());
}

#[test]
fn a_name_starting_with_a_backslash_terminates() {
    // Excel allows `\` as a name's first character. It is not an
    // identifier byte, so scanning once ran forever on it, pushing an
    // empty name each pass until the process ran out of memory. The
    // assertion on the text is what proves the fix consumed the byte
    // rather than merely skipping it.
    assert_eq!(names("\\Rate+1"), ["\\Rate"]);
    assert_eq!(names("SUM(\\A,\\B)"), ["\\A", "\\B"]);
    // A lone backslash still has to advance.
    assert_eq!(names("\\"), ["\\"]);
    assert_eq!(names("1+\\"), ["\\"]);
}

#[test]
fn a_table_reference_yields_the_table_name() {
    assert_eq!(names("SUM(Table1[Amount])"), ["Table1"]);
}

#[test]
fn scientific_notation_is_not_a_name() {
    // `1E5` is one number. The reference scanner has the same trap.
    assert_eq!(names("1E5+2"), Vec::<String>::new());
}

#[test]
fn a_range_is_one_reference_not_two_cells() {
    // Taken as two cells, `SUM(Rates!B2:B100)` yields a reference to
    // `Rates!B2` and a bare `B100` — a cell on the formula's own sheet
    // that the workbook never mentioned, and a dependency that does not
    // exist. It also loses every row between the endpoints.
    let f = "SUM(Rates!B2:B100)";
    let refs = scan_references(f);
    assert_eq!(refs.len(), 1, "{refs:#?}");
    assert_eq!(refs[0].text(f), "Rates!B2:B100");
    assert_eq!(refs[0].parsed.sheet_name.as_deref(), Some("Rates"));
    assert_eq!((refs[0].parsed.top, refs[0].parsed.bottom), (1, 99));

    let f = "A1:A4";
    let refs = scan_references(f);
    assert_eq!(refs.len(), 1, "{refs:#?}");
    assert_eq!((refs[0].parsed.top, refs[0].parsed.bottom), (0, 3));
}

#[test]
fn whole_column_and_row_references_are_found() {
    // Relative, absolute, sheet-qualified (bare and quoted): every form
    // that produced zero references before must now yield exactly one.
    assert_eq!(texts("SUM(A:A)"), ["A:A"]);
    assert_eq!(texts("SUM($A:$C)"), ["$A:$C"]);
    assert_eq!(texts("SUM(3:3)"), ["3:3"]);
    assert_eq!(texts("SUM($3:$5)"), ["$3:$5"]);
    assert_eq!(texts("SUM(Sheet1!B:B)"), ["Sheet1!B:B"]);
    assert_eq!(texts("SUM(Sheet1!3:3)"), ["Sheet1!3:3"]);
    assert_eq!(texts("SUM('Q3 Sales'!C:C)"), ["'Q3 Sales'!C:C"]);
    assert_eq!(texts("SUM('Q3 Sales'!3:3)"), ["'Q3 Sales'!3:3"]);

    let r = &scan_references("A:C")[0];
    assert_eq!((r.parsed.left, r.parsed.right), (0, 2));
    assert!(r.parsed.is_whole_column());

    let r = &scan_references("Sheet1!B:B")[0];
    assert!(r.qualified);
    assert_eq!(r.parsed.sheet_name.as_deref(), Some("Sheet1"));
    assert!(r.parsed.is_whole_column());
}

#[test]
fn a_bare_column_or_row_is_not_a_name() {
    // Before the fix, `SUM(A:A)` scanned zero references and `scan_names`
    // picked up the endpoints as `["A", "A"]` — a wrong `REFERENCES_NAME`
    // edge waiting to happen if the workbook defined a name `A`.
    assert_eq!(names("SUM(A:A)"), Vec::<String>::new());
    assert_eq!(names("SUM(3:3)"), Vec::<String>::new());
    assert_eq!(names("SUM(Sheet1!B:B)"), Vec::<String>::new());
}

#[test]
fn a_3d_reference_is_not_mistaken_for_the_whole_column_shorthand() {
    // `Jan:Dec` and the whole-column shorthand `A:C` are the identical
    // shape — `letters_to_col` reads `JAN`/`DEC` as column codes just as
    // happily as `A`/`C` — and the whole-column fix (C1) briefly broke
    // this: `SUM(Jan:Mar!B2)` scanned `Jan:Mar` as a bogus column range
    // and left a stray unqualified `B2` behind. A trailing `!` is what
    // tells the two apart, and must be checked first.
    assert_eq!(texts("SUM(Jan:Mar!B2)"), ["Jan:Mar!B2"]);
    let r = &scan_references("Jan:Mar!B2")[0];
    assert!(r.qualified);
    assert_eq!(r.parsed.sheet_name.as_deref(), Some("Jan"));
    assert_eq!(r.parsed.end_sheet_name.as_deref(), Some("Mar"));
    assert!(!r.parsed.is_whole_column());

    // Long sheet names (more than the three letters a column code could
    // ever be) must work too — column-shaped parsing was never going to
    // accept them, but the `!`-first check must not depend on that.
    assert_eq!(texts("SUM(January:December!B2)"), ["January:December!B2"]);

    // And a genuine whole-column reference, with no `!` after the second
    // half, must still be read as one.
    assert_eq!(texts("SUM(Jan:Mar)"), ["Jan:Mar"]);
    assert!(scan_references("Jan:Mar")[0].parsed.is_whole_column());

    // `scan_names` must not pick up either sheet name as a defined name.
    assert_eq!(names("SUM(Jan:Mar!B2)"), Vec::<String>::new());
}

#[test]
fn a_colon_not_followed_by_a_cell_ends_the_reference() {
    // The intersection and function forms must not swallow what follows.
    let f = "A1:INDEX(B:B,2)";
    let refs = scan_references(f);
    assert_eq!(refs[0].text(f), "A1");
}

#[test]
fn a_range_keeps_its_shape_when_normalised() {
    // The shape path was correct even while ranges scanned as two cells,
    // because both endpoints were rewritten independently. That is why
    // this defect survived grouping: it is invisible here.
    let anchor = CellRef::new(SheetId(0), 4, 3);
    assert_eq!(
        to_r1c1_shape("SUM(D1:D4)", anchor),
        to_r1c1_shape("SUM(D2:D5)", CellRef::new(SheetId(0), 5, 3))
    );
}

#[test]
fn redaction_replaces_literals_and_keeps_structure() {
    assert_eq!(
        redact_formula_literals("IF(A2=\"Smith, John\",B2*0.15,0)"),
        "IF(A2=<text>,B2*<number>,<number>)"
    );
}

#[test]
fn redaction_leaves_a_formula_with_only_references_unchanged() {
    assert_eq!(redact_formula_literals("A1+A2"), "A1+A2");
    assert_eq!(
        redact_formula_literals("SUM(Sheet1!A1:B9)"),
        "SUM(Sheet1!A1:B9)"
    );
    // References and `FALSE` (a keyword, not a literal this scanner
    // touches) survive; the column index `2` is a genuine numeric
    // literal and is redacted like any other.
    assert_eq!(
        redact_formula_literals("VLOOKUP(A1,Rates!A:B,2,FALSE)"),
        "VLOOKUP(A1,Rates!A:B,<number>,FALSE)"
    );
}

#[test]
fn redaction_handles_scientific_notation_as_one_literal() {
    assert_eq!(redact_formula_literals("A1*1E5"), "A1*<number>");
    assert_eq!(redact_formula_literals("1.5E-3+B2"), "<number>+B2");
}

#[test]
fn redaction_does_not_touch_digits_inside_a_name() {
    // `my.name1` is a legal defined name (see
    // `defined_names_are_not_references`); the trailing `1` must survive.
    assert_eq!(redact_formula_literals("my.name1*2"), "my.name1*<number>");
}

#[test]
fn redaction_leaves_sheet_name_quoting_alone() {
    // The quotes around a sheet name are not a string literal.
    assert_eq!(
        redact_formula_literals("'Q3 Sales'!A1+\"total\""),
        "'Q3 Sales'!A1+<text>"
    );
}

#[test]
fn redaction_handles_a_string_containing_formula_punctuation() {
    assert_eq!(
        redact_formula_literals("CONCATENATE(\"a, b (c)\",A1)"),
        "CONCATENATE(<text>,A1)"
    );
}

#[test]
fn redaction_survives_a_doubled_quote_inside_a_string() {
    assert_eq!(
        redact_formula_literals("A1&\"say \"\"hi\"\"\""),
        "A1&<text>"
    );
}

#[test]
fn redaction_leaves_a_quoted_sheet_name_alone_even_when_no_reference_follows() {
    // `'Q3 2024'!Tax_Rate` qualifies a *name*, so the reference scanner
    // claims none of it — and the redactor then walked the quoted span a
    // character at a time and turned the year into `<number>`, leaving a
    // sheet name no reader could follow back.
    assert_eq!(
        redact_formula_literals("'Q3 2024'!Tax_Rate*2"),
        "'Q3 2024'!Tax_Rate*<number>"
    );
    assert_eq!(
        redact_formula_literals("SUM('Sheet 1'!A1:A9)*3"),
        "SUM('Sheet 1'!A1:A9)*<number>"
    );
}

#[test]
fn redaction_is_utf8_safe() {
    let f = "IF(A1,\"café — ok\",B1*2)";
    assert_eq!(redact_formula_literals(f), "IF(A1,<text>,B1*<number>)");
}

#[test]
fn buffers_are_cleared_before_they_are_filled() {
    let mut refs = scan_references("A1+B2+C3");
    scan_references_into("D4", &mut refs);
    assert_eq!(refs.len(), 1);
    let mut found = scan_names("Rate*Tax");
    scan_names_into("Total", &mut found);
    assert_eq!(found.len(), 1);
    let mut out = String::from("left over");
    write_r1c1_shape("D4*2", CellRef::new(S, 3, 3), &mut out, &mut refs);
    assert_eq!(out, "RC*2");
    assert_eq!(refs[0].text("D4*2"), "D4");
}

#[test]
fn spans_count_bytes_and_the_local_part_leaves_the_qualifier_out() {
    let f = "é&'Ça va'!B2";
    let r = &scan_references(f)[0];
    assert_eq!((r.span.start, r.span.end), (3, f.len()));
    assert_eq!(&f[r.local.clone()], "B2");
    assert_eq!(r.text(f), "'Ça va'!B2");
}

#[test]
fn references_come_in_order_and_never_overlap() {
    let f = "A1+Jan:Mar!B2*'x y'!C:C-$D$4:E9";
    let refs = scan_references(f);
    assert_eq!(refs.len(), 4);
    for pair in refs.windows(2) {
        assert!(pair[0].span.end <= pair[1].span.start);
    }
    for r in &refs {
        assert_eq!(r.qualified, r.parsed.sheet_name.is_some());
    }
}

#[test]
fn filling_across_keeps_the_shape() {
    assert_eq!(
        to_r1c1_shape("SUM(B$2:B9)*$A3", CellRef::new(S, 2, 4)),
        to_r1c1_shape("SUM(C$2:C10)*$A4", CellRef::new(S, 3, 5))
    );
    assert_eq!(
        to_r1c1_shape("SUM(B$2:B9)*$A3", CellRef::new(S, 2, 4)),
        "SUM(R2C[-3]:R[6]C[-3])*RC1"
    );
}

#[test]
fn a_decimal_that_starts_with_its_point_is_a_literal() {
    assert_eq!(redact_formula_literals("A1*.5"), "A1*<number>");
    assert_eq!(redact_formula_literals("SUM(3:3)+3"), "SUM(3:3)+<number>");
}

#[test]
fn what_a_literal_holds_leaves_no_trace() {
    let one = redact_formula_literals("IF(A2=\"Smith, John\",B2*0.15,'Q3 2024'!Rate)");
    let other = redact_formula_literals("IF(A2=\"\",B2*1E5,'Q3 2024'!Rate)");
    assert_eq!(one, "IF(A2=<text>,B2*<number>,'Q3 2024'!Rate)");
    assert_eq!(one, other);
}

#[test]
fn a_column_written_out_row_by_row_has_one_shape() {
    for r in [0u32, 8, 9, 98, 1_048_575] {
        let at = CellRef::new(S, r, 1);
        assert_eq!(to_r1c1_shape(&format!("A{}*2", r + 1), at), "RC[-1]*2");
        assert_eq!(to_r1c1_shape("$A$1*2", at), "R1C1*2");
    }
}
