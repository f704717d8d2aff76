use excelgrag::address::{
    col_to_letters, letters_to_col, parse_a1, quote_sheet_name, AddressError, CellRef, R1C1Coord,
    R1C1Ref, RangeRef, SheetId, MAX_COL, MAX_ROW,
};

const S0: SheetId = SheetId(0);

#[test]
fn column_letters_round_trip() {
    for &(col, letters) in &[
        (0u32, "A"),
        (25, "Z"),
        (26, "AA"),
        (27, "AB"),
        (51, "AZ"),
        (52, "BA"),
        (701, "ZZ"),
        (702, "AAA"),
        (16383, "XFD"),
    ] {
        assert_eq!(col_to_letters(col), letters, "col {col}");
        assert_eq!(
            letters_to_col(letters).unwrap() as u32,
            col,
            "letters {letters}"
        );
    }
}

#[test]
fn column_letters_reject_out_of_range() {
    assert!(letters_to_col("XFE").is_err());
    assert!(letters_to_col("AAAA").is_err());
    assert!(letters_to_col("").is_err());
    assert!(letters_to_col("A1").is_err());
}

#[test]
fn out_of_range_columns_render_rather_than_panic() {
    // `col` is only bounded at the parse boundary, so a caller-built index
    // past XFD must not blow up the renderer.
    assert_eq!(col_to_letters(18_277), "ZZZ");
    assert_eq!(col_to_letters(18_278), "AAAA");
    assert!(!col_to_letters(u32::MAX).is_empty());
}

#[test]
fn letters_are_case_insensitive() {
    assert_eq!(letters_to_col("aa").unwrap(), letters_to_col("AA").unwrap());
}

#[test]
fn cell_a1_round_trip() {
    let c = CellRef::new(S0, 6, 1);
    assert_eq!(c.to_a1(), "B7");
    assert_eq!(CellRef::parse_local("B7", S0).unwrap(), c);
    assert_eq!(CellRef::parse_local("$B$7", S0).unwrap(), c);
    assert_eq!(CellRef::parse_local("b7", S0).unwrap(), c);
}

#[test]
fn row_bounds_are_enforced() {
    assert!(CellRef::parse_local("A0", S0).is_err());
    assert!(CellRef::parse_local("A1048576", S0).is_ok());
    assert!(CellRef::parse_local("A1048577", S0).is_err());
}

#[test]
fn malformed_addresses_are_rejected() {
    for bad in ["", "7", "$", "A", "A$", "AB!", "1A", "A 1"] {
        assert!(
            CellRef::parse_local(bad, S0).is_err(),
            "expected {bad:?} to be rejected"
        );
    }
}

#[test]
fn range_normalises_corners() {
    let a = RangeRef::parse_local("C3:A1", S0).unwrap();
    let b = RangeRef::parse_local("A1:C3", S0).unwrap();
    assert_eq!(a, b);
    assert_eq!(a.to_a1(), "A1:C3");
    assert_eq!(a.rows(), 3);
    assert_eq!(a.cols(), 3);
    assert_eq!(a.cell_count(), 9);
}

#[test]
fn geometry_of_an_un_normalised_range_does_not_underflow() {
    // Only reachable by bypassing `new`, which the public fields allow.
    let inverted = RangeRef {
        sheet: S0,
        top: 9,
        left: 4,
        bottom: 2,
        right: 1,
    };
    assert_eq!(inverted.cell_count(), 1);
    assert_eq!(inverted.rows(), 1);
    assert_eq!(inverted.cols(), 1);
    assert!(inverted.iter_cells().is_empty());
}

#[test]
fn single_cell_range_renders_without_colon() {
    let r = RangeRef::parse_local("B7", S0).unwrap();
    assert_eq!(r.to_a1(), "B7");
}

#[test]
fn full_sheet_range_does_not_overflow() {
    let r = RangeRef::new(S0, 0, 0, MAX_ROW, MAX_COL as u16);
    assert_eq!(r.cell_count(), 1_048_576u64 * 16_384u64);
}

#[test]
fn range_geometry() {
    let r = RangeRef::parse_local("B2:D4", S0).unwrap();
    assert!(r.contains(CellRef::parse_local("C3", S0).unwrap()));
    assert!(!r.contains(CellRef::parse_local("A1", S0).unwrap()));
    assert!(r.intersects(&RangeRef::parse_local("D4:F6", S0).unwrap()));
    assert!(!r.intersects(&RangeRef::parse_local("E5:F6", S0).unwrap()));
    assert_eq!(
        r.union(&RangeRef::parse_local("A1", S0).unwrap()).to_a1(),
        "A1:D4"
    );
    assert_eq!(r.iter_cells().len(), 9);
}

#[test]
fn intersection_clips_a_huge_range_to_a_small_one() {
    let whole_column = RangeRef::new(S0, 0, 1, MAX_ROW, 1);
    let used = RangeRef::parse_local("A1:D4", S0).unwrap();
    let clipped = whole_column.intersection(&used).unwrap();
    assert_eq!(clipped.to_a1(), "B1:B4");

    assert!(RangeRef::parse_local("A1:B2", S0)
        .unwrap()
        .intersection(&RangeRef::parse_local("D4:F6", S0).unwrap())
        .is_none());

    let other_sheet = RangeRef::new(SheetId(1), 0, 0, 0, 0);
    assert!(used.intersection(&other_sheet).is_none());
}

#[test]
fn iter_cells_is_row_major() {
    let r = RangeRef::parse_local("A1:B2", S0).unwrap();
    let got: Vec<String> = r.iter_cells().iter().map(|c| c.to_a1()).collect();
    assert_eq!(got, ["A1", "B1", "A2", "B2"]);
}

#[test]
fn offset_clamps_at_sheet_edges() {
    let c = CellRef::new(S0, 0, 0);
    assert_eq!(c.offset(1, 1).unwrap().to_a1(), "B2");
    assert!(c.offset(-1, 0).is_none());
    assert!(c.offset(0, -1).is_none());
    assert!(CellRef::new(S0, MAX_ROW, 0).offset(1, 0).is_none());
}

#[test]
fn parses_sheet_qualified_references() {
    let p = parse_a1("Sheet1!A1").unwrap();
    assert_eq!(p.sheet_name.as_deref(), Some("Sheet1"));
    assert!(p.is_single_cell());

    let p = parse_a1("'Q3 Sales'!A1:B2").unwrap();
    assert_eq!(p.sheet_name.as_deref(), Some("Q3 Sales"));
    assert_eq!((p.top, p.left, p.bottom, p.right), (0, 0, 1, 1));
}

#[test]
fn parses_sheet_name_containing_bang() {
    // The '!' inside quotes must not be mistaken for the separator.
    let p = parse_a1("'Hey! Sales'!B2").unwrap();
    assert_eq!(p.sheet_name.as_deref(), Some("Hey! Sales"));
    assert_eq!((p.top, p.left), (1, 1));
}

#[test]
fn parses_sheet_name_containing_escaped_quote() {
    let p = parse_a1("'Bob''s Sheet'!A1").unwrap();
    assert_eq!(p.sheet_name.as_deref(), Some("Bob's Sheet"));
}

#[test]
fn parses_external_and_3d_references() {
    let p = parse_a1("[1]Sheet1!A1").unwrap();
    assert_eq!(p.workbook.as_deref(), Some("1"));
    assert_eq!(p.sheet_name.as_deref(), Some("Sheet1"));

    let p = parse_a1("'[My Book.xlsx]Q3 Sales'!A1").unwrap();
    assert_eq!(p.workbook.as_deref(), Some("My Book.xlsx"));
    assert_eq!(p.sheet_name.as_deref(), Some("Q3 Sales"));

    let p = parse_a1("Jan:Dec!A1").unwrap();
    assert_eq!(p.sheet_name.as_deref(), Some("Jan"));
    assert_eq!(p.end_sheet_name.as_deref(), Some("Dec"));
}

#[test]
fn a_closed_workbook_link_carries_its_directory_path() {
    // Excel writes the full path before the bracket when the linked
    // workbook is closed — this used to split on the drive letter's `:`
    // as if it were a 3-D range, lifting to a bogus sheet named "C".
    let p = parse_a1("'C:\\Reports\\[Book1.xlsx]Sheet1'!A1").unwrap();
    assert_eq!(p.workbook.as_deref(), Some("Book1.xlsx"));
    assert_eq!(p.sheet_name.as_deref(), Some("Sheet1"));
    assert_eq!(p.end_sheet_name, None);

    let p = parse_a1("'/data/[Book1.xlsx]Sheet1'!A1").unwrap();
    assert_eq!(p.workbook.as_deref(), Some("Book1.xlsx"));
    assert_eq!(p.sheet_name.as_deref(), Some("Sheet1"));
    assert_eq!(p.end_sheet_name, None);

    // A path containing more than one `:` (a UNC-style or oddly quoted
    // one) must not confuse which colon, if any, is a 3-D separator —
    // there is a bracket pair here, so none of them are.
    let p = parse_a1("'C:\\Reports\\2024:Archive\\[Book1.xlsx]Sheet1'!A1").unwrap();
    assert_eq!(p.workbook.as_deref(), Some("Book1.xlsx"));
    assert_eq!(p.sheet_name.as_deref(), Some("Sheet1"));
    assert_eq!(p.end_sheet_name, None);
}

#[test]
fn absoluteness_is_tracked_per_component() {
    let p = parse_a1("$B7").unwrap();
    assert!(p.abs_left && !p.abs_top);
    let p = parse_a1("B$7").unwrap();
    assert!(!p.abs_left && p.abs_top);
}

#[test]
fn absoluteness_follows_corners_when_swapped() {
    // Written bottom-right first: the $ must stay attached to its own corner.
    let p = parse_a1("$C$3:A1").unwrap();
    assert_eq!((p.top, p.left, p.bottom, p.right), (0, 0, 2, 2));
    assert!(!p.abs_top && !p.abs_left);
    assert!(p.abs_bottom && p.abs_right);
}

#[test]
fn sheet_names_are_quoted_only_when_needed() {
    assert_eq!(quote_sheet_name("Sheet1"), "Sheet1");
    assert_eq!(quote_sheet_name("Q3.Sales"), "Q3.Sales");
    assert_eq!(quote_sheet_name("Q3 Sales"), "'Q3 Sales'");
    assert_eq!(quote_sheet_name("2024"), "'2024'");
    assert_eq!(quote_sheet_name("Bob's"), "'Bob''s'");
    assert_eq!(quote_sheet_name(""), "''");
}

#[test]
fn a_sheet_named_like_a_cell_reference_is_quoted() {
    // L21: Excel itself refuses to name a sheet "A1" in its UI, but a
    // workbook can still arrive with one — renamed through another tool,
    // or a corrupted file — and citing it bare would read as the cell,
    // not the sheet.
    assert_eq!(quote_sheet_name("A1"), "'A1'");
    assert_eq!(quote_sheet_name("XFD1048576"), "'XFD1048576'");
    assert_eq!(quote_sheet_name("$B$2"), "'$B$2'");
    // A name that merely starts like a column but is not a valid cell
    // shape (too many letters, or the row out of range) is unaffected.
    assert_eq!(quote_sheet_name("Sheet1"), "Sheet1");
    assert_eq!(quote_sheet_name("XFE1"), "XFE1", "past the last column");
}

#[test]
fn a_non_ascii_alphanumeric_sheet_name_still_needs_no_quotes() {
    // The doc comment used to describe an ASCII-only rule the code never
    // implemented — `char::is_alphanumeric` is Unicode-aware, and so is
    // Excel's own bare-identifier rule.
    assert_eq!(quote_sheet_name("Café"), "Café");
}

#[test]
fn an_empty_quoted_sheet_name_is_rejected_not_read_as_unqualified() {
    // L21: `''!A1` names an empty sheet, not no sheet at all — Excel
    // rejects it, and reading it as a plain `A1` would silently answer a
    // different reference from the one written.
    assert!(parse_a1("''!A1").is_err());
    assert!(parse_a1("!A1").is_err(), "no sheet name before the bang");
}

#[test]
fn citation_round_trips_through_parser() {
    let cell = CellRef::new(S0, 6, 1);
    let cited = cell.to_a1_with_sheet("Q3 Sales");
    assert_eq!(cited, "'Q3 Sales'!B7");
    let parsed = parse_a1(&cited).unwrap();
    assert_eq!(parsed.sheet_name.as_deref(), Some("Q3 Sales"));
    assert_eq!(parsed.resolve(S0), RangeRef::single(cell));
}

#[test]
fn r1c1_relative_refs_are_position_independent() {
    // =A1*2 at B1 and =A2*2 at B2 must produce the same shape.
    let a = R1C1Ref::from_parsed(&parse_a1("A1").unwrap(), CellRef::new(S0, 0, 1));
    let b = R1C1Ref::from_parsed(&parse_a1("A2").unwrap(), CellRef::new(S0, 1, 1));
    assert_eq!(a, b);
    assert_eq!(a.to_r1c1(), "RC[-1]");
}

#[test]
fn r1c1_absolute_refs_stay_pinned() {
    // $A$1 is the same cell regardless of where the formula sits, so the
    // shapes must differ from row to row only if the ref is relative.
    let a = R1C1Ref::from_parsed(&parse_a1("$A$1").unwrap(), CellRef::new(S0, 0, 1));
    let b = R1C1Ref::from_parsed(&parse_a1("$A$1").unwrap(), CellRef::new(S0, 9, 1));
    assert_eq!(a, b);
    assert_eq!(a.to_r1c1(), "R1C1");
}

#[test]
fn r1c1_mixed_absoluteness() {
    let r = R1C1Ref::from_parsed(&parse_a1("$A2").unwrap(), CellRef::new(S0, 4, 3));
    assert_eq!(r.to_r1c1(), "R[-3]C1");
}

#[test]
fn r1c1_renders_ranges_and_sheets() {
    let r = R1C1Ref::from_parsed(
        &parse_a1("'Q3 Sales'!B2:C3").unwrap(),
        CellRef::new(S0, 1, 1),
    );
    assert_eq!(r.to_r1c1(), "'Q3 Sales'!RC:R[1]C[1]");
}

#[test]
fn r1c1_preserves_a_3d_sheet_qualifier() {
    let r = R1C1Ref::from_parsed(
        &parse_a1("'Jan:Year End'!B2").unwrap(),
        CellRef::new(S0, 1, 1),
    );
    assert_eq!(r.end_sheet_name.as_deref(), Some("Year End"));
    assert_eq!(r.to_r1c1(), "'Jan:Year End'!RC");
    let reparsed = parse_a1(&r.to_r1c1().replace("RC", "A1")).unwrap();
    assert_eq!(reparsed.sheet_name.as_deref(), Some("Jan"));
    assert_eq!(reparsed.end_sheet_name.as_deref(), Some("Year End"));
}

#[test]
fn public_geometry_rendering_does_not_overflow() {
    assert_eq!(CellRef::new(S0, u32::MAX, 0).to_a1(), "A4294967296");
    let range = RangeRef::new(S0, 0, 0, u32::MAX, u16::MAX);
    assert_eq!(range.rows(), u32::MAX as u64 + 1);
    assert_eq!(range.cols(), u16::MAX as u32 + 1);
    assert_eq!(range.cell_count(), (u32::MAX as u64 + 1) * 65_536);
    // The two ways of asking must agree: a saturating `rows()` made the
    // product 65,536 cells short of `cell_count()`.
    assert_eq!(range.rows() * u64::from(range.cols()), range.cell_count());
    assert_eq!(R1C1Coord::Absolute(u32::MAX).render('R'), "R4294967296");
}

#[test]
fn whole_column_references_parse() {
    let p = parse_a1("A:A").unwrap();
    assert!(p.is_whole_column());
    assert!(!p.is_whole_row());
    assert_eq!((p.left, p.right), (0, 0));
    assert_eq!((p.top, p.bottom), (0, MAX_ROW));
    // Absolute so that shape normalisation does not depend on the
    // formula's own row.
    assert!(p.abs_top && p.abs_bottom);

    let p = parse_a1("$B:$D").unwrap();
    assert_eq!((p.left, p.right), (1, 3));
    assert!(p.abs_left && p.abs_right);

    let p = parse_a1("Sheet1!C:C").unwrap();
    assert_eq!(p.sheet_name.as_deref(), Some("Sheet1"));
    assert!(p.is_whole_column());
}

#[test]
fn whole_row_references_parse() {
    let p = parse_a1("3:3").unwrap();
    assert!(p.is_whole_row());
    assert!(!p.is_whole_column());
    assert_eq!((p.top, p.bottom), (2, 2));
    assert_eq!((p.left, p.right), (0, MAX_COL as u16));
    assert!(p.abs_left && p.abs_right);

    let p = parse_a1("$5:$9").unwrap();
    assert_eq!((p.top, p.bottom), (4, 8));
    assert!(p.abs_top && p.abs_bottom);

    let p = parse_a1("'Q3 Sales'!3:5").unwrap();
    assert_eq!(p.sheet_name.as_deref(), Some("Q3 Sales"));
    assert_eq!((p.top, p.bottom), (2, 4));
}

#[test]
fn mismatched_axis_shorthand_is_rejected() {
    // `A:3` is not valid Excel syntax in either direction, and must not
    // be quietly accepted as a truncated something.
    assert!(parse_a1("A:3").is_err());
    assert!(parse_a1("3:A").is_err());
}

#[test]
fn r1c1_distinguishes_genuinely_different_shapes() {
    let a = R1C1Ref::from_parsed(&parse_a1("A1").unwrap(), CellRef::new(S0, 0, 1));
    let b = R1C1Ref::from_parsed(&parse_a1("A1").unwrap(), CellRef::new(S0, 0, 2));
    assert_ne!(a, b, "different column offsets must not collapse");
}

#[test]
fn a_reference_names_every_sheet_it_spans() {
    // Tab order, by name, as a workbook would hand them over.
    let tabs = ["Jan", "Feb", "Mar", "Summary"];
    let lookup = |name: &str| {
        tabs.iter()
            .position(|t| t.eq_ignore_ascii_case(name))
            .map(|i| SheetId(i as u16))
    };
    let here = SheetId(3);

    // An unqualified reference names the sheet it was written on.
    let span = parse_a1("B2")
        .unwrap()
        .spanned_sheets(here, lookup)
        .unwrap();
    assert_eq!(span.first(), here);
    assert!(!span.is_multi_sheet());
    assert_eq!(span.iter(), vec![here]);

    // A qualified one names the sheet it names.
    let span = parse_a1("Feb!B2")
        .unwrap()
        .spanned_sheets(here, lookup)
        .unwrap();
    assert_eq!(span.iter(), vec![SheetId(1)]);

    // A 3-D one names every sheet between its ends, inclusive.
    let span = parse_a1("Jan:Mar!B2")
        .unwrap()
        .spanned_sheets(here, lookup)
        .unwrap();
    assert!(span.is_multi_sheet());
    assert_eq!(span.count(), 3);
    assert_eq!(
        span.iter(),
        vec![SheetId(0), SheetId(1), SheetId(2)]
    );
    assert_eq!((span.first(), span.last()), (SheetId(0), SheetId(2)));

    // Written back to front, it is the same span: tab order decides, not
    // which end the formula happened to put first.
    let span = parse_a1("Mar:Jan!B2")
        .unwrap()
        .spanned_sheets(here, lookup)
        .unwrap();
    assert_eq!(span.count(), 3);
    assert_eq!(span.first(), SheetId(0));

    // Either end going missing breaks the whole span, and says which end.
    assert_eq!(
        parse_a1("Jan:Gone!B2")
            .unwrap()
            .spanned_sheets(here, lookup),
        Err("Gone")
    );
    assert_eq!(
        parse_a1("Gone:Mar!B2")
            .unwrap()
            .spanned_sheets(here, lookup),
        Err("Gone")
    );
}

#[test]
fn every_error_names_what_was_wrong() {
    assert_eq!(parse_a1("   "), Err(AddressError::Empty));
    assert_eq!(parse_a1("A"), Err(AddressError::Malformed("A".to_string())));
    assert_eq!(
        parse_a1("XFE1"),
        Err(AddressError::ColumnOutOfRange("XFE".to_string()))
    );
    assert_eq!(parse_a1("A1048577"), Err(AddressError::RowOutOfRange(1_048_577)));
    assert_eq!(parse_a1("A0"), Err(AddressError::RowOutOfRange(0)));
    assert_eq!(
        parse_a1("'Q3!A1"),
        Err(AddressError::UnterminatedSheetName("'Q3!A1".to_string()))
    );
    assert_eq!(
        parse_a1("A99999999999999999999999"),
        Err(AddressError::Malformed("A99999999999999999999999".to_string()))
    );
    assert_eq!(
        parse_a1("[Book!A1"),
        Err(AddressError::Malformed("[Book".to_string()))
    );
}

#[test]
fn errors_read_as_sentences() {
    assert_eq!(AddressError::Empty.message(), "empty address");
    assert_eq!(
        AddressError::Malformed("A".to_string()).message(),
        "malformed address: A"
    );
    assert_eq!(
        AddressError::ColumnOutOfRange("X\"E".to_string()).message(),
        "column \"X\\\"E\" is out of range (max XFD)"
    );
    assert_eq!(
        AddressError::RowOutOfRange(0).message(),
        "row 0 is out of range (max 1048576)"
    );
    assert_eq!(
        AddressError::UnterminatedSheetName("'Q".to_string()).message(),
        "unterminated quoted sheet name in \"'Q\""
    );
}

#[test]
fn every_column_round_trips() {
    for col in 0..=MAX_COL {
        assert_eq!(letters_to_col(&col_to_letters(col)), Ok(col as u16));
    }
}

#[test]
fn ranges_round_trip_through_their_address() {
    for text in ["A1", "B2:D4", "A1:XFD1048576", "C3:C3"] {
        let r = RangeRef::parse_local(text, S0).unwrap();
        assert_eq!(RangeRef::parse_local(&r.to_a1(), S0).unwrap(), r);
    }
}

#[test]
fn citations_of_awkward_sheets_round_trip() {
    let range = RangeRef::parse_local("B2:D4", S0).unwrap();
    for name in ["Q3 Sales", "Bob's", "2024", "A1", "Hey! You", "Café", "''", "]x"] {
        let parsed = parse_a1(&range.to_a1_with_sheet(name)).unwrap();
        assert_eq!(parsed.sheet_name.as_deref(), Some(name));
        assert_eq!(parsed.end_sheet_name, None);
        assert_eq!(parsed.workbook, None);
        assert_eq!(parsed.resolve(S0), range);
    }
}

#[test]
fn a_reference_that_moves_with_its_formula_keeps_its_relative_form() {
    let a = R1C1Ref::from_parsed(&parse_a1("B$2:D4").unwrap(), CellRef::new(S0, 5, 5));
    let b = R1C1Ref::from_parsed(&parse_a1("C$2:E7").unwrap(), CellRef::new(S0, 8, 6));
    assert_eq!(a, b);
    assert_eq!(a.to_r1c1(), "R2C[-4]:R[-2]C[-2]");
}

#[test]
fn a_union_covers_both_and_an_intersection_lies_in_both() {
    let a = RangeRef::parse_local("A1:C3", S0).unwrap();
    let b = RangeRef::parse_local("B2:E9", S0).unwrap();
    assert_eq!(a.union(&b).to_a1(), "A1:E9");
    assert_eq!(a.intersection(&b).unwrap().to_a1(), "B2:C3");
    assert_eq!(b.intersection(&a), a.intersection(&b));
}

#[test]
fn whitespace_and_case_are_forgiven() {
    assert_eq!(parse_a1("\u{a0} sheet1!$b7\u{3000}").unwrap().sheet_name.as_deref(), Some("sheet1"));
    assert_eq!(CellRef::parse_local(" b7 ", S0).unwrap().to_a1(), "B7");
}

#[test]
fn an_unnamed_sheet_is_shown_by_its_number() {
    assert_eq!(SheetId(9).to_text(), "#9");
}
