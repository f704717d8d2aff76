use excelgrag::cell::{Cell, CellFormat, CellValue, ErrorKind, Number, ValueKind};

fn num(n: f64) -> CellValue {
    CellValue::Number(Number {
        bits: n.to_bits(),
        text: format!("{n}"),
    })
}

fn float(v: &CellValue) -> Option<f64> {
    v.as_number().map(|n| f64::from_bits(n.bits))
}

#[test]
fn error_kinds_round_trip() {
    for e in [
        ErrorKind::Null,
        ErrorKind::Div0,
        ErrorKind::Value,
        ErrorKind::Ref,
        ErrorKind::Name,
        ErrorKind::Num,
        ErrorKind::NA,
        ErrorKind::Spill,
        ErrorKind::Calc,
        ErrorKind::GettingData,
    ] {
        assert_eq!(ErrorKind::parse(e.as_str()), Some(e), "{}", e.as_str());
    }
    assert_eq!(ErrorKind::parse("#NOPE!"), None);
    assert_eq!(ErrorKind::parse("#n/a"), Some(ErrorKind::NA));
}

#[test]
fn empty_text_counts_as_empty() {
    assert!(CellValue::Text(String::new()).is_empty());
    assert!(CellValue::Empty.is_empty());
    assert!(!num(0.0).is_empty());
    assert!(!CellValue::Bool(false).is_empty());
}

#[test]
fn numbers_render_without_spurious_decimals() {
    assert_eq!(num(42.0).to_display(), "42");
    assert_eq!(num(-7.0).to_display(), "-7");
    assert_eq!(num(1.5).to_display(), "1.5");
    assert_eq!(num(0.0).to_display(), "0");
}

#[test]
fn bools_coerce_to_numbers_like_excel() {
    assert_eq!(float(&CellValue::Bool(true)), Some(1.0));
    assert_eq!(float(&CellValue::Bool(false)), Some(0.0));
    assert_eq!(float(&CellValue::Text("5".into())), None);
}

#[test]
fn errors_display_as_excel_writes_them() {
    assert_eq!(CellValue::Error(ErrorKind::Div0).to_display(), "#DIV/0!");
}

#[test]
fn vacant_cells_are_recognised() {
    assert!(Cell::literal(CellValue::Empty).is_vacant());
    assert!(!Cell::literal(num(1.0)).is_vacant());
    let f = Cell {
        value: CellValue::Empty,
        formula: Some("SUM(A1:A2)".into()),
        format: CellFormat::default(),
    };
    // A formula that currently evaluates to blank is still meaningful.
    assert!(!f.is_vacant());
    assert!(f.is_formula());
}

#[test]
fn header_formatting_heuristic() {
    assert!(CellFormat {
        bold: true,
        ..Default::default()
    }
    .looks_like_header());
    assert!(CellFormat {
        has_fill: true,
        ..Default::default()
    }
    .looks_like_header());
    assert!(!CellFormat::default().looks_like_header());
    assert!(!CellFormat {
        italic: true,
        ..Default::default()
    }
    .looks_like_header());
}

#[test]
fn zero_is_shown_without_a_sign() {
    assert_eq!(num(-0.0).to_display(), "0");
    assert_eq!(num(1e15).to_display(), "1000000000000000");
    assert_eq!(float(&num(2.5)), Some(2.5));
}

#[test]
fn every_value_has_its_kind_and_its_text() {
    assert_eq!(CellValue::Empty.kind(), ValueKind::Empty);
    assert_eq!(num(1.0).kind().as_str(), "number");
    assert_eq!(CellValue::Text("x".into()).kind().as_str(), "text");
    assert_eq!(CellValue::Bool(true).kind().as_str(), "bool");
    assert_eq!(CellValue::Error(ErrorKind::Ref).kind().as_str(), "error");
    assert_eq!(ValueKind::Empty.as_str(), "empty");
    assert!(ValueKind::Empty.is_blank());
    assert!(!ValueKind::Text.is_blank());
    assert_eq!(CellValue::Bool(true).to_display(), "TRUE");
    assert_eq!(CellValue::Bool(false).to_display(), "FALSE");
    assert_eq!(CellValue::Text("x".into()).to_display(), "x");
    assert_eq!(CellValue::Empty.to_display(), "");
    assert_eq!(CellValue::Text("x".into()).as_text(), Some("x"));
    assert_eq!(CellValue::Bool(true).as_text(), None);
}

#[test]
fn an_error_is_read_with_white_space_around_it() {
    assert_eq!(ErrorKind::parse("  #Div/0! "), Some(ErrorKind::Div0));
    assert_eq!(ErrorKind::parse("#DIV/0"), None);
}
