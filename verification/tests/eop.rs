use apogee::eop::{eop_fields, eop_line_fields};
use apogee::ApogeeError;

#[test]
fn eop_data_line_fields() {
    let f = eop_line_fields("2024  1  1  60310  0.123456  0.345678  -0.0123456  0.0012345  0.1 0.2")
        .unwrap()
        .unwrap();
    assert_eq!((f.year, f.month, f.day), (2024, 1, 1));
    assert_eq!(f.values, vec!["60310", "0.123456", "0.345678", "-0.0123456", "0.0012345"]);
}

#[test]
fn eop_header_lines_are_skipped() {
    assert!(eop_line_fields("").unwrap().is_none());
    assert!(eop_line_fields("   \t ").unwrap().is_none());
    assert!(eop_line_fields("# YR MM DD MJD x y UT1-UTC LOD").unwrap().is_none());
    assert!(eop_line_fields("EOP 14 C04 series").unwrap().is_none());
    // Too few fields.
    assert!(eop_line_fields("2024 1 1 60310 0.1 0.2 0.3").unwrap().is_none());
}

#[test]
fn eop_bad_integer_column_is_a_data_error() {
    match eop_line_fields("2024 x 1 60310 0.1 0.2 0.3 0.4") {
        Err(ApogeeError::Data(m)) => assert_eq!(m, "invalid digit found in string"),
        other => panic!("unexpected {:?}", other),
    }
    match eop_line_fields("99999999999 1 1 60310 0.1 0.2 0.3 0.4") {
        Err(ApogeeError::Data(m)) => assert_eq!(m, "number too large to fit in target type"),
        other => panic!("unexpected {:?}", other),
    }
    match eop_line_fields("2024 1 1.5 60310 0.1 0.2 0.3 0.4") {
        Err(ApogeeError::Data(m)) => assert_eq!(m, "invalid digit found in string"),
        other => panic!("unexpected {:?}", other),
    }
}

#[test]
fn eop_text_gives_data_lines_in_order() {
    let text = "# EOP 14 C04\r\n\
YR MM DD MJD x y UT1-UTC LOD\r\n\
2024  1  1  60310  0.1  0.2  -0.01  0.001\r\n\
\r\n\
2024  1  2  60311  0.15 0.25 -0.02  0.002  extra";
    let v = eop_fields(text).unwrap();
    assert_eq!(v.len(), 2);
    assert_eq!((v[0].year, v[0].month, v[0].day), (2024, 1, 1));
    assert_eq!(v[0].values, vec!["60310", "0.1", "0.2", "-0.01", "0.001"]);
    assert_eq!((v[1].year, v[1].month, v[1].day), (2024, 1, 2));
    assert_eq!(v[1].values, vec!["60311", "0.15", "0.25", "-0.02", "0.002"]);
}

#[test]
fn eop_text_without_data_is_empty() {
    assert!(eop_fields("").unwrap().is_empty());
    assert!(eop_fields("header only\n\n").unwrap().is_empty());
}

#[test]
fn eop_text_bad_float_column_is_a_data_error() {
    match eop_fields("2024 1 1 60310 0.1 abc 0.3 0.4\n") {
        Err(ApogeeError::Data(m)) => assert_eq!(m, "invalid float literal"),
        other => panic!("unexpected {:?}", other),
    }
    match eop_fields("2024 1 1 60310 0.1 1e5 inf -NaN\n") {
        Ok(v) => assert_eq!(v[0].values, vec!["60310", "0.1", "1e5", "inf", "-NaN"]),
        other => panic!("unexpected {:?}", other),
    }
}

#[test]
fn eop_text_reports_the_first_error_in_file_order() {
    // A bad float on an earlier line comes before a bad day on a later one.
    let text = "2024 1 1 60310 0.1 0.2 0.3 x\n2024 1 z 60311 0.1 0.2 0.3 0.4\n";
    match eop_fields(text) {
        Err(ApogeeError::Data(m)) => assert_eq!(m, "invalid float literal"),
        other => panic!("unexpected {:?}", other),
    }
    // On one line the integer columns are read before the floats.
    match eop_fields("2024 1 z 60310 0.1 0.2 0.3 x\n") {
        Err(ApogeeError::Data(m)) => assert_eq!(m, "invalid digit found in string"),
        other => panic!("unexpected {:?}", other),
    }
}
