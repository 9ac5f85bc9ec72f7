use apogee::time::parse_iso_date;

#[test]
fn parse_iso_date_splits_components() {
    assert_eq!(parse_iso_date("2024-03-15"), (2024, 3, 15));
}

#[test]
fn parse_iso_date_ignores_extra_pieces_and_accepts_plus() {
    assert_eq!(parse_iso_date("+1999-12-31-extra"), (1999, 12, 31));
    assert_eq!(parse_iso_date("0-0-255"), (0, 0, 255));
}
