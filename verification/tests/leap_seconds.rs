use apogee::leap_seconds::LeapSecondTable;
use apogee::ApogeeError;

#[test]
fn test_parses_iers_leap_second_dat_format() {
    let data = "    41317.0    1  1 1972       10\n\
                  41499.0    1  7 1972       11\n\
                  41683.0    1  1 1973       12";
    let table = LeapSecondTable::parse(data).unwrap();
    assert_eq!(table.len(), 3);
    assert_eq!(table.entries()[0].mjd, 41317);
    assert_eq!(table.entries()[0].tai_utc, 10);
    assert_eq!(table.entries()[1].mjd, 41499);
    assert_eq!(table.entries()[2].tai_utc, 12);
}

#[test]
fn test_parses_naif_format() {
    let data = "+ 1972  1  1 41317 10\n\
                 + 1972  7  1 41499 11";
    let table = LeapSecondTable::parse(data).unwrap();
    assert_eq!(table.len(), 2);
    assert_eq!(table.entries()[0].mjd, 41317);
    assert_eq!(table.entries()[0].tai_utc, 10);
}

#[test]
fn test_lookup_tai_utc_at_mjd() {
    let data = "    41317.0    1  1 1972       10\n\
                  41499.0    1  7 1972       11";
    let table = LeapSecondTable::parse(data).unwrap();
    assert_eq!(table.tai_utc_at_mjd(41317), 10);
    assert_eq!(table.tai_utc_at_mjd(41499), 11);
    assert_eq!(table.tai_utc_at_mjd(41400), 10);
}

#[test]
fn test_tai_utc_at_mjd_before_first_is_zero() {
    let data = "+ 1972  1  1 41317 10";
    let table = LeapSecondTable::parse(data).unwrap();
    assert_eq!(table.tai_utc_at_mjd(40000), 0);
}

#[test]
fn test_tai_utc_at_mjd_after_last() {
    let data = "+ 1972  1  1 41317 10\n\
                 + 1972  7  1 41499 11";
    let table = LeapSecondTable::parse(data).unwrap();
    assert_eq!(table.tai_utc_at_mjd(60000), 11);
}

#[test]
fn test_leap_second_offset_matches_iers_history() {
    let data = "    41317.0    1  1 1972       10\n\
                  41499.0    1  7 1972       11\n\
                  41683.0    1  1 1973       12\n\
                  42048.0    1  1 1974       13\n\
                  42413.0    1  1 1975       14\n\
                  42778.0    1  1 1976       15\n\
                  43144.0    1  1 1977       16\n\
                  43509.0    1  1 1978       17\n\
                  43874.0    1  1 1979       18\n\
                  44239.0    1  1 1980       19\n\
                  44786.0    1  7 1981       20\n\
                  45151.0    1  7 1982       21\n\
                  45516.0    1  7 1983       22\n\
                  46247.0    1  7 1985       23\n\
                  47161.0    1  1 1988       24\n\
                  47892.0    1  1 1990       25\n\
                  48257.0    1  1 1991       26\n\
                  48804.0    1  7 1992       27\n\
                  49169.0    1  7 1993       28\n\
                  49534.0    1  7 1994       29\n\
                  50083.0    1  1 1996       30\n\
                  50630.0    1  7 1997       31\n\
                  51179.0    1  1 1999       32\n\
                  53736.0    1  1 2006       33\n\
                  54832.0    1  1 2009       34\n\
                  56109.0    1  7 2012       35\n\
                  57204.0    1  7 2015       36\n\
                  57754.0    1  1 2017       37";
    let table = LeapSecondTable::parse(data).unwrap();
    assert_eq!(table.tai_utc_at_mjd(40000), 0);
    assert_eq!(table.tai_utc_at_mjd(60000), 37);
    assert_eq!(table.tai_utc_at_mjd(53000), 32);
}

fn data_message(r: Result<LeapSecondTable, ApogeeError>) -> String {
    match r {
        Err(ApogeeError::Data(m)) => m,
        Err(e) => panic!("unexpected error {:?}", e),
        Ok(_) => panic!("parse unexpectedly succeeded"),
    }
}

#[test]
fn leap_table_is_sorted_by_mjd_stably() {
    let data = "+ 1972  7  1 41499 11\n\
                # a comment line\n\
                \n\
                + 1972  1  1 41317 10\n\
                + 1972  7  1 41499 99";
    let table = LeapSecondTable::parse(data).unwrap();
    let e = table.entries();
    assert_eq!(e.len(), 3);
    assert_eq!((e[0].mjd, e[0].tai_utc), (41317, 10));
    assert_eq!((e[1].mjd, e[1].tai_utc), (41499, 11));
    assert_eq!((e[2].mjd, e[2].tai_utc), (41499, 99));
    // On a shared MJD the last entry of the table counts.
    assert_eq!(table.tai_utc_at_mjd(41499), 99);
    assert_eq!(table.tai_utc_at_mjd(41498), 10);
}

#[test]
fn leap_table_empty_and_comments() {
    let table = LeapSecondTable::parse("").unwrap();
    assert!(table.is_empty());
    assert_eq!(table.len(), 0);
    assert_eq!(table.tai_utc_at_mjd(50000), 0);
    let table = LeapSecondTable::parse("# MJD day month year\r\n   \r\n#\n").unwrap();
    assert!(table.is_empty());
    let default = LeapSecondTable::default();
    assert!(default.is_empty());
}

#[test]
fn leap_table_crlf_and_fields() {
    let table = LeapSecondTable::parse("+1972 1 2 41318 -3\r\n  41499.5 1 7 1972 +11\r\n").unwrap();
    let e = table.entries();
    assert_eq!((e[0].year, e[0].month, e[0].day, e[0].mjd, e[0].tai_utc), (1972, 1, 2, 41318, -3));
    // 41499.5 rounds half away from zero.
    assert_eq!((e[1].year, e[1].month, e[1].day, e[1].mjd, e[1].tai_utc), (1972, 7, 1, 41500, 11));
}

#[test]
fn leap_table_rounds_and_clamps_mjd() {
    let table = LeapSecondTable::parse("41499.49 1 1 1972 1\n-5.0 1 1 1972 2\n.7 1 1 1972 3").unwrap();
    let e = table.entries();
    assert_eq!(e[0].mjd, 0);
    assert_eq!(e[0].tai_utc, 2);
    assert_eq!(e[1].mjd, 1);
    assert_eq!(e[2].mjd, 41499);
}

#[test]
fn leap_table_field_count_error() {
    let m = data_message(LeapSecondTable::parse("+ 1972 1 1 41317\n+ 1972 7 1 41499 11"));
    assert_eq!(m, "leap second line needs 5 fields, got 4: + 1972 1 1 41317");
    let m = data_message(LeapSecondTable::parse("41317.0 1 1\r\n"));
    assert_eq!(m, "leap second line needs 5 fields, got 3: 41317.0 1 1");
}

#[test]
fn leap_table_integer_errors() {
    let m = data_message(LeapSecondTable::parse("+ 1972 1x 1 41317 10"));
    assert_eq!(m, "invalid digit found in string");
    let m = data_message(LeapSecondTable::parse("+ 1972 1 1 41317 99999999999"));
    assert_eq!(m, "number too large to fit in target type");
    let m = data_message(LeapSecondTable::parse("+ 1972 1 1 41317 -99999999999"));
    assert_eq!(m, "number too small to fit in target type");
    let m = data_message(LeapSecondTable::parse("+ -1972 1 1 41317 10"));
    assert_eq!(m, "invalid digit found in string");
    let m = data_message(LeapSecondTable::parse("41317.0 1 1 1972 + "));
    assert_eq!(m, "invalid digit found in string");
}

#[test]
fn leap_table_float_field_error() {
    let m = data_message(LeapSecondTable::parse("41317.0.0 1 1 1972 10"));
    assert_eq!(m, "invalid float literal");
    let m = data_message(LeapSecondTable::parse("abc 1 1 1972 10"));
    assert_eq!(m, "invalid float literal");
}

/// The MJD of the IERS line read from `field`.
fn iers_mjd(field: &str) -> u64 {
    let t = LeapSecondTable::parse(&format!("{field} 1 1 1972 10")).unwrap();
    t.entries()[0].mjd
}

#[test]
fn leap_table_mjd_float_forms() {
    // Every form `f64::from_str` reads, rounded as `round() as u64` does.
    assert_eq!(iers_mjd("4.1317e4"), 41317);
    assert_eq!(iers_mjd("41317E0"), 41317);
    assert_eq!(iers_mjd("4131750e-2"), 41318);
    assert_eq!(iers_mjd("41317.4999e+0"), 41317);
    assert_eq!(iers_mjd(".5"), 1);
    assert_eq!(iers_mjd("7."), 7);
    assert_eq!(iers_mjd("1.e1"), 10);
    assert_eq!(iers_mjd("0.0000001e7"), 1);
    assert_eq!(iers_mjd("1e-400"), 0);
    assert_eq!(iers_mjd("1e400"), u64::MAX);
    assert_eq!(iers_mjd("0e99999999999999999999999999"), 0);
    assert_eq!(iers_mjd("2e99999999999999999999999999"), u64::MAX);
    assert_eq!(iers_mjd("inf"), u64::MAX);
    assert_eq!(iers_mjd("Infinity"), u64::MAX);
    assert_eq!(iers_mjd("iNf"), u64::MAX);
    assert_eq!(iers_mjd("-inf"), 0);
    assert_eq!(iers_mjd("NaN"), 0);
    assert_eq!(iers_mjd("-41317.6"), 0);
    for field in ["4.1317e4", ".5", "1e-400", "1e400", "inf", "NaN", "-inf", "41317.5"] {
        let expected = field.parse::<f64>().unwrap().round() as u64;
        assert_eq!(iers_mjd(field), expected, "{field}");
    }
}

#[test]
fn leap_table_mjd_malformed_float() {
    for field in ["1e", "1e+", "e5", ".", ".e1", "1.2.3", "infin", "1e5.0", "-+1", "0x10", "1_0"] {
        let m = data_message(LeapSecondTable::parse(&format!("{field} 1 1 1972 10")));
        assert_eq!(m, "invalid float literal", "{field}");
    }
}

/// What the original reading of the MJD column gives: `f64` parse, `round()`, cast.
fn f64_mjd(field: &str) -> u64 {
    field.parse::<f64>().unwrap().round() as u64
}

#[test]
fn leap_table_mjd_follows_binary64_rounding() {
    let cases = [
        "0.49999999999999999",
        "0.49999999999999997",
        "0.4999999999999999722444243843710864",
        "0.4999999999999999722444243843710865",
        "0.49999999999999994",
        "0.5",
        "1.4999999999999999",
        "2.4999999999999998",
        "9007199254740993",
        "9007199254740995",
        "9007199254740993.0000001",
        "4503599627370496.5",
        "4503599627370497.5",
        "4503599627370496.5000000000001",
        "2251799813685248.25",
        "2251799813685248.2500000001",
        "2251799813685248.75",
        "18446744073709551615",
        "18446744073709550591",
        "18446744073709550592",
        "18446744073709549568",
        "18446744073709549569",
        "1.8446744073709552e19",
        "123456789012345678.5",
        "41317.49999999999999999999999999999",
        "0.00000000000000000000000000000000001",
        "1e22",
        "1e19",
    ];
    for field in cases {
        assert_eq!(iers_mjd(field), f64_mjd(field), "{field}");
    }
    // Pseudo-random literals with up to 40 digits and exponents from -30 to 30.
    let mut state: u64 = 0x2545_F491_4F6C_DD1D;
    let mut next = || {
        state ^= state << 13;
        state ^= state >> 7;
        state ^= state << 17;
        state
    };
    for _ in 0..20000 {
        let n_digits = (next() % 40 + 1) as usize;
        let mut lit = String::new();
        let dot = (next() % (n_digits as u64 + 1)) as usize;
        for k in 0..n_digits {
            if k == dot && k > 0 {
                lit.push('.');
            }
            let d = match next() % 4 {
                0 => '9',
                1 => '0',
                2 => '4',
                _ => (b'0' + (next() % 10) as u8) as char,
            };
            lit.push(d);
        }
        if next() % 2 == 0 {
            let e = (next() % 61) as i64 - 30;
            lit.push_str(&format!("e{e}"));
        }
        assert_eq!(iers_mjd(&lit), f64_mjd(&lit), "{lit}");
    }
}
