use apogee::daf::{
    chebyshev_record,
    detect_endianness, parse_file_record, read_i32_at, segment_layout, summary_offsets,
    summary_record_offset, summary_size, type13_directory_in_file, type13_layout, Endianness, BWARD_LEN, FREE_LEN, FWARD_LEN,
    IDWORD_LEN, INTERNAL_NAME_LEN, LOCFMT_LEN, ND_LEN, NI_LEN, RECORD_SIZE,
};
use apogee::ApogeeError;

/// Build a minimal DAF file record for little-endian IEEE.
fn minimal_daf_header(idword: &str, fward: i32, bward: i32, free: i32) -> Vec<u8> {
    let mut bytes = vec![0u8; RECORD_SIZE];
    bytes[0..IDWORD_LEN].copy_from_slice(&pad_str(idword, IDWORD_LEN).into_bytes());

    let nd_offset = IDWORD_LEN;
    bytes[nd_offset..nd_offset + ND_LEN].copy_from_slice(&2i32.to_le_bytes());
    bytes[nd_offset + ND_LEN..nd_offset + ND_LEN + NI_LEN].copy_from_slice(&6i32.to_le_bytes());

    bytes[IDWORD_LEN + ND_LEN + NI_LEN..IDWORD_LEN + ND_LEN + NI_LEN + INTERNAL_NAME_LEN]
        .copy_from_slice(&pad_str("TEST", INTERNAL_NAME_LEN).into_bytes());

    let base = IDWORD_LEN + ND_LEN + NI_LEN + INTERNAL_NAME_LEN;
    bytes[base..base + FWARD_LEN].copy_from_slice(&fward.to_le_bytes());
    bytes[base + FWARD_LEN..base + FWARD_LEN + BWARD_LEN].copy_from_slice(&bward.to_le_bytes());
    bytes[base + FWARD_LEN + BWARD_LEN..base + FWARD_LEN + BWARD_LEN + FREE_LEN]
        .copy_from_slice(&free.to_le_bytes());
    bytes[base + FWARD_LEN + BWARD_LEN + FREE_LEN
        ..base + FWARD_LEN + BWARD_LEN + FREE_LEN + LOCFMT_LEN]
        .copy_from_slice(&pad_str("LITTLE-IEEE", LOCFMT_LEN).into_bytes());

    bytes
}

fn pad_str(s: &str, len: usize) -> String {
    let mut out = s.to_string();
    out.truncate(len);
    while out.len() < len {
        out.push(' ');
    }
    out
}

#[test]
fn test_detect_little_endian() {
    let bytes = minimal_daf_header("DAF/SPK", 0, 0, 0);
    let endianness = detect_endianness(&bytes).unwrap();
    assert_eq!(endianness, Endianness::Little);
}

#[test]
fn test_detect_big_endian() {
    let mut bytes = minimal_daf_header("DAF/SPK", 0, 0, 0);
    let nd_offset = IDWORD_LEN;
    bytes[nd_offset..nd_offset + ND_LEN].copy_from_slice(&2i32.to_be_bytes());
    bytes[nd_offset + ND_LEN..nd_offset + ND_LEN + NI_LEN].copy_from_slice(&6i32.to_be_bytes());
    let endianness = detect_endianness(&bytes).unwrap();
    assert_eq!(endianness, Endianness::Big);
}

#[test]
fn test_parse_file_record() {
    let bytes = minimal_daf_header("DAF/SPK", 2, 2, 3);
    let rec = parse_file_record(&bytes).unwrap();
    assert_eq!(rec.idword, "DAF/SPK");
    assert_eq!(rec.internal_name, "TEST");
    assert_eq!(rec.nd, 2);
    assert_eq!(rec.ni, 6);
    assert_eq!(rec.first_summary_record, 2);
    assert_eq!(rec.last_summary_record, 2);
    assert_eq!(rec.first_free_record, 3);
    assert_eq!(rec.endianness, Endianness::Little);
}

#[test]
fn test_reject_non_daf() {
    let mut bytes = minimal_daf_header("NOTDAF! ", 0, 0, 0);
    bytes[0..8].copy_from_slice(b"NOTDAF! ");
    let err = parse_file_record(&bytes).unwrap_err();
    assert!(err.message().contains("not a DAF file"));
}

#[test]
fn daf_endianness_unrecognised() {
    let mut bytes = minimal_daf_header("DAF/SPK", 0, 0, 0);
    bytes[IDWORD_LEN..IDWORD_LEN + ND_LEN].copy_from_slice(&(-1i32).to_le_bytes());
    match detect_endianness(&bytes) {
        Err(ApogeeError::Ephemeris(m)) => assert_eq!(
            m,
            "unable to detect DAF endianness: le=(nd=-1, ni=6), be=(nd=-1, ni=100663296)"
        ),
        other => panic!("unexpected {:?}", other),
    }
    assert!(matches!(parse_file_record(&bytes), Err(ApogeeError::Ephemeris(_))));
}

#[test]
fn daf_big_endian_record_and_format_name() {
    let mut bytes = vec![0u8; RECORD_SIZE];
    bytes[0..8].copy_from_slice(b"NAIF/DAF");
    bytes[8..12].copy_from_slice(&2i32.to_be_bytes());
    bytes[12..16].copy_from_slice(&6i32.to_be_bytes());
    bytes[16..76].copy_from_slice(&pad_str("  big file ", 60).into_bytes());
    bytes[76..80].copy_from_slice(&7i32.to_be_bytes());
    bytes[80..84].copy_from_slice(&9i32.to_be_bytes());
    bytes[84..88].copy_from_slice(&(-2i32).to_be_bytes());
    bytes[88..96].copy_from_slice(b"BIG-IEEE");
    let rec = parse_file_record(&bytes).unwrap();
    assert_eq!(rec.idword, "NAIF/DAF");
    assert_eq!(rec.internal_name, "big file");
    assert_eq!(rec.first_summary_record, 7);
    assert_eq!(rec.last_summary_record, 9);
    assert_eq!(rec.first_free_record, -2);
    assert_eq!(rec.endianness, Endianness::Big);
    // A little-endian file whose format name says BIG-IEEE is recorded as big.
    let mut bytes = minimal_daf_header("DAF/PCK", 1, 1, 2);
    bytes[88..96].copy_from_slice(b"BIG-IEEE");
    assert_eq!(parse_file_record(&bytes).unwrap().endianness, Endianness::Big);
}

#[test]
fn daf_reject_message_and_read_i32() {
    let mut bytes = minimal_daf_header("XYZ", 0, 0, 0);
    bytes[0..8].copy_from_slice(b"  XYZ   ");
    match parse_file_record(&bytes) {
        Err(e) => assert_eq!(e.message(), "ephemeris error: not a DAF file: idword is 'XYZ'"),
        Ok(_) => panic!("accepted a non-DAF record"),
    }
    let b = [0x01u8, 0x02, 0x03, 0x84];
    assert_eq!(read_i32_at(&b, 0, Endianness::Little), i32::from_le_bytes(b));
    assert_eq!(read_i32_at(&b, 0, Endianness::Big), i32::from_be_bytes(b));
}

#[test]
fn daf_text_fields_replace_invalid_utf8() {
    let mut bytes = minimal_daf_header("DAF/SPK", 4, 4, 5);
    let name_start = IDWORD_LEN + ND_LEN + NI_LEN;
    bytes[name_start..name_start + 6].copy_from_slice(&[b'A', 0xFF, b'B', 0xC3, 0xA9, b' ']);
    let record = parse_file_record(&bytes).unwrap();
    assert_eq!(record.internal_name, "A\u{FFFD}B\u{e9}");
    assert_eq!(record.idword, "DAF/SPK");
}

#[test]
fn daf_short_records_are_rejected_without_reading_past_the_end() {
    // Only the ID word: not a DAF file.
    match parse_file_record(b"NOTDAF! ") {
        Err(ApogeeError::Ephemeris(m)) => assert_eq!(m, "not a DAF file: idword is 'NOTDAF!'"),
        other => panic!("unexpected {:?}", other),
    }
    // A DAF ID word and ND/NI that name no byte order.
    let mut bytes = b"DAF/SPK ".to_vec();
    bytes.extend_from_slice(&[0u8; 8]);
    match parse_file_record(&bytes) {
        Err(ApogeeError::Ephemeris(m)) => {
            assert_eq!(m, "unable to detect DAF endianness: le=(nd=0, ni=0), be=(nd=0, ni=0)")
        }
        other => panic!("unexpected {:?}", other),
    }
}

#[test]
fn segment_layout_from_word_addresses() {
    let l = segment_layout(385, 1024).unwrap();
    assert_eq!(l.first_data_byte_offset, 384 * 8);
    assert_eq!(l.final_data_byte_offset, 1023 * 8);
    assert_eq!(l.record_count, ((1023 - 384) * 8 / 1024 + 1) as i32);
    assert_eq!(l.first_data_record, (384 * 8 / 1024 + 1) as i32);
    let one = segment_layout(1, 1).unwrap();
    assert_eq!((one.first_data_byte_offset, one.record_count, one.first_data_record), (0, 1, 1));
    for (a, b) in [(0, 5), (10, 9), (-1, 5)] {
        match segment_layout(a, b) {
            Err(ApogeeError::Ephemeris(m)) => assert_eq!(m, "invalid SPK summary data address range"),
            other => panic!("unexpected {:?}", other),
        }
    }
}

#[test]
fn summary_size_counts_doubles_and_integers() {
    assert_eq!(summary_size(2, 6), 40);
    assert_eq!(summary_size(-3, 6), 24);
    assert_eq!(summary_size(2, -1), 16);
    assert_eq!(summary_size(0, 0), 0);
}

#[test]
fn summary_record_offset_checks_the_file_holds_the_record() {
    assert_eq!(summary_record_offset(4096, 1).unwrap(), 0);
    assert_eq!(summary_record_offset(4096, 4).unwrap(), 3072);
    match summary_record_offset(4095, 4) {
        Err(ApogeeError::Ephemeris(m)) => {
            assert_eq!(m, "summary record 4 extends past end of file")
        }
        other => panic!("unexpected {:?}", other),
    }
}

#[test]
fn summary_offsets_follow_the_control_words() {
    assert_eq!(summary_offsets(4096, 2048, 3, 3, 40).unwrap(), vec![2072, 2112, 2152]);
    assert!(summary_offsets(4096, 2048, 3, 0, 40).unwrap().is_empty());
    // Exactly up to the end of the file.
    assert_eq!(summary_offsets(2072 + 80, 2048, 3, 2, 40).unwrap(), vec![2072, 2112]);
    match summary_offsets(2072 + 79, 2048, 3, 2, 40) {
        Err(ApogeeError::Ephemeris(m)) => {
            assert_eq!(m, "summary data in record 3 extends past end of file")
        }
        other => panic!("unexpected {:?}", other),
    }
}

#[test]
fn type13_directory_must_lie_in_the_file() {
    assert!(type13_directory_in_file(1016, 1024).is_ok());
    match type13_directory_in_file(1017, 1024) {
        Err(ApogeeError::Ephemeris(m)) => {
            assert_eq!(m, "Type 13 segment directory extends past end of file")
        }
        other => panic!("unexpected {:?}", other),
    }
}

#[test]
fn type13_layout_checks_count_and_size() {
    // Three states: 7 * 3 + 0 + 2 = 23 words.
    let first = 1000usize;
    let last = first + 22 * 8;
    assert_eq!(type13_layout(first, last, 3, 2).unwrap(), (3, first + 18 * 8));
    // 101 states have one directory entry: 7 * 101 + 1 + 2 = 710 words.
    assert_eq!(type13_layout(0, 709 * 8, 101, 0).unwrap(), (101, 606 * 8));
    match type13_layout(first, last + 8, 3, 2) {
        Err(ApogeeError::Ephemeris(m)) => {
            assert_eq!(m, "Type 13 segment word count mismatch: expected 23, got 24")
        }
        other => panic!("unexpected {:?}", other),
    }
    for (n, w) in [(0, 2), (3, -1), (-5, 0)] {
        match type13_layout(first, last, n, w) {
            Err(ApogeeError::Ephemeris(m)) => assert_eq!(m, "invalid Type 13 directory values"),
            other => panic!("unexpected {:?}", other),
        }
    }
}

#[test]
fn chebyshev_record_layout() {
    // Type 2, 11-word records: three blocks of three coefficients.
    assert_eq!(chebyshev_record(800, 2, 11, 2, 10_000).unwrap(), (800 + 2 * 11 * 8, 3));
    // Type 3, 20-word records: six blocks of three coefficients.
    assert_eq!(chebyshev_record(0, 1, 20, 3, 10_000).unwrap(), (160, 3));
    // The used part ends exactly at the end of the file.
    assert_eq!(chebyshev_record(0, 1, 20, 3, 160 + 16 + 6 * 24).unwrap(), (160, 3));
    match chebyshev_record(0, 1, 20, 3, 160 + 16 + 6 * 24 - 1) {
        Err(ApogeeError::Ephemeris(m)) => assert_eq!(m, "coefficient data extends past end of file"),
        other => panic!("unexpected {:?}", other),
    }
    match chebyshev_record(0, 0, 4, 2, 10_000) {
        Err(ApogeeError::Ephemeris(m)) => assert_eq!(m, "invalid SPK Type 2 coefficient count"),
        other => panic!("unexpected {:?}", other),
    }
    match chebyshev_record(0, 0, 7, 3, 10_000) {
        Err(ApogeeError::Ephemeris(m)) => assert_eq!(m, "invalid SPK Type 3 coefficient count"),
        other => panic!("unexpected {:?}", other),
    }
    assert_eq!(chebyshev_record(0, 0, 8, 3, 10_000).unwrap(), (0, 1));
    assert_eq!(chebyshev_record(0, 0, 5, 2, 10_000).unwrap(), (0, 1));
}
