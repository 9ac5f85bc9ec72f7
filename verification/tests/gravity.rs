use std::io::Write;

use apogee::gravity::{
    egm2008_fields, fortran_float_text, gravity_line_step, gunzip_bytes, parse_header_value,
};
use apogee::ApogeeError;

#[test]
fn header_value_after_key() {
    assert_eq!(
        parse_header_value("earth_gravity_constant      0.3986004415E+15", "earth_gravity_constant"),
        Some("0.3986004415E+15")
    );
    assert_eq!(
        parse_header_value("  radius   0.63781363E+07  extra ", "radius"),
        Some("0.63781363E+07")
    );
    assert_eq!(parse_header_value("radius", "radius"), Some(""));
    assert_eq!(parse_header_value("modelname EGM2008", "radius"), None);
}

#[test]
fn fortran_exponent_marker_is_rewritten() {
    assert_eq!(fortran_float_text("1.0d0"), "1.0e0");
    assert_eq!(fortran_float_text("-4.84165143790815D-04"), "-4.84165143790815e-04");
    assert_eq!(fortran_float_text("0.3986004415E+15"), "0.3986004415E+15");
    // A `d` that does not follow a digit is kept.
    assert_eq!(fortran_float_text("d5"), "d5");
    assert_eq!(fortran_float_text(".d1"), ".d1");
    assert_eq!(fortran_float_text(""), "");
}

#[test]
fn blank_and_comment_lines_do_nothing() {
    for line in ["", "   ", "# comment", "  #x 1 2 3"] {
        for past in [false, true] {
            let g = gravity_line_step(line, past, 3, 3).unwrap();
            assert_eq!(g.past_header, past);
            assert!(g.gm.is_none() && g.radius.is_none() && g.coefficient.is_none());
        }
    }
}

#[test]
fn header_lines_offer_metadata_and_end_of_head_closes_header() {
    let g = gravity_line_step("earth_gravity_constant      0.3986004415E+15", false, 2, 2).unwrap();
    assert!(!g.past_header);
    assert_eq!(g.gm.as_deref(), Some("0.3986004415E+15"));
    assert!(g.radius.is_none());
    assert!(g.coefficient.is_none());

    let g = gravity_line_step("radius                      0.63781363E+07", false, 2, 2).unwrap();
    assert_eq!(g.radius.as_deref(), Some("0.63781363E+07"));
    assert!(g.gm.is_none());

    let g = gravity_line_step(
        "key     L    M             C                       S",
        false,
        2,
        2,
    )
    .unwrap();
    assert!(!g.past_header && g.coefficient.is_none());

    let g = gravity_line_step("end_of_head =========", false, 2, 2).unwrap();
    assert!(g.past_header);
    assert!(g.coefficient.is_none());

    // Past the header, a metadata line is not read as metadata.
    let g = gravity_line_step("radius 0.63781363E+07", true, 2, 2).unwrap();
    assert!(g.radius.is_none() && g.coefficient.is_none());
}

#[test]
fn gfc_coefficient_lines() {
    let g = gravity_line_step(
        "gfc     2    1   -0.206615509074176e-09    0.138441389137979e-08    0.7e-11    0.7e-11",
        true,
        3,
        3,
    )
    .unwrap();
    let c = g.coefficient.unwrap();
    assert_eq!((c.degree, c.order), (2, 1));
    assert_eq!(c.c, "-0.206615509074176e-09");
    assert_eq!(c.s, "0.138441389137979e-08");
    assert!(c.keep);

    // Degree 0 and terms beyond the requested degree or order are not kept.
    let c = gravity_line_step("gfc 0 0 1.0d0 0.0d0", true, 3, 3).unwrap().coefficient.unwrap();
    assert!(!c.keep);
    let c = gravity_line_step("GFC 3 0 1.0 0.0", true, 2, 2).unwrap().coefficient.unwrap();
    assert_eq!(c.degree, 3);
    assert!(!c.keep);
    let c = gravity_line_step("gfc 2 2 1.0 0.0", true, 2, 1).unwrap().coefficient.unwrap();
    assert!(!c.keep);
    let c = gravity_line_step("gfc 2 1 1.0 0.0", true, 2, 1).unwrap().coefficient.unwrap();
    assert!(c.keep);
}

#[test]
fn plain_coefficient_lines_without_header() {
    let g = gravity_line_step("2 0 -4.84169317386951e-04 0.0", false, 2, 2).unwrap();
    assert!(!g.past_header);
    let c = g.coefficient.unwrap();
    assert_eq!((c.degree, c.order), (2, 0));
    assert_eq!(c.c, "-4.84169317386951e-04");
    assert_eq!(c.s, "0.0");
    assert!(c.keep);

    // Fewer than four fields past the header: nothing.
    let g = gravity_line_step("2 0 1.0", true, 2, 2).unwrap();
    assert!(g.coefficient.is_none());
}

#[test]
fn invalid_degree_or_order_is_a_gravity_error() {
    match gravity_line_step("x 0 1.0 0.0", true, 2, 2) {
        Err(ApogeeError::Gravity(m)) => assert_eq!(m, "invalid degree: invalid digit found in string"),
        other => panic!("unexpected {:?}", other),
    }
    match gravity_line_step("gfc 2 -1 1.0 0.0", true, 2, 2) {
        Err(ApogeeError::Gravity(m)) => assert_eq!(m, "invalid order: invalid digit found in string"),
        other => panic!("unexpected {:?}", other),
    }
    // Before the header ends, a line whose degree does not parse is skipped.
    let g = gravity_line_step("x 0 1.0 0.0", false, 2, 2).unwrap();
    assert!(g.coefficient.is_none());
    // ... but its order is still checked once its degree parses.
    match gravity_line_step("2 y 1.0 0.0", false, 2, 2) {
        Err(ApogeeError::Gravity(m)) => assert_eq!(m, "invalid order: invalid digit found in string"),
        other => panic!("unexpected {:?}", other),
    }
}

const SAMPLE_GFC: &str = "\
product_type                gravity_field\n\
modelname                   EGM2008\n\
earth_gravity_constant      0.3986004415E+15\n\
radius                      0.63781363E+07\n\
max_degree                  2190\n\
\n\
key     L    M             C                       S                    sigma C             sigma S\n\
end_of_head ==========================================\n\
gfc     0    0    1.0d0                    0.0d0                    0.0d0               0.0d0\n\
gfc     2    0   -0.484165143790815e-03    0.000000000000000e+00    0.7481239490e-11    0.0000000000e-00\n\
gfc     2    1   -0.206615509074176e-09    0.138441389137979e-08    0.7063781502e-11    0.7348347201e-11\n\
gfc     2    2    0.243938357328313e-05   -0.140027370385934e-05    0.7230231722e-11    0.7425816951e-11\n\
gfc     3    0    0.957161207093473e-06    0.000000000000000e+00    0.5731430751e-11    0.0000000000e-00\n\
";

fn gzip(data: &[u8]) -> Vec<u8> {
    let mut enc = flate2::write::GzEncoder::new(Vec::new(), flate2::Compression::default());
    enc.write_all(data).unwrap();
    enc.finish().unwrap()
}

fn gravity_message(r: Result<apogee::gravity::GravityFileFields, ApogeeError>) -> String {
    match r {
        Err(ApogeeError::Gravity(m)) => m,
        other => panic!("unexpected {:?}", other),
    }
}

#[test]
fn gfc_file_header_and_coefficients() {
    let f = egm2008_fields(SAMPLE_GFC.as_bytes(), false, 3, 3).unwrap();
    assert_eq!(f.gm.as_deref(), Some("0.3986004415E+15"));
    assert_eq!(f.radius.as_deref(), Some("0.63781363E+07"));
    let terms: Vec<(usize, usize, &str, &str)> =
        f.coefficients.iter().map(|c| (c.degree, c.order, c.c.as_str(), c.s.as_str())).collect();
    assert_eq!(
        terms,
        vec![
            (2, 0, "-0.484165143790815e-03", "0.000000000000000e+00"),
            (2, 1, "-0.206615509074176e-09", "0.138441389137979e-08"),
            (2, 2, "0.243938357328313e-05", "-0.140027370385934e-05"),
            (3, 0, "0.957161207093473e-06", "0.000000000000000e+00"),
        ]
    );
    // Degree 3 is beyond a degree-2 model.
    assert_eq!(egm2008_fields(SAMPLE_GFC.as_bytes(), false, 2, 2).unwrap().coefficients.len(), 3);
}

#[test]
fn gzipped_file_reads_like_the_plain_one() {
    let packed = gzip(SAMPLE_GFC.as_bytes());
    let (bytes, err) = gunzip_bytes(&packed);
    assert_eq!(bytes, SAMPLE_GFC.as_bytes());
    assert!(err.is_none());
    let plain = egm2008_fields(SAMPLE_GFC.as_bytes(), false, 3, 3).unwrap();
    let zipped = egm2008_fields(&packed, true, 3, 3).unwrap();
    assert_eq!(zipped.gm, plain.gm);
    assert_eq!(zipped.radius, plain.radius);
    assert_eq!(zipped.coefficients.len(), plain.coefficients.len());
    for (a, b) in zipped.coefficients.iter().zip(plain.coefficients.iter()) {
        assert_eq!((a.degree, a.order, &a.c, &a.s), (b.degree, b.order, &b.c, &b.s));
    }
}

#[test]
fn broken_gzip_stops_with_a_read_error() {
    let mut packed = gzip(SAMPLE_GFC.as_bytes());
    let n = packed.len();
    packed.truncate(n - 12);
    let m = gravity_message(egm2008_fields(&packed, true, 3, 3));
    assert!(m.starts_with("failed to read EGM2008 line: "), "{m}");
    let m = gravity_message(egm2008_fields(b"not gzip at all", true, 3, 3));
    assert!(m.starts_with("failed to read EGM2008 line: "), "{m}");
}

#[test]
fn plain_file_without_header_crlf_and_no_final_newline() {
    let text = "2 0 -4.84169317386951e-04 0.0\r\n2 2 2.43926074800000e-06 -1.40027358800000e-06";
    let f = egm2008_fields(text.as_bytes(), false, 2, 2).unwrap();
    assert!(f.gm.is_none() && f.radius.is_none());
    assert_eq!(f.coefficients.len(), 2);
    assert_eq!(f.coefficients[0].s, "0.0");
    assert_eq!(f.coefficients[1].s, "-1.40027358800000e-06");
}

#[test]
fn pure_fortran_file_and_unusable_header_values() {
    let text = "radius 6.3781363d6\nradius abc\nend_of_head =====\n\
                gfc 2 0 -4.84165143790815d-04 0.0d0\n\
                gfc 2 1 -2.06615509074176d-10 1.38441389137979d-09\n";
    let f = egm2008_fields(text.as_bytes(), false, 2, 2).unwrap();
    // The last header value that reads as a float counts.
    assert_eq!(f.radius.as_deref(), Some("6.3781363d6"));
    assert_eq!(f.coefficients[0].c, "-4.84165143790815d-04");
    assert_eq!(f.coefficients[1].s, "1.38441389137979d-09");
}

#[test]
fn file_errors_in_file_order() {
    let m = gravity_message(egm2008_fields(b"2 0 1.0 0.0\n2 1 x 0.0\n2 y 1.0 0.0\n", false, 2, 2));
    assert_eq!(m, "invalid C coefficient: invalid float literal");
    // A coefficient outside the model is still read.
    let m = gravity_message(egm2008_fields(b"9 9 1.0 1.2.3\n", false, 2, 2));
    assert_eq!(m, "invalid S coefficient: invalid float literal");
    let m = gravity_message(egm2008_fields(b"2 0 1.0 0.0\n\xff\xfe\n", false, 2, 2));
    assert_eq!(m, "failed to read EGM2008 line: stream did not contain valid UTF-8");
    let m = gravity_message(egm2008_fields(b"end_of_head\nx 0 1.0 0.0\n", false, 2, 2));
    assert_eq!(m, "invalid degree: invalid digit found in string");
    assert!(egm2008_fields(b"", false, 2, 2).unwrap().coefficients.is_empty());
}
