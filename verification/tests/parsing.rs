//! Tests of the coordinate and well-known-text parsing.

use triples_to_geoparquet::coords::coord_from_triple_term;
use triples_to_geoparquet::encoder::wkt_text_of;
use triples_to_geoparquet::errors::{ErrorKind, TriplesError};
use triples_to_geoparquet::geom::{parse_wkt_from_triple_string, GeoValue};

/// One nanodegree-scaled degree.
const DEG: i128 = 1_000_000_000;

#[test]
fn test_simple() {
    let data = "\"1.0\"^^<http://www.w3.org/2001/XMLSchema#double>";
    assert_eq!(coord_from_triple_term(data).unwrap(), DEG);
}

#[test]
fn test_exponent() {
    let data = "\"1.0E1\"^^<http://www.w3.org/2001/XMLSchema#double>";
    assert_eq!(coord_from_triple_term(data).unwrap(), 10 * DEG);
}

#[test]
fn test_coord_parse_values() {
    assert_eq!(coord_from_triple_term("\"1.5\"").unwrap(), 1_500_000_000);
    assert_eq!(coord_from_triple_term("\"-0.001\"").unwrap(), -1_000_000);
    assert_eq!(coord_from_triple_term("\"2.5E-3\"").unwrap(), 2_500_000);
    assert_eq!(coord_from_triple_term("\".5\"").unwrap(), 500_000_000);
    assert_eq!(coord_from_triple_term("\"5.\"").unwrap(), 5 * DEG);
    assert_eq!(coord_from_triple_term("\"1e2\"").unwrap(), 100 * DEG);
    assert_eq!(coord_from_triple_term("\"+3\"").unwrap(), 3 * DEG);
    assert_eq!(coord_from_triple_term("\"9999999999.0\"").unwrap(), 9_999_999_999 * DEG);
}

#[test]
fn test_coord_parse_truncates_tenth_fractional_digit() {
    assert_eq!(coord_from_triple_term("\"0.1234567891\"").unwrap(), 123_456_789);
}

#[test]
fn test_coord_parse_bounds_by_value_not_digits() {
    // wide exponents and long digit strings are fine while the value is
    // representable
    assert_eq!(coord_from_triple_term("\"1.0E0010\"").unwrap(), 10_000_000_000 * DEG);
    assert_eq!(
        coord_from_triple_term("\"00000000000000000000000000000000001.5\"").unwrap(),
        1_500_000_000
    );
    assert_eq!(coord_from_triple_term("\"15e-1\"").unwrap(), 1_500_000_000);
    assert_eq!(
        coord_from_triple_term("\"1234567890123456789012345678901234567890e-35\"").unwrap(),
        12_345_678_901_234
    );
    assert_eq!(
        coord_from_triple_term("\"-1234567890123456789012345678901234567890e-35\"").unwrap(),
        -12_345_678_901_234
    );
    assert_eq!(coord_from_triple_term("\"-0.0000000001\"").unwrap(), 0);
    assert_eq!(coord_from_triple_term("\"0.0000000005e-1\"").unwrap(), 0);
    assert_eq!(coord_from_triple_term("\"0e99999999999999999999999999\"").unwrap(), 0);
    assert_eq!(coord_from_triple_term("\"1e-99999999999999999999999999\"").unwrap(), 0);
    // values beyond the representable magnitude are rejected
    assert!(coord_from_triple_term("\"1e999\"").is_err());
    assert!(coord_from_triple_term("\"1234567890123456789012345678901234567890\"").is_err());
}

#[test]
fn test_coord_parse_rejects_malformed() {
    for bad in ["\"\"", "\"1..2\"", "\"abc\"", "\"inf\"", "\"1.0F1\"", "\"-\"", "\"1.0E\""] {
        let r = coord_from_triple_term(bad);
        match r {
            Err(e) => assert_eq!(e.kind(), ErrorKind::MalformedNumber),
            Ok(v) => panic!("{} was accepted as {}", bad, v),
        }
    }
}

#[test]
fn test_parse_wkt_point() {
    let term = "\"POINT (1 2)\"^^<http://www.opengis.net/ont/geosparql#wktLiteral>";
    let g = parse_wkt_from_triple_string(term).unwrap();
    assert_eq!(g, GeoValue::Point { x: DEG, y: 2 * DEG });
}

#[test]
fn test_parse_wkt_point_forms() {
    assert_eq!(
        parse_wkt_from_triple_string("\"POINT(1.5 -2.5)\"").unwrap(),
        GeoValue::Point { x: 1_500_000_000, y: -2_500_000_000 }
    );
    assert_eq!(
        parse_wkt_from_triple_string("\"point ( 3 4 )\"").unwrap(),
        GeoValue::Point { x: 3 * DEG, y: 4 * DEG }
    );
}

#[test]
fn test_parse_wkt_point_dimensions() {
    // a dimension word or fused keyword adds coordinates, which are
    // checked for shape and discarded
    assert_eq!(
        parse_wkt_from_triple_string("\"POINT Z (1 2 3)\"").unwrap(),
        GeoValue::Point { x: DEG, y: 2 * DEG }
    );
    assert_eq!(
        parse_wkt_from_triple_string("\"POINTZ (1 2 3)\"").unwrap(),
        GeoValue::Point { x: DEG, y: 2 * DEG }
    );
    assert_eq!(
        parse_wkt_from_triple_string("\"point m (1 2 3)\"").unwrap(),
        GeoValue::Point { x: DEG, y: 2 * DEG }
    );
    assert_eq!(
        parse_wkt_from_triple_string("\"POINT ZM (1 2 3 4)\"").unwrap(),
        GeoValue::Point { x: DEG, y: 2 * DEG }
    );
    assert_eq!(
        parse_wkt_from_triple_string("\"pointzm(1 2 3 4)\"").unwrap(),
        GeoValue::Point { x: DEG, y: 2 * DEG }
    );
}

#[test]
fn test_parse_wkt_empty_point_kept_as_text() {
    // an empty point denotes an empty geometry, never a comparable point
    assert_eq!(
        parse_wkt_from_triple_string("\"POINT EMPTY\"").unwrap(),
        GeoValue::Wkt { text: "POINT EMPTY".to_string() }
    );
    assert_eq!(
        parse_wkt_from_triple_string("\"point z empty\"").unwrap(),
        GeoValue::Wkt { text: "point z empty".to_string() }
    );
}

#[test]
fn test_parse_wkt_trailing_tokens_ignored() {
    assert_eq!(
        parse_wkt_from_triple_string("\"POINT (1 2) lorem\"").unwrap(),
        GeoValue::Point { x: DEG, y: 2 * DEG }
    );
}

#[test]
fn test_parse_wkt_wrong_coordinate_count() {
    // a plain point takes exactly two coordinates, a three-dimensional
    // one exactly three
    for bad in ["\"POINT (1 2 3)\"", "\"POINT Z (1 2)\"", "\"POINTZM (1 2 3)\"", "\"POINTS (1 2)\""] {
        let r = parse_wkt_from_triple_string(bad);
        assert!(matches!(r, Err(TriplesError::MalformedGeometry { .. })), "{} was accepted", bad);
    }
}

#[test]
fn test_point_grammar_agrees_with_wkt_parser() {
    // on point-keyword texts with in-range decimal coordinates, this
    // crate accepts exactly where the WKT parser's geo-types conversion
    // does
    let cases = [
        "POINT (1 2)",
        "POINT(1 2)",
        "POINT ( 1 2 )",
        "pOiNt (7 8)",
        "POINT (+1 .5)",
        "POINT (1e2 2.)",
        "POINT Z (1 2 3)",
        "POINT M (1 2 3)",
        "POINT ZM (1 2 3 4)",
        "POINTZ (1 2 3)",
        "pointzm(1 2 3 4)",
        "POINT (1 2) trailing",
        "POINT EMPTY",
        "POINT Z EMPTY",
        "POINT (1 2 3)",
        "POINT Z (1 2)",
        "POINTS (1 2)",
        "POINT (1, 2)",
        "POINT (1)",
        "POINT (NaN 2)",
        "POINT",
        "POINT ()",
    ];
    for c in cases {
        let ours = parse_wkt_from_triple_string(&format!("\"{}\"", c)).is_ok();
        let theirs =
            <geo_types::Geometry<f64> as wkt::TryFromWkt<f64>>::try_from_wkt_str(c).is_ok();
        assert_eq!(ours, theirs, "disagreement on {:?}", c);
    }
}

#[test]
fn test_parse_wkt_linestring_kept_as_text() {
    let term = "\"LINESTRING (0 0, 1 1)\"^^<http://www.opengis.net/ont/geosparql#wktLiteral>";
    let g = parse_wkt_from_triple_string(term).unwrap();
    assert_eq!(g, GeoValue::Wkt { text: "LINESTRING (0 0, 1 1)".to_string() });
}

#[test]
fn test_parse_wkt_rejects_garbage() {
    for bad in [
        "\"POINT (1)\"",
        "\"POINT (1 2\"",
        "\"POINT (1, 2)\"",
        "\"FOO (1 2)\"",
        "POINT (1 2)",
    ] {
        let r = parse_wkt_from_triple_string(bad);
        match r {
            Err(TriplesError::MalformedGeometry { literal }) => assert_eq!(literal, bad),
            other => panic!("{} gave {:?}", bad, other),
        }
    }
}

#[test]
fn test_render_parse_round_trip() {
    let p = GeoValue::Point { x: 1_500_000_000, y: -2_250_000_000 };
    let term = format!("\"{}\"^^<http://www.opengis.net/ont/geosparql#wktLiteral>", wkt_text_of(&p));
    assert_eq!(parse_wkt_from_triple_string(&term).unwrap(), p);
}

#[test]
fn test_wkt_text_rendering() {
    let p = GeoValue::Point { x: 1_500_000_000, y: -2_250_000_000 };
    assert_eq!(wkt_text_of(&p), "POINT (1.500000000 -2.250000000)");
    let l = GeoValue::Wkt { text: "LINESTRING (0 0, 1 1)".to_string() };
    assert_eq!(wkt_text_of(&l), "LINESTRING (0 0, 1 1)");
}
