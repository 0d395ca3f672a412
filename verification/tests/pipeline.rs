//! Tests of the whole shard pipeline: quads in, record batch columns out.

use triples_to_geoparquet::encoder::generate_schema;
use triples_to_geoparquet::errors::{Axis, ErrorKind, TriplesError};
use triples_to_geoparquet::interpreter::{read_triples_into_maps, Quad};
use triples_to_geoparquet::partial_point::PartialPoint;
use triples_to_geoparquet::process_shard;
use triples_to_geoparquet::reconciler::MissingTargetPolicy;

/// One nanodegree-scaled degree.
const DEG: i128 = 1_000_000_000;

const HAS_GEOMETRY: &str = "<http://www.opengis.net/ont/geosparql#hasGeometry>";
const AS_WKT: &str = "<http://www.opengis.net/ont/geosparql#asWKT>";
const GEO: &str = "<https://schema.org/geo>";
const LATITUDE: &str = "<https://schema.org/latitude>";
const LONGITUDE: &str = "<https://schema.org/longitude>";

fn quad(subject: &str, predicate: &str, object: &str) -> Quad {
    Quad {
        subject: subject.to_string(),
        predicate: predicate.to_string(),
        object: object.to_string(),
    }
}

fn wkt_literal(body: &str) -> String {
    format!("\"{}\"^^<http://www.opengis.net/ont/geosparql#wktLiteral>", body)
}

fn double_literal(body: &str) -> String {
    format!("\"{}\"^^<http://www.w3.org/2001/XMLSchema#double>", body)
}

#[test]
fn test_read_triples_into_arrays() {
    // PID --hasGeometry--> skolem node, skolem node --asWKT--> WKT literal
    let quads = vec![
        quad("<http://example.org/feature/1>", HAS_GEOMETRY, "_:geom1"),
        quad("_:geom1", AS_WKT, &wkt_literal("POINT (1 2)")),
    ];

    let columns = process_shard(&quads, MissingTargetPolicy::Abort)
        .expect("Expected triples to be parsed successfully");

    assert_eq!(columns.geometry_wkts.len(), 1);
    assert_eq!(columns.ids.len(), 1);
    assert_eq!(columns.ids[0], "<http://example.org/feature/1>");
    assert_eq!(columns.geometry_wkts[0], "POINT (1.000000000 2.000000000)");
}

#[test]
fn test_wkt_only_feature() {
    let quads = vec![
        quad("<f1>", HAS_GEOMETRY, "_:g1"),
        quad("_:g1", AS_WKT, &wkt_literal("POINT (1 2)")),
    ];
    let columns = process_shard(&quads, MissingTargetPolicy::Abort).unwrap();
    assert_eq!(columns.ids, vec!["<f1>".to_string()]);
    assert_eq!(columns.geometry_wkts, vec!["POINT (1.000000000 2.000000000)".to_string()]);
}

#[test]
fn test_three_dimensional_wkt_point() {
    // the third coordinate is discarded; the canonical geometry is the
    // two-dimensional point
    let quads = vec![
        quad("<f1>", HAS_GEOMETRY, "_:g1"),
        quad("_:g1", AS_WKT, &wkt_literal("POINT Z (1 2 3)")),
    ];
    let columns = process_shard(&quads, MissingTargetPolicy::Abort).unwrap();
    assert_eq!(columns.ids, vec!["<f1>".to_string()]);
    assert_eq!(columns.geometry_wkts, vec!["POINT (1.000000000 2.000000000)".to_string()]);
}

#[test]
fn test_empty_point_feature() {
    // an empty point is carried through as an empty geometry row
    let quads = vec![
        quad("<f1>", HAS_GEOMETRY, "_:g1"),
        quad("_:g1", AS_WKT, &wkt_literal("POINT EMPTY")),
    ];
    let columns = process_shard(&quads, MissingTargetPolicy::Abort).unwrap();
    assert_eq!(columns.ids, vec!["<f1>".to_string()]);
    assert_eq!(columns.geometry_wkts, vec!["POINT EMPTY".to_string()]);
}

#[test]
fn test_point_only_feature() {
    let quads = vec![
        quad("<f1>", GEO, "_:p1"),
        quad("_:p1", LATITUDE, &double_literal("1.0")),
        quad("_:p1", LONGITUDE, &double_literal("2.0")),
    ];
    let columns = process_shard(&quads, MissingTargetPolicy::Abort).unwrap();
    assert_eq!(columns.ids, vec!["<f1>".to_string()]);
    // the canonical point pairs the longitude as x with the latitude as y
    assert_eq!(columns.geometry_wkts, vec!["POINT (2.000000000 1.000000000)".to_string()]);
}

#[test]
fn test_point_axis_order_independent() {
    let lat_first = vec![
        quad("<f1>", GEO, "_:p1"),
        quad("_:p1", LATITUDE, &double_literal("1.0")),
        quad("_:p1", LONGITUDE, &double_literal("2.0")),
    ];
    let lon_first = vec![
        quad("<f1>", GEO, "_:p1"),
        quad("_:p1", LONGITUDE, &double_literal("2.0")),
        quad("_:p1", LATITUDE, &double_literal("1.0")),
    ];
    let a = process_shard(&lat_first, MissingTargetPolicy::Abort).unwrap();
    let b = process_shard(&lon_first, MissingTargetPolicy::Abort).unwrap();
    assert_eq!(a.ids, b.ids);
    assert_eq!(a.geometry_wkts, b.geometry_wkts);

    let maps = read_triples_into_maps(&lon_first).unwrap();
    let pp = maps
        .schema_geo_skolemization_id_to_geometry
        .get(&"_:p1".to_string())
        .copied()
        .unwrap();
    assert_eq!(pp, PartialPoint::Complete { x: 2 * DEG, y: DEG });
}

#[test]
fn test_duplicate_axis_fails() {
    let quads = vec![
        quad("<f1>", GEO, "_:p1"),
        quad("_:p1", LATITUDE, &double_literal("1.0")),
        quad("_:p1", LATITUDE, &double_literal("1.0")),
    ];
    let err = process_shard(&quads, MissingTargetPolicy::Abort).unwrap_err();
    match err {
        TriplesError::DuplicateCoordinate { skolem_id, axis } => {
            assert_eq!(skolem_id, "_:p1");
            assert_eq!(axis, Axis::Latitude);
        },
        other => panic!("expected a duplicate coordinate, got {:?}", other),
    }
}

#[test]
fn test_agreeing_point_keeps_wkt() {
    // WKT point (2,1) plus schema.org geo with latitude=1.0, longitude=2.0
    let quads = vec![
        quad("<f1>", HAS_GEOMETRY, "_:g1"),
        quad("_:g1", AS_WKT, &wkt_literal("POINT (2 1)")),
        quad("<f1>", GEO, "_:p1"),
        quad("_:p1", LATITUDE, &double_literal("1.0")),
        quad("_:p1", LONGITUDE, &double_literal("2.0")),
    ];
    let columns = process_shard(&quads, MissingTargetPolicy::Abort).unwrap();
    assert_eq!(columns.ids, vec!["<f1>".to_string()]);
    assert_eq!(columns.geometry_wkts, vec!["POINT (2.000000000 1.000000000)".to_string()]);
}

#[test]
fn test_conflicting_point_fails() {
    // same as the agreeing case, but the latitude is far off
    let quads = vec![
        quad("<f1>", HAS_GEOMETRY, "_:g1"),
        quad("_:g1", AS_WKT, &wkt_literal("POINT (2 1)")),
        quad("<f1>", GEO, "_:p1"),
        quad("_:p1", LATITUDE, &double_literal("9999999999.0")),
        quad("_:p1", LONGITUDE, &double_literal("2.0")),
    ];
    let err = process_shard(&quads, MissingTargetPolicy::Abort).unwrap_err();
    match err {
        TriplesError::GeometryConflict { pid, .. } => assert_eq!(pid, "<f1>"),
        other => panic!("expected a geometry conflict, got {:?}", other),
    }
}

#[test]
fn test_row_count_and_unique_ids() {
    let quads = vec![
        quad("<f1>", HAS_GEOMETRY, "_:g1"),
        quad("_:g1", AS_WKT, &wkt_literal("POINT (1 2)")),
        quad("<f2>", GEO, "_:p1"),
        quad("_:p1", LATITUDE, &double_literal("3.0")),
        quad("_:p1", LONGITUDE, &double_literal("4.0")),
        quad("<f3>", HAS_GEOMETRY, "_:g2"),
        quad("_:g2", AS_WKT, &wkt_literal("LINESTRING (0 0, 1 1)")),
    ];
    let columns = process_shard(&quads, MissingTargetPolicy::Abort).unwrap();
    assert_eq!(columns.ids.len(), 3);
    assert_eq!(columns.geometry_wkts.len(), 3);
    let mut ids = columns.ids.clone();
    ids.sort();
    ids.dedup();
    assert_eq!(ids.len(), 3);
}

#[test]
fn test_latest_link_wins() {
    let quads = vec![
        quad("<f1>", HAS_GEOMETRY, "_:g1"),
        quad("<f1>", HAS_GEOMETRY, "_:g2"),
        quad("_:g1", AS_WKT, &wkt_literal("POINT (1 1)")),
        quad("_:g2", AS_WKT, &wkt_literal("POINT (5 6)")),
    ];
    let columns = process_shard(&quads, MissingTargetPolicy::Abort).unwrap();
    assert_eq!(columns.ids, vec!["<f1>".to_string()]);
    assert_eq!(columns.geometry_wkts, vec!["POINT (5.000000000 6.000000000)".to_string()]);
}

#[test]
fn test_unreferenced_point_ignored() {
    // a latitude for a skolem id never linked from any feature: no row, no error
    let quads = vec![quad("_:p9", LATITUDE, &double_literal("5.0"))];
    let columns = process_shard(&quads, MissingTargetPolicy::Abort).unwrap();
    assert_eq!(columns.ids.len(), 0);
    assert_eq!(columns.geometry_wkts.len(), 0);
}

#[test]
fn test_unknown_predicates_ignored() {
    let quads = vec![
        quad("<f1>", "<https://schema.org/name>", "\"somewhere\""),
        quad("<f1>", HAS_GEOMETRY, "_:g1"),
        quad("_:g1", AS_WKT, &wkt_literal("POINT (1 2)")),
    ];
    let columns = process_shard(&quads, MissingTargetPolicy::Abort).unwrap();
    assert_eq!(columns.ids.len(), 1);
}

#[test]
fn test_empty_shard() {
    let quads: Vec<Quad> = Vec::new();
    let columns = process_shard(&quads, MissingTargetPolicy::Abort).unwrap();
    assert_eq!(columns.ids.len(), 0);
    assert_eq!(columns.geometry_wkts.len(), 0);
}

#[test]
fn test_malformed_wkt_literal_fails_shard() {
    // the datatype marker is missing, so the literal is not well-formed
    let quads = vec![quad("_:g1", AS_WKT, "\"POINT (1)\"wktLiteral")];
    let err = process_shard(&quads, MissingTargetPolicy::Abort).unwrap_err();
    assert_eq!(err.kind(), ErrorKind::MalformedGeometry);
}

#[test]
fn test_malformed_number_fails_shard() {
    let quads = vec![quad("_:p1", LATITUDE, &double_literal("north"))];
    let err = process_shard(&quads, MissingTargetPolicy::Abort).unwrap_err();
    assert_eq!(err.kind(), ErrorKind::MalformedNumber);
}

#[test]
fn test_dangling_link_aborts_or_skips_by_policy() {
    let quads = vec![quad("<f1>", HAS_GEOMETRY, "_:g1")];
    let err = process_shard(&quads, MissingTargetPolicy::Abort).unwrap_err();
    match err {
        TriplesError::DanglingGeometryLink { pid, skolem_id } => {
            assert_eq!(pid, "<f1>");
            assert_eq!(skolem_id, "_:g1");
        },
        other => panic!("expected a dangling geometry link, got {:?}", other),
    }
    let columns = process_shard(&quads, MissingTargetPolicy::Skip).unwrap();
    assert_eq!(columns.ids.len(), 0);
}

#[test]
fn test_generate_schema() {
    let schema = generate_schema();
    assert_eq!(schema.fields().len(), 2);
    assert_eq!(schema.field(0).name(), "geometry");
    assert!(!schema.field(0).is_nullable());
    assert_eq!(schema.field(1).name(), "id");
    assert_eq!(*schema.field(1).data_type(), arrow_schema::DataType::Utf8);
    assert!(!schema.field(1).is_nullable());
}
