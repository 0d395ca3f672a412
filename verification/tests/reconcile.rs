//! Tests of the geometry reconciler and the partial point accumulators.

use triples_to_geoparquet::assoc::AssocMap;
use triples_to_geoparquet::errors::{Axis, ErrorKind};
use triples_to_geoparquet::geom::{generally_equal, GeoPoint, GeoValue};
use triples_to_geoparquet::interpreter::HashMaps;
use triples_to_geoparquet::partial_point::PartialPoint;
use triples_to_geoparquet::reconciler::{
    combine_geometry_representations, combine_geometry_representations_with_policy,
    MissingTargetPolicy,
};

/// One nanodegree-scaled degree.
const DEG: i128 = 1_000_000_000;

fn base_maps() -> HashMaps {
    HashMaps {
        pid_to_geosparql_skolemization_id: AssocMap::new(),
        geosparql_skolemization_id_to_geometry: AssocMap::new(),
        pid_to_schema_geo_skolemization_id: AssocMap::new(),
        schema_geo_skolemization_id_to_geometry: AssocMap::new(),
    }
}

#[test]
fn test_generally_equal() {
    let geom1 = GeoValue::Point { x: DEG, y: 2 * DEG };
    let geom2 = GeoPoint { x: DEG, y: 2 * DEG };
    assert!(generally_equal(&geom1, &geom2));

    let geom1 = GeoValue::Point { x: DEG, y: 2 * DEG };
    let geom2 = GeoPoint { x: DEG, y: 2_000_010_000 };
    assert!(generally_equal(&geom1, &geom2));

    let geom1 = GeoValue::Point { x: DEG, y: 2 * DEG };
    let geom2 = GeoPoint { x: 1_000_010_000, y: 2 * DEG };
    assert!(generally_equal(&geom1, &geom2));

    let geom1 = GeoValue::Point { x: DEG, y: 2 * DEG };
    let geom2 = GeoPoint { x: 1_000_010_000, y: 2_000_010_000 };
    assert!(generally_equal(&geom1, &geom2));

    let geom1 = GeoValue::Point { x: DEG, y: 2 * DEG };
    let geom2 = GeoPoint { x: 1_100_000_000, y: 2_000_020_000 };
    assert!(!generally_equal(&geom1, &geom2));
}

#[test]
fn test_generally_equal_tolerance_boundary() {
    let geom1 = GeoValue::Point { x: 0, y: 0 };
    // a difference of exactly one thousandth is not within tolerance
    assert!(!generally_equal(&geom1, &GeoPoint { x: 1_000_000, y: 0 }));
    // a difference just under it is
    assert!(generally_equal(&geom1, &GeoPoint { x: 999_999, y: 0 }));
    // a non-point geometry is never generally equal to a point
    let line = GeoValue::Wkt { text: "LINESTRING (0 0, 1 1)".to_string() };
    assert!(!generally_equal(&line, &GeoPoint { x: 0, y: 0 }));
}

#[test]
fn tests_test_combine_geometry_representations() {
    let mut maps = base_maps();
    maps.pid_to_geosparql_skolemization_id.insert("1".to_string(), "2".to_string());
    maps.geosparql_skolemization_id_to_geometry.insert(
        "2".to_string(),
        GeoValue::Point { x: DEG, y: 2 * DEG },
    );
    maps.pid_to_schema_geo_skolemization_id.insert("1".to_string(), "2".to_string());
    maps.schema_geo_skolemization_id_to_geometry.insert(
        "2".to_string(),
        PartialPoint::Complete { x: DEG, y: 2 * DEG },
    );

    let result = combine_geometry_representations(maps);
    assert!(result.is_ok());
}

#[test]
fn triples_lib_test_combine_geometry_representations() {
    let mut maps = base_maps();
    maps.pid_to_geosparql_skolemization_id.insert("1".to_string(), "2".to_string());
    maps.geosparql_skolemization_id_to_geometry.insert(
        "2".to_string(),
        GeoValue::Point { x: DEG, y: 2 * DEG },
    );
    maps.pid_to_schema_geo_skolemization_id.insert("1".to_string(), "2".to_string());
    maps.schema_geo_skolemization_id_to_geometry.insert(
        "2".to_string(),
        PartialPoint::Complete { x: DEG, y: 2 * DEG },
    );

    let result = combine_geometry_representations(maps);
    assert!(result.is_ok());
}

#[test]
fn test_combine_keeps_wkt_over_agreeing_point() {
    let mut maps = base_maps();
    maps.pid_to_geosparql_skolemization_id.insert("f".to_string(), "g".to_string());
    maps.geosparql_skolemization_id_to_geometry.insert(
        "g".to_string(),
        GeoValue::Point { x: 2 * DEG, y: DEG },
    );
    maps.pid_to_schema_geo_skolemization_id.insert("f".to_string(), "p".to_string());
    maps.schema_geo_skolemization_id_to_geometry.insert(
        "p".to_string(),
        PartialPoint::Complete { x: 2 * DEG + 1, y: DEG - 1 },
    );

    let canon = combine_geometry_representations(maps).unwrap();
    assert_eq!(canon.len(), 1);
    assert_eq!(*canon.val_at(0), GeoValue::Point { x: 2 * DEG, y: DEG });
}

#[test]
fn test_combine_incomplete_point() {
    let mut maps = base_maps();
    maps.pid_to_schema_geo_skolemization_id.insert("f".to_string(), "p".to_string());
    maps.schema_geo_skolemization_id_to_geometry.insert(
        "p".to_string(),
        PartialPoint::XOnly { x: DEG },
    );

    let err = combine_geometry_representations(maps).unwrap_err();
    assert_eq!(err.kind(), ErrorKind::IncompletePoint);
}

#[test]
fn test_combine_dangling_geometry_link() {
    let mut maps = base_maps();
    maps.pid_to_geosparql_skolemization_id.insert("f".to_string(), "g".to_string());

    let err = combine_geometry_representations(maps).unwrap_err();
    assert_eq!(err.kind(), ErrorKind::DanglingGeometryLink);
}

#[test]
fn test_combine_missing_point_target() {
    let mut maps = base_maps();
    maps.pid_to_schema_geo_skolemization_id.insert("f".to_string(), "p".to_string());

    let err = combine_geometry_representations(maps).unwrap_err();
    assert_eq!(err.kind(), ErrorKind::MissingPointTarget);
}

#[test]
fn test_combine_skip_policy_skips_missing_targets() {
    let mut maps = base_maps();
    maps.pid_to_geosparql_skolemization_id.insert("f1".to_string(), "g".to_string());
    maps.pid_to_schema_geo_skolemization_id.insert("f2".to_string(), "p".to_string());
    maps.pid_to_schema_geo_skolemization_id.insert("f3".to_string(), "q".to_string());
    maps.schema_geo_skolemization_id_to_geometry.insert(
        "q".to_string(),
        PartialPoint::Complete { x: DEG, y: DEG },
    );

    let canon =
        combine_geometry_representations_with_policy(maps, MissingTargetPolicy::Skip).unwrap();
    assert_eq!(canon.len(), 1);
    assert_eq!(canon.key_at(0), "f3");
    assert_eq!(*canon.val_at(0), GeoValue::Point { x: DEG, y: DEG });
}

#[test]
fn test_combine_non_point_wkt_preserved_beside_point_link() {
    let mut maps = base_maps();
    maps.pid_to_geosparql_skolemization_id.insert("f".to_string(), "g".to_string());
    maps.geosparql_skolemization_id_to_geometry.insert(
        "g".to_string(),
        GeoValue::Wkt { text: "LINESTRING (0 0, 1 1)".to_string() },
    );
    maps.pid_to_schema_geo_skolemization_id.insert("f".to_string(), "p".to_string());
    maps.schema_geo_skolemization_id_to_geometry.insert(
        "p".to_string(),
        PartialPoint::Complete { x: 7 * DEG, y: 7 * DEG },
    );

    let canon = combine_geometry_representations(maps).unwrap();
    assert_eq!(canon.len(), 1);
    assert_eq!(*canon.val_at(0), GeoValue::Wkt { text: "LINESTRING (0 0, 1 1)".to_string() });
}

#[test]
fn test_set_axis_transitions() {
    let x = 2 * DEG;
    let y = DEG;
    let a = PartialPoint::Empty.set_axis(Axis::Longitude, x).unwrap();
    assert_eq!(a, PartialPoint::XOnly { x });
    let a = a.set_axis(Axis::Latitude, y).unwrap();
    assert_eq!(a, PartialPoint::Complete { x, y });

    let b = PartialPoint::Empty.set_axis(Axis::Latitude, y).unwrap();
    assert_eq!(b, PartialPoint::YOnly { y });
    let b = b.set_axis(Axis::Longitude, x).unwrap();
    assert_eq!(b, PartialPoint::Complete { x, y });
}

#[test]
fn test_set_axis_duplicate_fails() {
    assert!(PartialPoint::XOnly { x: DEG }.set_axis(Axis::Longitude, DEG).is_none());
    assert!(PartialPoint::YOnly { y: DEG }.set_axis(Axis::Latitude, DEG).is_none());
    assert!(PartialPoint::Complete { x: DEG, y: DEG }.set_axis(Axis::Latitude, DEG).is_none());
    assert!(PartialPoint::Complete { x: DEG, y: DEG }.set_axis(Axis::Longitude, DEG).is_none());
}
