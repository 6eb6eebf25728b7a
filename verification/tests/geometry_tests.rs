use dp_simplify::coord::{f64_bits_eq, Coord};
use dp_simplify::geometry::{
    close_ring, setup_rb_geom_flags, FeatureRecord, FieldValue, GeomError, GeomType, GsFeature,
    RbGeom, SimpleGeometry,
};
use dp_simplify::output::sort_records_by_id;
use dp_simplify::reduce_bend::pre_process::pre_filter_records;
use dp_simplify::spatial_index::delete_vertex;

fn c(x: f64, y: f64) -> Coord {
    Coord { x_bits: x.to_bits(), y_bits: y.to_bits() }
}

fn rb(id: usize, t: GeomType, coords: Vec<Coord>) -> RbGeom {
    RbGeom { id, original_type: t, is_simplest: false, need_pivot: false, coords }
}

fn rec(stable_id: usize, fid: Option<u64>, geometry: SimpleGeometry) -> FeatureRecord {
    FeatureRecord {
        stable_id,
        fid,
        attrs: vec![FieldValue::Integer(stable_id as i64), FieldValue::Text(format!("f{stable_id}"))],
        geometry,
    }
}

#[test]
fn coordinates_compare_as_binary64_numbers() {
    assert!(f64_bits_eq(1.5f64.to_bits(), 1.5f64.to_bits()));
    assert!(f64_bits_eq(0.0f64.to_bits(), (-0.0f64).to_bits()));
    assert!(!f64_bits_eq(f64::NAN.to_bits(), f64::NAN.to_bits()));
    assert!(!f64_bits_eq(1.0f64.to_bits(), 2.0f64.to_bits()));
    assert!(f64_bits_eq(f64::INFINITY.to_bits(), f64::INFINITY.to_bits()));
    assert!(c(1.0, 2.0) == c(1.0, 2.0));
    assert!(c(0.0, 2.0) == c(-0.0, 2.0));
    assert!(c(f64::NAN, 2.0) != c(f64::NAN, 2.0));
    assert!(c(1.0, 2.0) != c(1.0, 3.0));
}

#[test]
fn geometry_kind_and_coordinates() {
    let p = SimpleGeometry::Point(c(1.0, 2.0));
    assert_eq!(p.geom_type(), GeomType::Point);
    assert_eq!(p.all_coords(), vec![c(1.0, 2.0)]);
    let l = SimpleGeometry::LineString(vec![c(0.0, 0.0), c(1.0, 1.0)]);
    assert_eq!(l.geom_type(), GeomType::LineString);
    assert_eq!(l.all_coords(), vec![c(0.0, 0.0), c(1.0, 1.0)]);
    let poly = SimpleGeometry::Polygon {
        outer: vec![c(0.0, 0.0), c(4.0, 0.0), c(4.0, 4.0), c(0.0, 0.0)],
        inners: vec![
            vec![c(1.0, 1.0), c(2.0, 1.0), c(2.0, 2.0), c(1.0, 1.0)],
            vec![c(3.0, 3.0), c(3.5, 3.0), c(3.5, 3.5), c(3.0, 3.0)],
        ],
    };
    assert_eq!(poly.geom_type(), GeomType::Polygon);
    let all = poly.all_coords();
    assert_eq!(all.len(), 12);
    assert_eq!(all[4], c(1.0, 1.0));
    assert_eq!(all[8], c(3.0, 3.0));
    assert_eq!(all[11], c(3.0, 3.0));
}

#[test]
fn closedness_of_lines() {
    assert!(rb(1, GeomType::LineString, vec![c(0.0, 0.0), c(1.0, 0.0), c(0.0, 0.0)]).is_closed());
    assert!(rb(1, GeomType::LineString, vec![c(0.0, 0.0), c(1.0, 0.0), c(-0.0, 0.0)]).is_closed());
    assert!(!rb(1, GeomType::LineString, vec![c(0.0, 0.0), c(1.0, 0.0)]).is_closed());
    assert!(!rb(1, GeomType::LineString, vec![c(0.0, 0.0)]).is_closed());
    assert!(!rb(1, GeomType::LineString, vec![c(f64::NAN, 0.0), c(f64::NAN, 0.0)]).is_closed());
}

#[test]
fn line_back_to_geometry() {
    let p = rb(3, GeomType::Point, vec![c(5.0, 6.0)]);
    assert_eq!(p.to_simple_geometry(), SimpleGeometry::Point(c(5.0, 6.0)));
    let l = rb(3, GeomType::Polygon, vec![c(0.0, 0.0), c(1.0, 0.0), c(0.0, 0.0)]);
    assert_eq!(
        l.to_simple_geometry(),
        SimpleGeometry::LineString(vec![c(0.0, 0.0), c(1.0, 0.0), c(0.0, 0.0)])
    );
}

#[test]
fn rings_get_closed() {
    assert_eq!(
        close_ring(&[c(0.0, 0.0), c(1.0, 0.0), c(1.0, 1.0)]),
        vec![c(0.0, 0.0), c(1.0, 0.0), c(1.0, 1.0), c(0.0, 0.0)]
    );
    let closed = [c(0.0, 0.0), c(1.0, 0.0), c(1.0, 1.0), c(0.0, 0.0)];
    assert_eq!(close_ring(&closed).len(), 4);
    assert!(close_ring(&[]).is_empty());
    assert_eq!(close_ring(&[c(2.0, 2.0)]).len(), 1);
}

#[test]
fn line_flags_follow_length_and_closure() {
    let mut p = rb(1, GeomType::Point, vec![c(0.0, 0.0)]);
    setup_rb_geom_flags(&mut p, true);
    assert!(p.is_simplest && !p.need_pivot);
    let mut ring = rb(2, GeomType::Polygon, vec![c(0.0, 0.0), c(1.0, 0.0), c(1.0, 1.0), c(0.0, 0.0)]);
    setup_rb_geom_flags(&mut ring, true);
    assert!(!ring.is_simplest && ring.need_pivot);
    let mut open = rb(3, GeomType::LineString, vec![c(0.0, 0.0), c(1.0, 0.0)]);
    setup_rb_geom_flags(&mut open, true);
    assert!(!open.is_simplest && !open.need_pivot);
    let mut short = rb(4, GeomType::LineString, vec![c(0.0, 0.0), c(1e-20, 0.0)]);
    setup_rb_geom_flags(&mut short, false);
    assert!(short.is_simplest && !short.need_pivot);
}

fn sample_records() -> Vec<FeatureRecord> {
    vec![
        rec(
            0,
            Some(10),
            SimpleGeometry::Polygon {
                outer: vec![c(0.0, 0.0), c(4.0, 0.0), c(4.0, 4.0), c(0.0, 0.0)],
                inners: vec![vec![c(1.0, 1.0), c(2.0, 1.0), c(2.0, 2.0), c(1.0, 1.0)]],
            },
        ),
        rec(1, None, SimpleGeometry::LineString(vec![c(0.0, 0.0), c(1.0, 1.0), c(2.0, 0.0)])),
        rec(2, Some(7), SimpleGeometry::Point(c(9.0, 9.0))),
        rec(3, Some(8), SimpleGeometry::Polygon { outer: vec![c(0.0, 0.0), c(1.0, 0.0), c(0.0, 0.0)], inners: vec![] }),
    ]
}

#[test]
fn split_numbers_lines_in_record_order() {
    let records = sample_records();
    let (features, rbs) = GsFeature::from_records(&records).unwrap();
    assert_eq!(features.len(), 4);
    assert_eq!(rbs.iter().map(|g| g.id).collect::<Vec<_>>(), vec![1, 2, 3, 4, 5]);
    assert_eq!(
        rbs.iter().map(|g| g.original_type).collect::<Vec<_>>(),
        vec![GeomType::Polygon, GeomType::Polygon, GeomType::LineString, GeomType::Point, GeomType::Polygon]
    );
    assert_eq!(rbs[1].coords, vec![c(1.0, 1.0), c(2.0, 1.0), c(2.0, 2.0), c(1.0, 1.0)]);
    assert!(rbs[3].is_simplest);
    assert!(!rbs[0].is_simplest && !rbs[0].need_pivot);
    match &features[0] {
        GsFeature::Polygon { rb_geom_ids, fid, .. } => {
            assert_eq!(rb_geom_ids, &vec![1, 2]);
            assert_eq!(*fid, Some(10));
        }
        _ => panic!("expected a polygon"),
    }
    match &features[1] {
        GsFeature::LineString { rb_geom_id, .. } => assert_eq!(*rb_geom_id, 3),
        _ => panic!("expected a line string"),
    }
    match &features[2] {
        GsFeature::Point { rb_geom_id, .. } => assert_eq!(*rb_geom_id, 4),
        _ => panic!("expected a point"),
    }
    assert_eq!(features[3].stable_id(), 3);
}

#[test]
fn rebuilding_split_features_gives_records_back() {
    let records = sample_records();
    let (features, rbs) = GsFeature::from_records(&records).unwrap();
    for (f, r) in features.iter().zip(records.iter()) {
        assert_eq!(&f.rebuild_record(&rbs).unwrap(), r);
    }
}

#[test]
fn rebuild_uses_the_current_lines() {
    let records = sample_records();
    let (features, mut rbs) = GsFeature::from_records(&records).unwrap();
    rbs[2].coords = vec![c(0.0, 0.0), c(2.0, 0.0)];
    let rebuilt = features[1].rebuild_record(&rbs).unwrap();
    assert_eq!(rebuilt.geometry, SimpleGeometry::LineString(vec![c(0.0, 0.0), c(2.0, 0.0)]));
}

#[test]
fn rebuild_reports_missing_lines() {
    let records = sample_records();
    let (features, rbs) = GsFeature::from_records(&records).unwrap();
    let without_hole: Vec<RbGeom> = rbs.iter().filter(|g| g.id != 2).cloned().collect();
    assert_eq!(features[0].rebuild_record(&without_hole), Err(GeomError::MissingRingId(2)));
    let none: Vec<RbGeom> = vec![];
    assert_eq!(features[0].rebuild_record(&none), Err(GeomError::MissingRingId(1)));
    assert_eq!(features[1].rebuild_record(&none), Err(GeomError::MissingLineRbGeomId(3)));
    assert_eq!(features[2].rebuild_record(&none), Err(GeomError::MissingPointRbGeomId(4)));
    let mut emptied = rbs.clone();
    emptied[3].coords.clear();
    assert_eq!(features[2].rebuild_record(&emptied), Err(GeomError::PointHasNoCoordinate));
}

#[test]
fn rebuild_takes_the_first_line_with_an_id() {
    let f = GsFeature::LineString { stable_id: 0, fid: None, attrs: vec![], rb_geom_id: 9 };
    let rbs = vec![
        rb(1, GeomType::LineString, vec![c(5.0, 5.0), c(6.0, 6.0)]),
        rb(9, GeomType::LineString, vec![c(0.0, 0.0), c(1.0, 1.0)]),
        rb(9, GeomType::LineString, vec![c(7.0, 7.0), c(8.0, 8.0)]),
    ];
    assert_eq!(
        f.rebuild_record(&rbs).unwrap().geometry,
        SimpleGeometry::LineString(vec![c(0.0, 0.0), c(1.0, 1.0)])
    );
}

#[test]
fn polygon_without_rings_is_refused() {
    assert_eq!(SimpleGeometry::polygon_from_rings(vec![]), Err(GeomError::PolygonWithoutExterior));
    let g = SimpleGeometry::polygon_from_rings(vec![
        vec![c(0.0, 0.0), c(1.0, 0.0), c(0.0, 0.0)],
        vec![c(0.1, 0.1), c(0.2, 0.1), c(0.1, 0.1)],
    ])
    .unwrap();
    match g {
        SimpleGeometry::Polygon { outer, inners } => {
            assert_eq!(outer.len(), 3);
            assert_eq!(inners.len(), 1);
            assert_eq!(inners[0][1], c(0.2, 0.1));
        }
        _ => panic!("expected a polygon"),
    }
}

#[test]
fn output_is_sorted_stably_by_stable_id_then_fid() {
    let p = |x: f64| SimpleGeometry::Point(c(x, 0.0));
    let records = vec![
        rec(2, Some(1), p(0.0)),
        rec(1, None, p(1.0)),
        rec(1, Some(5), p(2.0)),
        rec(0, Some(3), p(3.0)),
        rec(1, Some(5), p(4.0)),
        rec(1, Some(u64::MAX), p(5.0)),
    ];
    let sorted = sort_records_by_id(records);
    let order: Vec<Coord> = sorted
        .iter()
        .map(|r| match r.geometry {
            SimpleGeometry::Point(q) => q,
            _ => panic!("points only"),
        })
        .collect();
    assert_eq!(order, vec![c(3.0, 0.0), c(2.0, 0.0), c(4.0, 0.0), c(1.0, 0.0), c(5.0, 0.0), c(0.0, 0.0)]);
}

#[test]
fn a_run_gives_back_each_kept_record_in_order() {
    let small_square = vec![c(0.0, 0.0), c(1.0, 0.0), c(1.0, 1.0), c(0.0, 1.0), c(0.0, 0.0)];
    let records = vec![
        rec(3, Some(7), SimpleGeometry::LineString(vec![c(0.0, 0.0), c(1.0, 2.0), c(2.0, 0.0), c(3.0, 1.0)])),
        rec(1, None, SimpleGeometry::Polygon { outer: small_square.clone(), inners: vec![] }),
        rec(2, Some(4), SimpleGeometry::Point(c(5.0, 5.0))),
        rec(1, Some(9), SimpleGeometry::Polygon { outer: small_square.clone(), inners: vec![] }),
    ];
    let small = vec![vec![], vec![true], vec![], vec![false]];
    let (kept, pol, _) = pre_filter_records(&records, &small, true, false);
    assert_eq!(kept.len() + pol, records.len());
    let (features, mut lines) = GsFeature::from_records(&kept).unwrap();
    // Edit the lines: one vertex off the line string and one off the ring.
    delete_vertex(&mut lines[0], 1, 1);
    delete_vertex(&mut lines[2], 2, 2);
    let rebuilt: Vec<FeatureRecord> = features.iter().map(|f| f.rebuild_record(&lines).unwrap()).collect();
    let out = sort_records_by_id(rebuilt);
    let ids: Vec<(usize, Option<u64>)> = out.iter().map(|r| (r.stable_id, r.fid)).collect();
    assert_eq!(ids, vec![(1, Some(9)), (2, Some(4)), (3, Some(7))]);
    assert_eq!(out[0].geometry.geom_type(), GeomType::Polygon);
    assert_eq!(out[2].geometry.all_coords().len(), 3);
    assert_eq!(out[1].attrs, records[2].attrs);
}
