use dp_simplify::coord::Coord;
use dp_simplify::geometry::{FeatureRecord, FieldValue, GeomError, GeomType, RbGeom, SimpleGeometry};
use dp_simplify::reduce_bend::alternate::alternate_spans;
use dp_simplify::reduce_bend::{
    bend_after_validation, bend_first_step, line_step, BendAction, BendPass, BendStep, LineStep, ReduceBendStats,
};
use dp_simplify::simplify::{DpAction, DpEvent, DpStack, SimplifyStats};
use dp_simplify::reduce_bend::detection::{
    detect_bend_spans, extract_subline, plan_co_linear, ANTI_CLOCK_WISE, CLOCK_WISE, FLAT_ANGLE,
};
use dp_simplify::reduce_bend::flagging::{
    flag_bends_in_order, is_next_bend_to_reduce, is_previous_bend_to_reduce,
};
use dp_simplify::reduce_bend::pre_process::{pre_filter_records, set_deduplicated_coords};

fn c(x: f64, y: f64) -> Coord {
    Coord { x_bits: x.to_bits(), y_bits: y.to_bits() }
}

fn pts(n: usize) -> Vec<Coord> {
    (0..n).map(|k| c(k as f64, (k % 3) as f64)).collect()
}

fn line(coords: Vec<Coord>) -> RbGeom {
    RbGeom { id: 1, original_type: GeomType::LineString, is_simplest: false, need_pivot: false, coords }
}

#[test]
fn turning_direction_constants() {
    assert_eq!((ANTI_CLOCK_WISE, CLOCK_WISE, FLAT_ANGLE), (-1, 1, 0));
}

#[test]
fn sublines_of_open_and_closed_lines() {
    let p = pts(7);
    assert_eq!(extract_subline(&p, 5, 1, true), vec![p[5], p[6], p[0], p[1]]);
    assert_eq!(extract_subline(&p, 2, 2, true), p[..6].to_vec());
    assert_eq!(extract_subline(&p, 1, 3, true), p[1..4].to_vec());
    assert!(extract_subline(&p, 4, 2, false).is_empty());
    assert!(extract_subline(&p, 4, 9, false).is_empty());
    assert_eq!(extract_subline(&p, 2, 4, false), p[2..5].to_vec());
    assert!(extract_subline(&[], 0, 3, true).is_empty());
}

#[test]
fn co_linear_vertices_of_an_open_line() {
    let plan = plan_co_linear(&[1, 0, -1, 0, 0, 1], false, 8);
    assert_eq!(plan.deletions, vec![(5, 5), (4, 4), (2, 2)]);
    assert_eq!(plan.angles, vec![1, 1, -1, 1, 1]);
    assert!(!plan.becomes_simplest);
}

#[test]
fn co_linear_scan_stops_on_small_closed_lines() {
    let plan = plan_co_linear(&[1, 0, 0, -1, 0], true, 6);
    assert_eq!(plan.deletions, vec![(4, 4), (2, 2)]);
    assert_eq!(plan.angles, vec![1, 0, -1]);
    assert!(plan.becomes_simplest);
    let plan = plan_co_linear(&[0, 1, 0, 0, -1, 0, 1, 0, 0], true, 10);
    assert_eq!(plan.deletions, vec![(8, 8), (7, 7), (5, 5), (3, 3), (2, 2), (0, 0)]);
    assert_eq!(plan.angles, vec![1, -1, 1]);
    assert!(!plan.becomes_simplest);
    let plan = plan_co_linear(&[], false, 2);
    assert!(plan.deletions.is_empty() && plan.angles.is_empty() && !plan.becomes_simplest);
}

#[test]
fn bends_of_an_open_line() {
    let p = pts(7);
    let mut g = line(p.clone());
    let spans = detect_bend_spans(&[1, 1, -1, -1, 1, 1, 1], &mut g);
    let got: Vec<(usize, usize, Vec<Coord>)> = spans.into_iter().map(|b| (b.i, b.j, b.points)).collect();
    assert_eq!(
        got,
        vec![(0, 2, p[0..3].to_vec()), (1, 4, p[1..5].to_vec()), (3, 6, p[3..7].to_vec())]
    );
    assert!(!g.is_simplest);
}

#[test]
fn bends_of_a_closed_line() {
    let mut r = pts(6);
    r.push(r[0]);
    let mut g = line(r.clone());
    let spans = detect_bend_spans(&[1, -1, -1, 1, 1, 1], &mut g);
    let got: Vec<(usize, usize, Vec<Coord>)> = spans.into_iter().map(|b| (b.i, b.j, b.points)).collect();
    assert_eq!(
        got,
        vec![
            (2, 1, vec![r[2], r[3], r[4], r[5], r[6], r[0], r[1]]),
            (0, 3, r[0..4].to_vec()),
        ]
    );
    let mut g = line(r.clone());
    let spans = detect_bend_spans(&[1, -1, -1, 1, 1, -1], &mut g);
    let got: Vec<(usize, usize)> = spans.iter().map(|b| (b.i, b.j)).collect();
    assert_eq!(got, vec![(5, 1), (0, 3), (2, 5), (4, 0)]);
    assert_eq!(spans[0].points, vec![r[5], r[6], r[0], r[1]]);
    let mut g = line(r.clone());
    assert!(detect_bend_spans(&[1, 1, 1, 1, 1, 1], &mut g).is_empty());
}

#[test]
fn no_angles_no_bends() {
    let mut g = line(pts(2));
    assert!(detect_bend_spans(&[], &mut g).is_empty());
    assert!(g.is_simplest);
}

#[test]
fn neighbours_of_a_bend() {
    let f = [true, false, false, true];
    assert!(is_next_bend_to_reduce(&f, true, 3));
    assert!(!is_next_bend_to_reduce(&f, false, 3));
    assert!(is_previous_bend_to_reduce(&f, true, 0));
    assert!(!is_previous_bend_to_reduce(&f, false, 0));
    assert!(is_previous_bend_to_reduce(&f, false, 1));
    assert!(is_next_bend_to_reduce(&f, false, 2));
    assert!(!is_next_bend_to_reduce(&[], true, 0));
}

#[test]
fn bends_are_flagged_apart() {
    let mut f = vec![false; 5];
    flag_bends_in_order(&mut f, &[2, 3, 0, 4, 1], false).unwrap();
    assert_eq!(f, vec![true, false, true, false, true]);
    let mut f = vec![false; 4];
    flag_bends_in_order(&mut f, &[0, 1, 2, 3], true).unwrap();
    assert_eq!(f, vec![true, false, true, false]);
    let mut f = vec![false; 4];
    flag_bends_in_order(&mut f, &[3, 0], true).unwrap();
    assert_eq!(f, vec![false, false, false, true]);
    for k in 0..f.len() {
        let next = (k + 1) % f.len();
        assert!(!(f[k] && f[next]));
    }
}

#[test]
fn a_closed_line_with_one_bend_is_an_error() {
    let mut f = vec![false];
    assert_eq!(flag_bends_in_order(&mut f, &[0], true), Err(GeomError::ClosedLineWithOneBend));
    assert_eq!(f, vec![false]);
    let mut f = vec![false];
    assert_eq!(flag_bends_in_order(&mut f, &[0], false), Ok(()));
    assert_eq!(f, vec![true]);
}

#[test]
fn alternate_spans_inside_a_bend() {
    assert_eq!(alternate_spans(0, 6), vec![(1, 5), (2, 5), (3, 5), (1, 4), (2, 4), (1, 3)]);
    assert_eq!(alternate_spans(1, 5), vec![(2, 4)]);
    assert_eq!(alternate_spans(0, 4), vec![(1, 3)]);
    assert!(alternate_spans(3, 4).is_empty());
    assert!(alternate_spans(0, 1).is_empty());
    assert!(alternate_spans(0, 3).is_empty());
    assert!(alternate_spans(0, 0).is_empty());
}

/// Runs a pass, answering each try from `outcome`, and returns the bends tried and the end.
fn run_pass(n: usize, closed: bool, outcome: &dyn Fn(usize) -> bool) -> (Vec<usize>, BendAction) {
    let mut pass = BendPass::new(n, closed);
    let mut tried = Vec::new();
    loop {
        match pass.next_action() {
            BendAction::Try(k) => {
                tried.push(k);
                pass.record(outcome(k));
            }
            end => return (tried, end),
        }
    }
}

#[test]
fn bend_pass_open_line_goes_from_last_to_first() {
    let (tried, end) = run_pass(5, false, &|k| k == 3 || k == 1);
    assert_eq!(tried, vec![4, 3, 2, 1, 0]);
    assert_eq!(end, BendAction::Finish { reduced: 2, forget_bends: true, simplest: false });
}

#[test]
fn bend_pass_closed_line_leaves_out_end_bends() {
    let (tried, end) = run_pass(5, true, &|k| k == 2);
    assert_eq!(tried, vec![3, 2, 1]);
    assert_eq!(end, BendAction::Finish { reduced: 1, forget_bends: true, simplest: false });
}

#[test]
fn bend_pass_closed_line_falls_back_to_end_bends() {
    let (tried, end) = run_pass(5, true, &|k| k == 4);
    assert_eq!(tried, vec![3, 2, 1, 0, 4]);
    assert_eq!(end, BendAction::Finish { reduced: 1, forget_bends: true, simplest: false });
    let (tried, end) = run_pass(5, true, &|k| k == 0 || k == 4);
    assert_eq!(tried, vec![3, 2, 1, 0]);
    assert_eq!(end, BendAction::Finish { reduced: 1, forget_bends: true, simplest: false });
    let (tried, end) = run_pass(2, true, &|_| false);
    assert_eq!(tried, vec![0, 1]);
    assert_eq!(end, BendAction::Finish { reduced: 0, forget_bends: false, simplest: false });
    let (tried, _) = run_pass(1, true, &|_| false);
    assert_eq!(tried, vec![0, 0, 0]);
}

#[test]
fn bend_pass_without_bends_marks_line_simplest() {
    let (tried, end) = run_pass(0, false, &|_| true);
    assert!(tried.is_empty());
    assert_eq!(end, BendAction::Finish { reduced: 0, forget_bends: false, simplest: true });
    let (tried, end) = run_pass(0, true, &|_| true);
    assert!(tried.is_empty());
    assert_eq!(end, BendAction::Finish { reduced: 0, forget_bends: false, simplest: true });
}

#[test]
fn reduce_bend_passes_run_until_nothing_is_reduced() {
    let mut stats = ReduceBendStats::new(4, 1, 2);
    assert_eq!((stats.in_nbr_features, stats.nbr_hole_del, stats.nbr_pol_del), (4, 1, 2));
    stats.begin_pass();
    assert!(stats.end_pass(3, 7));
    stats.begin_pass();
    assert!(stats.end_pass(2, 5));
    stats.begin_pass();
    assert!(!stats.end_pass(0, 1));
    assert_eq!(stats.nbr_pass, 3);
    assert_eq!(stats.nbr_bend_reduced, 5);
    assert_eq!(stats.nbr_bend_detected, 7);
    assert_eq!(stats.out_nbr_features, 0);
    assert_eq!(stats.is_structure_valid, None);
}

#[test]
fn simplify_passes_run_until_nothing_is_deleted() {
    let mut stats = SimplifyStats::new(3);
    stats.begin_pass();
    assert!(stats.end_pass(4));
    stats.begin_pass();
    assert!(!stats.end_pass(0));
    assert_eq!(stats.nbr_pass, 2);
    assert_eq!(stats.nbr_vertice_deleted, 4);
    assert_eq!(stats.in_nbr_features, 3);
}

#[test]
fn dp_ranges_without_inner_vertex_or_past_the_line_are_dropped() {
    let mut dp = DpStack::new(vec![(0, 4), (5, 9), (2, 3), (6, 6)]);
    assert_eq!(dp.next_range(8), Some((0, 4)));
    assert!(dp.ranges.is_empty());
    assert_eq!(dp.next_range(8), None);
    assert!(dp.is_simplest);
    assert_eq!(dp.deleted, 0);
}

#[test]
fn dp_splits_reduces_and_keeps() {
    let mut dp = DpStack::new(vec![(0, 6)]);
    let (first, last) = dp.next_range(7).unwrap();
    dp.split(first, 3, last);
    assert_eq!(dp.ranges, vec![(0, 3), (3, 6)]);
    assert_eq!(dp.next_range(7), Some((3, 6)));
    assert_eq!(dp.reduce(3, 6), (4, 5));
    assert_eq!(dp.deleted, 2);
    assert_eq!(dp.next_range(5), Some((0, 3)));
    dp.keep();
    assert!(!dp.is_simplest);
    dp.split(0, 1, 3);
    assert_eq!(dp.next_range(5), Some((1, 3)));
    assert_eq!(dp.next_range(5), None);
    assert_eq!(dp.deleted, 2);
}

#[test]
fn dp_step_follows_tolerance_and_validation() {
    let mut dp = DpStack::new(vec![]);
    assert_eq!(dp.step(0, 6, DpEvent::Measured { farthest: 3, within: false }), DpAction::Next);
    assert_eq!(dp.ranges, vec![(0, 3), (3, 6)]);
    assert_eq!(dp.step(3, 6, DpEvent::Measured { farthest: 4, within: true }), DpAction::Validate);
    assert_eq!(dp.step(3, 6, DpEvent::Validated(true)), DpAction::Delete(4, 5));
    assert_eq!(dp.deleted, 2);
    assert_eq!(dp.step(0, 3, DpEvent::Validated(false)), DpAction::Remeasure);
    assert!(!dp.is_simplest);
    assert_eq!(dp.step(0, 3, DpEvent::Remeasured { farthest: 1, within: true }), DpAction::Next);
    assert_eq!(dp.ranges, vec![(0, 3), (3, 6), (0, 1), (1, 3)]);
    assert_eq!(dp.step(1, 3, DpEvent::Remeasured { farthest: 2, within: false }), DpAction::Next);
    assert_eq!(dp.ranges.len(), 4);
}

#[test]
fn per_line_and_per_bend_decisions() {
    assert_eq!(line_step(true, false), LineStep::Skip);
    assert_eq!(line_step(true, true), LineStep::Skip);
    assert_eq!(line_step(false, false), LineStep::DetectThenReduce);
    assert_eq!(line_step(false, true), LineStep::Reduce);
    assert_eq!(bend_first_step(false), BendStep::Leave);
    assert_eq!(bend_first_step(true), BendStep::Validate);
    assert_eq!(bend_after_validation(false, 2, 6), BendStep::Leave);
    assert_eq!(bend_after_validation(true, 2, 6), BendStep::Reduce { start: 3, end: 5 });
    assert_eq!(bend_after_validation(true, 5, 0), BendStep::Reduce { start: 6, end: usize::MAX });
}

fn square(x: f64, size: f64) -> Vec<Coord> {
    vec![c(x, 0.0), c(x + size, 0.0), c(x + size, size), c(x, size), c(x, 0.0)]
}

fn poly_rec(id: usize, holes: usize) -> FeatureRecord {
    FeatureRecord {
        stable_id: id,
        fid: Some(id as u64),
        attrs: vec![FieldValue::Real(1.25f64.to_bits()), FieldValue::Null],
        geometry: SimpleGeometry::Polygon {
            outer: square(0.0, 10.0),
            inners: (0..holes).map(|h| square(1.0 + h as f64, 0.5)).collect(),
        },
    }
}

#[test]
fn small_polygons_and_holes_are_dropped() {
    let records = vec![
        poly_rec(0, 2),
        poly_rec(1, 1),
        FeatureRecord {
            stable_id: 2,
            fid: None,
            attrs: vec![FieldValue::Integer64(3)],
            geometry: SimpleGeometry::Point(c(1.0, 1.0)),
        },
    ];
    let small = vec![vec![false, true, false], vec![true, true], vec![]];
    let (out, pol, hol) = pre_filter_records(&records, &small, true, true);
    assert_eq!((pol, hol), (1, 1));
    assert_eq!(out.len(), 2);
    match &out[0].geometry {
        SimpleGeometry::Polygon { inners, .. } => assert_eq!(inners, &vec![square(2.0, 0.5)]),
        _ => panic!("expected a polygon"),
    }
    assert_eq!(out[0].attrs, records[0].attrs);
    assert_eq!(out[1], records[2]);
    let (out, pol, hol) = pre_filter_records(&records, &small, false, false);
    assert_eq!((pol, hol), (0, 0));
    assert_eq!(out, records);
    let (out, pol, hol) = pre_filter_records(&records, &small, false, true);
    assert_eq!((out.len(), pol, hol), (3, 0, 2));
}

#[test]
fn lines_are_closed_again_after_removing_duplicates() {
    let mut g = line(square(0.0, 1.0));
    set_deduplicated_coords(&mut g, vec![c(0.0, 0.0), c(1.0, 0.0), c(1.0, 1.0), c(0.0, 1.0)], true);
    assert_eq!(g.coords, square(0.0, 1.0));
    assert!(!g.is_simplest);
    let mut g = line(square(0.0, 1.0));
    set_deduplicated_coords(&mut g, vec![c(0.0, 0.0), c(1.0, 0.0), c(0.0, 0.0)], true);
    assert!(g.is_simplest);
    let mut g = line(vec![c(0.0, 0.0), c(0.0, 0.0)]);
    set_deduplicated_coords(&mut g, vec![c(0.0, 0.0)], false);
    assert!(g.is_simplest);
    let mut g = line(vec![c(0.0, 0.0), c(1.0, 0.0)]);
    set_deduplicated_coords(&mut g, vec![c(0.0, 0.0), c(1.0, 0.0)], false);
    assert!(!g.is_simplest && g.coords.len() == 2);
}
