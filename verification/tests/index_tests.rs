use dp_simplify::coord::Coord;
use dp_simplify::geometry::{GeomError, GeomType, RbGeom, SimpleGeometry};
use dp_simplify::spatial_index::{
    add_vertex, can_delete_vertex, delete_vertex, line_pieces, SegmentEdit, SegmentGeometry,
    SegmentRecord, SegmentStore,
};

fn c(x: f64, y: f64) -> Coord {
    Coord { x_bits: x.to_bits(), y_bits: y.to_bits() }
}

fn pts(n: usize) -> Vec<Coord> {
    (0..n).map(|k| c(k as f64, (k * k) as f64)).collect()
}

fn line(coords: Vec<Coord>) -> RbGeom {
    RbGeom { id: 7, original_type: GeomType::LineString, is_simplest: false, need_pivot: false, coords }
}

fn ring(n: usize) -> Vec<Coord> {
    let mut v = pts(n);
    v.push(v[0]);
    v
}

fn segments(v: &[Coord]) -> Vec<(Coord, Coord)> {
    v.windows(2).map(|w| (w[0], w[1])).collect()
}

#[test]
fn deleting_inner_vertices_of_an_open_line() {
    let p = pts(5);
    let mut g = line(p.clone());
    assert!(can_delete_vertex(&g, 1, 2));
    let edits = delete_vertex(&mut g, 1, 2);
    assert_eq!(g.coords, vec![p[0], p[3], p[4]]);
    assert_eq!(
        edits,
        vec![
            SegmentEdit::Remove(p[0], p[1]),
            SegmentEdit::Remove(p[1], p[2]),
            SegmentEdit::Remove(p[2], p[3]),
            SegmentEdit::Insert(p[0], p[3]),
        ]
    );
    assert_eq!(g.id, 7);
}

#[test]
fn deleting_the_first_vertices_of_a_closed_line() {
    let r = ring(5);
    let mut g = line(r.clone());
    assert!(g.is_closed());
    let edits = delete_vertex(&mut g, 0, 1);
    assert_eq!(g.coords, vec![r[2], r[3], r[4], r[2]]);
    assert_eq!(
        edits,
        vec![
            SegmentEdit::Remove(r[4], r[0]),
            SegmentEdit::Remove(r[0], r[1]),
            SegmentEdit::Remove(r[1], r[2]),
            SegmentEdit::Insert(r[4], r[2]),
        ]
    );
    assert!(g.is_closed());
}

#[test]
fn deleting_a_run_over_the_closing_point() {
    // Ring a..g closed on a; delete from vertex 5 (f) over the closing point to vertex 1 (b).
    let r = ring(7);
    let mut g = line(r.clone());
    assert!(can_delete_vertex(&g, 5, 1));
    let edits = delete_vertex(&mut g, 5, 1);
    assert_eq!(g.coords, vec![r[2], r[3], r[4], r[2]]);
    assert_eq!(
        edits,
        vec![
            SegmentEdit::Remove(r[4], r[5]),
            SegmentEdit::Remove(r[5], r[6]),
            SegmentEdit::Remove(r[6], r[0]),
            SegmentEdit::Insert(r[4], r[0]),
            SegmentEdit::Remove(r[4], r[0]),
            SegmentEdit::Remove(r[0], r[1]),
            SegmentEdit::Remove(r[1], r[2]),
            SegmentEdit::Insert(r[4], r[2]),
        ]
    );
    assert!(g.is_closed());
}

#[test]
fn wrapping_deletion_replays_to_the_new_segments() {
    // Applying the edits to the old segments, one match at a time, gives the new segments.
    let r = ring(7);
    let mut g = line(r.clone());
    let mut index = segments(&r);
    let edits = delete_vertex(&mut g, 5, 0);
    for edit in edits {
        match edit {
            SegmentEdit::Remove(a, b) => {
                let k = index.iter().position(|s| *s == (a, b)).expect("segment in index");
                index.remove(k);
            }
            SegmentEdit::Insert(a, b) => index.push((a, b)),
        }
    }
    let mut expected = segments(&g.coords);
    assert_eq!(g.coords, vec![r[1], r[2], r[3], r[4], r[1]]);
    index.sort_by(|x, y| format!("{x:?}").cmp(&format!("{y:?}")));
    expected.sort_by(|x, y| format!("{x:?}").cmp(&format!("{y:?}")));
    assert_eq!(index, expected);
}

#[test]
fn a_wrapping_deletion_must_keep_a_vertex() {
    let r = ring(7);
    let g = line(r.clone());
    assert!(can_delete_vertex(&g, 5, 3));
    assert!(!can_delete_vertex(&g, 5, 4));
    assert!(!can_delete_vertex(&g, 4, 3));
}

#[test]
fn deletion_indices_are_normalised() {
    // The closing point stands for the first point, and usize::MAX (0 - 1) for the vertex
    // before the closing point.
    let r = ring(6);
    let mut g = line(r.clone());
    let edits = delete_vertex(&mut g, 4, usize::MAX);
    assert_eq!(g.coords, vec![r[0], r[1], r[2], r[3], r[0]]);
    assert_eq!(edits.len(), 4);
    let mut h = line(r.clone());
    let e2 = delete_vertex(&mut h, 6, 1);
    assert_eq!(h.coords, vec![r[2], r[3], r[4], r[5], r[2]]);
    assert_eq!(e2.last(), Some(&SegmentEdit::Insert(r[5], r[2])));
}

#[test]
fn impossible_deletions_are_reported() {
    let open = line(pts(5));
    assert!(!can_delete_vertex(&open, 0, 1));
    assert!(!can_delete_vertex(&open, 2, 4));
    assert!(!can_delete_vertex(&open, 3, 1));
    assert!(!can_delete_vertex(&line(vec![]), 0, 0));
    assert!(can_delete_vertex(&open, 1, 3));
    let closed = line(ring(5));
    assert!(can_delete_vertex(&closed, 0, 0));
    assert!(can_delete_vertex(&closed, 4, 0));
}

#[test]
fn index_edits_replay_to_the_new_segments() {
    let r = ring(8);
    for (s, e) in [(1usize, 3usize), (0, 2), (6, 1), (5, usize::MAX), (7, 2)] {
        let mut g = line(r.clone());
        let mut index = segments(&r);
        for edit in delete_vertex(&mut g, s, e) {
            match edit {
                SegmentEdit::Remove(a, b) => {
                    let pos = index
                        .iter()
                        .position(|&(x, y)| x == a && y == b)
                        .expect("removed segment is in the index");
                    index.remove(pos);
                }
                SegmentEdit::Insert(a, b) => index.push((a, b)),
            }
        }
        let mut want = segments(&g.coords);
        let key = |p: &(Coord, Coord)| (p.0.x_bits, p.0.y_bits, p.1.x_bits, p.1.y_bits);
        index.sort_by_key(key);
        want.sort_by_key(key);
        assert_eq!(index, want, "deleting {s}..{e}");
    }
}

#[test]
fn inserting_vertices_between_neighbours() {
    let p = pts(4);
    let mut g = line(p.clone());
    let sub = vec![p[1], c(10.0, 10.0), c(11.0, 11.0), p[2]];
    let edits = add_vertex(&mut g, 1, 2, &sub).unwrap();
    assert_eq!(g.coords, vec![p[0], p[1], c(10.0, 10.0), c(11.0, 11.0), p[2], p[3]]);
    assert_eq!(
        edits,
        vec![
            SegmentEdit::Remove(p[1], p[2]),
            SegmentEdit::Insert(p[1], c(10.0, 10.0)),
            SegmentEdit::Insert(c(10.0, 10.0), c(11.0, 11.0)),
            SegmentEdit::Insert(c(11.0, 11.0), p[2]),
        ]
    );
}

#[test]
fn inserting_vertices_keeps_rings_closed() {
    let r = ring(5);
    let mut g = line(r.clone());
    add_vertex(&mut g, 3, 4, &[r[3], c(-1.0, -1.0), r[4]]).unwrap();
    assert!(g.is_closed());
    assert_eq!(g.coords.len(), 7);
}

#[test]
fn insertion_errors() {
    let p = pts(4);
    let mut g = line(p.clone());
    assert_eq!(add_vertex(&mut g, 0, 2, &p), Err(GeomError::VerticesNotAdjacent));
    assert_eq!(add_vertex(&mut g, 3, 4, &p), Err(GeomError::VertexOutOfBounds));
    assert_eq!(add_vertex(&mut g, usize::MAX, 0, &p), Err(GeomError::VerticesNotAdjacent));
    assert_eq!(g.coords, p);
    let edits = add_vertex(&mut g, 0, 1, &[p[0]]).unwrap();
    assert_eq!(edits, vec![SegmentEdit::Remove(p[0], p[1]), SegmentEdit::Insert(p[0], p[1])]);
    assert_eq!(g.coords, p);
}

#[test]
fn segment_geometry_as_simple_geometry() {
    let s = SegmentGeometry::Segment(c(0.0, 0.0), c(1.0, 2.0));
    assert_eq!(s.to_simple_geometry(), SimpleGeometry::LineString(vec![c(0.0, 0.0), c(1.0, 2.0)]));
    assert_eq!(SegmentGeometry::Point(c(3.0, 3.0)).to_simple_geometry(), SimpleGeometry::Point(c(3.0, 3.0)));
}

#[test]
fn store_gives_back_what_was_stored() {
    let mut store = SegmentStore::new();
    let a = SegmentGeometry::Segment(c(0.0, 0.0), c(1.0, 0.0));
    let b = SegmentGeometry::Point(c(5.0, 5.0));
    let id1 = store.insert_record(1, a);
    let id2 = store.insert_record(2, b);
    assert_eq!((id1, id2), (1, 2));
    assert_eq!(store.get(id1), Some(SegmentRecord { owner_geom_id: 1, geom: a }));
    assert_eq!(store.get(id2), Some(SegmentRecord { owner_geom_id: 2, geom: b }));
    assert_eq!(store.get(0), None);
    assert_eq!(store.get(3), None);
    store.remove(id1);
    assert_eq!(store.get(id1), None);
    assert_eq!(store.get(id2), Some(SegmentRecord { owner_geom_id: 2, geom: b }));
    let id3 = store.insert_record(1, a);
    assert_eq!(id3, 3);
}

#[test]
fn pieces_that_index_a_line() {
    let p = pts(3);
    assert_eq!(
        line_pieces(&line(p.clone())),
        vec![SegmentGeometry::Segment(p[0], p[1]), SegmentGeometry::Segment(p[1], p[2])]
    );
    let point = RbGeom { id: 2, original_type: GeomType::Point, is_simplest: true, need_pivot: false, coords: vec![p[1]] };
    assert_eq!(line_pieces(&point), vec![SegmentGeometry::Point(p[1])]);
    let empty = RbGeom { id: 3, original_type: GeomType::Point, is_simplest: true, need_pivot: false, coords: vec![] };
    assert!(line_pieces(&empty).is_empty());
    assert!(line_pieces(&line(vec![p[0]])).is_empty());
}
