//! The feature and geometry model, and the split of features into rings and back.
use vstd::prelude::*;

use crate::coord::{coord_eq, Coord};

verus! {

/// Kind of a simple geometry.
#[derive(Debug, Clone, Copy, PartialEq, Eq, Structural)]
pub enum GeomType {
    Point,
    LineString,
    Polygon,
}

/// An attribute value of a feature. A real is kept as its binary64 bit pattern.
#[derive(Debug, PartialEq)]
pub enum FieldValue {
    Integer(i64),
    Integer64(i64),
    Real(u64),
    Text(String),
    Null,
}

impl Clone for FieldValue {
    fn clone(&self) -> (r: Self)
        ensures
            r == *self,
    {
        match self {
            FieldValue::Integer(v) => FieldValue::Integer(*v),
            FieldValue::Integer64(v) => FieldValue::Integer64(*v),
            FieldValue::Real(v) => FieldValue::Real(*v),
            FieldValue::Text(s) => FieldValue::Text(s.clone()),
            FieldValue::Null => FieldValue::Null,
        }
    }
}

/// A point, a line string, or a polygon with its holes.
#[derive(Debug, Clone, PartialEq)]
pub enum SimpleGeometry {
    Point(Coord),
    LineString(Vec<Coord>),
    Polygon { outer: Vec<Coord>, inners: Vec<Vec<Coord>> },
}

/// What a [`SimpleGeometry`] holds, as sequences.
pub ghost enum GeometryModel {
    Point(Coord),
    LineString(Seq<Coord>),
    Polygon { outer: Seq<Coord>, inners: Seq<Seq<Coord>> },
}

/// The rings of a list of rings, as sequences.
pub open spec fn rings_view(rings: Seq<Vec<Coord>>) -> Seq<Seq<Coord>> {
    rings.map_values(|ring: Vec<Coord>| ring@)
}

impl View for SimpleGeometry {
    type V = GeometryModel;

    open spec fn view(&self) -> GeometryModel {
        match self {
            SimpleGeometry::Point(c) => GeometryModel::Point(*c),
            SimpleGeometry::LineString(coords) => GeometryModel::LineString(coords@),
            SimpleGeometry::Polygon { outer, inners } => GeometryModel::Polygon {
                outer: outer@,
                inners: rings_view(inners@),
            },
        }
    }
}

/// The kind of a geometry model.
pub open spec fn model_type(g: GeometryModel) -> GeomType {
    match g {
        GeometryModel::Point(_) => GeomType::Point,
        GeometryModel::LineString(_) => GeomType::LineString,
        GeometryModel::Polygon { .. } => GeomType::Polygon,
    }
}

/// All coordinates of a geometry model: the outer ring first, then each hole in turn.
pub open spec fn model_coords(g: GeometryModel) -> Seq<Coord> {
    match g {
        GeometryModel::Point(c) => seq![c],
        GeometryModel::LineString(coords) => coords,
        GeometryModel::Polygon { outer, inners } => outer + inners.flatten(),
    }
}

impl SimpleGeometry {
    pub fn geom_type(&self) -> (r: GeomType)
        ensures
            r == model_type(self@),
    {
        match self {
            SimpleGeometry::Point(_) => GeomType::Point,
            SimpleGeometry::LineString(_) => GeomType::LineString,
            SimpleGeometry::Polygon { .. } => GeomType::Polygon,
        }
    }

    pub fn all_coords(&self) -> (r: Vec<Coord>)
        ensures
            r@ == model_coords(self@),
    {
        match self {
            SimpleGeometry::Point(c) => vec![*c],
            SimpleGeometry::LineString(coords) => coords.clone(),
            SimpleGeometry::Polygon { outer, inners } => {
                let mut out = outer.clone();
                let ghost rings = rings_view(inners@);
                let mut k: usize = 0;
                while k < inners.len()
                    invariant
                        k <= inners.len(),
                        rings == rings_view(inners@),
                        out@ == outer@ + rings.take(k as int).flatten(),
                    decreases inners.len() - k,
                {
                    let ghost before = out@;
                    out.extend_from_slice(inners[k].as_slice());
                    proof {
                        assert(out@ =~= before + rings[k as int]);
                        assert(rings.take(k as int).push(rings[k as int]) =~= rings.take(k + 1));
                        rings.take(k as int).lemma_flatten_push(rings[k as int]);
                    }
                    k = k + 1;
                }
                proof {
                    assert(rings.take(inners.len() as int) =~= rings);
                }
                out
            }
        }
    }
}


/// A feature as read from a layer: its identity, attributes and geometry.
#[derive(Debug, Clone, PartialEq)]
pub struct FeatureRecord {
    pub stable_id: usize,
    pub fid: Option<u64>,
    pub attrs: Vec<FieldValue>,
    pub geometry: SimpleGeometry,
}

/// What a [`FeatureRecord`] holds, as sequences.
pub ghost struct RecordModel {
    pub stable_id: usize,
    pub fid: Option<u64>,
    pub attrs: Seq<FieldValue>,
    pub geometry: GeometryModel,
}

impl View for FeatureRecord {
    type V = RecordModel;

    open spec fn view(&self) -> RecordModel {
        RecordModel {
            stable_id: self.stable_id,
            fid: self.fid,
            attrs: self.attrs@,
            geometry: self.geometry@,
        }
    }
}

/// One line that the algorithms work on: a ring of a polygon, a line string, or a point.
#[derive(Debug, Clone, PartialEq)]
pub struct RbGeom {
    pub id: usize,
    pub original_type: GeomType,
    pub is_simplest: bool,
    pub need_pivot: bool,
    pub coords: Vec<Coord>,
}

/// What an [`RbGeom`] holds, as sequences.
pub ghost struct RbGeomModel {
    pub id: usize,
    pub original_type: GeomType,
    pub is_simplest: bool,
    pub need_pivot: bool,
    pub coords: Seq<Coord>,
}

impl View for RbGeom {
    type V = RbGeomModel;

    open spec fn view(&self) -> RbGeomModel {
        RbGeomModel {
            id: self.id,
            original_type: self.original_type,
            is_simplest: self.is_simplest,
            need_pivot: self.need_pivot,
            coords: self.coords@,
        }
    }
}

/// A line is closed when it has at least two points and its first point is its last.
pub open spec fn closed_line(coords: Seq<Coord>) -> bool {
    coords.len() >= 2 && coord_eq(coords[0], coords.last())
}

impl RbGeom {
    pub fn is_closed(&self) -> (r: bool)
        ensures
            r == closed_line(self.coords@),
    {
        let n = self.coords.len();
        n >= 2 && self.coords[0] == self.coords[n - 1]
    }

    /// The geometry of the line: its first point when it stands for a point, else a line string.
    pub fn to_simple_geometry(&self) -> (r: SimpleGeometry)
        requires
            self.original_type == GeomType::Point ==> self.coords.len() > 0,
        ensures
            r@ == (if self.original_type == GeomType::Point {
                GeometryModel::Point(self.coords@[0])
            } else {
                GeometryModel::LineString(self.coords@)
            }),
    {
        match self.original_type {
            GeomType::Point => SimpleGeometry::Point(self.coords[0]),
            _ => SimpleGeometry::LineString(self.coords.clone()),
        }
    }
}

/// The ring made from a line: the line itself, with its first point appended when it is
/// not empty and does not already end where it starts.
pub open spec fn closed_ring(coords: Seq<Coord>) -> Seq<Coord> {
    if coords.len() > 0 && !coord_eq(coords[0], coords.last()) {
        coords.push(coords[0])
    } else {
        coords
    }
}

/// Closes a line into a ring.
pub fn close_ring(coords: &[Coord]) -> (r: Vec<Coord>)
    ensures
        r@ == closed_ring(coords@),
{
    let mut local: Vec<Coord> = Vec::new();
    local.extend_from_slice(coords);
    proof {
        assert(local@ =~= coords@);
    }
    let n = local.len();
    if n > 0 && !(local[0] == local[n - 1]) {
        let first = local[0];
        local.push(first);
    }
    proof {
        assert(local@ =~= closed_ring(coords@));
    }
    local
}

/// Sets the processing flags of a line. `long_enough` says whether the length of the line
/// reaches the relative zero of the data set.
pub fn setup_rb_geom_flags(rb: &mut RbGeom, long_enough: bool)
    ensures
        final(rb).id == old(rb).id,
        final(rb).original_type == old(rb).original_type,
        final(rb).coords@ == old(rb).coords@,
        old(rb).original_type == GeomType::Point ==> final(rb).is_simplest && !final(rb).need_pivot,
        old(rb).original_type != GeomType::Point ==> {
            &&& final(rb).is_simplest == (old(rb).is_simplest || !long_enough)
            &&& final(rb).need_pivot == (old(rb).need_pivot || (long_enough && closed_line(
                old(rb).coords@,
            )))
        },
{
    if rb.original_type == GeomType::Point {
        rb.is_simplest = true;
        rb.need_pivot = false;
        return ;
    }
    if long_enough {
        if rb.is_closed() {
            rb.need_pivot = true;
        }
    } else {
        rb.is_simplest = true;
    }
}


/// A feature whose geometry has been split into lines, each named by the id of an [`RbGeom`].
#[derive(Debug, Clone, PartialEq)]
pub enum GsFeature {
    Polygon { stable_id: usize, fid: Option<u64>, attrs: Vec<FieldValue>, rb_geom_ids: Vec<usize> },
    LineString { stable_id: usize, fid: Option<u64>, attrs: Vec<FieldValue>, rb_geom_id: usize },
    Point { stable_id: usize, fid: Option<u64>, attrs: Vec<FieldValue>, rb_geom_id: usize },
}

/// What a [`GsFeature`] holds, as sequences.
pub ghost enum GsFeatureModel {
    Polygon { stable_id: usize, fid: Option<u64>, attrs: Seq<FieldValue>, rb_geom_ids: Seq<usize> },
    LineString { stable_id: usize, fid: Option<u64>, attrs: Seq<FieldValue>, rb_geom_id: usize },
    Point { stable_id: usize, fid: Option<u64>, attrs: Seq<FieldValue>, rb_geom_id: usize },
}

impl View for GsFeature {
    type V = GsFeatureModel;

    open spec fn view(&self) -> GsFeatureModel {
        match self {
            GsFeature::Polygon { stable_id, fid, attrs, rb_geom_ids } => GsFeatureModel::Polygon {
                stable_id: *stable_id,
                fid: *fid,
                attrs: attrs@,
                rb_geom_ids: rb_geom_ids@,
            },
            GsFeature::LineString { stable_id, fid, attrs, rb_geom_id } => GsFeatureModel::LineString {
                stable_id: *stable_id,
                fid: *fid,
                attrs: attrs@,
                rb_geom_id: *rb_geom_id,
            },
            GsFeature::Point { stable_id, fid, attrs, rb_geom_id } => GsFeatureModel::Point {
                stable_id: *stable_id,
                fid: *fid,
                attrs: attrs@,
                rb_geom_id: *rb_geom_id,
            },
        }
    }
}

/// The stable id of a split feature.
pub open spec fn feature_stable_id(f: GsFeatureModel) -> usize {
    match f {
        GsFeatureModel::Polygon { stable_id, .. } => stable_id,
        GsFeatureModel::LineString { stable_id, .. } => stable_id,
        GsFeatureModel::Point { stable_id, .. } => stable_id,
    }
}

impl GsFeature {
    pub fn stable_id(&self) -> (r: usize)
        ensures
            r == feature_stable_id(self@),
    {
        match self {
            GsFeature::Polygon { stable_id, .. } => *stable_id,
            GsFeature::LineString { stable_id, .. } => *stable_id,
            GsFeature::Point { stable_id, .. } => *stable_id,
        }
    }
}

/// Errors of the library.
#[derive(Debug, Clone, Copy, PartialEq, Eq, Structural)]
pub enum GeomError {
    /// A polygon names a ring id that no line carries.
    MissingRingId(usize),
    /// A line string names an id that no line carries.
    MissingLineRbGeomId(usize),
    /// A point names an id that no line carries.
    MissingPointRbGeomId(usize),
    /// The line of a point has no coordinate.
    PointHasNoCoordinate,
    /// A polygon has no exterior ring.
    PolygonWithoutExterior,
    /// A closed line holds a single bend.
    ClosedLineWithOneBend,
    /// The two points of a vertex insertion are not neighbours on the line.
    VerticesNotAdjacent,
    /// A vertex index lies beyond the line.
    VertexOutOfBounds,
}

/// The models of a list of records.
pub open spec fn records_view(records: Seq<FeatureRecord>) -> Seq<RecordModel> {
    records.map_values(|r: FeatureRecord| r@)
}

/// Number of lines that a geometry splits into: every ring of a polygon, else one.
pub open spec fn rings_of(g: GeometryModel) -> nat {
    match g {
        GeometryModel::Polygon { inners, .. } => 1 + inners.len(),
        _ => 1,
    }
}

/// The `k`-th line of a geometry: the outer ring, then the holes, of a polygon; the line of a
/// line string; the one point of a point.
pub open spec fn ring_of(g: GeometryModel, k: int) -> Seq<Coord> {
    match g {
        GeometryModel::Polygon { outer, inners } => if k == 0 {
            outer
        } else {
            inners[k - 1]
        },
        GeometryModel::LineString(coords) => coords,
        GeometryModel::Point(p) => seq![p],
    }
}

/// Number of lines that a list of records splits into.
pub open spec fn total_rings(records: Seq<RecordModel>) -> nat
    decreases records.len(),
{
    if records.len() == 0 {
        0
    } else {
        total_rings(records.drop_last()) + rings_of(records.last().geometry)
    }
}

/// The lines of one record, numbered from `first_id` on.
pub open spec fn ring_models(rec: RecordModel, first_id: nat) -> Seq<RbGeomModel> {
    Seq::new(
        rings_of(rec.geometry),
        |k: int|
            RbGeomModel {
                id: (first_id + k) as usize,
                original_type: model_type(rec.geometry),
                is_simplest: model_type(rec.geometry) == GeomType::Point,
                need_pivot: false,
                coords: ring_of(rec.geometry, k),
            },
    )
}

/// The lines of a list of records, in order, numbered from one on.
pub open spec fn split_rings(records: Seq<RecordModel>) -> Seq<RbGeomModel>
    decreases records.len(),
{
    if records.len() == 0 {
        Seq::empty()
    } else {
        split_rings(records.drop_last()) + ring_models(
            records.last(),
            total_rings(records.drop_last()) + 1,
        )
    }
}

/// The split form of one record whose lines are numbered from `first_id` on.
pub open spec fn feature_model(rec: RecordModel, first_id: nat) -> GsFeatureModel {
    match rec.geometry {
        GeometryModel::Polygon { .. } => GsFeatureModel::Polygon {
            stable_id: rec.stable_id,
            fid: rec.fid,
            attrs: rec.attrs,
            rb_geom_ids: Seq::new(rings_of(rec.geometry), |k: int| (first_id + k) as usize),
        },
        GeometryModel::LineString(_) => GsFeatureModel::LineString {
            stable_id: rec.stable_id,
            fid: rec.fid,
            attrs: rec.attrs,
            rb_geom_id: first_id as usize,
        },
        GeometryModel::Point(_) => GsFeatureModel::Point {
            stable_id: rec.stable_id,
            fid: rec.fid,
            attrs: rec.attrs,
            rb_geom_id: first_id as usize,
        },
    }
}

/// The split forms of a list of records.
pub open spec fn split_features(records: Seq<RecordModel>) -> Seq<GsFeatureModel> {
    Seq::new(
        records.len(),
        |r: int| feature_model(records[r], total_rings(records.take(r)) + 1),
    )
}

pub(crate) proof fn lemma_total_rings_prefix(s: Seq<RecordModel>, i: int)
    requires
        0 <= i <= s.len(),
    ensures
        total_rings(s.take(i)) <= total_rings(s),
        i < s.len() ==> total_rings(s.take(i + 1)) == total_rings(s.take(i)) + rings_of(
            s[i].geometry,
        ),
    decreases s.len(),
{
    if i == s.len() {
        assert(s.take(i) =~= s);
    } else {
        lemma_total_rings_prefix(s.drop_last(), i);
        assert(s.drop_last().take(i) =~= s.take(i));
        if i + 1 < s.len() {
            assert(s.drop_last().take(i + 1) =~= s.take(i + 1));
        } else {
            assert(s.take(i + 1) =~= s);
        }
        assert(s.take(i + 1).drop_last() =~= s.take(i));
    }
}

pub(crate) fn clone_attrs(attrs: &Vec<FieldValue>) -> (r: Vec<FieldValue>)
    ensures
        r@ == attrs@,
{
    let r = attrs.clone();
    assert(r@ =~= attrs@);
    r
}

pub(crate) fn clone_coords(coords: &Vec<Coord>) -> (r: Vec<Coord>)
    ensures
        r@ == coords@,
{
    let r = coords.clone();
    assert(r@ =~= coords@);
    r
}

impl GsFeature {
    /// Splits records into features and the lines they are made of. Lines are numbered from
    /// one on, in the order of the records, the rings of a polygon outer ring first. The
    /// flags of a point's line say that it is as simple as it gets; the flags of the other
    /// lines are left for [`setup_rb_geom_flags`].
    pub fn from_records(records: &[FeatureRecord]) -> (r: Result<(Vec<GsFeature>, Vec<RbGeom>), GeomError>)
        requires
            total_rings(records_view(records@)) < usize::MAX,
        ensures
            r matches Ok((features, rb_geoms)) && features@.map_values(|f: GsFeature| f@)
                == split_features(records_view(records@)) && rb_geoms@.map_values(
                |g: RbGeom| g@,
            ) == split_rings(records_view(records@)),
    {
        let ghost recs = records_view(records@);
        let mut features: Vec<GsFeature> = Vec::new();
        let mut rb_geoms: Vec<RbGeom> = Vec::new();
        let mut rb_id: usize = 1;
        let mut r: usize = 0;
        while r < records.len()
            invariant
                r <= records.len(),
                recs == records_view(records@),
                total_rings(recs) < usize::MAX,
                rb_id == total_rings(recs.take(r as int)) + 1,
                features.len() == r,
                forall|q: int|
                    0 <= q < r ==> #[trigger] features@[q]@ == feature_model(
                        recs[q],
                        total_rings(recs.take(q)) + 1,
                    ),
                rb_geoms@.map_values(|g: RbGeom| g@) == split_rings(recs.take(r as int)),
            decreases records.len() - r,
        {
            let rec = &records[r];
            proof {
                lemma_total_rings_prefix(recs, r as int);
                lemma_total_rings_prefix(recs, r as int + 1);
                assert(recs[r as int] == rec@);
                assert(recs.take(r as int + 1).drop_last() =~= recs.take(r as int));
                assert(recs.take(r as int + 1).last() == recs[r as int]);
            }
            let ghost first = rb_id as nat;
            let ghost before = rb_geoms@.map_values(|g: RbGeom| g@);
            let ghost block = ring_models(rec@, first);
            match &rec.geometry {
                SimpleGeometry::Polygon { outer, inners } => {
                    let mut ring_ids: Vec<usize> = Vec::new();
                    let rb = RbGeom {
                        id: rb_id,
                        original_type: GeomType::Polygon,
                        is_simplest: false,
                        need_pivot: false,
                        coords: clone_coords(outer),
                    };
                    rb_geoms.push(rb);
                    ring_ids.push(rb_id);
                    rb_id = rb_id + 1;
                    proof {
                        assert(rb_geoms@.map_values(|g: RbGeom| g@) =~= before + block.take(1));
                    }
                    let mut k: usize = 0;
                    while k < inners.len()
                        invariant
                            k <= inners.len(),
                            rec.geometry == (SimpleGeometry::Polygon { outer: *outer, inners: *inners }),
                            block == ring_models(rec@, first),
                            block.len() == inners.len() + 1,
                            first + block.len() <= total_rings(recs) + 1,
                            total_rings(recs) < usize::MAX,
                            rb_id == first + k + 1,
                            rb_geoms@.map_values(|g: RbGeom| g@) == before + block.take(k + 1),
                            ring_ids@ == Seq::new((k + 1) as nat, |q: int| (first + q) as usize),
                        decreases inners.len() - k,
                    {
                        let ghost prev = rb_geoms@.map_values(|g: RbGeom| g@);
                        let rb = RbGeom {
                            id: rb_id,
                            original_type: GeomType::Polygon,
                            is_simplest: false,
                            need_pivot: false,
                            coords: clone_coords(&inners[k]),
                        };
                        rb_geoms.push(rb);
                        ring_ids.push(rb_id);
                        rb_id = rb_id + 1;
                        proof {
                            assert(rings_view(inners@)[k as int] == inners@[k as int]@);
                            assert(block[k + 1] == rb@);
                            assert(rb_geoms@.map_values(|g: RbGeom| g@) =~= prev.push(rb@));
                            assert(block.take(k + 2) =~= block.take(k + 1).push(block[k + 1]));
                            assert(ring_ids@ =~= Seq::new((k + 2) as nat, |q: int| (first + q) as usize));
                        }
                        k = k + 1;
                    }
                    proof {
                        assert(block.take(k + 1) =~= block);
                    }
                    features.push(
                        GsFeature::Polygon {
                            stable_id: rec.stable_id,
                            fid: rec.fid,
                            attrs: clone_attrs(&rec.attrs),
                            rb_geom_ids: ring_ids,
                        },
                    );
                },
                SimpleGeometry::LineString(coords) => {
                    let rb = RbGeom {
                        id: rb_id,
                        original_type: GeomType::LineString,
                        is_simplest: false,
                        need_pivot: false,
                        coords: clone_coords(coords),
                    };
                    rb_geoms.push(rb);
                    features.push(
                        GsFeature::LineString {
                            stable_id: rec.stable_id,
                            fid: rec.fid,
                            attrs: clone_attrs(&rec.attrs),
                            rb_geom_id: rb_id,
                        },
                    );
                    rb_id = rb_id + 1;
                    proof {
                        assert(block[0] == rb@);
                        assert(rb_geoms@.map_values(|g: RbGeom| g@) =~= before + block);
                    }
                },
                SimpleGeometry::Point(pt) => {
                    let mut coords: Vec<Coord> = Vec::new();
                    coords.push(*pt);
                    let rb = RbGeom {
                        id: rb_id,
                        original_type: GeomType::Point,
                        is_simplest: true,
                        need_pivot: false,
                        coords,
                    };
                    rb_geoms.push(rb);
                    features.push(
                        GsFeature::Point {
                            stable_id: rec.stable_id,
                            fid: rec.fid,
                            attrs: clone_attrs(&rec.attrs),
                            rb_geom_id: rb_id,
                        },
                    );
                    rb_id = rb_id + 1;
                    proof {
                        assert(rb.coords@ =~= seq![*pt]);
                        assert(block[0] == rb@);
                        assert(rb_geoms@.map_values(|g: RbGeom| g@) =~= before + block);
                    }
                },
            }
            proof {
                assert(features@[r as int]@ == feature_model(recs[r as int], first));
            }
            r = r + 1;
        }
        proof {
            assert(recs.take(records.len() as int) =~= recs);
            assert(features@.map_values(|f: GsFeature| f@) =~= split_features(recs));
        }
        Ok((features, rb_geoms))
    }
}


/// Index `t` holds the first line of `rbs` whose id is `id`.
pub open spec fn is_first_with_id(rbs: Seq<RbGeom>, id: usize, t: int) -> bool {
    &&& 0 <= t < rbs.len()
    &&& rbs[t].id == id
    &&& forall|u: int| 0 <= u < t ==> rbs[u].id != id
}

/// Some line of `rbs` has the id `id`.
pub open spec fn has_id(rbs: Seq<RbGeom>, id: usize) -> bool {
    exists|t: int| #[trigger] is_first_with_id(rbs, id, t)
}

/// The coordinates of the first line of `rbs` whose id is `id`.
pub open spec fn coords_of_id(rbs: Seq<RbGeom>, id: usize) -> Seq<Coord> {
    rbs[choose|t: int| #[trigger] is_first_with_id(rbs, id, t)].coords@
}

/// Position of the first id of `ids` that no line of `rbs` carries.
pub open spec fn first_missing(rbs: Seq<RbGeom>, ids: Seq<usize>) -> int {
    choose|q: int|
        0 <= q < ids.len() && !has_id(rbs, #[trigger] ids[q]) && forall|u: int|
            0 <= u < q ==> has_id(rbs, ids[u])
}

/// The record that a split feature is rebuilt into from the lines `rbs`, or why it cannot be.
pub open spec fn rebuilt_record(f: GsFeatureModel, rbs: Seq<RbGeom>) -> Result<RecordModel, GeomError> {
    match f {
        GsFeatureModel::Polygon { stable_id, fid, attrs, rb_geom_ids } => {
            if forall|q: int| 0 <= q < rb_geom_ids.len() ==> has_id(rbs, #[trigger] rb_geom_ids[q]) {
                let n = rb_geom_ids.len();
                Ok(
                    RecordModel {
                        stable_id,
                        fid,
                        attrs,
                        geometry: GeometryModel::Polygon {
                            outer: if n > 0 {
                                coords_of_id(rbs, rb_geom_ids[0])
                            } else {
                                Seq::empty()
                            },
                            inners: Seq::new(
                                if n > 0 {
                                    (n - 1) as nat
                                } else {
                                    0
                                },
                                |q: int| coords_of_id(rbs, rb_geom_ids[q + 1]),
                            ),
                        },
                    },
                )
            } else {
                Err(GeomError::MissingRingId(rb_geom_ids[first_missing(rbs, rb_geom_ids)]))
            }
        },
        GsFeatureModel::LineString { stable_id, fid, attrs, rb_geom_id } => {
            if has_id(rbs, rb_geom_id) {
                Ok(
                    RecordModel {
                        stable_id,
                        fid,
                        attrs,
                        geometry: GeometryModel::LineString(coords_of_id(rbs, rb_geom_id)),
                    },
                )
            } else {
                Err(GeomError::MissingLineRbGeomId(rb_geom_id))
            }
        },
        GsFeatureModel::Point { stable_id, fid, attrs, rb_geom_id } => {
            if !has_id(rbs, rb_geom_id) {
                Err(GeomError::MissingPointRbGeomId(rb_geom_id))
            } else if coords_of_id(rbs, rb_geom_id).len() == 0 {
                Err(GeomError::PointHasNoCoordinate)
            } else {
                Ok(
                    RecordModel {
                        stable_id,
                        fid,
                        attrs,
                        geometry: GeometryModel::Point(coords_of_id(rbs, rb_geom_id)[0]),
                    },
                )
            }
        },
    }
}

proof fn lemma_first_with_id_unique(rbs: Seq<RbGeom>, id: usize, t: int)
    requires
        is_first_with_id(rbs, id, t),
    ensures
        has_id(rbs, id),
        coords_of_id(rbs, id) == rbs[t].coords@,
{
    let c = choose|u: int| #[trigger] is_first_with_id(rbs, id, u);
    assert(is_first_with_id(rbs, id, c));
    if c < t {
        assert(rbs[c].id != id);
    } else if t < c {
        assert(rbs[t].id != id);
    }
}

/// Finds the first line with the given id.
fn find_rb(rbs: &[RbGeom], id: usize) -> (r: Option<usize>)
    ensures
        match r {
            Some(t) => is_first_with_id(rbs@, id, t as int) && has_id(rbs@, id) && coords_of_id(
                rbs@,
                id,
            ) == rbs@[t as int].coords@,
            None => !has_id(rbs@, id),
        },
{
    let mut t: usize = 0;
    while t < rbs.len()
        invariant
            t <= rbs.len(),
            forall|u: int| 0 <= u < t ==> rbs@[u].id != id,
        decreases rbs.len() - t,
    {
        if rbs[t].id == id {
            proof {
                lemma_first_with_id_unique(rbs@, id, t as int);
            }
            return Some(t);
        }
        t = t + 1;
    }
    proof {
        if has_id(rbs@, id) {
            let c = choose|u: int| #[trigger] is_first_with_id(rbs@, id, u);
            assert(rbs@[c].id == id);
        }
    }
    None
}

fn clone_ring(ring: &Vec<Coord>) -> (r: Vec<Coord>)
    ensures
        r@ == ring@,
{
    clone_coords(ring)
}

impl GsFeature {
    /// Rebuilds the record of a split feature from the current state of its lines. Each id is
    /// looked up as the first line that carries it; an id that no line carries is an error.
    pub fn rebuild_record(&self, rb_geoms: &[RbGeom]) -> (r: Result<FeatureRecord, GeomError>)
        ensures
            match r {
                Ok(rec) => rebuilt_record(self@, rb_geoms@) == Ok::<RecordModel, GeomError>(rec@),
                Err(e) => rebuilt_record(self@, rb_geoms@) == Err::<RecordModel, GeomError>(e),
            },
    {
        match self {
            GsFeature::Polygon { stable_id, fid, attrs, rb_geom_ids } => {
                let mut rings: Vec<Vec<Coord>> = Vec::new();
                let mut q: usize = 0;
                while q < rb_geom_ids.len()
                    invariant
                        *self == (GsFeature::Polygon {
                            stable_id: *stable_id,
                            fid: *fid,
                            attrs: *attrs,
                            rb_geom_ids: *rb_geom_ids,
                        }),
                        q <= rb_geom_ids.len(),
                        rings.len() == q,
                        forall|u: int| 0 <= u < q ==> has_id(rb_geoms@, #[trigger] rb_geom_ids@[u]),
                        forall|u: int|
                            0 <= u < q ==> #[trigger] rings@[u]@ == coords_of_id(
                                rb_geoms@,
                                rb_geom_ids@[u],
                            ),
                    decreases rb_geom_ids.len() - q,
                {
                    let ring_id = rb_geom_ids[q];
                    match find_rb(rb_geoms, ring_id) {
                        Some(t) => {
                            rings.push(clone_ring(&rb_geoms[t].coords));
                        },
                        None => {
                            proof {
                                let ids = rb_geom_ids@;
                                assert(0 <= q < ids.len() && !has_id(rb_geoms@, ids[q as int])
                                    && forall|u: int| 0 <= u < q ==> has_id(rb_geoms@, ids[u]));
                                assert(exists|v: int|
                                    0 <= v < ids.len() && !has_id(rb_geoms@, #[trigger] ids[v])
                                        && forall|u: int| 0 <= u < v ==> has_id(rb_geoms@, ids[u]));
                                let fm = first_missing(rb_geoms@, ids);
                                assert(0 <= fm < ids.len() && !has_id(rb_geoms@, ids[fm])
                                    && forall|u: int| 0 <= u < fm ==> has_id(rb_geoms@, ids[u]));
                                assert(!(forall|v: int| 0 <= v < ids.len() ==> has_id(rb_geoms@, #[trigger] ids[v])));
                                if fm < q {
                                    assert(has_id(rb_geoms@, ids[fm]));
                                } else if q < fm {
                                    assert(has_id(rb_geoms@, ids[q as int]));
                                }
                            }
                            return Err(GeomError::MissingRingId(ring_id));
                        },
                    }
                    q = q + 1;
                }
                let n = rings.len();
                let outer = if n > 0 {
                    clone_ring(&rings[0])
                } else {
                    Vec::new()
                };
                let mut inners: Vec<Vec<Coord>> = Vec::new();
                let mut k: usize = 1;
                while k < n
                    invariant
                        1 <= k <= n || (n == 0 && k == 1),
                        n == rings.len(),
                        inners.len() == k - 1,
                        forall|u: int| 0 <= u < k - 1 ==> #[trigger] inners@[u]@ == rings@[u + 1]@,
                    decreases n - k,
                {
                    inners.push(clone_ring(&rings[k]));
                    k = k + 1;
                }
                let rec = FeatureRecord {
                    stable_id: *stable_id,
                    fid: *fid,
                    attrs: clone_attrs(attrs),
                    geometry: SimpleGeometry::Polygon { outer, inners },
                };
                proof {
                    let expected = rebuilt_record(self@, rb_geoms@);
                    assert(rings_view(inners@) =~= Seq::new(
                        if n > 0 {
                            (n - 1) as nat
                        } else {
                            0
                        },
                        |u: int| coords_of_id(rb_geoms@, rb_geom_ids@[u + 1]),
                    ));
                    if n == 0 {
                        assert(outer@ =~= Seq::<Coord>::empty());
                    }
                }
                Ok(rec)
            },
            GsFeature::LineString { stable_id, fid, attrs, rb_geom_id } => {
                match find_rb(rb_geoms, *rb_geom_id) {
                    Some(t) => Ok(
                        FeatureRecord {
                            stable_id: *stable_id,
                            fid: *fid,
                            attrs: clone_attrs(attrs),
                            geometry: SimpleGeometry::LineString(clone_ring(&rb_geoms[t].coords)),
                        },
                    ),
                    None => Err(GeomError::MissingLineRbGeomId(*rb_geom_id)),
                }
            },
            GsFeature::Point { stable_id, fid, attrs, rb_geom_id } => {
                match find_rb(rb_geoms, *rb_geom_id) {
                    Some(t) => {
                        if rb_geoms[t].coords.len() == 0 {
                            Err(GeomError::PointHasNoCoordinate)
                        } else {
                            Ok(
                                FeatureRecord {
                                    stable_id: *stable_id,
                                    fid: *fid,
                                    attrs: clone_attrs(attrs),
                                    geometry: SimpleGeometry::Point(rb_geoms[t].coords[0]),
                                },
                            )
                        }
                    },
                    None => Err(GeomError::MissingPointRbGeomId(*rb_geom_id)),
                }
            },
        }
    }
}


proof fn lemma_split_rings_len(s: Seq<RecordModel>)
    ensures
        split_rings(s).len() == total_rings(s),
    decreases s.len(),
{
    if s.len() > 0 {
        lemma_split_rings_len(s.drop_last());
    }
}

proof fn lemma_split_rings_at(s: Seq<RecordModel>, r: int, k: int)
    requires
        0 <= r < s.len(),
        0 <= k < rings_of(s[r].geometry),
    ensures
        split_rings(s)[total_rings(s.take(r)) + k] == ring_models(
            s[r],
            total_rings(s.take(r)) + 1,
        )[k],
    decreases s.len(),
{
    let dl = s.drop_last();
    lemma_split_rings_len(dl);
    if r == s.len() - 1 {
        assert(s.take(r) =~= dl);
    } else {
        lemma_split_rings_at(dl, r, k);
        assert(dl.take(r) =~= s.take(r));
        lemma_total_rings_prefix(dl, r);
        lemma_total_rings_prefix(dl, r + 1);
    }
}

proof fn lemma_split_rings_ids(s: Seq<RecordModel>, g: int)
    requires
        0 <= g < total_rings(s),
        total_rings(s) < usize::MAX,
    ensures
        split_rings(s)[g].id == g + 1,
    decreases s.len(),
{
    let dl = s.drop_last();
    lemma_split_rings_len(dl);
    if g < total_rings(dl) {
        lemma_split_rings_ids(dl, g);
    } else {
        assert(split_rings(s)[g] == ring_models(s.last(), total_rings(dl) + 1)[g - total_rings(dl)]);
    }
}

proof fn lemma_ring_lookup(records: Seq<RecordModel>, rbs: Seq<RbGeom>, r: int, k: int)
    requires
        rbs.map_values(|g: RbGeom| g@) == split_rings(records),
        total_rings(records) < usize::MAX,
        0 <= r < records.len(),
        0 <= k < rings_of(records[r].geometry),
    ensures
        has_id(rbs, (total_rings(records.take(r)) + 1 + k) as usize),
        coords_of_id(rbs, (total_rings(records.take(r)) + 1 + k) as usize) == ring_of(
            records[r].geometry,
            k,
        ),
{
    let base = total_rings(records.take(r));
    let t = base + k;
    let id = (base + 1 + k) as usize;
    lemma_split_rings_len(records);
    lemma_total_rings_prefix(records, r);
    lemma_total_rings_prefix(records, r + 1);
    lemma_total_rings_prefix(records, records.len() as int);
    assert(records.take(records.len() as int) =~= records);
    lemma_split_rings_at(records, r, k);
    lemma_split_rings_ids(records, t);
    assert(rbs.map_values(|g: RbGeom| g@)[t] == rbs[t]@);
    assert forall|u: int| 0 <= u < t implies rbs[u].id != id by {
        lemma_split_rings_ids(records, u);
        assert(rbs.map_values(|g: RbGeom| g@)[u] == rbs[u]@);
    }
    assert(is_first_with_id(rbs, id, t));
    lemma_first_with_id_unique(rbs, id, t);
}

/// Splitting loses nothing: every split feature, rebuilt from the lines it was split into,
/// gives back the record it came from.
pub proof fn lemma_rebuild_inverts_split(records: Seq<RecordModel>, features: Seq<GsFeature>, rbs: Seq<RbGeom>)
    requires
        features.map_values(|f: GsFeature| f@) == split_features(records),
        rbs.map_values(|g: RbGeom| g@) == split_rings(records),
        total_rings(records) < usize::MAX,
    ensures
        features.len() == records.len(),
        forall|r: int|
            0 <= r < records.len() ==> rebuilt_record(#[trigger] features[r]@, rbs) == Ok::<
                RecordModel,
                GeomError,
            >(records[r]),
{
    assert(features.map_values(|f: GsFeature| f@).len() == records.len());
    assert forall|r: int| 0 <= r < records.len() implies rebuilt_record(
        #[trigger] features[r]@,
        rbs,
    ) == Ok::<RecordModel, GeomError>(records[r]) by {
        let rec = records[r];
        let first = total_rings(records.take(r)) + 1;
        assert(features.map_values(|f: GsFeature| f@)[r] == features[r]@);
        assert(features[r]@ == feature_model(rec, first));
        match rec.geometry {
            GeometryModel::Polygon { outer, inners } => {
                let ids = Seq::new(rings_of(rec.geometry), |k: int| (first + k) as usize);
                assert forall|q: int| 0 <= q < ids.len() implies has_id(rbs, #[trigger] ids[q]) by {
                    lemma_ring_lookup(records, rbs, r, q);
                }
                lemma_ring_lookup(records, rbs, r, 0);
                assert forall|q: int| 0 <= q < inners.len() implies coords_of_id(
                    rbs,
                    ids[q + 1],
                ) == inners[q] by {
                    lemma_ring_lookup(records, rbs, r, q + 1);
                }
                let got = Seq::new(
                    (ids.len() - 1) as nat,
                    |q: int| coords_of_id(rbs, ids[q + 1]),
                );
                assert(got =~= inners);
            },
            GeometryModel::LineString(_) => {
                lemma_ring_lookup(records, rbs, r, 0);
            },
            GeometryModel::Point(p) => {
                lemma_ring_lookup(records, rbs, r, 0);
            },
        }
    }
}


/// Splitting numbers the lines from one on, one after the other: there are as many lines as
/// rings, and the `k`-th line carries the id `k + 1`.
pub proof fn lemma_split_ids(records: Seq<RecordModel>)
    requires
        total_rings(records) < usize::MAX,
    ensures
        split_rings(records).len() == total_rings(records),
        forall|k: int| 0 <= k < split_rings(records).len() ==> #[trigger] split_rings(records)[k].id == k + 1,
    decreases records.len(),
{
    if records.len() > 0 {
        let prev = records.drop_last();
        assert(total_rings(prev) <= total_rings(records));
        lemma_split_ids(prev);
        let first = total_rings(prev) + 1;
        let tail = ring_models(records.last(), first);
        assert forall|k: int| 0 <= k < split_rings(records).len() implies #[trigger] split_rings(records)[k].id
            == k + 1 by {
            if k >= split_rings(prev).len() {
                assert(split_rings(records)[k] == tail[k - split_rings(prev).len()]);
            } else {
                assert(split_rings(records)[k] == split_rings(prev)[k]);
            }
        }
    }
}

/// Closing a ring keeps its points and adds at most one: its first point, at the end, when its
/// ends do not match already.
pub proof fn lemma_closed_ring_points(coords: Seq<Coord>)
    ensures
        closed_ring(coords).take(coords.len() as int) == coords,
        coords.len() > 0 && !coord_eq(coords[0], coords[coords.len() - 1]) ==> closed_ring(coords).len()
            == coords.len() + 1 && closed_ring(coords)[coords.len() as int] == coords[0],
        !(coords.len() > 0 && !coord_eq(coords[0], coords[coords.len() - 1])) ==> closed_ring(coords)
            == coords,
{
    assert(closed_ring(coords).take(coords.len() as int) =~= coords);
}

/// Lines that carry the same ids, line for line, have the same first line for every id.
proof fn lemma_same_ids_first(a: Seq<RbGeom>, b: Seq<RbGeom>, id: usize, t: int)
    requires
        a.len() == b.len(),
        forall|k: int| 0 <= k < a.len() ==> #[trigger] a[k].id == b[k].id,
        is_first_with_id(a, id, t),
    ensures
        is_first_with_id(b, id, t),
{
    assert forall|u: int| 0 <= u < t implies b[u].id != id by {
        assert(a[u].id == b[u].id);
    }
}

/// Rebuilding never fails after the lines were edited, as long as every line keeps its id and
/// no line that had a point lost all of them: each split record is rebuilt with its stable id, fid and attributes, and with a geometry of
/// the same kind, whatever became of the coordinates of its lines.
pub proof fn lemma_rebuild_after_edits(
    records: Seq<RecordModel>,
    features: Seq<GsFeature>,
    split: Seq<RbGeom>,
    now: Seq<RbGeom>,
)
    requires
        features.map_values(|f: GsFeature| f@) == split_features(records),
        split.map_values(|g: RbGeom| g@) == split_rings(records),
        total_rings(records) < usize::MAX,
        now.len() == split.len(),
        forall|k: int| 0 <= k < now.len() ==> #[trigger] now[k].id == split[k].id,
        forall|k: int|
            0 <= k < now.len() && split[k].coords@.len() > 0 ==> #[trigger] now[k].coords@.len() > 0,
    ensures
        features.len() == records.len(),
        forall|r: int|
            0 <= r < records.len() ==> (#[trigger] rebuilt_record(features[r]@, now) matches Ok(m)
                && m.stable_id == records[r].stable_id && m.fid == records[r].fid && m.attrs
                == records[r].attrs && model_type(m.geometry) == model_type(records[r].geometry)),
{
    lemma_rebuild_inverts_split(records, features, split);
    assert forall|id: usize| has_id(split, id) implies has_id(now, id) by {
        let t = choose|t: int| #[trigger] is_first_with_id(split, id, t);
        lemma_same_ids_first(split, now, id, t);
    }
    assert forall|r: int| 0 <= r < records.len() implies (#[trigger] rebuilt_record(
        features[r]@,
        now,
    ) matches Ok(m) && m.stable_id == records[r].stable_id && m.fid == records[r].fid && m.attrs
        == records[r].attrs && model_type(m.geometry) == model_type(records[r].geometry)) by {
        assert(features.map_values(|f: GsFeature| f@)[r] == features[r]@);
        let f = features[r]@;
        assert(rebuilt_record(f, split) == Ok::<RecordModel, GeomError>(records[r]));
        match f {
            GsFeatureModel::Polygon { rb_geom_ids, .. } => {
                assert forall|q: int| 0 <= q < rb_geom_ids.len() implies has_id(
                    now,
                    #[trigger] rb_geom_ids[q],
                ) by {
                    assert(has_id(split, rb_geom_ids[q]));
                }
                assert(rebuilt_record(f, now) is Ok);
                assert(records[r].geometry is Polygon);
            },
            GsFeatureModel::LineString { rb_geom_id, .. } => {
                assert(has_id(split, rb_geom_id));
                assert(rebuilt_record(f, now) is Ok);
                assert(records[r].geometry is LineString);
            },
            GsFeatureModel::Point { rb_geom_id, .. } => {
                assert(has_id(split, rb_geom_id));
                let t = choose|t: int| #[trigger] is_first_with_id(split, rb_geom_id, t);
                lemma_first_with_id_unique(split, rb_geom_id, t);
                lemma_same_ids_first(split, now, rb_geom_id, t);
                lemma_first_with_id_unique(now, rb_geom_id, t);
                assert(split[t].coords@.len() > 0);
                assert(now[t].coords@.len() > 0);
                assert(rebuilt_record(f, now) is Ok);
            },
        }
    }
}

impl SimpleGeometry {
    /// A polygon from its rings: the first ring is the exterior, the others are holes.
    pub fn polygon_from_rings(rings: Vec<Vec<Coord>>) -> (r: Result<SimpleGeometry, GeomError>)
        ensures
            rings@.len() == 0 ==> r == Err::<SimpleGeometry, GeomError>(
                GeomError::PolygonWithoutExterior,
            ),
            rings@.len() > 0 ==> (r matches Ok(g) && g@ == (GeometryModel::Polygon {
                outer: rings@[0]@,
                inners: rings_view(rings@.drop_first()),
            })),
    {
        let mut rings = rings;
        if rings.len() == 0 {
            return Err(GeomError::PolygonWithoutExterior);
        }
        let ghost all = rings@;
        let outer = rings.remove(0);
        proof {
            assert(rings@ =~= all.drop_first());
        }
        Ok(SimpleGeometry::Polygon { outer, inners: rings })
    }
}


/// A copy of a list of rings.
pub(crate) fn clone_rings(rings: &Vec<Vec<Coord>>) -> (r: Vec<Vec<Coord>>)
    ensures
        rings_view(r@) == rings_view(rings@),
{
    let mut out: Vec<Vec<Coord>> = Vec::new();
    let mut k: usize = 0;
    while k < rings.len()
        invariant
            k <= rings.len(),
            out@.len() == k,
            forall|u: int| 0 <= u < k ==> #[trigger] out@[u]@ == rings@[u]@,
        decreases rings.len() - k,
    {
        out.push(clone_coords(&rings[k]));
        k = k + 1;
    }
    proof {
        assert(rings_view(out@) =~= rings_view(rings@));
    }
    out
}

/// A copy of a geometry.
pub(crate) fn clone_geometry(g: &SimpleGeometry) -> (r: SimpleGeometry)
    ensures
        r@ == g@,
{
    match g {
        SimpleGeometry::Point(c) => SimpleGeometry::Point(*c),
        SimpleGeometry::LineString(coords) => SimpleGeometry::LineString(clone_coords(coords)),
        SimpleGeometry::Polygon { outer, inners } => SimpleGeometry::Polygon {
            outer: clone_coords(outer),
            inners: clone_rings(inners),
        },
    }
}

} // verus!
