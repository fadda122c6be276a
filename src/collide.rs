//! Collision and containment of convex shapes by the separating axis theorem.
//!
//! Axes are left unnormalised: scaling an axis by a positive factor scales
//! every projection onto it by the same factor, so whether two projections
//! overlap, or one encloses the other, does not change. A circle's half
//! extent along an axis is its radius times the axis length, rounded down.
use crate::math::{
    cross3, difference, dot, dot_exec, edge_normal, floor_sqrt, isqrt, lemma_floor_sqrt_exists,
    lemma_norm2_positive, lemma_same_projection_collinear, norm2, norm2_exec, Axis, Vector2,
};
use vstd::prelude::*;

verus! {

/// A closed interval on an axis; `start` never exceeds `end`.
pub struct Projection {
    start: i128,
    end: i128,
}

impl Projection {
    #[verifier::type_invariant]
    spec fn ordered(&self) -> bool {
        self.start <= self.end
    }

    /// The lower end point.
    pub closed spec fn lo(&self) -> int {
        self.start as int
    }

    /// The upper end point.
    pub closed spec fn hi(&self) -> int {
        self.end as int
    }

    /// Create a projection from two end points given in either order.
    pub fn new(start: i128, end: i128) -> (r: Projection)
        ensures
            r.lo() <= r.hi(),
            r.lo() == if start <= end { start } else { end },
            r.hi() == if start <= end { end } else { start },
    {
        if start > end {
            Projection { start: end, end: start }
        } else {
            Projection { start, end }
        }
    }

    /// The start point.
    pub fn start(&self) -> (r: i128)
        ensures
            r == self.lo(),
            self.lo() <= self.hi(),
    {
        proof {
            use_type_invariant(self);
        }
        self.start
    }

    /// The end point.
    pub fn end(&self) -> (r: i128)
        ensures
            r == self.hi(),
            self.lo() <= self.hi(),
    {
        proof {
            use_type_invariant(self);
        }
        self.end
    }

    /// Set the start point. A start beyond the current end swaps the two, so
    /// the old end becomes the start and the given value the end.
    pub fn set_start(&mut self, start: i128)
        ensures
            final(self).lo() <= final(self).hi(),
            start <= old(self).hi() ==> final(self).lo() == start && final(self).hi() == old(self).hi(),
            start > old(self).hi() ==> final(self).lo() == old(self).hi() && final(self).hi() == start,
    {
        proof {
            use_type_invariant(&*self);
        }
        if start > self.end {
            *self = Projection { start: self.end, end: start };
        } else {
            *self = Projection { start, end: self.end };
        }
    }

    /// Set the end point. An end below the current start swaps the two, so
    /// the old start becomes the end and the given value the start.
    pub fn set_end(&mut self, end: i128)
        ensures
            final(self).lo() <= final(self).hi(),
            end >= old(self).lo() ==> final(self).lo() == old(self).lo() && final(self).hi() == end,
            end < old(self).lo() ==> final(self).lo() == end && final(self).hi() == old(self).lo(),
    {
        proof {
            use_type_invariant(&*self);
        }
        if end < self.start {
            *self = Projection { start: end, end: self.start };
        } else {
            *self = Projection { start: self.start, end };
        }
    }

    /// Whether the two intervals share more than a single boundary point.
    pub fn overlap(&self, other: &Projection) -> (r: bool)
        ensures
            r == overlaps(self.lo(), self.hi(), other.lo(), other.hi()),
    {
        !(self.start >= other.end || self.end <= other.start)
    }

    /// Whether `other` lies within `self`, end points included.
    pub fn contains(&self, other: &Projection) -> (r: bool)
        ensures
            r == encloses(self.lo(), self.hi(), other.lo(), other.hi()),
    {
        self.start <= other.start && self.end >= other.end
    }
}

/// `[s1, e1]` and `[s2, e2]` overlap; touching end points do not count.
pub open spec fn overlaps(s1: int, e1: int, s2: int, e2: int) -> bool {
    !(s1 >= e2 || e1 <= s2)
}

/// `[s1, e1]` encloses `[s2, e2]`, end points included.
pub open spec fn encloses(s1: int, e1: int, s2: int, e2: int) -> bool {
    s1 <= s2 && e1 >= e2
}

/// Overlap does not depend on the order of the two intervals.
pub proof fn lemma_overlap_symmetric(s1: int, e1: int, s2: int, e2: int)
    ensures
        overlaps(s1, e1, s2, e2) == overlaps(s2, e2, s1, e1),
{
}

/// Two intervals that only touch at one end point do not overlap, in either
/// order.
pub proof fn lemma_touching_not_overlapping(s1: int, e1: int, s2: int, e2: int)
    requires
        s1 <= e1,
        s2 <= e2,
        e1 == s2,
    ensures
        !overlaps(s1, e1, s2, e2),
        !overlaps(s2, e2, s1, e1),
{
}

/// Every interval encloses itself.
pub proof fn lemma_encloses_reflexive(s: int, e: int)
    ensures
        encloses(s, e, s, e),
{
}

/// An interval of positive width overlaps every interval that encloses it.
pub proof fn lemma_enclosed_overlaps(s1: int, e1: int, s2: int, e2: int)
    requires
        encloses(s1, e1, s2, e2),
        s2 < e2,
    ensures
        overlaps(s1, e1, s2, e2),
{
}

/// The structural errors of a shape.
#[derive(Clone, Copy, PartialEq, Eq, Structural, Debug)]
pub enum GeometryError {
    /// A polygon without vertices, or one with an edge of zero length.
    InvalidGeometry,
}

/// A circle.
pub struct Circle {
    center: Vector2,
    radius: i32,
}

/// The axis that a circle centred at `c` proposes towards the vertex `v`:
/// from `v` to the centre, or the first coordinate axis where the two
/// coincide, since then every direction is as good as any other.
pub open spec fn center_axis(c: Vector2, v: Vector2) -> Axis {
    if c == v {
        Axis { x: 1, y: 0 }
    } else {
        difference(c, v)
    }
}

/// Half the extent of a circle of radius `r` along `a`, measured in the
/// units of `a`: `r * |a|`, rounded down.
pub open spec fn half_extent(r: int, a: Axis) -> int {
    floor_sqrt(r * r * norm2(a))
}

impl Circle {
    pub closed spec fn center_spec(&self) -> Vector2 {
        self.center
    }

    pub closed spec fn radius_spec(&self) -> int {
        self.radius as int
    }

    /// Create a new circle.
    pub fn new(center: Vector2, radius: i32) -> (r: Circle)
        requires
            radius >= 0,
        ensures
            r.center_spec() == center,
            r.radius_spec() == radius,
            r.radius_spec() >= 0,
    {
        Circle { center, radius }
    }

    #[verifier::type_invariant]
    spec fn nonnegative(&self) -> bool {
        self.radius >= 0
    }

    /// The interval that the circle covers along `axis`.
    pub open spec fn extent(&self, a: Axis) -> (int, int) {
        (
            dot(a, self.center_spec()) - half_extent(self.radius_spec(), a),
            dot(a, self.center_spec()) + half_extent(self.radius_spec(), a),
        )
    }

    /// The axes that the circle proposes against a shape with these vertices.
    pub open spec fn axes_towards(&self, vs: Seq<Vector2>) -> Seq<Axis> {
        Seq::new(vs.len(), |i: int| center_axis(self.center_spec(), vs[i]))
    }

    /// Project the circle onto an axis: its centre's projection, widened by
    /// the radius on both sides.
    pub fn project(&self, axis: Axis) -> (r: Projection)
        requires
            axis.in_range(),
        ensures
            r.lo() <= r.hi(),
            (r.lo(), r.hi()) == self.extent(axis),
    {
        proof {
            use_type_invariant(self);
        }
        let m = dot_exec(axis, self.center);
        let n = norm2_exec(axis);
        let r = self.radius as u128;
        assert(r * r < 4611686018427387904) by (nonlinear_arith)
            requires
                0 <= r < 2147483648,
        ;
        assert(r * r * n < 170141183460469231731687303715884105728) by (nonlinear_arith)
            requires
                0 <= r < 2147483648,
                0 <= n <= 36893488147419103232,
        ;
        let w = isqrt(r * r * n) as i128;
        Projection::new(m - w, m + w)
    }

    /// The circle's one vertex: its centre.
    pub fn vertices(&self) -> (r: Vec<Vector2>)
        ensures
            r@ == seq![self.center_spec()],
    {
        vec![self.center]
    }

    /// For each vertex of `other`, the direction from it to the centre.
    pub fn axis(&self, other: &Geometry) -> (r: Vec<Axis>)
        ensures
            r@ == self.axes_towards(other.vertices_spec()),
    {
        let vs = other.vertices();
        let mut out: Vec<Axis> = Vec::new();
        let mut i: usize = 0;
        while i < vs.len()
            invariant
                i <= vs.len(),
                vs@ == other.vertices_spec(),
                out@ == self.axes_towards(vs@).take(i as int),
            decreases vs.len() - i,
        {
            let v = vs[i];
            let a = if v == self.center {
                Axis::new(1, 0)
            } else {
                Axis::new(self.center.x as i64 - v.x as i64, self.center.y as i64 - v.y as i64)
            };
            out.push(a);
            i = i + 1;
            assert(out@ =~= self.axes_towards(vs@).take(i as int));
        }
        assert(out@ =~= self.axes_towards(vs@));
        out
    }
}

/// A closed polygon: vertex `i` is joined to vertex `i + 1`, and the last to
/// the first.
pub struct Polygon(Vec<Vector2>);

/// The index that follows `i` around a loop of `n` vertices.
pub open spec fn next(i: int, n: int) -> int {
    if i + 1 == n { 0 } else { i + 1 }
}

/// Smallest projection of the vertices onto `a` (the first vertex's, for a
/// single one).
pub open spec fn min_dot(vs: Seq<Vector2>, a: Axis) -> int
    decreases vs.len(),
{
    if vs.len() <= 1 {
        dot(a, vs[0])
    } else {
        let m = min_dot(vs.drop_last(), a);
        let d = dot(a, vs.last());
        if d < m { d } else { m }
    }
}

/// Largest projection of the vertices onto `a`.
pub open spec fn max_dot(vs: Seq<Vector2>, a: Axis) -> int
    decreases vs.len(),
{
    if vs.len() <= 1 {
        dot(a, vs[0])
    } else {
        let m = max_dot(vs.drop_last(), a);
        let d = dot(a, vs.last());
        if d > m { d } else { m }
    }
}

/// Some edge of the loop joins a vertex to an equal one.
pub open spec fn has_zero_edge(vs: Seq<Vector2>) -> bool {
    exists|i: int| 0 <= i < vs.len() && #[trigger] vs[i] == vs[next(i, vs.len() as int)]
}

/// The normals of the loop's edges, one per vertex.
pub open spec fn edge_normals(vs: Seq<Vector2>) -> Seq<Axis> {
    Seq::new(vs.len(), |i: int| edge_normal(vs[i], vs[next(i, vs.len() as int)]))
}

/// The axes of a polygon, or why it has none.
pub open spec fn polygon_axes(vs: Seq<Vector2>) -> Result<Seq<Axis>, GeometryError> {
    if vs.len() == 0 || has_zero_edge(vs) {
        Err(GeometryError::InvalidGeometry)
    } else {
        Ok(edge_normals(vs))
    }
}

impl Polygon {
    pub closed spec fn vertices_spec(&self) -> Seq<Vector2> {
        self.0@
    }

    /// Create a polygon without vertices.
    pub fn new() -> (r: Polygon)
        ensures
            r.vertices_spec() == Seq::<Vector2>::empty(),
    {
        Polygon(Vec::new())
    }

    /// Append a vertex.
    pub fn push(&mut self, vertex: Vector2)
        ensures
            final(self).vertices_spec() == old(self).vertices_spec().push(vertex),
    {
        self.0.push(vertex)
    }

    /// Create a polygon with the given vertices, in order.
    pub fn from_vertices(vertices: Vec<Vector2>) -> (r: Polygon)
        ensures
            r.vertices_spec() == vertices@,
    {
        Polygon(vertices)
    }

    /// Project every vertex onto `axis` and take the smallest and largest.
    pub fn project(&self, axis: Axis) -> (r: Result<Projection, GeometryError>)
        requires
            axis.in_range(),
        ensures
            self.vertices_spec().len() == 0 ==> r == Err::<Projection, GeometryError>(
                GeometryError::InvalidGeometry,
            ),
            self.vertices_spec().len() > 0 ==> r is Ok && r->Ok_0.lo() <= r->Ok_0.hi() && (
            r->Ok_0.lo(), r->Ok_0.hi()) == (min_dot(self.vertices_spec(), axis), max_dot(
                self.vertices_spec(),
                axis,
            )),
    {
        if self.0.len() == 0 {
            return Err(GeometryError::InvalidGeometry);
        }
        let first = dot_exec(axis, self.0[0]);
        let mut proj = Projection::new(first, first);
        let mut i: usize = 1;
        while i < self.0.len()
            invariant
                1 <= i <= self.0@.len(),
                axis.in_range(),
                proj.lo() <= proj.hi(),
                proj.lo() == min_dot(self.0@.take(i as int), axis),
                proj.hi() == max_dot(self.0@.take(i as int), axis),
            decreases self.0@.len() - i,
        {
            let p = dot_exec(axis, self.0[i]);
            assert(self.0@.take(i + 1).drop_last() =~= self.0@.take(i as int));
            if p < proj.start() {
                proj.set_start(p);
            } else if p > proj.end() {
                proj.set_end(p);
            }
            i = i + 1;
        }
        assert(self.0@.take(i as int) =~= self.0@);
        Ok(proj)
    }

    /// The vertices, in order.
    pub fn vertices(&self) -> (r: &[Vector2])
        ensures
            r@ == self.vertices_spec(),
    {
        self.0.as_slice()
    }

    /// The normal of each edge, the edge from the last vertex back to the
    /// first included; an error for a polygon without vertices or with an
    /// edge of zero length.
    pub fn axis(&self, _other: &Geometry) -> (r: Result<Vec<Axis>, GeometryError>)
        ensures
            match r {
                Ok(v) => polygon_axes(self.vertices_spec()) == Ok::<Seq<Axis>, GeometryError>(v@),
                Err(e) => polygon_axes(self.vertices_spec()) == Err::<Seq<Axis>, GeometryError>(e),
            },
    {
        let n = self.0.len();
        if n == 0 {
            return Err(GeometryError::InvalidGeometry);
        }
        let mut out: Vec<Axis> = Vec::new();
        let mut i: usize = 0;
        while i < n
            invariant
                n == self.0@.len(),
                0 < n,
                i <= n,
                out@ == edge_normals(self.0@).take(i as int),
                forall|j: int| 0 <= j < i ==> self.0@[j] != self.0@[next(j, n as int)],
            decreases n - i,
        {
            let j: usize = if i + 1 == n { 0 } else { i + 1 };
            let a = self.0[i];
            let b = self.0[j];
            if a == b {
                assert(self.0@[i as int] == self.0@[next(i as int, n as int)]);
                return Err(GeometryError::InvalidGeometry);
            }
            out.push(Axis::new(a.y as i64 - b.y as i64, b.x as i64 - a.x as i64));
            i = i + 1;
            assert(out@ =~= edge_normals(self.0@).take(i as int));
        }
        assert(out@ =~= edge_normals(self.0@));
        Ok(out)
    }
}

impl From<Vec<Vector2>> for Polygon {
    fn from(vertices: Vec<Vector2>) -> (r: Polygon) {
        Polygon(vertices)
    }
}

impl vstd::std_specs::convert::FromSpecImpl<Vec<Vector2>> for Polygon {
    open spec fn obeys_from_spec() -> bool {
        true
    }

    closed spec fn from_spec(v: Vec<Vector2>) -> Polygon {
        Polygon(v)
    }
}

/// A convex shape. Convexity is the caller's promise: nothing checks it, and
/// on a concave shape the answers below mean little.
pub enum Geometry {
    Circle(Circle),
    Polygon(Polygon),
}

impl Geometry {
    pub open spec fn vertices_spec(&self) -> Seq<Vector2> {
        match self {
            Geometry::Circle(c) => seq![c.center_spec()],
            Geometry::Polygon(p) => p.vertices_spec(),
        }
    }

    /// The interval that the shape covers along `a`.
    pub open spec fn extent(&self, a: Axis) -> (int, int) {
        match self {
            Geometry::Circle(c) => c.extent(a),
            Geometry::Polygon(p) => (min_dot(p.vertices_spec(), a), max_dot(p.vertices_spec(), a)),
        }
    }

    /// The candidate separating axes that the shape proposes against `other`.
    pub open spec fn axes(&self, other: Geometry) -> Result<Seq<Axis>, GeometryError> {
        match self {
            Geometry::Circle(c) => Ok(c.axes_towards(other.vertices_spec())),
            Geometry::Polygon(p) => polygon_axes(p.vertices_spec()),
        }
    }

    /// The shape's vertices: a circle's one vertex is its centre.
    pub fn vertices(&self) -> (r: Vec<Vector2>)
        ensures
            r@ == self.vertices_spec(),
    {
        match self {
            Geometry::Circle(c) => c.vertices(),
            Geometry::Polygon(p) => {
                let vs = p.vertices();
                let mut out: Vec<Vector2> = Vec::new();
                let mut i: usize = 0;
                while i < vs.len()
                    invariant
                        i <= vs@.len(),
                        out@ == vs@.take(i as int),
                    decreases vs@.len() - i,
                {
                    out.push(vs[i]);
                    i = i + 1;
                    assert(out@ =~= vs@.take(i as int));
                }
                assert(out@ =~= vs@);
                out
            },
        }
    }
}

impl Geometry {
    /// What projecting onto `a` gives: the covered interval, or the error of
    /// a polygon without vertices.
    pub open spec fn project_spec(&self, a: Axis) -> Result<(int, int), GeometryError> {
        if self.vertices_spec().len() == 0 {
            Err(GeometryError::InvalidGeometry)
        } else {
            Ok(self.extent(a))
        }
    }

    /// Project the shape onto an axis.
    pub fn project(&self, axis: Axis) -> (r: Result<Projection, GeometryError>)
        requires
            axis.in_range(),
        ensures
            match r {
                Ok(p) => p.lo() <= p.hi() && self.project_spec(axis) == Ok::<(int, int), GeometryError>((p.lo(), p.hi())),
                Err(e) => self.project_spec(axis) == Err::<(int, int), GeometryError>(e),
            },
    {
        match self {
            Geometry::Circle(c) => Ok(c.project(axis)),
            Geometry::Polygon(p) => p.project(axis),
        }
    }

    /// The candidate separating axes that the shape proposes against `other`.
    pub fn axis(&self, other: &Geometry) -> (r: Result<Vec<Axis>, GeometryError>)
        ensures
            match r {
                Ok(v) => self.axes(*other) == Ok::<Seq<Axis>, GeometryError>(v@),
                Err(e) => self.axes(*other) == Err::<Seq<Axis>, GeometryError>(e),
            },
    {
        match self {
            Geometry::Circle(c) => Ok(c.axis(other)),
            Geometry::Polygon(p) => p.axis(other),
        }
    }

    /// Whether the two shapes overlap: no candidate axis of either separates
    /// them. An error where either shape cannot give its axes.
    pub fn collide(&self, other: &Geometry) -> (r: Result<bool, GeometryError>)
        ensures
            r == collision(*self, *other),
    {
        let s1 = match self.axis(other) {
            Ok(v) => v,
            Err(e) => return Err(e),
        };
        let s2 = match other.axis(self) {
            Ok(v) => v,
            Err(e) => return Err(e),
        };
        proof {
            lemma_axes_in_range(*self, *other);
            lemma_axes_in_range(*other, *self);
        }
        Ok(test_axes(self, other, &s1, true) && test_axes(self, other, &s2, true))
    }

    /// Whether `other` lies within the shape: on every candidate axis of
    /// either, the shape's projection encloses that of `other`. An error
    /// where either shape cannot give its axes.
    pub fn contain(&self, other: &Geometry) -> (r: Result<bool, GeometryError>)
        ensures
            r == containment(*self, *other),
    {
        let s1 = match self.axis(other) {
            Ok(v) => v,
            Err(e) => return Err(e),
        };
        let s2 = match other.axis(self) {
            Ok(v) => v,
            Err(e) => return Err(e),
        };
        proof {
            lemma_axes_in_range(*self, *other);
            lemma_axes_in_range(*other, *self);
        }
        Ok(test_axes(self, other, &s1, false) && test_axes(self, other, &s2, false))
    }
}

/// Test every axis of `axes` as `test_axis` does, stopping at the first
/// that fails.
fn test_axes(a: &Geometry, b: &Geometry, axes: &Vec<Axis>, overlap_test: bool) -> (r: bool)
    requires
        forall|j: int| 0 <= j < axes@.len() ==> (#[trigger] axes@[j]).in_range(),
        a.vertices_spec().len() > 0,
        b.vertices_spec().len() > 0,
    ensures
        overlap_test ==> r == all_overlap(*a, *b, axes@),
        !overlap_test ==> r == all_enclose(*a, *b, axes@),
{
    let mut i: usize = 0;
    while i < axes.len()
        invariant
            forall|j: int| 0 <= j < axes@.len() ==> (#[trigger] axes@[j]).in_range(),
            a.vertices_spec().len() > 0,
            b.vertices_spec().len() > 0,
            i <= axes@.len(),
            overlap_test ==> forall|j: int| 0 <= j < i ==> overlapping(*a, *b, #[trigger] axes@[j]),
            !overlap_test ==> forall|j: int| 0 <= j < i ==> enclosing(*a, *b, #[trigger] axes@[j]),
        decreases axes@.len() - i,
    {
        if !test_axis(a, b, axes[i], overlap_test) {
            return false;
        }
        i = i + 1;
    }
    true
}

/// Project both shapes onto `ax` and test whether their projections overlap
/// (`overlap_test`) or the first encloses the second.
fn test_axis(a: &Geometry, b: &Geometry, ax: Axis, overlap_test: bool) -> (r: bool)
    requires
        ax.in_range(),
        a.vertices_spec().len() > 0,
        b.vertices_spec().len() > 0,
    ensures
        overlap_test ==> r == overlapping(*a, *b, ax),
        !overlap_test ==> r == enclosing(*a, *b, ax),
{
    let pa = a.project(ax);
    let pb = b.project(ax);
    match (pa, pb) {
        (Ok(pa), Ok(pb)) => if overlap_test {
            pa.overlap(&pb)
        } else {
            pa.contains(&pb)
        },
        // Both shapes have vertices, so neither projection fails.
        _ => false,
    }
}

/// The projections of `a` and `b` onto `ax` overlap.
pub open spec fn overlapping(a: Geometry, b: Geometry, ax: Axis) -> bool {
    overlaps(a.extent(ax).0, a.extent(ax).1, b.extent(ax).0, b.extent(ax).1)
}

/// The projection of `a` onto `ax` encloses that of `b`.
pub open spec fn enclosing(a: Geometry, b: Geometry, ax: Axis) -> bool {
    encloses(a.extent(ax).0, a.extent(ax).1, b.extent(ax).0, b.extent(ax).1)
}

pub open spec fn all_overlap(a: Geometry, b: Geometry, axes: Seq<Axis>) -> bool {
    forall|j: int| 0 <= j < axes.len() ==> overlapping(a, b, #[trigger] axes[j])
}

pub open spec fn all_enclose(a: Geometry, b: Geometry, axes: Seq<Axis>) -> bool {
    forall|j: int| 0 <= j < axes.len() ==> enclosing(a, b, #[trigger] axes[j])
}

/// Whether `a` and `b` collide: on each axis that `a` proposes against `b`,
/// and each that `b` proposes against `a`, their projections overlap.
pub open spec fn collision(a: Geometry, b: Geometry) -> Result<bool, GeometryError> {
    match (a.axes(b), b.axes(a)) {
        (Ok(s1), Ok(s2)) => Ok(all_overlap(a, b, s1) && all_overlap(a, b, s2)),
        (Err(e), _) => Err(e),
        (Ok(_), Err(e)) => Err(e),
    }
}

/// Whether `a` contains `b`: on each candidate axis of either, the
/// projection of `a` encloses that of `b`.
pub open spec fn containment(a: Geometry, b: Geometry) -> Result<bool, GeometryError> {
    match (a.axes(b), b.axes(a)) {
        (Ok(s1), Ok(s2)) => Ok(all_enclose(a, b, s1) && all_enclose(a, b, s2)),
        (Err(e), _) => Err(e),
        (Ok(_), Err(e)) => Err(e),
    }
}

/// Every axis a shape proposes is small enough to project onto.
pub proof fn lemma_axes_in_range(g: Geometry, other: Geometry)
    ensures
        g.axes(other) is Ok ==> forall|j: int|
            0 <= j < g.axes(other)->Ok_0.len() ==> (#[trigger] g.axes(other)->Ok_0[j]).in_range(),
        g.axes(other) is Ok ==> g.vertices_spec().len() > 0,
{
}

/// Every vertex projects between `min_dot` and `max_dot`.
pub proof fn lemma_min_max_bounds(vs: Seq<Vector2>, a: Axis)
    requires
        vs.len() > 0,
    ensures
        forall|q: int|
            0 <= q < vs.len() ==> min_dot(vs, a) <= #[trigger] dot(a, vs[q]) <= max_dot(vs, a),
    decreases vs.len(),
{
    if vs.len() > 1 {
        lemma_min_max_bounds(vs.drop_last(), a);
        assert forall|q: int| 0 <= q < vs.len() implies min_dot(vs, a) <= #[trigger] dot(a, vs[q])
            <= max_dot(vs, a) by {
            if q < vs.len() - 1 {
                assert(vs.drop_last()[q] == vs[q]);
            }
        }
    }
}

/// A shape with some body: a circle of positive radius, or a polygon whose
/// axes can be formed and whose vertices do not all lie on one line.
pub open spec fn is_solid(g: Geometry) -> bool {
    match g {
        Geometry::Circle(c) => c.radius_spec() > 0,
        Geometry::Polygon(p) => {
            let vs = p.vertices_spec();
            &&& polygon_axes(vs) is Ok
            &&& exists|i: int, j: int, k: int|
                0 <= i < vs.len() && 0 <= j < vs.len() && 0 <= k < vs.len() && #[trigger] cross3(
                    vs[i],
                    vs[j],
                    vs[k],
                ) != 0
        },
    }
}

/// A solid shape covers an interval of positive width along every non-zero
/// axis.
pub proof fn lemma_solid_width(g: Geometry, a: Axis)
    requires
        is_solid(g),
        !a.is_zero(),
    ensures
        g.extent(a).0 < g.extent(a).1,
{
    match g {
        Geometry::Circle(c) => {
            let r = c.radius_spec();
            let n = norm2(a);
            lemma_norm2_positive(a);
            assert(r * r * n >= 1) by (nonlinear_arith)
                requires
                    r >= 1,
                    n >= 1,
            ;
            lemma_floor_sqrt_exists(r * r * n);
        },
        Geometry::Polygon(p) => {
            let vs = p.vertices_spec();
            let (i, j, k) = choose|i: int, j: int, k: int|
                0 <= i < vs.len() && 0 <= j < vs.len() && 0 <= k < vs.len() && #[trigger] cross3(
                    vs[i],
                    vs[j],
                    vs[k],
                ) != 0;
            lemma_min_max_bounds(vs, a);
            if dot(a, vs[i]) == dot(a, vs[j]) && dot(a, vs[i]) == dot(a, vs[k]) {
                lemma_same_projection_collinear(a, vs[i], vs[j], vs[k]);
            }
            assert(dot(a, vs[i]) != dot(a, vs[j]) || dot(a, vs[i]) != dot(a, vs[k]));
        },
    }
}

/// No axis that a shape proposes is zero.
pub proof fn lemma_axes_nonzero(g: Geometry, other: Geometry)
    ensures
        g.axes(other) is Ok ==> forall|j: int|
            0 <= j < g.axes(other)->Ok_0.len() ==> !(#[trigger] g.axes(other)->Ok_0[j]).is_zero(),
{
    if g.axes(other) is Ok {
        match g {
            Geometry::Circle(c) => {},
            Geometry::Polygon(p) => {
                let vs = p.vertices_spec();
                assert forall|j: int| 0 <= j < vs.len() implies !(#[trigger] edge_normals(vs)[j]).is_zero() by {
                    if edge_normals(vs)[j].is_zero() {
                        assert(vs[j] == vs[next(j, vs.len() as int)]);
                    }
                }
            },
        }
    }
}

/// Collision does not depend on the order of the two shapes.
pub proof fn lemma_collide_symmetric(a: Geometry, b: Geometry)
    ensures
        collision(a, b) == collision(b, a),
{
    assert forall|s: Seq<Axis>| all_overlap(a, b, s) == all_overlap(b, a, s) by {
        assert forall|ax: Axis| overlapping(a, b, ax) == overlapping(b, a, ax) by {
            lemma_overlap_symmetric(a.extent(ax).0, a.extent(ax).1, b.extent(ax).0, b.extent(ax).1);
        }
    }
}

/// A solid shape collides with itself.
pub proof fn lemma_collide_reflexive(a: Geometry)
    requires
        is_solid(a),
    ensures
        collision(a, a) == Ok::<bool, GeometryError>(true),
{
    lemma_axes_nonzero(a, a);
    let s = a.axes(a)->Ok_0;
    assert forall|j: int| 0 <= j < s.len() implies overlapping(a, a, #[trigger] s[j]) by {
        lemma_solid_width(a, s[j]);
    }
}

/// A shape whose axes can be formed contains itself.
pub proof fn lemma_contain_reflexive(a: Geometry)
    requires
        a.axes(a) is Ok,
    ensures
        containment(a, a) == Ok::<bool, GeometryError>(true),
{
    let s = a.axes(a)->Ok_0;
    assert forall|j: int| 0 <= j < s.len() implies enclosing(a, a, #[trigger] s[j]) by {
        lemma_encloses_reflexive(a.extent(s[j]).0, a.extent(s[j]).1);
    }
}

/// A shape that contains a solid shape collides with it.
pub proof fn lemma_contain_implies_collide(a: Geometry, b: Geometry)
    requires
        is_solid(b),
        containment(a, b) == Ok::<bool, GeometryError>(true),
    ensures
        collision(a, b) == Ok::<bool, GeometryError>(true),
{
    lemma_axes_nonzero(a, b);
    lemma_axes_nonzero(b, a);
    let s1 = a.axes(b)->Ok_0;
    let s2 = b.axes(a)->Ok_0;
    assert forall|j: int| 0 <= j < s1.len() implies overlapping(a, b, #[trigger] s1[j]) by {
        lemma_solid_width(b, s1[j]);
        assert(enclosing(a, b, s1[j]));
        lemma_enclosed_overlaps(a.extent(s1[j]).0, a.extent(s1[j]).1, b.extent(s1[j]).0, b.extent(s1[j]).1);
    }
    assert forall|j: int| 0 <= j < s2.len() implies overlapping(a, b, #[trigger] s2[j]) by {
        lemma_solid_width(b, s2[j]);
        assert(enclosing(a, b, s2[j]));
        lemma_enclosed_overlaps(a.extent(s2[j]).0, a.extent(s2[j]).1, b.extent(s2[j]).0, b.extent(s2[j]).1);
    }
}

} // verus!
