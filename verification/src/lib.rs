//! A spatial-indexing library: it stores 2D/3D entities and answers
//! proximity and containment queries.
//!
//! The pieces are an adaptive quadtree with bounded per-node capacity, a
//! compact base-4 leaf-path codec recording the quadrant choices made while
//! descending the tree, a uniform spatial hash grid addressed by a pairing
//! function, and the geometry primitives (point, axis-aligned rectangle,
//! circle) that both indexes test against.
//!
//! Coordinates are plain integers: a caller working in fractional units
//! scales them to a fixed-point grid before handing them in.
use vstd::prelude::*;

pub mod codec;
pub mod grid;
pub mod hashgrid;
pub mod partition;
pub mod quad;

pub use hashgrid::{DataIndex, HashGrid, HashIndex};
pub use quad::QuadTree;

verus! {

/// The closed set of construction and insertion errors.
#[derive(Debug)]
pub enum SpatialError {
    /// Construction-time bounds are degenerate (min not strictly below max).
    InvalidBounds,
    /// Construction-time capacity is zero.
    InvalidCapacity,
    /// An inserted entity's extent is not contained in the root boundary.
    OutOfBounds,
}

/// Opaque unique identifier for an entity, stable for its lifetime in an index.
pub type EntityID = u64;

/// Squared Euclidean distance between two points: all comparisons in the
/// library are on squared distances, avoiding square roots.
pub open spec fn dist_sq(p: (int, int), q: (int, int)) -> int {
    (p.0 - q.0) * (p.0 - q.0) + (p.1 - q.1) * (p.1 - q.1)
}

/// A coordinate pair lifted to unbounded integers.
pub open spec fn spt(p: (i32, i32)) -> (int, int) {
    (p.0 as int, p.1 as int)
}

/// `v` clamped to the interval `[lo, hi]`.
pub open spec fn clamp_spec(v: int, lo: int, hi: int) -> int {
    if v < lo {
        lo
    } else if v > hi {
        hi
    } else {
        v
    }
}

/// A geometric primitive: a zero-extent location, an axis-aligned rectangle
/// held by its two corners, or a circle.
#[derive(Debug, Copy, Clone)]
pub enum Geometry {
    Point { x: i32, y: i32 },
    Rect { min: (i32, i32), max: (i32, i32) },
    Circle { radius: i32, center: (i32, i32) },
}

/// Well-formed: a rectangle's corners are ordered and a circle's radius is
/// not negative.
pub open spec fn geo_wf(g: Geometry) -> bool {
    match g {
        Geometry::Point { .. } => true,
        Geometry::Rect { min, max } => min.0 <= max.0 && min.1 <= max.1,
        Geometry::Circle { radius, .. } => radius >= 0,
    }
}

/// The pairs `contains` is defined on: any container except a point.
pub open spec fn contains_defined(a: Geometry, b: Geometry) -> bool {
    !(a is Point)
}

/// The pairs `intersects` is defined on: rectangles and circles only.
pub open spec fn intersects_defined(a: Geometry, b: Geometry) -> bool {
    !(a is Point) && !(b is Point)
}

/// What `contains` decides, pair by pair. Undefined pairs are `false`.
pub open spec fn geo_contains(a: Geometry, b: Geometry) -> bool {
    match (a, b) {
        (Geometry::Rect { min, max }, Geometry::Point { x, y }) => min.0 <= x && min.1 <= y && x
            <= max.0 && y <= max.1,
        (Geometry::Circle { radius, center }, Geometry::Point { x, y }) => dist_sq(
            spt(center),
            (x as int, y as int),
        ) <= radius * radius,
        (
            Geometry::Circle { radius: r1, center: c1 },
            Geometry::Circle { radius: r2, center: c2 },
        ) => dist_sq(spt(c1), spt(c2)) <= (r1 - r2) * (r1 - r2) && r1 > r2,
        (
            Geometry::Rect { min: min1, max: max1 },
            Geometry::Rect { min: min2, max: max2 },
        ) => min1.0 <= min2.0 && min1.1 <= min2.1 && max1.0 >= max2.0 && max1.1 >= max2.1,
        (Geometry::Rect { min, max }, Geometry::Circle { radius: r, center: c }) => c.0 - r
            >= min.0 && c.0 + r <= max.0 && c.1 - r >= min.1 && c.1 + r <= max.1,
        (Geometry::Circle { radius: r, center: c }, Geometry::Rect { min, max }) => {
            &&& dist_sq(spt(c), (max.0 as int, max.1 as int)) <= r * r
            &&& dist_sq(spt(c), (min.0 as int, max.1 as int)) <= r * r
            &&& dist_sq(spt(c), (max.0 as int, min.1 as int)) <= r * r
            &&& dist_sq(spt(c), (min.0 as int, min.1 as int)) <= r * r
        },
        _ => false,
    }
}

/// What `intersects` decides, pair by pair. Undefined pairs are `false`.
/// Rectangle pairs overlap strictly; circle tests include touching.
pub open spec fn geo_intersects(a: Geometry, b: Geometry) -> bool {
    match (a, b) {
        (
            Geometry::Rect { min: min1, max: max1 },
            Geometry::Rect { min: min2, max: max2 },
        ) => min1.0 < max2.0 && max1.0 > min2.0 && min1.1 < max2.1 && max1.1 > min2.1,
        (
            Geometry::Circle { radius: r1, center: c1 },
            Geometry::Circle { radius: r2, center: c2 },
        ) => dist_sq(spt(c1), spt(c2)) <= (r1 + r2) * (r1 + r2),
        (Geometry::Rect { min, max }, Geometry::Circle { radius: r, center: c })
        | (Geometry::Circle { radius: r, center: c }, Geometry::Rect { min, max }) => dist_sq(
            (
                clamp_spec(c.0 as int, min.0 as int, max.0 as int),
                clamp_spec(c.1 as int, min.1 as int, max.1 as int),
            ),
            spt(c),
        ) <= r * r,
        _ => false,
    }
}

/// Squares of values in `[-b, b]` lie in `[0, b * b]`.
proof fn lemma_square_bound(a: int, b: int)
    requires
        -b <= a <= b,
    ensures
        0 <= a * a <= b * b,
{
    assert(0 <= a * a <= b * b) by (nonlinear_arith)
        requires
            -b <= a <= b,
    ;
}

/// Squared distance does not depend on the order of its arguments.
proof fn lemma_dist_sq_symmetric(p: (int, int), q: (int, int))
    ensures
        dist_sq(p, q) == dist_sq(q, p),
{
    assert((p.0 - q.0) * (p.0 - q.0) == (q.0 - p.0) * (q.0 - p.0)) by (nonlinear_arith);
    assert((p.1 - q.1) * (p.1 - q.1) == (q.1 - p.1) * (q.1 - p.1)) by (nonlinear_arith);
}

/// Exact squared distance, computed on 128-bit words: coordinates are 32-bit,
/// so nothing here can overflow.
fn dist_sq_i128(p: (i32, i32), q: (i32, i32)) -> (d: i128)
    ensures
        d == dist_sq(spt(p), spt(q)),
{
    let dx = (p.0 as i128) - (q.0 as i128);
    let dy = (p.1 as i128) - (q.1 as i128);
    proof {
        lemma_square_bound(dx as int, 0x1_0000_0000);
        lemma_square_bound(dy as int, 0x1_0000_0000);
    }
    dx * dx + dy * dy
}

impl Geometry {
    /// A zero-extent location.
    pub fn point(x: i32, y: i32) -> (g: Geometry)
        ensures
            (g == Geometry::Point { x, y }),
            geo_wf(g),
    {
        Geometry::Point { x, y }
    }

    /// An axis-aligned rectangle given by its center and its edge lengths;
    /// an odd edge length loses its fractional half-unit.
    pub fn rect(center: (i32, i32), size: (i32, i32)) -> (g: Geometry)
        requires
            size.0 >= 0,
            size.1 >= 0,
            center.0 - size.0 / 2 >= i32::MIN,
            center.0 + size.0 / 2 <= i32::MAX,
            center.1 - size.1 / 2 >= i32::MIN,
            center.1 + size.1 / 2 <= i32::MAX,
        ensures
            (g == Geometry::Rect {
                min: ((center.0 - size.0 / 2) as i32, (center.1 - size.1 / 2) as i32),
                max: ((center.0 + size.0 / 2) as i32, (center.1 + size.1 / 2) as i32),
            }),
            geo_wf(g),
    {
        let hx = size.0 / 2;
        let hy = size.1 / 2;
        Geometry::Rect {
            min: (center.0 - hx, center.1 - hy),
            max: (center.0 + hx, center.1 + hy),
        }
    }

    /// An axis-aligned rectangle given by its two corners.
    pub fn rect_from_min_max(min: (i32, i32), max: (i32, i32)) -> (g: Geometry)
        requires
            min.0 <= max.0,
            min.1 <= max.1,
        ensures
            (g == Geometry::Rect { min, max }),
            geo_wf(g),
    {
        Geometry::Rect { min, max }
    }

    /// A circle given by its radius and center.
    pub fn radius(radius: i32, center: (i32, i32)) -> (g: Geometry)
        requires
            radius >= 0,
        ensures
            (g == Geometry::Circle { radius, center }),
            geo_wf(g),
    {
        Geometry::Circle { radius, center }
    }

    /// Containment over the supported pairs: rectangle or circle around
    /// point, rectangle or circle, decided exactly as `geo_contains` states.
    /// A point contains nothing, so a point container is left out.
    pub fn contains(&self, other: Geometry) -> (r: bool)
        requires
            geo_wf(*self),
            geo_wf(other),
            contains_defined(*self, other),
        ensures
            r == geo_contains(*self, other),
    {
        match (*self, other) {
            (Geometry::Rect { min, max }, Geometry::Point { x, y }) => {
                x >= min.0 && y >= min.1 && x <= max.0 && y <= max.1
            },
            (Geometry::Circle { radius, center }, Geometry::Point { x, y }) => {
                let d = dist_sq_i128(center, (x, y));
                proof {
                    lemma_square_bound(radius as int, 0x8000_0000);
                }
                d <= (radius as i128) * (radius as i128)
            },
            (
                Geometry::Circle { radius: r1, center: c1 },
                Geometry::Circle { radius: r2, center: c2 },
            ) => {
                let d = dist_sq_i128(c1, c2);
                let dr = (r1 as i128) - (r2 as i128);
                proof {
                    lemma_square_bound(dr as int, 0x1_0000_0000);
                }
                d <= dr * dr && r1 > r2
            },
            (
                Geometry::Rect { min: min1, max: max1 },
                Geometry::Rect { min: min2, max: max2 },
            ) => {
                min1.0 <= min2.0 && min1.1 <= min2.1 && max1.0 >= max2.0 && max1.1 >= max2.1
            },
            (Geometry::Rect { min, max }, Geometry::Circle { radius: r, center: c }) => {
                (c.0 as i64) - (r as i64) >= (min.0 as i64) && (c.0 as i64) + (r as i64)
                    <= (max.0 as i64) && (c.1 as i64) - (r as i64) >= (min.1 as i64) && (c.1
                    as i64) + (r as i64) <= (max.1 as i64)
            },
            (Geometry::Circle { radius: r, center: c }, Geometry::Rect { min, max }) => {
                proof {
                    lemma_square_bound(r as int, 0x8000_0000);
                }
                let rr = (r as i128) * (r as i128);
                dist_sq_i128(c, (max.0, max.1)) <= rr && dist_sq_i128(c, (min.0, max.1)) <= rr
                    && dist_sq_i128(c, (max.0, min.1)) <= rr && dist_sq_i128(c, (min.0, min.1))
                    <= rr
            },
            _ => false,
        }
    }

    /// Intersection over the supported pairs: rectangle and circle
    /// combinations, decided exactly as `geo_intersects` states. Points are
    /// left out; containment is the test for points.
    pub fn intersects(&self, other: Geometry) -> (r: bool)
        requires
            geo_wf(*self),
            geo_wf(other),
            intersects_defined(*self, other),
        ensures
            r == geo_intersects(*self, other),
    {
        match (*self, other) {
            (
                Geometry::Rect { min: min1, max: max1 },
                Geometry::Rect { min: min2, max: max2 },
            ) => {
                min1.0 < max2.0 && max1.0 > min2.0 && min1.1 < max2.1 && max1.1 > min2.1
            },
            (
                Geometry::Circle { radius: r1, center: c1 },
                Geometry::Circle { radius: r2, center: c2 },
            ) => {
                let d = dist_sq_i128(c1, c2);
                let sum = (r1 as i128) + (r2 as i128);
                proof {
                    lemma_square_bound(sum as int, 0x1_0000_0000);
                }
                d <= sum * sum
            },
            (Geometry::Rect { min, max }, Geometry::Circle { radius: r, center: c })
            | (Geometry::Circle { radius: r, center: c }, Geometry::Rect { min, max }) => {
                let cx = if c.0 < min.0 {
                    min.0
                } else if c.0 > max.0 {
                    max.0
                } else {
                    c.0
                };
                let cy = if c.1 < min.1 {
                    min.1
                } else if c.1 > max.1 {
                    max.1
                } else {
                    c.1
                };
                let d = dist_sq_i128((cx, cy), c);
                proof {
                    lemma_square_bound(r as int, 0x8000_0000);
                }
                d <= (r as i128) * (r as i128)
            },
            _ => false,
        }
    }
}

/// Rectangle containment is reflexive.
pub proof fn lemma_rect_contains_reflexive(a: Geometry)
    requires
        a is Rect,
        geo_wf(a),
    ensures
        geo_contains(a, a),
{
}

/// A rectangle containing a rectangle contains everything that rectangle
/// contains; in particular rectangle containment is transitive.
pub proof fn lemma_rect_contains_transitive(a: Geometry, b: Geometry, g: Geometry)
    requires
        a is Rect,
        b is Rect,
        geo_wf(a),
        geo_wf(b),
        geo_wf(g),
        geo_contains(a, b),
        geo_contains(b, g),
    ensures
        geo_contains(a, g),
{
}

/// The one family of inputs on which containment does not entail
/// intersection: a zero-extent rectangle lying on its container's edge,
/// which the strict rectangle-overlap test rejects.
pub open spec fn rect_edge_degenerate(a: Geometry, b: Geometry) -> bool {
    match (a, b) {
        (
            Geometry::Rect { min: amin, max: amax },
            Geometry::Rect { min: bmin, max: bmax },
        ) => (bmin.0 == bmax.0 && (bmax.0 == amin.0 || bmin.0 == amax.0)) || (bmin.1 == bmax.1
            && (bmax.1 == amin.1 || bmin.1 == amax.1)),
        _ => false,
    }
}

/// Whenever both predicates are defined on a pair, containment entails
/// intersection, excepting only a zero-extent rectangle on its container's
/// edge.
pub proof fn lemma_contains_implies_intersects(a: Geometry, b: Geometry)
    requires
        geo_wf(a),
        geo_wf(b),
        contains_defined(a, b),
        intersects_defined(a, b),
        !rect_edge_degenerate(a, b),
        geo_contains(a, b),
    ensures
        geo_intersects(a, b),
{
    match (a, b) {
        (
            Geometry::Circle { radius: r1, center: c1 },
            Geometry::Circle { radius: r2, center: c2 },
        ) => {
            assert((r1 - r2) * (r1 - r2) <= (r1 + r2) * (r1 + r2)) by (nonlinear_arith)
                requires
                    r1 >= 0,
                    r2 >= 0,
            ;
        },
        (Geometry::Rect { min, max }, Geometry::Circle { radius: r, center: c }) => {
            assert(clamp_spec(c.0 as int, min.0 as int, max.0 as int) == c.0 as int);
            assert(clamp_spec(c.1 as int, min.1 as int, max.1 as int) == c.1 as int);
            assert(dist_sq(spt(c), spt(c)) == 0) by (nonlinear_arith);
            assert(0 <= r * r) by (nonlinear_arith)
                requires
                    r >= 0,
            ;
        },
        (Geometry::Circle { radius: r, center: c }, Geometry::Rect { min, max }) => {
            lemma_clamped_point_within_corner_distance(c, min, max, r as int);
        },
        _ => {},
    }
}

/// The nearest point of a rectangle to a circle's center is no farther than
/// the farthest-fitting corner: with all four corners within the radius, the
/// clamped point is too.
proof fn lemma_clamped_point_within_corner_distance(
    c: (i32, i32),
    min: (i32, i32),
    max: (i32, i32),
    r: int,
)
    requires
        min.0 <= max.0,
        min.1 <= max.1,
        r >= 0,
        dist_sq(spt(c), (max.0 as int, max.1 as int)) <= r * r,
        dist_sq(spt(c), (min.0 as int, max.1 as int)) <= r * r,
        dist_sq(spt(c), (max.0 as int, min.1 as int)) <= r * r,
        dist_sq(spt(c), (min.0 as int, min.1 as int)) <= r * r,
    ensures
        dist_sq(
            (
                clamp_spec(c.0 as int, min.0 as int, max.0 as int),
                clamp_spec(c.1 as int, min.1 as int, max.1 as int),
            ),
            spt(c),
        ) <= r * r,
{
    let cx = c.0 as int;
    let cy = c.1 as int;
    let px = clamp_spec(cx, min.0 as int, max.0 as int);
    let py = clamp_spec(cy, min.1 as int, max.1 as int);
    let qx: int = if cx > max.0 as int {
        max.0 as int
    } else {
        min.0 as int
    };
    let qy: int = if cy > max.1 as int {
        max.1 as int
    } else {
        min.1 as int
    };
    assert((px - cx) * (px - cx) <= (qx - cx) * (qx - cx)) by (nonlinear_arith)
        requires
            px == clamp_spec(cx, min.0 as int, max.0 as int),
            qx == (if cx > max.0 as int {
                max.0 as int
            } else {
                min.0 as int
            }),
            min.0 as int <= max.0 as int,
    ;
    assert((py - cy) * (py - cy) <= (qy - cy) * (qy - cy)) by (nonlinear_arith)
        requires
            py == clamp_spec(cy, min.1 as int, max.1 as int),
            qy == (if cy > max.1 as int {
                max.1 as int
            } else {
                min.1 as int
            }),
            min.1 as int <= max.1 as int,
    ;
    lemma_dist_sq_symmetric((px, py), (cx, cy));
    lemma_dist_sq_symmetric((qx, qy), (cx, cy));
    assert(dist_sq(spt(c), (qx, qy)) <= r * r);
}

/// A shape that contains a point sits inside any rectangle containing the
/// shape only if the rectangle contains the point too: the transitivity the
/// quadtree's point queries rest on.
pub proof fn lemma_point_through_container(outer: Geometry, g: Geometry, x: i32, y: i32)
    requires
        outer is Rect,
        geo_wf(outer),
        geo_wf(g),
        geo_contains(outer, g),
        geo_contains(g, Geometry::Point { x, y }),
    ensures
        geo_contains(outer, Geometry::Point { x, y }),
{
    match g {
        Geometry::Circle { radius: r, center } => {
            let dx = center.0 as int - x as int;
            let dy = center.1 as int - y as int;
            assert(dx * dx >= 0 && dy * dy >= 0) by (nonlinear_arith);
            assert(-r <= dx <= r && -r <= dy <= r) by (nonlinear_arith)
                requires
                    dx * dx + dy * dy <= r * r,
                    dx * dx >= 0,
                    dy * dy >= 0,
                    r >= 0,
            ;
        },
        _ => {},
    }
}

/// A rectangle-bounded shape intersecting a query keeps intersecting after
/// the bound is widened to an enclosing rectangle: the lift the quadtree's
/// region queries rest on.
pub proof fn lemma_intersects_through_container(outer: Geometry, g: Geometry, q: Geometry)
    requires
        outer is Rect,
        g is Rect,
        geo_wf(outer),
        geo_wf(g),
        geo_wf(q),
        intersects_defined(g, q),
        geo_contains(outer, g),
        geo_intersects(g, q),
    ensures
        geo_intersects(outer, q),
{
    match (outer, g, q) {
        (
            Geometry::Rect { min: omin, max: omax },
            Geometry::Rect { min: gmin, max: gmax },
            Geometry::Circle { radius: r, center: c },
        ) => {
            let cx = c.0 as int;
            let cy = c.1 as int;
            let gx = clamp_spec(cx, gmin.0 as int, gmax.0 as int);
            let gy = clamp_spec(cy, gmin.1 as int, gmax.1 as int);
            let ox = clamp_spec(cx, omin.0 as int, omax.0 as int);
            let oy = clamp_spec(cy, omin.1 as int, omax.1 as int);
            assert((ox - cx) * (ox - cx) <= (gx - cx) * (gx - cx)) by (nonlinear_arith)
                requires
                    ox == clamp_spec(cx, omin.0 as int, omax.0 as int),
                    gx == clamp_spec(cx, gmin.0 as int, gmax.0 as int),
                    omin.0 as int <= gmin.0 as int <= gmax.0 as int <= omax.0 as int,
            ;
            assert((oy - cy) * (oy - cy) <= (gy - cy) * (gy - cy)) by (nonlinear_arith)
                requires
                    oy == clamp_spec(cy, omin.1 as int, omax.1 as int),
                    gy == clamp_spec(cy, gmin.1 as int, gmax.1 as int),
                    omin.1 as int <= gmin.1 as int <= gmax.1 as int <= omax.1 as int,
            ;
        },
        _ => {},
    }
}

} // verus!
