//! The uniform spatial hash grid: an alternative flat index that partitions
//! a bounding volume into a lattice of cells addressed by a pairing-function
//! hash, with optional vertical stratification into floors and edge-wrap
//! clamping.
use vstd::prelude::*;

pub use grid::HashGrid;

mod grid;

verus! {

/// One entity as the grid references it: an identifier and a position.
#[derive(Debug, Clone, Copy, PartialEq)]
pub struct GridEntity<Id> {
    pub id: Id,
    pub x: i32,
    pub y: i32,
    pub z: i32,
}

/// The position of a referenced entity, as one coordinate triple.
pub open spec fn ge_pos<Id>(e: GridEntity<Id>) -> (i32, i32, i32) {
    (e.x, e.y, e.z)
}

impl<Id> GridEntity<Id> {
    pub fn new(id: Id, position: (i32, i32, i32)) -> (r: GridEntity<Id>)
        ensures
            (r == GridEntity { id, x: position.0, y: position.1, z: position.2 }),
    {
        GridEntity { id, x: position.0, y: position.1, z: position.2 }
    }

    pub fn position(&self) -> (r: (i32, i32, i32))
        ensures
            r == ge_pos(*self),
    {
        (self.x, self.y, self.z)
    }
}

/// The identifier capability the grid asks of its entities: a copyable key
/// that can be compared for equality.
pub trait DataIndex: Sized + Copy {
    /// Whether the two identifiers are the same key.
    fn same(&self, other: &Self) -> (r: bool)
        ensures
            r == (*self == *other),
    ;
}

impl DataIndex for u8 {
    fn same(&self, other: &Self) -> (r: bool)
        ensures
            r == (*self == *other),
    {
        *self == *other
    }
}

impl DataIndex for u16 {
    fn same(&self, other: &Self) -> (r: bool)
        ensures
            r == (*self == *other),
    {
        *self == *other
    }
}

impl DataIndex for u32 {
    fn same(&self, other: &Self) -> (r: bool)
        ensures
            r == (*self == *other),
    {
        *self == *other
    }
}

impl DataIndex for u64 {
    fn same(&self, other: &Self) -> (r: bool)
        ensures
            r == (*self == *other),
    {
        *self == *other
    }
}

impl DataIndex for usize {
    fn same(&self, other: &Self) -> (r: bool)
        ensures
            r == (*self == *other),
    {
        *self == *other
    }
}

/// Total number of cells on each axis, fixed at grid construction.
#[derive(Debug, Clone, Copy)]
pub struct CellsPerAxis {
    pub xcells: u32,
    pub ycells: u32,
    pub floors: usize,
}

impl CellsPerAxis {
    /// Builds the per-axis counts from a two-component slice.
    pub fn from(cells: &[u32], floors: usize) -> (r: CellsPerAxis)
        requires
            cells@.len() == 2,
        ensures
            (r == CellsPerAxis { xcells: cells@[0], ycells: cells@[1], floors }),
    {
        CellsPerAxis { xcells: cells[0], ycells: cells[1], floors }
    }
}

/// The edge lengths of one cell on each axis, derived at construction from
/// the boundary size and the cell counts.
#[derive(Debug, Clone, Copy)]
pub struct CellSizes {
    pub x_size: i32,
    pub y_size: i32,
    pub floor_size: i32,
}

/// The grid's derived parameters: cells per axis and cell sizes.
#[derive(Debug, Clone, Copy)]
pub struct GridParameters {
    pub cell_per_axis: CellsPerAxis,
    pub cell_sizes: CellSizes,
}

/// The lower corner of a boundary: center minus half the size.
pub open spec fn boundary_min_spec(b: GridBoundary) -> (int, int, int) {
    (
        b.center.0 - b.size.0 / 2,
        b.center.1 - b.size.1 / 2,
        b.center.2 - b.size.2 / 2,
    )
}

/// The upper corner of a boundary: center plus half the size.
pub open spec fn boundary_max_spec(b: GridBoundary) -> (int, int, int) {
    (
        b.center.0 + b.size.0 / 2,
        b.center.1 + b.size.1 / 2,
        b.center.2 + b.size.2 / 2,
    )
}

/// Whether a point lies in the closed boundary box.
pub open spec fn in_bounds_spec(b: GridBoundary, p: (i32, i32, i32)) -> bool {
    let lo = boundary_min_spec(b);
    let hi = boundary_max_spec(b);
    lo.0 <= p.0 <= hi.0 && lo.1 <= p.1 <= hi.1 && lo.2 <= p.2 <= hi.2
}

/// A boundary with workable dimensions: sizes not negative and corners
/// representable.
pub open spec fn boundary_wf(b: GridBoundary) -> bool {
    &&& b.size.0 >= 0 && b.size.1 >= 0 && b.size.2 >= 0
    &&& boundary_min_spec(b).0 >= i32::MIN && boundary_max_spec(b).0 <= i32::MAX
    &&& boundary_min_spec(b).1 >= i32::MIN && boundary_max_spec(b).1 <= i32::MAX
    &&& boundary_min_spec(b).2 >= i32::MIN && boundary_max_spec(b).2 <= i32::MAX
}

/// The bounding rectangle or box of a grid: a center and a size per axis.
#[derive(Debug, Clone, Copy)]
pub struct GridBoundary {
    pub center: (i32, i32, i32),
    pub size: (i32, i32, i32),
}

impl GridBoundary {
    pub fn new(center: (i32, i32, i32), size: (i32, i32, i32)) -> (r: GridBoundary)
        ensures
            (r == GridBoundary { center, size }),
    {
        GridBoundary { center, size }
    }

    pub fn centre(&self) -> (r: (i32, i32, i32))
        ensures
            r == self.center,
    {
        self.center
    }

    pub fn size(&self) -> (r: (i32, i32, i32))
        ensures
            r == self.size,
    {
        self.size
    }

    /// The upper corner: center plus half the size on each axis.
    pub fn boundary_max(&self) -> (r: (i32, i32, i32))
        requires
            boundary_wf(*self),
        ensures
            (r.0 as int, r.1 as int, r.2 as int) == boundary_max_spec(*self),
    {
        (
            self.center.0 + self.size.0 / 2,
            self.center.1 + self.size.1 / 2,
            self.center.2 + self.size.2 / 2,
        )
    }

    /// The lower corner: center minus half the size on each axis.
    pub fn boundary_min(&self) -> (r: (i32, i32, i32))
        requires
            boundary_wf(*self),
        ensures
            (r.0 as int, r.1 as int, r.2 as int) == boundary_min_spec(*self),
    {
        (
            self.center.0 - self.size.0 / 2,
            self.center.1 - self.size.1 / 2,
            self.center.2 - self.size.2 / 2,
        )
    }

    /// Whether the point lies inside the closed boundary box.
    pub fn is_inside(&self, point: (i32, i32, i32)) -> (r: bool)
        requires
            boundary_wf(*self),
        ensures
            r == in_bounds_spec(*self, point),
    {
        let lo = self.boundary_min();
        let hi = self.boundary_max();
        lo.0 <= point.0 && point.0 <= hi.0 && lo.1 <= point.1 && point.1 <= hi.1 && lo.2
            <= point.2 && point.2 <= hi.2
    }
}

/// The kind of a grid query: one exact cell, a neighborhood scan for one
/// identifier, or the collection of every bucket in a neighborhood of the
/// given radius (in thousandths of the axis cell count).
#[derive(Debug, Clone, Copy)]
pub enum QueryType<Id> {
    Single,
    Search(Id),
    Neighbour(u32),
}

/// The parameters of one grid query: a radius in thousandths of the axis
/// cell count, the kind of query, and the point of interest.
#[derive(Debug, Clone, Copy)]
pub struct Query<Id> {
    pub radius: u32,
    pub ty: QueryType<Id>,
    pub cx: i32,
    pub cy: i32,
    pub cz: i32,
}

/// The point of interest of a query, as one coordinate triple.
pub open spec fn query_pos<Id>(q: Query<Id>) -> (i32, i32, i32) {
    (q.cx, q.cy, q.cz)
}

impl<Id: DataIndex> Query<Id> {
    pub fn from(cords: (i32, i32, i32), query_type: QueryType<Id>, radius: u32) -> (r: Query<
        Id,
    >)
        ensures
            (r == Query { radius, ty: query_type, cx: cords.0, cy: cords.1, cz: cords.2 }),
    {
        Query { radius, ty: query_type, cx: cords.0, cy: cords.1, cz: cords.2 }
    }

    pub fn x(&self) -> (r: i32)
        ensures
            r == self.cx,
    {
        self.cx
    }

    pub fn y(&self) -> (r: i32)
        ensures
            r == self.cy,
    {
        self.cy
    }

    pub fn z(&self) -> (r: i32)
        ensures
            r == self.cz,
    {
        self.cz
    }

    pub fn radius(&self) -> (r: u32)
        ensures
            r == self.radius,
    {
        self.radius
    }

    pub fn query_type(&self) -> (r: QueryType<Id>)
        ensures
            r == self.ty,
    {
        self.ty
    }
}

/// The grid's answer to a query: the query itself and the entities found.
#[derive(Debug)]
pub struct QueryResult<Id> {
    query: Query<Id>,
    data: Vec<GridEntity<Id>>,
}

impl<Id: DataIndex> QueryResult<Id> {
    /// Builds a result; the grid's `query` method is the intended producer.
    pub fn from_parts(query: Query<Id>, data: Vec<GridEntity<Id>>) -> (r: QueryResult<Id>)
        ensures
            r.spec_query() == query,
            r.spec_data() == data@,
    {
        QueryResult { query, data }
    }

    /// The query this result answers.
    pub fn query(&self) -> (r: &Query<Id>)
        ensures
            *r == self.spec_query(),
    {
        &self.query
    }

    /// The entities collected as the response.
    pub fn data(&self) -> (r: &[GridEntity<Id>])
        ensures
            r@ == self.spec_data(),
    {
        self.data.as_slice()
    }

    pub closed spec fn spec_query(&self) -> Query<Id> {
        self.query
    }

    pub closed spec fn spec_data(&self) -> Seq<GridEntity<Id>> {
        self.data@
    }
}

/// A cell hash: the Cantor pairing of the cell coordinates.
#[derive(Debug, Clone, Copy)]
pub struct HashIndex(u64);

impl HashIndex {
    pub fn key(&self) -> (r: u64)
        ensures
            r == self.spec_key(),
    {
        self.0
    }

    pub closed spec fn spec_key(&self) -> u64 {
        self.0
    }

    pub fn from_key(key: u64) -> (r: HashIndex)
        ensures
            r.spec_key() == key,
    {
        HashIndex(key)
    }
}

/// The Cantor pairing function, the grid's cell hash: injective over
/// non-negative pairs, so distinct cells never share a bucket.
pub open spec fn cantor(a: int, b: int) -> int {
    ((a + b) * (a + b + 1)) / 2 + b
}

/// The triangular number at `s`.
pub open spec fn tri(s: int) -> int {
    (s * (s + 1)) / 2
}

proof fn lemma_tri_step(s: int)
    requires
        s >= 0,
    ensures
        tri(s + 1) == tri(s) + s + 1,
        tri(s) >= 0,
{
    let q = s / 2;
    let r = s % 2;
    vstd::arithmetic::div_mod::lemma_fundamental_div_mod(s, 2);
    if r == 0 {
        assert(s * (s + 1) == 2 * (q * (s + 1))) by (nonlinear_arith)
            requires
                s == 2 * q,
        ;
        assert((s + 1) * (s + 2) == 2 * (q * (s + 1) + s + 1)) by (nonlinear_arith)
            requires
                s == 2 * q,
        ;
        vstd::arithmetic::div_mod::lemma_div_multiples_vanish(q * (s + 1), 2);
        vstd::arithmetic::div_mod::lemma_div_multiples_vanish(q * (s + 1) + s + 1, 2);
        assert(q * (s + 1) >= 0) by (nonlinear_arith)
            requires
                q >= 0 && s >= 0,
        ;
    } else {
        assert(s * (s + 1) == 2 * ((q + 1) * s)) by (nonlinear_arith)
            requires
                s + 1 == 2 * (q + 1),
        ;
        assert((s + 1) * (s + 2) == 2 * ((q + 1) * s + s + 1)) by (nonlinear_arith)
            requires
                s + 1 == 2 * (q + 1),
        ;
        vstd::arithmetic::div_mod::lemma_div_multiples_vanish((q + 1) * s, 2);
        vstd::arithmetic::div_mod::lemma_div_multiples_vanish((q + 1) * s + s + 1, 2);
        assert((q + 1) * s >= 0) by (nonlinear_arith)
            requires
                q + 1 >= 0 && s >= 0,
        ;
    }
}

proof fn lemma_tri_mono(s: int, t: int)
    requires
        0 <= s <= t,
    ensures
        tri(s) <= tri(t),
    decreases t - s,
{
    if s < t {
        lemma_tri_mono(s, t - 1);
        lemma_tri_step(t - 1);
    }
}

/// Injectivity of the pairing function over non-negative pairs: the single
/// most safety-critical arithmetic invariant of the grid, since a collision
/// would merge two distinct cells into one bucket.
pub proof fn lemma_cantor_injective(a: int, b: int, c: int, d: int)
    requires
        a >= 0,
        b >= 0,
        c >= 0,
        d >= 0,
        cantor(a, b) == cantor(c, d),
    ensures
        a == c,
        b == d,
{
    let s = a + b;
    let t = c + d;
    assert(cantor(a, b) == tri(s) + b);
    assert(cantor(c, d) == tri(t) + d);
    lemma_tri_step(s);
    lemma_tri_step(t);
    if s < t {
        lemma_tri_mono(s + 1, t);
        assert(tri(s) + b < tri(s + 1));
        assert(false);
    }
    if t < s {
        lemma_tri_mono(t + 1, s);
        assert(tri(t) + d < tri(t + 1));
        assert(false);
    }
}

} // verus!
