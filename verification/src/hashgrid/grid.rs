//! The hash grid proper: per floor, a mapping from cell hash to a bucket of
//! entities, addressed through the Cantor pairing of the cell coordinates.
use vstd::prelude::*;

use std::collections::HashMap;

use super::{
    boundary_max_spec, boundary_min_spec, boundary_wf, cantor, in_bounds_spec, CellSizes,
    ge_pos, tri, CellsPerAxis, DataIndex, GridBoundary, GridEntity, GridParameters, HashIndex,
    Query, QueryResult, QueryType,
};
use crate::clamp_spec;

verus! {

broadcast use vstd::std_specs::hash::group_hash_axioms;

/// The ghost contents of one floor: cell hash to bucket.
pub open spec fn floor_view<Id>(m: Map<u64, Vec<GridEntity<Id>>>) -> Map<
    u64,
    Seq<GridEntity<Id>>,
> {
    m.map_values(|v: Vec<GridEntity<Id>>| v@)
}

/// The bucket for `key` on floor `fl`, empty when absent.
pub open spec fn bucket_at<Id>(
    g: Seq<Map<u64, Seq<GridEntity<Id>>>>,
    fl: int,
    key: u64,
) -> Seq<GridEntity<Id>> {
    if g[fl].contains_key(key) {
        g[fl][key]
    } else {
        Seq::empty()
    }
}

/// A point clamped into the boundary box, axis by axis.
pub open spec fn clamp_to_bounds(b: GridBoundary, p: (i32, i32, i32)) -> (int, int, int) {
    let lo = boundary_min_spec(b);
    let hi = boundary_max_spec(b);
    (
        clamp_spec(p.0 as int, lo.0, hi.0),
        clamp_spec(p.1 as int, lo.1, hi.1),
        clamp_spec(p.2 as int, lo.2, hi.2),
    )
}

/// Cell coordinates of a point: the boundary-relative position divided by
/// the cell size on each axis, the floor index capped at the top floor.
pub open spec fn cell_of(
    b: GridBoundary,
    sizes: CellSizes,
    floors: int,
    p: (int, int, int),
) -> (int, int, int) {
    let lo = boundary_min_spec(b);
    let cx = (p.0 - lo.0) / (sizes.x_size as int);
    let cy = (p.1 - lo.1) / (sizes.y_size as int);
    let fl = (p.2 - lo.2) / (sizes.floor_size as int);
    (cx, cy, if fl >= floors { floors - 1 } else { fl })
}

/// The point an insert files an entity under: its own position when it is
/// inside the bounds, the clamped position when wrapping is on.
pub open spec fn filed_position(b: GridBoundary, wrap: bool, p: (i32, i32, i32)) -> (
    int,
    int,
    int,
) {
    if in_bounds_spec(b, p) {
        (p.0 as int, p.1 as int, p.2 as int)
    } else {
        clamp_to_bounds(b, p)
    }
}

/// What one insert does to the grid contents: nothing for an out-of-bounds
/// entity without wrapping; otherwise the entity is appended to the bucket
/// of its cell on its floor.
pub open spec fn grid_insert_step<Id>(
    g: Seq<Map<u64, Seq<GridEntity<Id>>>>,
    b: GridBoundary,
    sizes: CellSizes,
    floors: int,
    wrap: bool,
    e: GridEntity<Id>,
) -> Seq<Map<u64, Seq<GridEntity<Id>>>> {
    if !in_bounds_spec(b, ge_pos(e)) && !wrap {
        g
    } else {
        let c = cell_of(b, sizes, floors, filed_position(b, wrap, ge_pos(e)));
        let key = cantor(c.0, c.1) as u64;
        g.update(c.2, g[c.2].insert(key, bucket_at(g, c.2, key).push(e)))
    }
}

/// A sequence of inserts, first entity first.
pub open spec fn grid_apply<Id>(
    g: Seq<Map<u64, Seq<GridEntity<Id>>>>,
    b: GridBoundary,
    sizes: CellSizes,
    floors: int,
    wrap: bool,
    entities: Seq<GridEntity<Id>>,
) -> Seq<Map<u64, Seq<GridEntity<Id>>>>
    decreases entities.len(),
{
    if entities.len() == 0 {
        g
    } else {
        grid_apply(
            grid_insert_step(g, b, sizes, floors, wrap, entities.first()),
            b,
            sizes,
            floors,
            wrap,
            entities.drop_first(),
        )
    }
}

proof fn lemma_grid_apply_snoc<Id>(
    g: Seq<Map<u64, Seq<GridEntity<Id>>>>,
    b: GridBoundary,
    sizes: CellSizes,
    floors: int,
    wrap: bool,
    entities: Seq<GridEntity<Id>>,
    e: GridEntity<Id>,
)
    ensures
        grid_apply(g, b, sizes, floors, wrap, entities.push(e)) == grid_insert_step(
            grid_apply(g, b, sizes, floors, wrap, entities),
            b,
            sizes,
            floors,
            wrap,
            e,
        ),
    decreases entities.len(),
{
    if entities.len() == 0 {
        let g1 = grid_insert_step(g, b, sizes, floors, wrap, e);
        assert(entities.push(e).drop_first() =~= entities);
        assert(entities.push(e).first() == e);
        assert(grid_apply(g, b, sizes, floors, wrap, entities.push(e)) == grid_apply(
            g1,
            b,
            sizes,
            floors,
            wrap,
            entities,
        ));
        assert(grid_apply(g1, b, sizes, floors, wrap, entities) == g1);
        assert(grid_apply(g, b, sizes, floors, wrap, entities) == g);
    } else {
        let g1 = grid_insert_step(g, b, sizes, floors, wrap, entities.first());
        assert(entities.push(e).first() == entities.first());
        assert(entities.push(e).drop_first() =~= entities.drop_first().push(e));
        lemma_grid_apply_snoc(g1, b, sizes, floors, wrap, entities.drop_first(), e);
        assert(grid_apply(g, b, sizes, floors, wrap, entities.push(e)) == grid_apply(
            g1,
            b,
            sizes,
            floors,
            wrap,
            entities.drop_first().push(e),
        ));
        assert(grid_apply(g, b, sizes, floors, wrap, entities) == grid_apply(
            g1,
            b,
            sizes,
            floors,
            wrap,
            entities.drop_first(),
        ));
    }
}

/// Membership in a concatenation.
proof fn lemma_concat_contains<Id>(a: Seq<GridEntity<Id>>, b: Seq<GridEntity<Id>>)
    ensures
        forall|e: GridEntity<Id>| #[trigger]
            (a + b).contains(e) <==> a.contains(e) || b.contains(e),
{
    assert forall|e: GridEntity<Id>| #[trigger]
        (a + b).contains(e) <==> a.contains(e) || b.contains(e) by {
        if (a + b).contains(e) {
            let j = choose|j: int| 0 <= j < (a + b).len() && (a + b)[j] == e;
            if j < a.len() {
                assert(a[j] == e);
            } else {
                assert(b[j - a.len()] == e);
            }
        }
        if a.contains(e) {
            let j = choose|j: int| 0 <= j < a.len() && a[j] == e;
            assert((a + b)[j] == e);
        }
        if b.contains(e) {
            let j = choose|j: int| 0 <= j < b.len() && b[j] == e;
            assert((a + b)[a.len() + j] == e);
        }
    }
}

/// Appends every entity of `src_bucket` to `out`.
fn append_bucket<Id: DataIndex>(out: &mut Vec<GridEntity<Id>>, src_bucket: &Vec<GridEntity<Id>>)
    ensures
        final(out)@ == old(out)@ + src_bucket@,
{
    let n = src_bucket.len();
    let mut i: usize = 0;
    while i < n
        invariant
            0 <= i <= n,
            n == src_bucket@.len(),
            out@ == old(out)@ + src_bucket@.take(i as int),
        decreases n - i,
    {
        out.push(src_bucket[i]);
        proof {
            assert(old(out)@ + src_bucket@.take(i as int) + seq![src_bucket@[i as int]]
                =~= old(out)@ + src_bucket@.take(i + 1));
        }
        i = i + 1;
    }
    proof {
        assert(src_bucket@.take(n as int) =~= src_bucket@);
    }
}

/// The start of a scan range: `r` cells below `c`, floored at zero.
pub open spec fn range_lo(c: int, r: int) -> int {
    if c - r >= 0 {
        c - r
    } else {
        0
    }
}

/// The end of a scan range: `r` cells above `c`, capped at `cap`.
pub open spec fn range_hi(c: int, r: int, cap: int) -> int {
    if c + r <= cap {
        c + r
    } else {
        cap
    }
}

/// How many cells a query radius spans on an axis of `cells` cells: the
/// radius counts in thousandths of the axis, rounded up, at least one.
pub open spec fn scaled_radius(cells: int, permille: int) -> int {
    let eff = if permille > 1000 {
        1000
    } else {
        permille
    };
    let v = (cells * eff + 999) / 1000;
    if v >= 1 {
        v
    } else {
        1
    }
}

/// A 3D/2D spatial hash grid: per floor, buckets of entities addressed by
/// the Cantor hash of their cell coordinates. Out-of-bounds entities are
/// clamped onto the nearest cell when wrapping is on and silently dropped
/// otherwise; neither is an error.
#[derive(Debug)]
pub struct HashGrid<Id> {
    grids: Vec<HashMap<u64, Vec<GridEntity<Id>>>>,
    params: GridParameters,
    bounds: GridBoundary,
    wrap: bool,
}

impl<Id: DataIndex> HashGrid<Id> {
    /// The grid contents: per floor, cell hash to bucket.
    pub closed spec fn grids_view(&self) -> Seq<Map<u64, Seq<GridEntity<Id>>>> {
        Seq::new(self.grids@.len() as nat, |i: int| floor_view(self.grids@[i]@))
    }

    pub closed spec fn spec_bounds(&self) -> GridBoundary {
        self.bounds
    }

    pub closed spec fn spec_wrap(&self) -> bool {
        self.wrap
    }

    pub closed spec fn spec_cells(&self) -> CellsPerAxis {
        self.params.cell_per_axis
    }

    pub closed spec fn spec_sizes(&self) -> CellSizes {
        self.params.cell_sizes
    }

    /// Well-formed: workable boundary, positive cell sizes, at least one
    /// floor and one grid per floor, and cell counts a hash key can pair.
    pub closed spec fn wf(&self) -> bool {
        &&& boundary_wf(self.bounds)
        &&& self.params.cell_sizes.x_size >= 1
        &&& self.params.cell_sizes.y_size >= 1
        &&& self.params.cell_sizes.floor_size >= 1
        &&& self.params.cell_per_axis.floors >= 1
        &&& self.params.cell_per_axis.floors <= u32::MAX
        &&& self.params.cell_per_axis.xcells >= 1
        &&& self.params.cell_per_axis.ycells >= 1
        &&& self.params.cell_per_axis.xcells + self.params.cell_per_axis.ycells <= u32::MAX
        &&& self.grids@.len() == self.params.cell_per_axis.floors
    }
}

} // verus!

verus! {

/// The cell edge derived from an axis length and a cell count: at least one
/// coordinate unit, the integer grid's minimum.
pub open spec fn derived_cell(size: int, count: int) -> int {
    let w = size / count;
    if w >= 1 {
        w
    } else {
        1
    }
}

impl<Id: DataIndex> HashGrid<Id> {
    /// A new grid over `bounds`: `cells` cells on the x and y axes, `floors`
    /// grids stacked on z (clamped to at least one), cell edges derived by
    /// dividing the boundary size, each clamped to at least one unit.
    pub fn new(cells: [u32; 2], floors: usize, bounds: &GridBoundary, wrap: bool) -> (r:
        HashGrid<Id>)
        requires
            cells@[0] >= 1,
            cells@[1] >= 1,
            cells@[0] + cells@[1] <= u32::MAX,
            boundary_wf(*bounds),
            floors <= u32::MAX,
        ensures
            r.wf(),
            r.spec_bounds() == *bounds,
            r.spec_wrap() == wrap,
            r.spec_cells().xcells == cells@[0],
            r.spec_cells().ycells == cells@[1],
            r.spec_cells().floors == (if floors >= 1 {
                floors as int
            } else {
                1
            }),
            r.spec_sizes().x_size == derived_cell(bounds.size.0 as int, cells@[0] as int),
            r.spec_sizes().y_size == derived_cell(bounds.size.1 as int, cells@[1] as int),
            r.spec_sizes().floor_size == derived_cell(
                bounds.size.2 as int,
                if floors >= 1 {
                    floors as int
                } else {
                    1
                },
            ),
            r.grids_view().len() == r.spec_cells().floors,
            forall|i: int|
                0 <= i < r.grids_view().len() ==> r.grids_view()[i] == Map::<
                    u64,
                    Seq<GridEntity<Id>>,
                >::empty(),
    {
        let floors_n: usize = if floors < 1 {
            1
        } else {
            floors
        };
        let x_div = ((bounds.size.0 as i64) / (cells[0] as i64)) as i32;
        let y_div = ((bounds.size.1 as i64) / (cells[1] as i64)) as i32;
        let f_div = ((bounds.size.2 as i64) / (floors_n as i64)) as i32;
        let x_size: i32 = if x_div >= 1 {
            x_div
        } else {
            1
        };
        let y_size: i32 = if y_div >= 1 {
            y_div
        } else {
            1
        };
        let floor_size: i32 = if f_div >= 1 {
            f_div
        } else {
            1
        };
        let params = GridParameters {
            cell_per_axis: CellsPerAxis { xcells: cells[0], ycells: cells[1], floors: floors_n },
            cell_sizes: CellSizes { x_size, y_size, floor_size },
        };
        let mut grids: Vec<HashMap<u64, Vec<GridEntity<Id>>>> = Vec::new();
        let mut i: usize = 0;
        while i < floors_n
            invariant
                0 <= i <= floors_n,
                grids@.len() == i,
                forall|j: int|
                    0 <= j < i ==> (#[trigger] grids@[j])@ == Map::<
                        u64,
                        Vec<GridEntity<Id>>,
                    >::empty(),
            decreases floors_n - i,
        {
            grids.push(HashMap::new());
            i = i + 1;
        }
        let r = HashGrid { grids, params, bounds: *bounds, wrap };
        proof {
            assert forall|j: int| 0 <= j < r.grids_view().len() implies r.grids_view()[j]
                == Map::<u64, Seq<GridEntity<Id>>>::empty() by {
                assert(r.grids@[j]@ == Map::<u64, Vec<GridEntity<Id>>>::empty());
                assert(floor_view(r.grids@[j]@) =~= Map::<u64, Seq<GridEntity<Id>>>::empty());
            }
        }
        r
    }

    /// The boundary the grid was built over.
    pub fn bounds(&self) -> (r: GridBoundary)
        ensures
            r == self.spec_bounds(),
    {
        self.bounds
    }

    /// A well-formed grid always has a workable boundary.
    pub proof fn lemma_wf_boundary(&self)
        requires
            self.wf(),
        ensures
            boundary_wf(self.spec_bounds()),
    {
    }

    /// Whether out-of-bounds entities are clamped onto the boundary rather
    /// than dropped.
    pub fn wrap_enabled(&self) -> (r: bool)
        ensures
            r == self.spec_wrap(),
    {
        self.wrap
    }

    /// Cell edge on the x axis.
    pub fn cell_size_x(&self) -> (r: i32)
        ensures
            r == self.spec_sizes().x_size,
    {
        self.params.cell_sizes.x_size
    }

    /// Cell edge on the y axis.
    pub fn cell_size_y(&self) -> (r: i32)
        ensures
            r == self.spec_sizes().y_size,
    {
        self.params.cell_sizes.y_size
    }

    /// Floor height on the z axis.
    pub fn floor_size(&self) -> (r: i32)
        ensures
            r == self.spec_sizes().floor_size,
    {
        self.params.cell_sizes.floor_size
    }

    /// Number of cells along the x axis.
    pub fn xcells(&self) -> (r: u32)
        ensures
            r == self.spec_cells().xcells,
    {
        self.params.cell_per_axis.xcells
    }

    /// Number of cells along the y axis.
    pub fn ycells(&self) -> (r: u32)
        ensures
            r == self.spec_cells().ycells,
    {
        self.params.cell_per_axis.ycells
    }

    /// Number of floors along the z axis.
    pub fn floors(&self) -> (r: usize)
        ensures
            r == self.spec_cells().floors,
    {
        self.params.cell_per_axis.floors
    }

    /// Cell coordinates and floor index of a point inside the bounds: the
    /// boundary-relative position floor-divided by the cell sizes, the
    /// floor index capped at the top floor.
    pub fn get_cell_coordinates(&self, x: i32, y: i32, z: i32) -> (r: (u32, u32, usize))
        requires
            self.wf(),
            in_bounds_spec(self.spec_bounds(), (x, y, z)),
        ensures
            (r.0 as int, r.1 as int, r.2 as int) == cell_of(
                self.spec_bounds(),
                self.spec_sizes(),
                self.spec_cells().floors as int,
                (x as int, y as int, z as int),
            ),
            r.0 + r.1 <= u32::MAX,
            r.2 < self.spec_cells().floors,
    {
        proof {
            lemma_cell_in_range(
                self.bounds,
                self.params.cell_sizes,
                self.params.cell_per_axis.floors as int,
                (x as int, y as int, z as int),
            );
        }
        let lo = self.bounds.boundary_min();
        let dx = ((x as i64) - (lo.0 as i64)) as u64;
        let dy = ((y as i64) - (lo.1 as i64)) as u64;
        let dz = ((z as i64) - (lo.2 as i64)) as u64;
        let cx = (dx / (self.params.cell_sizes.x_size as u64)) as u32;
        let cy = (dy / (self.params.cell_sizes.y_size as u64)) as u32;
        let fl0 = dz / (self.params.cell_sizes.floor_size as u64);
        let floors = self.params.cell_per_axis.floors;
        let fl: usize = if fl0 >= (floors as u64) {
            floors - 1
        } else {
            fl0 as usize
        };
        (cx, cy, fl)
    }

    /// The unique hash of a cell: the Cantor pairing of its coordinates.
    pub fn key(&self, k1: u32, k2: u32) -> (r: HashIndex)
        requires
            k1 + k2 <= u32::MAX,
        ensures
            r.spec_key() == cantor(k1 as int, k2 as int),
    {
        proof {
            lemma_cantor_fits(k1 as int, k2 as int);
        }
        let s = (k1 as u64) + (k2 as u64);
        HashIndex::from_key(s * (s + 1) / 2 + (k2 as u64))
    }
}

/// The pairing of two cell coordinates fits a 64-bit key.
proof fn lemma_cantor_fits(a: int, b: int)
    requires
        0 <= a,
        0 <= b,
        a + b <= u32::MAX,
    ensures
        0 <= cantor(a, b) <= u64::MAX,
        cantor(a, b) == ((a + b) * (a + b + 1)) / 2 + b,
        tri(a + b) == ((a + b) * (a + b + 1)) / 2,
        0 <= (a + b) * (a + b + 1) <= u64::MAX,
{
    let s = a + b;
    assert(0 <= s * (s + 1) <= 0xffff_ffff * 0x1_0000_0000) by (nonlinear_arith)
        requires
            0 <= s <= 0xffff_ffff,
    ;
}

/// A point inside the bounds lands on valid cell coordinates: non-negative,
/// within the boundary size on each axis, and on an existing floor.
proof fn lemma_cell_in_range(b: GridBoundary, sizes: CellSizes, floors: int, p: (int, int, int))
    requires
        boundary_wf(b),
        sizes.x_size >= 1,
        sizes.y_size >= 1,
        sizes.floor_size >= 1,
        floors >= 1,
        in_bounds_spec(b, (p.0 as i32, p.1 as i32, p.2 as i32)),
        p.0 == p.0 as i32 as int,
        p.1 == p.1 as i32 as int,
        p.2 == p.2 as i32 as int,
    ensures
        0 <= cell_of(b, sizes, floors, p).0 <= b.size.0,
        0 <= cell_of(b, sizes, floors, p).1 <= b.size.1,
        0 <= cell_of(b, sizes, floors, p).2 < floors,
        cell_of(b, sizes, floors, p).0 + cell_of(b, sizes, floors, p).1 <= u32::MAX,
{
    let lo = boundary_min_spec(b);
    let dx = p.0 - lo.0;
    let dy = p.1 - lo.1;
    let dz = p.2 - lo.2;
    assert(0 <= dx <= b.size.0 && 0 <= dy <= b.size.1 && 0 <= dz <= b.size.2);
    lemma_div_within(dx, sizes.x_size as int, b.size.0 as int);
    lemma_div_within(dy, sizes.y_size as int, b.size.1 as int);
    lemma_div_within(dz, sizes.floor_size as int, b.size.2 as int);
}

/// Flooring division of a bounded non-negative value by a positive divisor
/// stays within the bound.
proof fn lemma_div_within(x: int, d: int, cap: int)
    requires
        0 <= x <= cap,
        d >= 1,
    ensures
        0 <= x / d <= cap,
{
    assert(0 <= x / d <= x) by (nonlinear_arith)
        requires
            0 <= x && d >= 1,
    ;
}

} // verus!

verus! {

impl<Id: DataIndex> HashGrid<Id> {
    /// Files one entity: inside the bounds it goes into the bucket of its
    /// cell on its floor; outside, it is clamped onto the nearest boundary
    /// cell when wrapping is on, and silently dropped otherwise.
    pub fn insert(&mut self, entity: GridEntity<Id>)
        requires
            old(self).wf(),
        ensures
            final(self).wf(),
            final(self).spec_bounds() == old(self).spec_bounds(),
            final(self).spec_wrap() == old(self).spec_wrap(),
            final(self).spec_cells() == old(self).spec_cells(),
            final(self).spec_sizes() == old(self).spec_sizes(),
            final(self).grids_view() == grid_insert_step(
                old(self).grids_view(),
                old(self).spec_bounds(),
                old(self).spec_sizes(),
                old(self).spec_cells().floors as int,
                old(self).spec_wrap(),
                entity,
            ),
    {
        let ghost g0 = self.grids_view();
        let pos = entity.position();
        let inside = self.bounds.is_inside(pos);
        if !inside && !self.wrap {
            return ;
        }
        let (px, py, pz) = if inside {
            pos
        } else {
            let lo = self.bounds.boundary_min();
            let hi = self.bounds.boundary_max();
            let cx = if pos.0 < lo.0 {
                lo.0
            } else if pos.0 > hi.0 {
                hi.0
            } else {
                pos.0
            };
            let cy = if pos.1 < lo.1 {
                lo.1
            } else if pos.1 > hi.1 {
                hi.1
            } else {
                pos.1
            };
            let cz = if pos.2 < lo.2 {
                lo.2
            } else if pos.2 > hi.2 {
                hi.2
            } else {
                pos.2
            };
            (cx, cy, cz)
        };
        proof {
            assert((px as int, py as int, pz as int) == filed_position(
                self.bounds,
                self.wrap,
                ge_pos(entity),
            ));
        }
        let (cx, cy, fl) = self.get_cell_coordinates(px, py, pz);
        let hashindex = self.key(cx, cy);
        let key = hashindex.key();
        let ghost fl_map0 = self.grids_view()[fl as int];
        let floor_map = &mut self.grids[fl];
        let bucket = match floor_map.remove(&key) {
            Some(mut v) => {
                v.push(entity);
                v
            },
            None => {
                let mut v: Vec<GridEntity<Id>> = Vec::new();
                v.push(entity);
                v
            },
        };
        floor_map.insert(key, bucket);
        proof {
            let gv = self.grids_view();
            let target = grid_insert_step(
                g0,
                self.bounds,
                self.params.cell_sizes,
                self.params.cell_per_axis.floors as int,
                self.wrap,
                entity,
            );
            assert(floor_view(final(floor_map)@) =~= fl_map0.insert(
                key,
                bucket_at(g0, fl as int, key).push(entity),
            ));
            assert(gv =~= target);
        }
    }

    /// Files each entity of `data` in order, with the same per-entity
    /// semantics as `insert`.
    pub fn update(&mut self, data: &[GridEntity<Id>])
        requires
            old(self).wf(),
        ensures
            final(self).wf(),
            final(self).spec_bounds() == old(self).spec_bounds(),
            final(self).spec_wrap() == old(self).spec_wrap(),
            final(self).spec_cells() == old(self).spec_cells(),
            final(self).spec_sizes() == old(self).spec_sizes(),
            final(self).grids_view() == grid_apply(
                old(self).grids_view(),
                old(self).spec_bounds(),
                old(self).spec_sizes(),
                old(self).spec_cells().floors as int,
                old(self).spec_wrap(),
                data@,
            ),
    {
        let ghost g0 = self.grids_view();
        let ghost b = self.bounds;
        let ghost sizes = self.params.cell_sizes;
        let ghost floors = self.params.cell_per_axis.floors as int;
        let ghost cells = self.params.cell_per_axis;
        let ghost wrap = self.wrap;
        let n = data.len();
        let mut i: usize = 0;
        while i < n
            invariant
                0 <= i <= n,
                n == data@.len(),
                self.wf(),
                self.spec_bounds() == b,
                self.spec_wrap() == wrap,
                self.spec_sizes() == sizes,
                self.spec_cells() == cells,
                self.spec_cells().floors == floors,
                self.grids_view() == grid_apply(g0, b, sizes, floors, wrap, data@.take(i as int)),
            decreases n - i,
        {
            self.insert(data[i]);
            proof {
                assert(data@.take(i + 1) =~= data@.take(i as int).push(data@[i as int]));
                lemma_grid_apply_snoc(g0, b, sizes, floors, wrap, data@.take(i as int), data@[i as int]);
            }
            i = i + 1;
        }
        proof {
            assert(data@.take(n as int) =~= data@);
        }
    }
}

} // verus!

verus! {

/// Whether some bucket in the neighborhood of `center`, `rx`/`ry`/`rf`
/// cells wide per axis and capped to the grid, holds `e`.
pub open spec fn neighborhood_has<Id>(
    g: Seq<Map<u64, Seq<GridEntity<Id>>>>,
    center: (int, int, int),
    rx: int,
    ry: int,
    rf: int,
    xcells: int,
    ycells: int,
    floors: int,
    e: GridEntity<Id>,
) -> bool {
    exists|kx: int, ky: int, fl: int|
        {
            &&& range_lo(center.0, rx) <= kx <= range_hi(center.0, rx, xcells)
            &&& range_lo(center.1, ry) <= ky <= range_hi(center.1, ry, ycells)
            &&& range_lo(center.2, rf) <= fl <= range_hi(center.2, rf, floors - 1)
            &&& #[trigger] bucket_at(g, fl, cantor(kx, ky) as u64).contains(e)
        }
}

impl<Id: DataIndex> HashGrid<Id> {
    /// Appends the buckets of cell (kx, ky) on each floor of `lof..=hif`.
    fn collect_floors(
        &self,
        kx: u32,
        ky: u32,
        lof: usize,
        hif: usize,
        out: &mut Vec<GridEntity<Id>>,
    )
        requires
            self.wf(),
            kx + ky <= u32::MAX,
            hif < self.spec_cells().floors,
        ensures
            forall|e: GridEntity<Id>| #[trigger]
                final(out)@.contains(e) <==> old(out)@.contains(e) || exists|fl: int|
                    lof <= fl <= hif && #[trigger] bucket_at(
                        self.grids_view(),
                        fl,
                        cantor(kx as int, ky as int) as u64,
                    ).contains(e),
    {
        let ghost out0 = out@;
        let hashindex = self.key(kx, ky);
        let key = hashindex.key();
        proof {
            lemma_cantor_fits(kx as int, ky as int);
            assert(key == cantor(kx as int, ky as int) as u64);
        }
        let mut fl = lof;
        while fl <= hif
            invariant
                self.wf(),
                lof <= fl && (fl <= hif + 1 || fl == lof),
                hif < self.spec_cells().floors,
                key == cantor(kx as int, ky as int) as u64,
                forall|e: GridEntity<Id>| #[trigger]
                    out@.contains(e) <==> out0.contains(e) || exists|fl2: int|
                        lof <= fl2 < fl && #[trigger] bucket_at(
                            self.grids_view(),
                            fl2,
                            key,
                        ).contains(e),
            decreases hif + 1 - fl,
        {
            let ghost opre = out@;
            let floor_map = &self.grids[fl];
            match floor_map.get(&key) {
                Some(b) => {
                    append_bucket(out, b);
                    proof {
                        assert(floor_map@.contains_key(key));
                        assert(self.grids_view()[fl as int] == floor_view(floor_map@));
                        assert(floor_view(floor_map@).contains_key(key));
                        assert(floor_view(floor_map@)[key] == b@);
                        assert(bucket_at(self.grids_view(), fl as int, key) == b@);
                        lemma_concat_contains(opre, b@);
                        assert(out@ == opre + b@);
                        assert forall|e: GridEntity<Id>| #[trigger]
                            out@.contains(e) <==> out0.contains(e) || exists|fl2: int|
                                lof <= fl2 < fl + 1 && #[trigger] bucket_at(
                                    self.grids_view(),
                                    fl2,
                                    key,
                                ).contains(e) by {
                            assert((opre + b@).contains(e) <==> opre.contains(e)
                                || b@.contains(e));
                            if out@.contains(e) && !out0.contains(e) {
                                if opre.contains(e) {
                                    let fl2 = choose|fl2: int|
                                        lof <= fl2 < fl && #[trigger] bucket_at(
                                            self.grids_view(),
                                            fl2,
                                            key,
                                        ).contains(e);
                                    assert(bucket_at(self.grids_view(), fl2, key).contains(e));
                                } else {
                                    assert(b@.contains(e));
                                    assert(bucket_at(
                                        self.grids_view(),
                                        fl as int,
                                        key,
                                    ).contains(e));
                                }
                            }
                            if exists|fl2: int|
                                lof <= fl2 < fl + 1 && #[trigger] bucket_at(
                                    self.grids_view(),
                                    fl2,
                                    key,
                                ).contains(e) {
                                let fl2 = choose|fl2: int|
                                    lof <= fl2 < fl + 1 && #[trigger] bucket_at(
                                        self.grids_view(),
                                        fl2,
                                        key,
                                    ).contains(e);
                                if fl2 < fl {
                                    assert(opre.contains(e));
                                } else {
                                    assert(b@.contains(e));
                                    assert(out@.contains(e));
                                }
                            }
                        }
                    }
                },
                None => {
                    proof {
                        assert(!floor_map@.contains_key(key));
                        assert(self.grids_view()[fl as int] == floor_view(floor_map@));
                        assert(!floor_view(floor_map@).contains_key(key));
                        assert(bucket_at(self.grids_view(), fl as int, key) =~= Seq::<
                            GridEntity<Id>,
                        >::empty());
                        assert forall|e: GridEntity<Id>| #[trigger]
                            out@.contains(e) <==> out0.contains(e) || exists|fl2: int|
                                lof <= fl2 < fl + 1 && #[trigger] bucket_at(
                                    self.grids_view(),
                                    fl2,
                                    key,
                                ).contains(e) by {
                            if exists|fl2: int|
                                lof <= fl2 < fl + 1 && #[trigger] bucket_at(
                                    self.grids_view(),
                                    fl2,
                                    key,
                                ).contains(e) {
                                let fl2 = choose|fl2: int|
                                    lof <= fl2 < fl + 1 && #[trigger] bucket_at(
                                        self.grids_view(),
                                        fl2,
                                        key,
                                    ).contains(e);
                                assert(fl2 < fl);
                            }
                        }
                    }
                },
            }
            fl = fl + 1;
        }
    }

    /// Appends the buckets of every cell of column `kx`, rows `loy..=hiy`,
    /// floors `lof..=hif`.
    fn collect_cols(
        &self,
        kx: u32,
        loy: u32,
        hiy: u32,
        lof: usize,
        hif: usize,
        out: &mut Vec<GridEntity<Id>>,
    )
        requires
            self.wf(),
            kx <= self.spec_cells().xcells,
            hiy <= self.spec_cells().ycells,
            hif < self.spec_cells().floors,
        ensures
            forall|e: GridEntity<Id>| #[trigger]
                final(out)@.contains(e) <==> old(out)@.contains(e) || exists|ky: int, fl: int|
                    {
                        &&& loy <= ky <= hiy
                        &&& lof <= fl <= hif
                        &&& #[trigger] bucket_at(
                            self.grids_view(),
                            fl,
                            cantor(kx as int, ky) as u64,
                        ).contains(e)
                    },
    {
        let ghost out0 = out@;
        let mut ky = loy;
        while ky <= hiy
            invariant
                self.wf(),
                loy <= ky && (ky <= hiy + 1 || ky == loy),
                kx <= self.spec_cells().xcells,
                hiy <= self.spec_cells().ycells,
                hif < self.spec_cells().floors,
                forall|e: GridEntity<Id>| #[trigger]
                    out@.contains(e) <==> out0.contains(e) || exists|ky2: int, fl: int|
                        {
                            &&& loy <= ky2 < ky
                            &&& lof <= fl <= hif
                            &&& #[trigger] bucket_at(
                                self.grids_view(),
                                fl,
                                cantor(kx as int, ky2) as u64,
                            ).contains(e)
                        },
            decreases hiy + 1 - ky,
        {
            let ghost opre = out@;
            self.collect_floors(kx, ky, lof, hif, out);
            proof {
                assert forall|e: GridEntity<Id>| #[trigger]
                    out@.contains(e) <==> out0.contains(e) || exists|ky2: int, fl: int|
                        {
                            &&& loy <= ky2 < ky + 1
                            &&& lof <= fl <= hif
                            &&& #[trigger] bucket_at(
                                self.grids_view(),
                                fl,
                                cantor(kx as int, ky2) as u64,
                            ).contains(e)
                        } by {
                    if out@.contains(e) && !out0.contains(e) {
                        if opre.contains(e) {
                            let (ky2, fl) = choose|ky2: int, fl: int|
                                {
                                    &&& loy <= ky2 < ky
                                    &&& lof <= fl <= hif
                                    &&& #[trigger] bucket_at(
                                        self.grids_view(),
                                        fl,
                                        cantor(kx as int, ky2) as u64,
                                    ).contains(e)
                                };
                            assert(bucket_at(
                                self.grids_view(),
                                fl,
                                cantor(kx as int, ky2) as u64,
                            ).contains(e));
                        } else {
                            let fl = choose|fl: int|
                                lof <= fl <= hif && #[trigger] bucket_at(
                                    self.grids_view(),
                                    fl,
                                    cantor(kx as int, ky as int) as u64,
                                ).contains(e);
                            assert(bucket_at(
                                self.grids_view(),
                                fl,
                                cantor(kx as int, ky as int) as u64,
                            ).contains(e));
                        }
                    }
                    if exists|ky2: int, fl: int|
                        {
                            &&& loy <= ky2 < ky + 1
                            &&& lof <= fl <= hif
                            &&& #[trigger] bucket_at(
                                self.grids_view(),
                                fl,
                                cantor(kx as int, ky2) as u64,
                            ).contains(e)
                        } {
                        let (ky2, fl) = choose|ky2: int, fl: int|
                            {
                                &&& loy <= ky2 < ky + 1
                                &&& lof <= fl <= hif
                                &&& #[trigger] bucket_at(
                                    self.grids_view(),
                                    fl,
                                    cantor(kx as int, ky2) as u64,
                                ).contains(e)
                            };
                        if ky2 < ky {
                            assert(opre.contains(e));
                        } else {
                            assert(bucket_at(
                                self.grids_view(),
                                fl,
                                cantor(kx as int, ky as int) as u64,
                            ).contains(e));
                            assert(out@.contains(e));
                        }
                    }
                }
            }
            ky = ky + 1;
        }
    }

    /// Appends the buckets of every cell in the rectangle of columns
    /// `lox..=hix`, rows `loy..=hiy`, floors `lof..=hif`.
    fn collect_region(
        &self,
        lox: u32,
        hix: u32,
        loy: u32,
        hiy: u32,
        lof: usize,
        hif: usize,
        out: &mut Vec<GridEntity<Id>>,
    )
        requires
            self.wf(),
            hix <= self.spec_cells().xcells,
            hiy <= self.spec_cells().ycells,
            hif < self.spec_cells().floors,
        ensures
            forall|e: GridEntity<Id>| #[trigger]
                final(out)@.contains(e) <==> old(out)@.contains(e) || exists|
                    kx: int,
                    ky: int,
                    fl: int,
                |
                    {
                        &&& lox <= kx <= hix
                        &&& loy <= ky <= hiy
                        &&& lof <= fl <= hif
                        &&& #[trigger] bucket_at(
                            self.grids_view(),
                            fl,
                            cantor(kx, ky) as u64,
                        ).contains(e)
                    },
    {
        let ghost out0 = out@;
        let mut kx = lox;
        while kx <= hix
            invariant
                self.wf(),
                lox <= kx && (kx <= hix + 1 || kx == lox),
                hix <= self.spec_cells().xcells,
                hiy <= self.spec_cells().ycells,
                hif < self.spec_cells().floors,
                forall|e: GridEntity<Id>| #[trigger]
                    out@.contains(e) <==> out0.contains(e) || exists|
                        kx2: int,
                        ky: int,
                        fl: int,
                    |
                        {
                            &&& lox <= kx2 < kx
                            &&& loy <= ky <= hiy
                            &&& lof <= fl <= hif
                            &&& #[trigger] bucket_at(
                                self.grids_view(),
                                fl,
                                cantor(kx2, ky) as u64,
                            ).contains(e)
                        },
            decreases hix + 1 - kx,
        {
            let ghost opre = out@;
            self.collect_cols(kx, loy, hiy, lof, hif, out);
            proof {
                assert forall|e: GridEntity<Id>| #[trigger]
                    out@.contains(e) <==> out0.contains(e) || exists|
                        kx2: int,
                        ky: int,
                        fl: int,
                    |
                        {
                            &&& lox <= kx2 < kx + 1
                            &&& loy <= ky <= hiy
                            &&& lof <= fl <= hif
                            &&& #[trigger] bucket_at(
                                self.grids_view(),
                                fl,
                                cantor(kx2, ky) as u64,
                            ).contains(e)
                        } by {
                    if out@.contains(e) && !out0.contains(e) {
                        if opre.contains(e) {
                            let (kx2, ky, fl) = choose|kx2: int, ky: int, fl: int|
                                {
                                    &&& lox <= kx2 < kx
                                    &&& loy <= ky <= hiy
                                    &&& lof <= fl <= hif
                                    &&& #[trigger] bucket_at(
                                        self.grids_view(),
                                        fl,
                                        cantor(kx2, ky) as u64,
                                    ).contains(e)
                                };
                            assert(bucket_at(
                                self.grids_view(),
                                fl,
                                cantor(kx2, ky) as u64,
                            ).contains(e));
                        } else {
                            let (ky, fl) = choose|ky: int, fl: int|
                                {
                                    &&& loy <= ky <= hiy
                                    &&& lof <= fl <= hif
                                    &&& #[trigger] bucket_at(
                                        self.grids_view(),
                                        fl,
                                        cantor(kx as int, ky) as u64,
                                    ).contains(e)
                                };
                            assert(bucket_at(
                                self.grids_view(),
                                fl,
                                cantor(kx as int, ky) as u64,
                            ).contains(e));
                        }
                    }
                    if exists|kx2: int, ky: int, fl: int|
                        {
                            &&& lox <= kx2 < kx + 1
                            &&& loy <= ky <= hiy
                            &&& lof <= fl <= hif
                            &&& #[trigger] bucket_at(
                                self.grids_view(),
                                fl,
                                cantor(kx2, ky) as u64,
                            ).contains(e)
                        } {
                        let (kx2, ky, fl) = choose|kx2: int, ky: int, fl: int|
                            {
                                &&& lox <= kx2 < kx + 1
                                &&& loy <= ky <= hiy
                                &&& lof <= fl <= hif
                                &&& #[trigger] bucket_at(
                                    self.grids_view(),
                                    fl,
                                    cantor(kx2, ky) as u64,
                                ).contains(e)
                            };
                        if kx2 < kx {
                            assert(opre.contains(e));
                        } else {
                            assert(bucket_at(
                                self.grids_view(),
                                fl,
                                cantor(kx as int, ky) as u64,
                            ).contains(e));
                            assert(out@.contains(e));
                        }
                    }
                }
            }
            kx = kx + 1;
        }
    }
}

} // verus!

verus! {

/// The scan radius in cells for one axis, computed on machine words.
fn scaled_radius_exec(cells: u32, permille: u32) -> (r: u32)
    ensures
        r == scaled_radius(cells as int, permille as int),
{
    let eff: u64 = if permille > 1000 {
        1000
    } else {
        permille as u64
    };
    proof {
        assert((cells as u64) * eff <= 0xffff_ffff * 1000) by (nonlinear_arith)
            requires
                cells <= 0xffff_ffff && eff <= 1000,
        ;
    }
    let v = ((cells as u64) * eff + 999) / 1000;
    proof {
        assert(v <= cells) by {
            assert(((cells as int) * (eff as int) + 999) / 1000 <= cells as int) by (nonlinear_arith)
                requires
                    eff <= 1000 && cells >= 0,
            ;
        }
    }
    if v < 1 {
        1
    } else {
        v as u32
    }
}

impl<Id: DataIndex> HashGrid<Id> {
    /// Answers a query at a point inside the bounds. `Single` returns the
    /// bucket of the point's cell; `Search` scans the neighborhood given by
    /// the query radius for one entity with the given identifier;
    /// `Neighbour` collects every bucket in the neighborhood given by its
    /// own radius.
    pub fn query(&self, query: Query<Id>) -> (r: QueryResult<Id>)
        requires
            self.wf(),
            in_bounds_spec(self.spec_bounds(), (query.cx, query.cy, query.cz)),
        ensures
            r.spec_query() == query,
            query.ty is Single ==> r.spec_data() == bucket_at(
                self.grids_view(),
                self.query_cell(query).2,
                cantor(self.query_cell(query).0, self.query_cell(query).1) as u64,
            ),
            (match query.ty {
                QueryType::Search(id) => {
                    &&& r.spec_data().len() <= 1
                    &&& (r.spec_data().len() == 1 ==> r.spec_data()[0].id == id
                        && self.in_query_neighborhood(query, query.radius as int, r.spec_data()[0]))
                    &&& (r.spec_data().len() == 0 ==> forall|e: GridEntity<Id>|
                        self.in_query_neighborhood(query, query.radius as int, e) ==> e.id != id)
                },
                _ => true,
            }),
            (match query.ty {
                QueryType::Neighbour(rad) => forall|e: GridEntity<Id>| #[trigger]
                    r.spec_data().contains(e) <==> self.in_query_neighborhood(
                        query,
                        rad as int,
                        e,
                    ),
                _ => true,
            }),
    {
        let (bx, by, bf) = self.get_cell_coordinates(query.x(), query.y(), query.z());
        match query.query_type() {
            QueryType::Single => {
                let hashindex = self.key(bx, by);
                let key = hashindex.key();
                proof {
                    lemma_cantor_fits(bx as int, by as int);
                }
                let mut data: Vec<GridEntity<Id>> = Vec::new();
                let floor_map = &self.grids[bf];
                match floor_map.get(&key) {
                    Some(b) => {
                        append_bucket(&mut data, b);
                        proof {
                            assert(self.grids_view()[bf as int] == floor_view(floor_map@));
                            assert(floor_view(floor_map@)[key] == b@);
                            assert(data@ =~= b@);
                        }
                    },
                    None => {
                        proof {
                            assert(self.grids_view()[bf as int] == floor_view(floor_map@));
                            assert(!floor_view(floor_map@).contains_key(key));
                            assert(data@ =~= Seq::<GridEntity<Id>>::empty());
                        }
                    },
                }
                QueryResult::from_parts(query, data)
            },
            QueryType::Search(id) => {
                let mut tmp: Vec<GridEntity<Id>> = Vec::new();
                self.scan_region(bx, by, bf, query.radius(), &mut tmp);
                let mut data: Vec<GridEntity<Id>> = Vec::new();
                let n = tmp.len();
                let mut i: usize = 0;
                let mut found = false;
                while i < n && !found
                    invariant
                        0 <= i <= n,
                        n == tmp@.len(),
                        !found ==> data@.len() == 0,
                        !found ==> forall|j: int| 0 <= j < i ==> (#[trigger] tmp@[j]).id != id,
                        found ==> data@.len() == 1 && tmp@.contains(data@[0]) && data@[0].id
                            == id,
                    decreases n - i,
                {
                    let candidate = tmp[i];
                    if candidate.id.same(&id) {
                        data.push(candidate);
                        found = true;
                        proof {
                            assert(tmp@[i as int] == candidate);
                            assert(tmp@.contains(candidate));
                        }
                    }
                    i = i + 1;
                }
                proof {
                    if data@.len() == 0 {
                        assert forall|e: GridEntity<Id>|
                            self.in_query_neighborhood(
                                query,
                                query.radius as int,
                                e,
                            ) implies e.id != id by {
                            assert(tmp@.contains(e));
                            let j = choose|j: int| 0 <= j < tmp@.len() && tmp@[j] == e;
                        }
                    }
                }
                QueryResult::from_parts(query, data)
            },
            QueryType::Neighbour(rad) => {
                let mut tmp: Vec<GridEntity<Id>> = Vec::new();
                self.scan_region(bx, by, bf, rad, &mut tmp);
                QueryResult::from_parts(query, tmp)
            },
        }
    }

    /// The cell the query's point of interest falls in.
    pub closed spec fn query_cell(&self, query: Query<Id>) -> (int, int, int) {
        cell_of(
            self.spec_bounds(),
            self.spec_sizes(),
            self.spec_cells().floors as int,
            (query.cx as int, query.cy as int, query.cz as int),
        )
    }

    /// Whether `e` sits in some bucket of the neighborhood that a radius of
    /// `rad` thousandths spans around the query's cell.
    pub closed spec fn in_query_neighborhood(
        &self,
        query: Query<Id>,
        rad: int,
        e: GridEntity<Id>,
    ) -> bool {
        neighborhood_has(
            self.grids_view(),
            self.query_cell(query),
            scaled_radius(self.spec_cells().xcells as int, rad),
            scaled_radius(self.spec_cells().ycells as int, rad),
            scaled_radius(self.spec_cells().floors as int, rad),
            self.spec_cells().xcells as int,
            self.spec_cells().ycells as int,
            self.spec_cells().floors as int,
            e,
        )
    }

    /// Collects, into `out`, every bucket of the neighborhood that a radius
    /// of `rad` thousandths spans around cell `(bx, by, bf)`.
    #[verifier::rlimit(60)]
    #[verifier::spinoff_prover]
    fn scan_region(&self, bx: u32, by: u32, bf: usize, rad: u32, out: &mut Vec<GridEntity<Id>>)
        requires
            self.wf(),
            old(out)@.len() == 0,
            bf < self.spec_cells().floors,
        ensures
            forall|e: GridEntity<Id>| #[trigger]
                final(out)@.contains(e) <==> neighborhood_has(
                    self.grids_view(),
                    (bx as int, by as int, bf as int),
                    scaled_radius(self.spec_cells().xcells as int, rad as int),
                    scaled_radius(self.spec_cells().ycells as int, rad as int),
                    scaled_radius(self.spec_cells().floors as int, rad as int),
                    self.spec_cells().xcells as int,
                    self.spec_cells().ycells as int,
                    self.spec_cells().floors as int,
                    e,
                ),
    {
        let rx = scaled_radius_exec(self.params.cell_per_axis.xcells, rad);
        let ry = scaled_radius_exec(self.params.cell_per_axis.ycells, rad);
        let floors = self.params.cell_per_axis.floors;
        let rf = scaled_radius_exec(floors as u32, rad);
        let lox: u32 = if bx > rx {
            bx - rx
        } else {
            0
        };
        let hix: u32 = if (bx as u64) + (rx as u64) <= (self.params.cell_per_axis.xcells
            as u64) {
            bx + rx
        } else {
            self.params.cell_per_axis.xcells
        };
        let loy: u32 = if by > ry {
            by - ry
        } else {
            0
        };
        let hiy: u32 = if (by as u64) + (ry as u64) <= (self.params.cell_per_axis.ycells
            as u64) {
            by + ry
        } else {
            self.params.cell_per_axis.ycells
        };
        let lof: usize = if (bf as u64) > (rf as u64) {
            (((bf as u64) - (rf as u64)) as usize)
        } else {
            0
        };
        let sumf = (bf as u64) + (rf as u64);
        let hif: usize = if sumf <= ((floors - 1) as u64) {
            sumf as usize
        } else {
            floors - 1
        };
        proof {
            assert(lox as int == range_lo(bx as int, rx as int));
            assert(hix as int == range_hi(bx as int, rx as int, self.spec_cells().xcells as int));
            assert(loy as int == range_lo(by as int, ry as int));
            assert(hiy as int == range_hi(by as int, ry as int, self.spec_cells().ycells as int));
            assert(lof as int == range_lo(bf as int, rf as int));
            assert(hif as int == range_hi(
                bf as int,
                rf as int,
                self.spec_cells().floors as int - 1,
            ));
        }
        self.collect_region(lox, hix, loy, hiy, lof, hif, out);
    }
}

} // verus!
