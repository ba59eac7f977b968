//! A dense two-dimensional grid of buckets, indexed row- or column-major:
//! the flat backing store a spatial hash can sit on.
use vstd::prelude::*;

verus! {

/// Which axis runs fastest when the two-dimensional index is flattened.
#[derive(Debug, Clone, Copy, PartialEq)]
pub enum IndexMajor {
    Row,
    Column,
}

/// The flat position of cell `(x, y)` in a `width` by `height` grid.
pub open spec fn flat_index(width: int, height: int, x: int, y: int, major: IndexMajor) -> int {
    match major {
        IndexMajor::Row => y * width + x,
        IndexMajor::Column => x * height + y,
    }
}

/// An in-range flat index stays below the cell count.
proof fn lemma_flat_index_bound(width: int, height: int, x: int, y: int, major: IndexMajor)
    requires
        0 <= x < width,
        0 <= y < height,
    ensures
        0 <= flat_index(width, height, x, y, major) < width * height,
{
    match major {
        IndexMajor::Row => {
            assert(0 <= y * width + x < width * height) by (nonlinear_arith)
                requires
                    0 <= x < width && 0 <= y < height,
            ;
        },
        IndexMajor::Column => {
            assert(0 <= x * height + y < width * height) by (nonlinear_arith)
                requires
                    0 <= x < width && 0 <= y < height,
            ;
        },
    }
}

/// The contents of a list of buckets.
pub open spec fn buckets_view<T>(s: Seq<Vec<T>>) -> Seq<Seq<T>> {
    s.map_values(|v: Vec<T>| v@)
}

/// Replacing one bucket replaces exactly its cell in the view, whatever the
/// replacement holds.
proof fn lemma_buckets_update<T>(s: Seq<Vec<T>>, i: int)
    requires
        0 <= i < s.len(),
    ensures
        forall|nv: Vec<T>| #![trigger s.update(i, nv)]
            buckets_view(s.update(i, nv)) == buckets_view(s).update(i, nv@),
{
    assert forall|nv: Vec<T>| #![trigger s.update(i, nv)]
        buckets_view(s.update(i, nv)) == buckets_view(s).update(i, nv@) by {
        assert(buckets_view(s.update(i, nv)) =~= buckets_view(s).update(i, nv@));
    }
}

/// A dense `width` by `height` lattice of buckets.
pub struct Grid<T> {
    width: usize,
    height: usize,
    storage: Vec<Vec<T>>,
}

impl<T> Grid<T> {
    /// One bucket per cell.
    pub closed spec fn spec_cells(&self) -> Seq<Seq<T>> {
        buckets_view(self.storage@)
    }

    pub closed spec fn spec_width(&self) -> usize {
        self.width
    }

    pub closed spec fn spec_height(&self) -> usize {
        self.height
    }

    /// Well-formed: exactly one bucket per cell.
    pub closed spec fn wf(&self) -> bool {
        self.storage@.len() == self.width * self.height && self.width * self.height
            <= usize::MAX
    }

    pub fn new(width: usize, height: usize) -> (r: Grid<T>)
        requires
            width * height <= usize::MAX,
        ensures
            r.wf(),
            r.spec_width() == width,
            r.spec_height() == height,
            forall|i: int|
                0 <= i < r.spec_cells().len() ==> r.spec_cells()[i] == Seq::<T>::empty(),
    {
        Grid::with_capacity(width, height, 0)
    }

    /// A grid whose buckets are pre-allocated for `capacity` entries each.
    pub fn with_capacity(width: usize, height: usize, capacity: usize) -> (r: Grid<T>)
        requires
            width * height <= usize::MAX,
        ensures
            r.wf(),
            r.spec_width() == width,
            r.spec_height() == height,
            forall|i: int|
                0 <= i < r.spec_cells().len() ==> r.spec_cells()[i] == Seq::<T>::empty(),
    {
        proof {
            assert(width * height >= 0) by (nonlinear_arith);
        }
        let total = width * height;
        let mut storage: Vec<Vec<T>> = Vec::new();
        let mut i: usize = 0;
        while i < total
            invariant
                0 <= i <= total,
                storage@.len() == i,
                forall|j: int| 0 <= j < i ==> (#[trigger] storage@[j])@ == Seq::<T>::empty(),
            decreases total - i,
        {
            storage.push(Vec::with_capacity(capacity));
            i = i + 1;
        }
        Grid { width, height, storage }
    }

    /// Appends `object` to the bucket of cell `(x, y)`: refused, with
    /// `false`, when the cell is outside the grid.
    pub fn insert(&mut self, x: usize, y: usize, object: T, major: IndexMajor) -> (r: bool)
        requires
            old(self).wf(),
        ensures
            final(self).wf(),
            final(self).spec_width() == old(self).spec_width(),
            final(self).spec_height() == old(self).spec_height(),
            r == (x < old(self).spec_width() && y < old(self).spec_height()),
            !r ==> final(self).spec_cells() == old(self).spec_cells(),
            r ==> final(self).spec_cells() == old(self).spec_cells().update(
                flat_index(
                    old(self).spec_width() as int,
                    old(self).spec_height() as int,
                    x as int,
                    y as int,
                    major,
                ),
                old(self).spec_cells()[flat_index(
                    old(self).spec_width() as int,
                    old(self).spec_height() as int,
                    x as int,
                    y as int,
                    major,
                )].push(object),
            ),
    {
        if x >= self.width || y >= self.height {
            return false;
        }
        proof {
            lemma_flat_index_bound(
                self.width as int,
                self.height as int,
                x as int,
                y as int,
                major,
            );
        }
        let index = self.compute_index(x, y, major);
        let cell = &mut self.storage[index];
        cell.push(object);
        proof {
            assert(self.spec_cells() =~= old(self).spec_cells().update(
                index as int,
                old(self).spec_cells()[index as int].push(object),
            ));
        }
        true
    }

    /// Whether cell `(x, y)` exists and holds anything.
    pub fn contains(&self, x: usize, y: usize, major: IndexMajor) -> (r: bool)
        requires
            self.wf(),
        ensures
            r == (x < self.spec_width() && y < self.spec_height() && self.spec_cells()[flat_index(
                self.spec_width() as int,
                self.spec_height() as int,
                x as int,
                y as int,
                major,
            )].len() > 0),
    {
        if x >= self.width || y >= self.height {
            return false;
        }
        proof {
            lemma_flat_index_bound(
                self.width as int,
                self.height as int,
                x as int,
                y as int,
                major,
            );
        }
        let index = self.compute_index(x, y, major);
        self.storage[index].len() > 0
    }

    /// Number of cells in the lattice.
    pub fn total_cells(&self) -> (r: usize)
        requires
            self.wf(),
        ensures
            r == self.spec_width() * self.spec_height(),
    {
        self.storage.len()
    }

    pub fn height(&self) -> (r: usize)
        ensures
            r == self.spec_height(),
    {
        self.height
    }

    pub fn width(&self) -> (r: usize)
        ensures
            r == self.spec_width(),
    {
        self.width
    }

    /// The flat position of cell `(x, y)` under the given ordering.
    pub fn compute_index(&self, x: usize, y: usize, major: IndexMajor) -> (r: usize)
        requires
            self.wf(),
            x < self.spec_width(),
            y < self.spec_height(),
        ensures
            r == flat_index(
                self.spec_width() as int,
                self.spec_height() as int,
                x as int,
                y as int,
                major,
            ),
    {
        proof {
            lemma_flat_index_bound(
                self.width as int,
                self.height as int,
                x as int,
                y as int,
                major,
            );
        }
        match major {
            IndexMajor::Row => y * self.width + x,
            IndexMajor::Column => x * self.height + y,
        }
    }

    /// The bucket of cell `(x, y)`, or `None` outside the grid.
    pub fn get(&self, x: usize, y: usize, major: IndexMajor) -> (r: Option<&Vec<T>>)
        requires
            self.wf(),
        ensures
            match r {
                Some(cell) => x < self.spec_width() && y < self.spec_height() && cell@
                    == self.spec_cells()[flat_index(
                    self.spec_width() as int,
                    self.spec_height() as int,
                    x as int,
                    y as int,
                    major,
                )],
                None => !(x < self.spec_width() && y < self.spec_height()),
            },
    {
        if x >= self.width || y >= self.height {
            return None;
        }
        proof {
            lemma_flat_index_bound(
                self.width as int,
                self.height as int,
                x as int,
                y as int,
                major,
            );
        }
        let index = self.compute_index(x, y, major);
        Some(&self.storage[index])
    }

    /// The bucket of cell `(x, y)` for writing, or `None` outside the grid.
    pub fn get_mut(&mut self, x: usize, y: usize, major: IndexMajor) -> (r: Option<&mut Vec<
        T,
    >>)
        requires
            old(self).wf(),
        ensures
            final(self).wf(),
            final(self).spec_width() == old(self).spec_width(),
            final(self).spec_height() == old(self).spec_height(),
            match r {
                Some(cell) => x < old(self).spec_width() && y < old(self).spec_height() && cell@
                    == old(self).spec_cells()[flat_index(
                    old(self).spec_width() as int,
                    old(self).spec_height() as int,
                    x as int,
                    y as int,
                    major,
                )] && final(self).spec_cells() == old(self).spec_cells().update(
                    flat_index(
                        old(self).spec_width() as int,
                        old(self).spec_height() as int,
                        x as int,
                        y as int,
                        major,
                    ),
                    final(cell)@,
                ),
                None => !(x < old(self).spec_width() && y < old(self).spec_height())
                    && final(self).spec_cells() == old(self).spec_cells(),
            },
    {
        if x >= self.width || y >= self.height {
            return None;
        }
        proof {
            lemma_flat_index_bound(
                self.width as int,
                self.height as int,
                x as int,
                y as int,
                major,
            );
        }
        let index = self.compute_index(x, y, major);
        proof {
            lemma_buckets_update(self.storage@, index as int);
        }
        let cell = &mut self.storage[index];
        Some(cell)
    }
}

impl<T> Grid<T> {
    /// The buckets of the rectangle of cells with `x` in `x_lo..=x_hi` and
    /// `y` in `y_lo..=y_hi`, outer axis first, ready to be walked newest
    /// first.
    pub fn get_by_range(
        &self,
        x_lo: usize,
        x_hi: usize,
        y_lo: usize,
        y_hi: usize,
        major: IndexMajor,
    ) -> (r: GridCells<T>)
        requires
            self.wf(),
            x_lo <= x_hi < self.spec_width(),
            y_lo <= y_hi < self.spec_height(),
        ensures
            r@.len() == (x_hi - x_lo + 1) * (y_hi - y_lo + 1),
            forall|i: int, j: int|
                0 <= i <= x_hi - x_lo && 0 <= j <= y_hi - y_lo ==> #[trigger] r@[i * (y_hi - y_lo
                    + 1) + j] == self.spec_cells()[flat_index(
                    self.spec_width() as int,
                    self.spec_height() as int,
                    x_lo + i,
                    y_lo + j,
                    major,
                )],
    {
        let ny = y_hi - y_lo + 1;
        let mut list: Vec<&Vec<T>> = Vec::new();
        let mut x = x_lo;
        while x <= x_hi
            invariant
                self.wf(),
                x_lo <= x <= x_hi + 1,
                x_hi < self.spec_width(),
                y_lo <= y_hi < self.spec_height(),
                ny == y_hi - y_lo + 1,
                list@.len() == (x - x_lo) * ny,
                forall|i: int, j: int|
                    0 <= i < x - x_lo && 0 <= j < ny ==> (#[trigger] list@[i * ny + j])@
                        == self.spec_cells()[flat_index(
                        self.spec_width() as int,
                        self.spec_height() as int,
                        x_lo + i,
                        y_lo + j,
                        major,
                    )],
            decreases x_hi + 1 - x,
        {
            let ghost lpre = list@;
            let mut y = y_lo;
            while y <= y_hi
                invariant
                    self.wf(),
                    x_lo <= x <= x_hi,
                    x_hi < self.spec_width(),
                    y_lo <= y <= y_hi + 1,
                    y_hi < self.spec_height(),
                    ny == y_hi - y_lo + 1,
                    list@.len() == lpre.len() + (y - y_lo),
                    forall|j: int| 0 <= j < lpre.len() ==> #[trigger] list@[j] == lpre[j],
                    forall|j: int|
                        0 <= j < y - y_lo ==> (#[trigger] list@[lpre.len() + j])@
                            == self.spec_cells()[flat_index(
                            self.spec_width() as int,
                            self.spec_height() as int,
                            x as int,
                            y_lo + j,
                            major,
                        )],
                decreases y_hi + 1 - y,
            {
                proof {
                    lemma_flat_index_bound(
                        self.width as int,
                        self.height as int,
                        x as int,
                        y as int,
                        major,
                    );
                }
                let index = self.compute_index(x, y, major);
                list.push(&self.storage[index]);
                y = y + 1;
            }
            proof {
                let i0 = x - x_lo;
                assert(list@.len() == (i0 + 1) * ny) by (nonlinear_arith)
                    requires
                        list@.len() == lpre.len() + ny && lpre.len() == i0 * ny,
                ;
                assert forall|i: int, j: int|
                    0 <= i < x + 1 - x_lo && 0 <= j < ny implies (#[trigger] list@[i * ny + j])@
                    == self.spec_cells()[flat_index(
                    self.spec_width() as int,
                    self.spec_height() as int,
                    x_lo + i,
                    y_lo + j,
                    major,
                )] by {
                    if i < i0 {
                        assert(0 <= i * ny + j < lpre.len()) by (nonlinear_arith)
                            requires
                                0 <= i < i0 && 0 <= j < ny && lpre.len() == i0 * ny,
                        ;
                        assert(list@[i * ny + j] == lpre[i * ny + j]);
                    } else {
                        assert(i * ny + j == lpre.len() + j) by (nonlinear_arith)
                            requires
                                i == i0 && lpre.len() == i0 * ny,
                        ;
                    }
                }
            }
            x = x + 1;
        }
        proof {
            assert forall|i: int, j: int|
                0 <= i <= x_hi - x_lo && 0 <= j <= y_hi - y_lo implies #[trigger] ref_buckets_view(
                list@,
            )[i * (y_hi - y_lo + 1) + j] == self.spec_cells()[flat_index(
                self.spec_width() as int,
                self.spec_height() as int,
                x_lo + i,
                y_lo + j,
                major,
            )] by {
                assert(0 <= i * ny + j < list@.len()) by (nonlinear_arith)
                    requires
                        0 <= i <= x_hi - x_lo && 0 <= j < ny && ny == y_hi - y_lo + 1
                            && list@.len() == (x_hi - x_lo + 1) * ny,
                ;
                assert((list@[i * ny + j])@ == self.spec_cells()[flat_index(
                    self.spec_width() as int,
                    self.spec_height() as int,
                    x_lo + i,
                    y_lo + j,
                    major,
                )]);
            }
        }
        GridCells { list }
    }
}

/// The contents of a list of borrowed buckets.
pub open spec fn ref_buckets_view<T>(s: Seq<&Vec<T>>) -> Seq<Seq<T>> {
    s.map_values(|v: &Vec<T>| v@)
}

/// A batch of buckets borrowed from a rectangle of cells, walked from the
/// most recently collected backwards.
pub struct GridCells<'a, T> {
    list: Vec<&'a Vec<T>>,
}

impl<'a, T> View for GridCells<'a, T> {
    type V = Seq<Seq<T>>;

    /// The collected buckets, in collection order.
    closed spec fn view(&self) -> Seq<Seq<T>> {
        ref_buckets_view(self.list@)
    }
}

impl<'a, T> GridCells<'a, T> {
    /// Hands out the most recently collected bucket still held.
    pub fn next(&mut self) -> (r: Option<&'a Vec<T>>)
        ensures
            old(self)@.len() == 0 ==> r is None && final(self)@ == old(self)@,
            old(self)@.len() > 0 ==> (match r {
                Some(cell) => cell@ == old(self)@.last() && final(self)@ == old(
                    self,
                )@.drop_last(),
                None => false,
            }),
    {
        proof {
            if self.list@.len() > 0 {
                assert(ref_buckets_view(self.list@.drop_last()) =~= ref_buckets_view(
                    self.list@,
                ).drop_last());
            }
        }
        self.list.pop()
    }

    pub fn is_empty(&self) -> (r: bool)
        ensures
            r == (self@.len() == 0),
    {
        self.list.len() == 0
    }
}

} // verus!
