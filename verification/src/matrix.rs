use vstd::prelude::*;

verus! {

/// A dynamically sized boolean matrix. The cells live in a nalgebra
/// `DMatrix<bool>`, which Verus cannot look into, so the struct is opaque and
/// `mat_cells` below names its contents.
#[verifier::external_body]
pub struct BoolMatrix {
    inner: nalgebra::DMatrix<bool>,
}

/// The contents of a `BoolMatrix`: a map from (row, column) to the stored
/// boolean, whose domain is exactly the matrix's extent.
pub uninterp spec fn mat_cells(m: BoolMatrix) -> Map<(int, int), bool>;

/// The index set of a rows x cols grid.
pub open spec fn grid_dom(rows: int, cols: int) -> Set<(int, int)> {
    Set::new(|rc: (int, int)| 0 <= rc.0 < rows && 0 <= rc.1 < cols)
}

/// Relies on nalgebra's `DMatrix::from_element`: builds a rows x cols matrix
/// with every entry equal to `v`.
#[verifier::external_body]
fn mat_from_element(rows: usize, cols: usize, v: bool) -> (m: BoolMatrix)
    ensures
        mat_cells(m).dom() == grid_dom(rows as int, cols as int),
        forall|rc: (int, int)| mat_cells(m).dom().contains(rc) ==> mat_cells(m)[rc] == v,
{
    BoolMatrix { inner: nalgebra::DMatrix::from_element(rows, cols, v) }
}

/// Relies on `Index<(usize, usize)>` for nalgebra matrices: reads the entry
/// at (row, col). Indexing panics out of range, so the cell must be inside
/// the matrix's extent.
#[verifier::external_body]
fn mat_get(m: &BoolMatrix, r: usize, c: usize) -> (b: bool)
    requires
        mat_cells(*m).dom().contains((r as int, c as int)),
    ensures
        b == mat_cells(*m)[(r as int, c as int)],
{
    m.inner[(r, c)]
}

/// Relies on `IndexMut<(usize, usize)>` for nalgebra matrices: writes the
/// entry at (row, col). Indexing panics out of range, so the cell must be
/// inside the matrix's extent.
#[verifier::external_body]
fn mat_set(m: &mut BoolMatrix, r: usize, c: usize, v: bool)
    requires
        mat_cells(*old(m)).dom().contains((r as int, c as int)),
    ensures
        mat_cells(*final(m)) == mat_cells(*old(m)).insert((r as int, c as int), v),
{
    m.inner[(r, c)] = v;
}

/// The occupancy matrix used while generating a level: a cell is marked iff a
/// special entity was placed there during this generation. Rows index the
/// vertical coordinate (y), columns the horizontal one (x).
pub struct CollisionMatrix {
    pub coll: BoolMatrix,
    pub rows: usize,
    pub cols: usize,
}

impl CollisionMatrix {
    pub open spec fn wf(self) -> bool {
        &&& mat_cells(self.coll).dom() == grid_dom(self.rows as int, self.cols as int)
        &&& self.rows <= 0x10000
        &&& self.cols <= 0x10000
    }

    pub open spec fn in_bounds(self, r: int, c: int) -> bool {
        0 <= r < self.rows && 0 <= c < self.cols
    }

    pub open spec fn cell(self, r: int, c: int) -> bool {
        mat_cells(self.coll)[(r, c)]
    }

    /// What one probe of the square neighborhood sees: the cell offset from
    /// (r0, c0) by (dy, dx), an out-of-bounds probe seeing nothing.
    pub open spec fn probe(self, r0: int, c0: int, dx: int, dy: int) -> bool {
        self.in_bounds(r0 + dy, c0 + dx) && self.cell(r0 + dy, c0 + dx)
    }

    /// Some occupied cell lies within Chebyshev distance `t` of (r0, c0).
    pub open spec fn neighborhood_occupied(self, r0: int, c0: int, t: int) -> bool {
        exists|dx: int, dy: int|
            -t <= dx <= t && -t <= dy <= t && #[trigger] self.probe(r0, c0, dx, dy)
    }

    /// Some probe in column offset `dx` with row offset below `hi` sees an
    /// occupied cell.
    pub open spec fn col_occupied(self, r0: int, c0: int, t: int, dx: int, hi: int) -> bool {
        exists|dy: int| -t <= dy < hi && #[trigger] self.probe(r0, c0, dx, dy)
    }

    /// Some column offset below `hi` holds an occupied probe.
    pub open spec fn prefix_occupied(self, r0: int, c0: int, t: int, hi: int) -> bool {
        exists|dx: int| -t <= dx < hi && #[trigger] self.col_occupied(r0, c0, t, dx, t + 1)
    }

    proof fn lemma_col_step(self, r0: int, c0: int, t: int, dx: int, j: int)
        ensures
            self.col_occupied(r0, c0, t, dx, j + 1) == (self.col_occupied(r0, c0, t, dx, j)
                || (-t <= j && self.probe(r0, c0, dx, j))),
    {
        if self.col_occupied(r0, c0, t, dx, j + 1) {
            let dy = choose|dy: int| -t <= dy < j + 1 && #[trigger] self.probe(r0, c0, dx, dy);
            if dy < j {
                assert(self.col_occupied(r0, c0, t, dx, j));
            }
        }
        if self.col_occupied(r0, c0, t, dx, j) {
            let dy = choose|dy: int| -t <= dy < j && #[trigger] self.probe(r0, c0, dx, dy);
            assert(self.col_occupied(r0, c0, t, dx, j + 1));
        }
        if -t <= j && self.probe(r0, c0, dx, j) {
            assert(self.col_occupied(r0, c0, t, dx, j + 1));
        }
    }

    proof fn lemma_prefix_step(self, r0: int, c0: int, t: int, i: int)
        ensures
            self.prefix_occupied(r0, c0, t, i + 1) == (self.prefix_occupied(r0, c0, t, i)
                || (-t <= i && self.col_occupied(r0, c0, t, i, t + 1))),
    {
        if self.prefix_occupied(r0, c0, t, i + 1) {
            let dx = choose|dx: int| -t <= dx < i + 1
                && #[trigger] self.col_occupied(r0, c0, t, dx, t + 1);
            if dx < i {
                assert(self.prefix_occupied(r0, c0, t, i));
            }
        }
        if self.prefix_occupied(r0, c0, t, i) {
            let dx = choose|dx: int| -t <= dx < i
                && #[trigger] self.col_occupied(r0, c0, t, dx, t + 1);
            assert(self.prefix_occupied(r0, c0, t, i + 1));
        }
        if -t <= i && self.col_occupied(r0, c0, t, i, t + 1) {
            assert(self.prefix_occupied(r0, c0, t, i + 1));
        }
    }

    pub fn new(rows: usize, cols: usize) -> (m: CollisionMatrix)
        requires
            rows <= 0x10000,
            cols <= 0x10000,
        ensures
            m.wf(),
            m.rows == rows,
            m.cols == cols,
            forall|r: int, c: int| m.in_bounds(r, c) ==> !#[trigger] m.cell(r, c),
    {
        let coll = mat_from_element(rows, cols, false);
        CollisionMatrix { coll, rows, cols }
    }

    pub fn get(&self, r: usize, c: usize) -> (b: bool)
        requires
            self.wf(),
            r < self.rows,
            c < self.cols,
        ensures
            b == self.cell(r as int, c as int),
    {
        mat_get(&self.coll, r, c)
    }

    pub fn set(&mut self, r: usize, c: usize, v: bool)
        requires
            old(self).wf(),
            r < old(self).rows,
            c < old(self).cols,
        ensures
            final(self).wf(),
            final(self).rows == old(self).rows,
            final(self).cols == old(self).cols,
            forall|rr: int, cc: int|
                old(self).in_bounds(rr, cc) ==> #[trigger] final(self).cell(rr, cc)
                    == (if rr == r as int && cc == c as int { v } else { old(self).cell(rr, cc) }),
    {
        mat_set(&mut self.coll, r, c, v);
        proof {
            assert(mat_cells(self.coll).dom()
                =~= grid_dom(old(self).rows as int, old(self).cols as int));
        }
    }

    /// What lies `y` rows and `x` columns away from `ind`, an out-of-bounds
    /// neighbour reading as unoccupied.
    pub fn next(&self, ind: (usize, usize), x: i32, y: i32) -> (r: bool)
        requires
            self.wf(),
            ind.0 < self.rows,
            ind.1 < self.cols,
            -0x10000 <= x <= 0x10000,
            -0x10000 <= y <= 0x10000,
        ensures
            r == self.probe(ind.0 as int, ind.1 as int, x as int, y as int),
    {
        let rr: i64 = ind.0 as i64 + y as i64;
        let cc: i64 = ind.1 as i64 + x as i64;
        if rr < 0 || cc < 0 || rr >= self.rows as i64 || cc >= self.cols as i64 {
            false
        } else {
            self.get(rr as usize, cc as usize)
        }
    }

    /// Whether any occupied cell lies within the square (Chebyshev)
    /// neighborhood of radius `times` around `xy`; used to keep newly placed
    /// entities spaced apart.
    pub fn check_surroundings(&self, xy: (usize, usize), times: i32) -> (r: bool)
        requires
            self.wf(),
            xy.0 < self.rows,
            xy.1 < self.cols,
            -0x10000 <= times <= 0x10000,
        ensures
            r == self.neighborhood_occupied(xy.0 as int, xy.1 as int, times as int),
    {
        let ghost r0: int = xy.0 as int;
        let ghost c0: int = xy.1 as int;
        let ghost t: int = times as int;
        if times < 0 {
            return false;
        }
        let mut is_invalid = false;
        let mut i: i32 = -times;
        while i <= times
            invariant
                self.wf(),
                xy.0 < self.rows,
                xy.1 < self.cols,
                r0 == xy.0 as int,
                c0 == xy.1 as int,
                t == times as int,
                0 <= times <= 0x10000,
                -times <= i <= times + 1,
                is_invalid == self.prefix_occupied(r0, c0, t, i as int),
            decreases times + 1 - i,
        {
            let mut j: i32 = -times;
            while j <= times
                invariant
                    self.wf(),
                    xy.0 < self.rows,
                    xy.1 < self.cols,
                    r0 == xy.0 as int,
                    c0 == xy.1 as int,
                    t == times as int,
                    0 <= times <= 0x10000,
                    -times <= i <= times,
                    -times <= j <= times + 1,
                    is_invalid == (self.prefix_occupied(r0, c0, t, i as int)
                        || self.col_occupied(r0, c0, t, i as int, j as int)),
                decreases times + 1 - j,
            {
                let here = self.next(xy, i, j);
                proof {
                    self.lemma_col_step(r0, c0, t, i as int, j as int);
                }
                is_invalid = is_invalid || here;
                j = j + 1;
            }
            proof {
                self.lemma_prefix_step(r0, c0, t, i as int);
            }
            i = i + 1;
        }
        proof {
            if self.prefix_occupied(r0, c0, t, t + 1) {
                let dx = choose|dx: int| -t <= dx < t + 1
                    && #[trigger] self.col_occupied(r0, c0, t, dx, t + 1);
                let dy = choose|dy: int| -t <= dy < t + 1 && #[trigger] self.probe(r0, c0, dx, dy);
                assert(self.neighborhood_occupied(r0, c0, t));
            }
            if self.neighborhood_occupied(r0, c0, t) {
                let (dx, dy) = choose|dx: int, dy: int|
                    -t <= dx <= t && -t <= dy <= t && #[trigger] self.probe(r0, c0, dx, dy);
                assert(self.col_occupied(r0, c0, t, dx, t + 1));
                assert(self.prefix_occupied(r0, c0, t, t + 1));
            }
        }
        is_invalid
    }
}

} // verus!
