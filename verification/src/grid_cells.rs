use vstd::prelude::*;

verus! {

/// Grid cells: a distinct id for each position `(x, y)` of a `w × h` world,
/// `(x·h + y) / (w·h)`, appended to the perception to break the aliasing of
/// positions whose whisker readings coincide. Here each id is kept exactly,
/// as the numerator `x·h + y` and the common denominator `w·h`.
pub struct GridCells {
    pub width: usize,
    pub height: usize,
    pub cells: Vec<Vec<usize>>,
    pub total: usize,
    pub n_dims: usize,
}

/// One id dimension is needed once the world has more than 36 cells.
pub open spec fn dims_for(w: int, h: int) -> usize {
    if w * h > 36 { 1 } else { 0 }
}

impl GridCells {
    /// The id numerator stored for `(x, y)`.
    pub open spec fn spec_cell(&self, x: int, y: int) -> usize {
        self.cells@[x]@[y]
    }

    /// The common denominator of the ids.
    pub open spec fn spec_total(&self) -> usize {
        self.total
    }

    /// The id table covers the whole `width × height` world.
    pub open spec fn has_table(&self) -> bool {
        &&& self.cells@.len() == self.width
        &&& forall|x: int| 0 <= x < self.width ==> (#[trigger] self.cells@[x])@.len() == self.height
    }

    /// The ids are laid out for a `w × h` world: `(x, y)` has numerator
    /// `x·h + y` over `w·h`.
    pub open spec fn laid_out(&self, w: int, h: int) -> bool {
        &&& self.has_table()
        &&& self.width == w
        &&& self.height == h
        &&& self.spec_total() == w * h
        &&& forall|x: int, y: int| 0 <= x < w && 0 <= y < h ==> #[trigger] self.spec_cell(x, y) == x * h + y
    }

    /// The id table of a `w × h` world.
    fn table(w: usize, h: usize) -> (t: Vec<Vec<usize>>)
        requires
            w * h <= usize::MAX,
        ensures
            t@.len() == w,
            forall|x: int| 0 <= x < w ==> (#[trigger] t@[x])@.len() == h,
            forall|x: int, y: int| 0 <= x < w && 0 <= y < h ==> #[trigger] t@[x]@[y] == x * h + y,
    {
        let mut t: Vec<Vec<usize>> = Vec::new();
        let mut x: usize = 0;
        while x < w
            invariant
                x <= w,
                w * h <= usize::MAX,
                t@.len() == x,
                forall|i: int| 0 <= i < x ==> (#[trigger] t@[i])@.len() == h,
                forall|i: int, y: int| 0 <= i < x && 0 <= y < h ==> #[trigger] t@[i]@[y] == i * h + y,
            decreases w - x,
        {
            let mut row: Vec<usize> = Vec::new();
            let mut y: usize = 0;
            while y < h
                invariant
                    x < w,
                    y <= h,
                    w * h <= usize::MAX,
                    row@.len() == y,
                    forall|j: int| 0 <= j < y ==> row@[j] == x * h + j,
                decreases h - y,
            {
                assert(x * h + y < w * h) by (nonlinear_arith)
                    requires
                        x < w,
                        y < h,
                ;
                row.push(x * h + y);
                y += 1;
            }
            t.push(row);
            x += 1;
        }
        t
    }

    pub fn new(width: usize, height: usize) -> (gc: Self)
        requires
            width * height <= usize::MAX,
        ensures
            gc.laid_out(width as int, height as int),
            gc.n_dims == dims_for(width as int, height as int),
    {
        let n_dims = if width * height > 36 { 1 } else { 0 };
        let cells = Self::table(width, height);
        GridCells { width, height, cells, total: width * height, n_dims }
    }

    /// Reconfigures for a `w × h` world, enabling the id dimension only when
    /// the world has more than 36 cells.
    pub fn auto_configure(&mut self, w: usize, h: usize)
        requires
            w * h <= usize::MAX,
        ensures
            final(self).laid_out(w as int, h as int),
            final(self).n_dims == dims_for(w as int, h as int),
    {
        self.width = w;
        self.height = h;
        self.n_dims = if w * h > 36 { 1 } else { 0 };
        self.total = w * h;
        self.cells = Self::table(w, h);
    }

    /// Enables the id dimension for a `w × h` world whatever its size.
    pub fn force_on(&mut self, w: usize, h: usize)
        requires
            w * h <= usize::MAX,
        ensures
            final(self).laid_out(w as int, h as int),
            final(self).n_dims == 1,
    {
        self.width = w;
        self.height = h;
        self.n_dims = 1;
        self.cells = Self::table(w, h);
        self.total = w * h;
    }

    /// Disables the id dimension and drops the id table.
    pub fn force_off(&mut self)
        ensures
            final(self).n_dims == 0,
            final(self).width == old(self).width,
            final(self).height == old(self).height,
            final(self).width == 0 || final(self).height == 0 || !final(self).has_table(),
    {
        self.n_dims = 0;
        self.cells.clear();
    }

    /// The id of `(x, y)` as (numerator, denominator); positions outside the
    /// world get id 0, given as `(0, 1)`. Inside the world the id table must
    /// be present (it is not after `force_off`).
    pub fn cell_fraction(&self, x: usize, y: usize) -> (r: (usize, usize))
        requires
            x < self.width && y < self.height ==> self.has_table(),
        ensures
            r == if x < self.width && y < self.height {
                (self.spec_cell(x as int, y as int), self.spec_total())
            } else {
                (0usize, 1usize)
            },
    {
        if x < self.width && y < self.height {
            (self.cells[x][y], self.total)
        } else {
            (0, 1)
        }
    }

    /// How many id dimensions are appended to the perception.
    pub fn extra_dim(&self) -> (n: usize)
        ensures
            n == self.n_dims,
    {
        self.n_dims
    }

    /// The perception length once the ids are appended.
    pub fn dim_with_cells(&self, base_dim: usize) -> (n: usize)
        requires
            base_dim + self.n_dims <= usize::MAX,
        ensures
            n == base_dim + self.n_dims,
    {
        base_dim + self.extra_dim()
    }
}

/// In a laid-out table every position of the world has its own id, and each
/// id lies in `[0, 1)`: its numerator is below the denominator.
pub proof fn lemma_cell_ids_distinct(gc: GridCells, w: int, h: int)
    requires
        gc.laid_out(w, h),
    ensures
        forall|x: int, y: int| 0 <= x < w && 0 <= y < h ==> #[trigger] gc.spec_cell(x, y) < gc.spec_total(),
        forall|x1: int, y1: int, x2: int, y2: int|
            0 <= x1 < w && 0 <= y1 < h && 0 <= x2 < w && 0 <= y2 < h && (x1, y1) != (x2, y2) ==> #[trigger] gc.spec_cell(
                x1,
                y1,
            ) != #[trigger] gc.spec_cell(x2, y2),
{
    assert forall|x: int, y: int| 0 <= x < w && 0 <= y < h implies #[trigger] gc.spec_cell(x, y) < gc.spec_total() by {
        assert(x * h + y < w * h) by (nonlinear_arith)
            requires
                0 <= x < w,
                0 <= y < h,
        ;
    }
    assert forall|x1: int, y1: int, x2: int, y2: int|
        0 <= x1 < w && 0 <= y1 < h && 0 <= x2 < w && 0 <= y2 < h && (x1, y1) != (x2, y2) implies #[trigger] gc.spec_cell(
        x1,
        y1,
    ) != #[trigger] gc.spec_cell(x2, y2) by {
        if x1 == x2 {
            assert(y1 != y2);
        } else if x1 < x2 {
            assert(x1 * h + y1 < x2 * h + y2) by (nonlinear_arith)
                requires
                    x1 < x2,
                    0 <= y1 < h,
                    0 <= y2,
            ;
        } else {
            assert(x2 * h + y2 < x1 * h + y1) by (nonlinear_arith)
                requires
                    x2 < x1,
                    0 <= y2 < h,
                    0 <= y1,
            ;
        }
    }
}

} // verus!
