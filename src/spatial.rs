use vstd::prelude::*;

verus! {

/// The hyphae of `cells` (by index, in increasing order) among the first `n`
/// whose cell is `(x, y)`; `None` marks a hypha that is not indexed.
pub open spec fn members(cells: Seq<Option<(usize, usize)>>, x: int, y: int, n: int) -> Seq<usize>
    decreases n,
{
    if n <= 0 {
        Seq::empty()
    } else {
        let rest = members(cells, x, y, n - 1);
        if cells[n - 1] is Some && cells[n - 1]->0 == (x as usize, y as usize) {
            rest.push((n - 1) as usize)
        } else {
            rest
        }
    }
}

/// A bucketed grid over hypha positions: bucket `(x, y)` lists the hyphae
/// whose position falls in that coarse cell. The buckets are kept between
/// ticks and refilled by `rebuild`.
pub struct SpatialIndex {
    nx: usize,
    ny: usize,
    grid: Vec<Vec<Vec<usize>>>,
}

impl SpatialIndex {
    pub closed spec fn width(&self) -> nat {
        self.nx as nat
    }

    pub closed spec fn height(&self) -> nat {
        self.ny as nat
    }

    /// The hyphae listed in bucket `(x, y)`.
    pub closed spec fn bucket(&self, x: int, y: int) -> Seq<usize> {
        self.grid@[x]@[y]@
    }

    pub closed spec fn wf(&self) -> bool {
        &&& self.grid@.len() == self.nx
        &&& forall|x: int| 0 <= x < self.nx ==> (#[trigger] self.grid@[x])@.len() == self.ny
    }

    /// An index of `nx` by `ny` empty buckets.
    pub fn new(nx: usize, ny: usize) -> (r: Self)
        ensures
            r.wf(),
            r.width() == nx,
            r.height() == ny,
            forall|x: int, y: int| 0 <= x < nx && 0 <= y < ny ==> #[trigger] r.bucket(x, y).len() == 0,
    {
        let mut grid: Vec<Vec<Vec<usize>>> = Vec::new();
        let mut x: usize = 0;
        while x < nx
            invariant
                x <= nx,
                grid@.len() == x,
                forall|i: int| 0 <= i < x ==> (#[trigger] grid@[i])@.len() == ny,
                forall|i: int, y: int| 0 <= i < x && 0 <= y < ny ==> (#[trigger] grid@[i]@[y])@.len() == 0,
            decreases nx - x,
        {
            let mut col: Vec<Vec<usize>> = Vec::new();
            let mut y: usize = 0;
            while y < ny
                invariant
                    y <= ny,
                    col@.len() == y,
                    forall|k: int| 0 <= k < y ==> (#[trigger] col@[k])@.len() == 0,
                decreases ny - y,
            {
                col.push(Vec::new());
                y = y + 1;
            }
            grid.push(col);
            x = x + 1;
        }
        SpatialIndex { nx, ny, grid }
    }

    /// Clears every bucket, then lists each hypha `i` whose `cells[i]` is a
    /// cell of the grid in that cell's bucket, in increasing order of `i`.
    pub fn rebuild(&mut self, cells: &Vec<Option<(usize, usize)>>)
        requires
            old(self).wf(),
        ensures
            final(self).wf(),
            final(self).width() == old(self).width(),
            final(self).height() == old(self).height(),
            forall|x: int, y: int|
                0 <= x < final(self).width() && 0 <= y < final(self).height() ==> #[trigger] final(self).bucket(x, y)
                    == members(cells@, x, y, cells@.len() as int),
    {
        let nx = self.nx;
        let ny = self.ny;
        let mut x: usize = 0;
        while x < nx
            invariant
                nx == self.nx,
                ny == self.ny,
                self.wf(),
                x <= nx,
                forall|i: int, y: int| 0 <= i < x && 0 <= y < ny ==> (#[trigger] self.grid@[i]@[y])@.len() == 0,
            decreases nx - x,
        {
            let mut col: Vec<Vec<usize>> = Vec::new();
            self.grid.set_and_swap(x, &mut col);
            let mut y: usize = 0;
            while y < ny
                invariant
                    col@.len() == ny,
                    y <= ny,
                    forall|k: int| 0 <= k < y ==> (#[trigger] col@[k])@.len() == 0,
                decreases ny - y,
            {
                let mut b: Vec<usize> = Vec::new();
                col.set_and_swap(y, &mut b);
                b.clear();
                col.set_and_swap(y, &mut b);
                y = y + 1;
            }
            self.grid.set_and_swap(x, &mut col);
            x = x + 1;
        }
        let n = cells.len();
        let mut i: usize = 0;
        while i < n
            invariant
                nx == self.nx,
                ny == self.ny,
                self.wf(),
                n == cells@.len(),
                i <= n,
                forall|x: int, y: int|
                    0 <= x < nx && 0 <= y < ny ==> #[trigger] self.bucket(x, y) == members(cells@, x, y, i as int),
            decreases n - i,
        {
            if let Some((cx, cy)) = cells[i] {
                if cx < nx && cy < ny {
                    let ghost before = *self;
                    let mut col: Vec<Vec<usize>> = Vec::new();
                    self.grid.set_and_swap(cx, &mut col);
                    let mut b: Vec<usize> = Vec::new();
                    col.set_and_swap(cy, &mut b);
                    b.push(i);
                    col.set_and_swap(cy, &mut b);
                    self.grid.set_and_swap(cx, &mut col);
                    proof {
                        assert forall|x: int, y: int|
                            0 <= x < nx && 0 <= y < ny implies #[trigger] self.bucket(x, y) == members(cells@, x, y, i + 1) by {
                            assert(before.bucket(x, y) == members(cells@, x, y, i as int));
                            if x == cx && y == cy {
                                assert(self.bucket(x, y) == before.bucket(x, y).push(i));
                            } else {
                                assert(self.bucket(x, y) == before.bucket(x, y));
                            }
                        }
                    }
                }
            }
            i = i + 1;
        }
    }

    /// Buckets `(x, ys) .. (x, ye - 1)`, concatenated.
    pub open spec fn column(&self, x: int, ys: int, ye: int) -> Seq<usize>
        decreases ye - ys,
    {
        if ye <= ys {
            Seq::empty()
        } else {
            self.column(x, ys, ye - 1) + self.bucket(x, ye - 1)
        }
    }

    /// Columns `xs .. xe - 1` of the rows `ys .. ye - 1`, concatenated.
    pub open spec fn block(&self, xs: int, xe: int, ys: int, ye: int) -> Seq<usize>
        decreases xe - xs,
    {
        if xe <= xs {
            Seq::empty()
        } else {
            self.block(xs, xe - 1, ys, ye) + self.column(xe - 1, ys, ye)
        }
    }

    /// The hyphae listed in the buckets of the window `[xl, xh] × [yl, yh]`,
    /// clipped to the grid, scanned column by column.
    pub fn neighbors(&self, xl: isize, xh: isize, yl: isize, yh: isize) -> (r: Vec<usize>)
        requires
            self.wf(),
        ensures
            r@ == self.block(
                clip_start(xl as int),
                clip_end(xh as int, self.width() as int),
                clip_start(yl as int),
                clip_end(yh as int, self.height() as int),
            ),
    {
        let x_start: usize = if xl <= 0 { 0 } else { xl as usize };
        let x_end: usize = if xh < 0 { 0 } else if xh as usize >= self.nx { self.nx } else { xh as usize + 1 };
        let y_start: usize = if yl <= 0 { 0 } else { yl as usize };
        let y_end: usize = if yh < 0 { 0 } else if yh as usize >= self.ny { self.ny } else { yh as usize + 1 };
        let mut out: Vec<usize> = Vec::new();
        let mut x: usize = x_start;
        if x_end <= x_start {
            return out;
        }
        while x < x_end
            invariant
                self.wf(),
                x_end <= self.nx,
                y_end <= self.ny,
                x_start <= x <= x_end,
                out@ == self.block(x_start as int, x as int, y_start as int, y_end as int),
            decreases x_end - x,
        {
            let ghost col_start = out@;
            let mut y: usize = y_start;
            if y_end > y_start {
                while y < y_end
                    invariant
                        self.wf(),
                        x < x_end <= self.nx,
                        y_end <= self.ny,
                        y_start <= y <= y_end,
                        out@ == col_start + self.column(x as int, y_start as int, y as int),
                    decreases y_end - y,
                {
                    let ghost before = out@;
                    let b = &self.grid[x][y];
                    let mut k: usize = 0;
                    while k < b.len()
                        invariant
                            k <= b@.len(),
                            out@ == before + b@.take(k as int),
                        decreases b.len() - k,
                    {
                        out.push(b[k]);
                        proof {
                            assert(b@.take(k + 1) =~= b@.take(k as int).push(b@[k as int]));
                        }
                        k = k + 1;
                    }
                    proof {
                        assert(b@.take(b@.len() as int) =~= b@);
                        assert(b@ == self.bucket(x as int, y as int));
                        assert(out@ =~= col_start + self.column(x as int, y_start as int, y + 1));
                    }
                    y = y + 1;
                }
            } else {
                assert(out@ =~= col_start + self.column(x as int, y_start as int, y_end as int));
            }
            assert(out@ =~= self.block(x_start as int, x + 1, y_start as int, y_end as int));
            x = x + 1;
        }
        out
    }
}

/// First index of a window that starts at `l`, clipped at zero.
pub open spec fn clip_start(l: int) -> int {
    if l <= 0 {
        0
    } else {
        l
    }
}

/// One past the last index of a window that ends at `h`, clipped to `n`.
pub open spec fn clip_end(h: int, n: int) -> int {
    if h < 0 {
        0
    } else if h >= n {
        n
    } else {
        h + 1
    }
}

} // verus!
