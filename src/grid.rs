use vstd::prelude::*;

verus! {

/// An inclusive rectangle of grid cells, `[x0, x1] × [y0, y1]`; empty when
/// `x0 > x1` or `y0 > y1`.
#[derive(Clone, Copy, Debug, PartialEq, Eq, Structural)]
pub struct Region {
    pub x0: usize,
    pub x1: usize,
    pub y0: usize,
    pub y1: usize,
}

/// Whether cell `c` lies strictly inside a grid of side `n` (off the border
/// ring).
pub open spec fn interior(c: (usize, usize), n: usize) -> bool {
    0 < c.0 && 0 < c.1 && c.0 + 1 < n && c.1 + 1 < n
}

/// The smallest and largest interior coordinates among the first `k` cells,
/// on axis x (`on_x`) or y; starting from `n - 2` for the smallest and 1 for
/// the largest, so that no interior cell leaves the bounds crossed.
pub open spec fn extent(cells: Seq<(usize, usize)>, n: usize, k: int, on_x: bool) -> (int, int)
    decreases k,
{
    if k <= 0 {
        (n - 2, 1)
    } else {
        let (lo, hi) = extent(cells, n, k - 1, on_x);
        let c = cells[k - 1];
        let v = if on_x {
            c.0 as int
        } else {
            c.1 as int
        };
        if interior(c, n) {
            (if v < lo {
                v
            } else {
                lo
            }, if v > hi {
                v
            } else {
                hi
            })
        } else {
            (lo, hi)
        }
    }
}

pub open spec fn sat_sub(a: int, b: int) -> int {
    if a >= b {
        a - b
    } else {
        0
    }
}

pub open spec fn min_int(a: int, b: int) -> int {
    if a <= b {
        a
    } else {
        b
    }
}

pub open spec fn max_int(a: int, b: int) -> int {
    if a >= b {
        a
    } else {
        b
    }
}

/// The region that diffusion updates in one tick: the bounding box of the
/// interior cells that hold live hyphae, grown by `pad` on every side and
/// kept off the border ring.
pub open spec fn diffusion_region_spec(cells: Seq<(usize, usize)>, n: usize, pad: usize) -> Region {
    let (lx, hx) = extent(cells, n, cells.len() as int, true);
    let (ly, hy) = extent(cells, n, cells.len() as int, false);
    Region {
        x0: max_int(1, sat_sub(lx, pad as int)) as usize,
        x1: min_int(n - 2, hx + pad) as usize,
        y0: max_int(1, sat_sub(ly, pad as int)) as usize,
        y1: min_int(n - 2, hy + pad) as usize,
    }
}

/// Computes the diffusion region for the cells `cells` of live hyphae on a
/// grid of side `n`.
pub fn diffusion_region(cells: &Vec<(usize, usize)>, n: usize, pad: usize) -> (r: Region)
    requires
        n >= 3,
    ensures
        r == diffusion_region_spec(cells@, n, pad),
        1 <= r.x0 && r.x1 <= n - 2 && 1 <= r.y0 && r.y1 <= n - 2,
{
    let mut minx: usize = n - 2;
    let mut miny: usize = n - 2;
    let mut maxx: usize = 1;
    let mut maxy: usize = 1;
    let mut i: usize = 0;
    while i < cells.len()
        invariant
            n >= 3,
            i <= cells@.len(),
            (minx as int, maxx as int) == extent(cells@, n, i as int, true),
            (miny as int, maxy as int) == extent(cells@, n, i as int, false),
            1 <= minx <= n - 2,
            1 <= miny <= n - 2,
            1 <= maxx <= n - 2,
            1 <= maxy <= n - 2,
        decreases cells.len() - i,
    {
        let (xi, yi) = cells[i];
        if xi > 0 && yi > 0 && xi < n - 1 && yi < n - 1 {
            if xi < minx {
                minx = xi;
            }
            if yi < miny {
                miny = yi;
            }
            if xi > maxx {
                maxx = xi;
            }
            if yi > maxy {
                maxy = yi;
            }
        }
        i = i + 1;
    }
    let x0 = if minx >= pad { minx - pad } else { 0 };
    let y0 = if miny >= pad { miny - pad } else { 0 };
    let x1 = if pad >= n - 2 || maxx >= n - 2 - pad { n - 2 } else { maxx + pad };
    let y1 = if pad >= n - 2 || maxy >= n - 2 - pad { n - 2 } else { maxy + pad };
    Region { x0: if x0 < 1 { 1 } else { x0 }, x1, y0: if y0 < 1 { 1 } else { y0 }, y1 }
}

impl Region {
    /// The region grown by one cell on every side, clipped to a grid of side
    /// `n`: the cells that the diffusion stencil reads.
    pub fn with_margin(&self, n: usize) -> (r: Region)
        requires
            n >= 1,
        ensures
            r.x0 == sat_sub(self.x0 as int, 1),
            r.y0 == sat_sub(self.y0 as int, 1),
            r.x1 == min_int(n - 1, self.x1 + 1),
            r.y1 == min_int(n - 1, self.y1 + 1),
    {
        Region {
            x0: if self.x0 >= 1 { self.x0 - 1 } else { 0 },
            x1: if self.x1 >= n - 1 { n - 1 } else { self.x1 + 1 },
            y0: if self.y0 >= 1 { self.y0 - 1 } else { 0 },
            y1: if self.y1 >= n - 1 { n - 1 } else { self.y1 + 1 },
        }
    }
}

/// One cell of a disk around a centre: its coordinates and its squared
/// distance from the centre.
#[derive(Clone, Copy, Debug, PartialEq, Eq, Structural)]
pub struct DiskCell {
    pub x: usize,
    pub y: usize,
    pub dist_sq: u32,
}

/// Coordinate `c + d` brought into `[lo, hi)`: clamped when `clamp`, else
/// `None` when it falls outside.
pub open spec fn place(c: int, d: int, lo: int, hi: int, clamp: bool) -> Option<int> {
    let v = c + d;
    if lo <= v < hi {
        Some(v)
    } else if clamp && lo < hi {
        if v < lo {
            Some(lo)
        } else {
            Some(hi - 1)
        }
    } else {
        None
    }
}

/// Offset `(dx, dy)` is inside the disk of radius `r`: `dx² + dy² < r²` when
/// `strict`, `≤` otherwise.
pub open spec fn in_disk(dx: int, dy: int, r: int, strict: bool) -> bool {
    if strict {
        dx * dx + dy * dy < r * r
    } else {
        dx * dx + dy * dy <= r * r
    }
}

/// What offset `(dx, dy)` contributes to a disk scan: its cell, or nothing.
pub open spec fn disk_entry(
    cx: int,
    cy: int,
    dx: int,
    dy: int,
    r: int,
    strict: bool,
    lo: int,
    hi: int,
    clamp: bool,
) -> Seq<DiskCell> {
    if in_disk(dx, dy, r, strict) && place(cx, dx, lo, hi, clamp) is Some && place(
        cy,
        dy,
        lo,
        hi,
        clamp,
    ) is Some {
        seq![DiskCell { x: place(cx, dx, lo, hi, clamp)->0 as usize, y: place(cy, dy, lo, hi, clamp)->0 as usize, dist_sq: (dx * dx + dy * dy) as u32 }]
    } else {
        Seq::empty()
    }
}

/// The cells of offsets `(dx, -r) .. (dx, dy_end - 1)`, in order.
pub open spec fn disk_column(
    cx: int,
    cy: int,
    dx: int,
    dy_end: int,
    r: int,
    strict: bool,
    lo: int,
    hi: int,
    clamp: bool,
) -> Seq<DiskCell>
    decreases dy_end + r,
{
    if dy_end <= -r {
        Seq::empty()
    } else {
        disk_column(cx, cy, dx, dy_end - 1, r, strict, lo, hi, clamp) + disk_entry(
            cx,
            cy,
            dx,
            dy_end - 1,
            r,
            strict,
            lo,
            hi,
            clamp,
        )
    }
}

/// The cells of the offsets with `dx` in `-r .. dx_end - 1` and `dy` in
/// `-r ..= r`, scanned column by column.
pub open spec fn disk_block(
    cx: int,
    cy: int,
    dx_end: int,
    r: int,
    strict: bool,
    lo: int,
    hi: int,
    clamp: bool,
) -> Seq<DiskCell>
    decreases dx_end + r,
{
    if dx_end <= -r {
        Seq::empty()
    } else {
        disk_block(cx, cy, dx_end - 1, r, strict, lo, hi, clamp) + disk_column(
            cx,
            cy,
            dx_end - 1,
            r + 1,
            r,
            strict,
            lo,
            hi,
            clamp,
        )
    }
}

fn place_exec(c: usize, d: i32, lo: usize, hi: usize, clamp: bool) -> (r: Option<usize>)
    requires
        -256 < d < 256,
    ensures
        r == (match place(c as int, d as int, lo as int, hi as int, clamp) {
            Some(v) => Some(v as usize),
            None => None,
        }),
{
    let v: Option<usize> = if d < 0 {
        let m = (-d) as usize;
        if c >= m {
            Some(c - m)
        } else {
            None
        }
    } else {
        let m = d as usize;
        if c <= usize::MAX - m {
            Some(c + m)
        } else {
            None
        }
    };
    match v {
        Some(v) => {
            if lo <= v && v < hi {
                Some(v)
            } else if clamp && lo < hi {
                if v < lo {
                    Some(lo)
                } else {
                    Some(hi - 1)
                }
            } else {
                None
            }
        },
        None => {
            if clamp && lo < hi {
                if d < 0 {
                    Some(lo)
                } else {
                    Some(hi - 1)
                }
            } else {
                None
            }
        },
    }
}

/// The cells of the disk of radius `r` around `(cx, cy)`, scanned with `dx`
/// then `dy` running from `-r` to `r`. Coordinates are brought into
/// `[lo, hi)`: clamped when `clamp` (a cell may then repeat), else the offset
/// is skipped.
pub fn disk_cells(cx: usize, cy: usize, r: u8, strict: bool, lo: usize, hi: usize, clamp: bool) -> (out: Vec<DiskCell>)
    ensures
        out@ == disk_block(cx as int, cy as int, r as int + 1, r as int, strict, lo as int, hi as int, clamp),
{
    let ri: i32 = r as i32;
    let mut out: Vec<DiskCell> = Vec::new();
    let mut dx: i32 = -ri;
    while dx <= ri
        invariant
            ri == r as i32,
            -ri <= dx <= ri + 1,
            out@ == disk_block(cx as int, cy as int, dx as int, ri as int, strict, lo as int, hi as int, clamp),
        decreases ri + 1 - dx,
    {
        let ghost col_start = out@;
        let mut dy: i32 = -ri;
        while dy <= ri
            invariant
                ri == r as i32,
                -ri <= dx <= ri,
                -ri <= dy <= ri + 1,
                out@ == col_start + disk_column(cx as int, cy as int, dx as int, dy as int, ri as int, strict, lo as int, hi as int, clamp),
            decreases ri + 1 - dy,
        {
            assert(0 <= dx * dx <= 255 * 255) by (nonlinear_arith)
                requires
                    -255 <= dx <= 255,
            ;
            assert(0 <= dy * dy <= 255 * 255) by (nonlinear_arith)
                requires
                    -255 <= dy <= 255,
            ;
            assert(0 <= ri * ri <= 255 * 255) by (nonlinear_arith)
                requires
                    0 <= ri <= 255,
            ;
            let d2: i32 = dx * dx + dy * dy;
            let inside = if strict { d2 < ri * ri } else { d2 <= ri * ri };
            let ghost before = out@;
            if inside {
                let px = place_exec(cx, dx, lo, hi, clamp);
                let py = place_exec(cy, dy, lo, hi, clamp);
                if let (Some(x), Some(y)) = (px, py) {
                    out.push(DiskCell { x, y, dist_sq: d2 as u32 });
                }
            }
            assert(out@ =~= col_start + disk_column(cx as int, cy as int, dx as int, dy + 1, ri as int, strict, lo as int, hi as int, clamp));
            dy = dy + 1;
        }
        assert(out@ =~= disk_block(cx as int, cy as int, dx + 1, ri as int, strict, lo as int, hi as int, clamp));
        dx = dx + 1;
    }
    out
}

/// The obstacle mask of a square grid: cells that hyphae cannot enter and
/// where no fruit body may stand.
pub struct ObstacleMask {
    n: usize,
    cells: Vec<Vec<bool>>,
}

impl ObstacleMask {
    pub closed spec fn side(&self) -> nat {
        self.n as nat
    }

    /// Whether cell `(x, y)` holds an obstacle; cells off the grid hold none.
    pub closed spec fn blocked(&self, x: int, y: int) -> bool {
        0 <= x < self.n && 0 <= y < self.n && self.cells@[x]@[y]
    }

    pub closed spec fn wf(&self) -> bool {
        &&& self.cells@.len() == self.n
        &&& forall|x: int| 0 <= x < self.n ==> (#[trigger] self.cells@[x])@.len() == self.n
    }

    /// A clear grid of side `n`.
    pub fn new(n: usize) -> (r: Self)
        ensures
            r.wf(),
            r.side() == n,
            forall|x: int, y: int| !#[trigger] r.blocked(x, y),
    {
        let mut cells: Vec<Vec<bool>> = Vec::new();
        let mut x: usize = 0;
        while x < n
            invariant
                x <= n,
                cells@.len() == x,
                forall|i: int| 0 <= i < x ==> (#[trigger] cells@[i])@.len() == n,
                forall|i: int, y: int| 0 <= i < x && 0 <= y < n ==> !(#[trigger] cells@[i]@[y]),
            decreases n - x,
        {
            let mut col: Vec<bool> = Vec::new();
            let mut y: usize = 0;
            while y < n
                invariant
                    y <= n,
                    col@.len() == y,
                    forall|k: int| 0 <= k < y ==> !(#[trigger] col@[k]),
                decreases n - y,
            {
                col.push(false);
                y = y + 1;
            }
            cells.push(col);
            x = x + 1;
        }
        ObstacleMask { n, cells }
    }

    /// Places an obstacle on cell `(x, y)`; a cell off the grid is ignored.
    pub fn place(&mut self, x: usize, y: usize)
        requires
            old(self).wf(),
        ensures
            final(self).wf(),
            final(self).side() == old(self).side(),
            forall|i: int, j: int|
                #[trigger] final(self).blocked(i, j) == (old(self).blocked(i, j) || (i == x && j == y
                    && x < old(self).side() && y < old(self).side())),
    {
        if x < self.n && y < self.n {
            let mut col: Vec<bool> = Vec::new();
            self.cells.set_and_swap(x, &mut col);
            col.set(y, true);
            self.cells.set_and_swap(x, &mut col);
        }
    }

    /// Whether cell `(x, y)` holds an obstacle.
    pub fn is_blocked(&self, x: usize, y: usize) -> (r: bool)
        requires
            self.wf(),
        ensures
            r == self.blocked(x as int, y as int),
    {
        if x < self.n && y < self.n {
            self.cells[x][y]
        } else {
            false
        }
    }

    /// Whether a fruit body may stand on cell `(x, y)`: off the border ring
    /// of the grid and clear of obstacles.
    pub fn can_host_fruit(&self, x: usize, y: usize) -> (r: bool)
        requires
            self.wf(),
        ensures
            r == (interior((x, y), self.side() as usize) && !self.blocked(x as int, y as int)),
    {
        x > 0 && y > 0 && x < self.n && y < self.n && x + 1 < self.n && y + 1 < self.n
            && !self.is_blocked(x, y)
    }
}

} // verus!
